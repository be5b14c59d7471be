use oxigraph_succinct::database_builder::{
    build_dataset, BuildError, BuildStep, DatabaseBuilder, ParseQuadsArgs,
};
use oxigraph_succinct::arrays::SortedArraysFile;
use oxigraph_succinct::dictionary::{index_datatypes, TermDictionary};
use oxigraph_succinct::loading::{compress_parsed_quads, hash_quads, LoadError};
use oxigraph_succinct::quads::{
    compress_quads, index_quads, QuadOrder, QuadStore, QuadStoreConfiguration,
};
use oxigraph_succinct::quads_store::QuadsError;
use oxigraph_succinct::queryable_dataset::{
    DatasetFailure, InternalQuad, SuccinctDatasetError, SuccinctDatasetView,
};
use oxigraph_succinct::recompression::recompress_with_dictionary;
use oxigraph_succinct::secondary_indexes::build_secondary_index;
use oxigraph_succinct::store::{QueryDataset, SuccinctStore};
use oxigraph_succinct::strings::write_length_prefixed_string;
use oxigraph_succinct::terms::{
    GraphName, Literal, NamedOrBlankNode, Quad, Term, TermError, RDF_LANG_STRING, XSD_STRING,
};
use oxigraph_succinct::terms_mphf::build_terms_mphf;
use oxigraph_succinct::terms_store::{index_terms_files, TermStore, TermStoreConfiguration};
use oxigraph_succinct::terms_writer::{write_files, write_unique_terms};

fn node(iri: &str) -> NamedOrBlankNode {
    NamedOrBlankNode::NamedNode(iri.to_string())
}

fn named(iri: &str) -> Term {
    Term::NamedNode(iri.to_string())
}

fn text(value: &str) -> Term {
    Term::Literal(Literal {
        value: value.to_string(),
        language: None,
        datatype: XSD_STRING.to_string(),
    })
}

fn french(value: &str) -> Term {
    Term::Literal(Literal {
        value: value.to_string(),
        language: Some("fr".to_string()),
        datatype: RDF_LANG_STRING.to_string(),
    })
}

fn number(value: &str) -> Term {
    Term::Literal(Literal {
        value: value.to_string(),
        language: None,
        datatype: "http://www.w3.org/2001/XMLSchema#integer".to_string(),
    })
}

fn graph(iri: &str) -> GraphName {
    GraphName::NamedNode(iri.to_string())
}

fn quad(subject: &str, predicate: &str, object: Term, graph_name: GraphName) -> Quad {
    Quad { subject: node(subject), predicate: predicate.to_string(), object, graph_name }
}

fn some_quads() -> Vec<Quad> {
    vec![
        quad("a", "knows", named("b"), GraphName::DefaultGraph),
        quad("a", "knows", named("c"), graph("g")),
        quad("a", "name", text("Alice"), GraphName::DefaultGraph),
        quad("b", "name", text("Bob"), GraphName::DefaultGraph),
        quad("b", "name", french("Robert"), graph("g")),
        quad("c", "knows", named("a"), graph("h")),
        quad("c", "age", number("42"), graph("h")),
        quad("c", "age", number("42"), graph("h")),
        Quad {
            subject: NamedOrBlankNode::BlankNode("x".to_string()),
            predicate: "name".to_string(),
            object: Term::BlankNode("y".to_string()),
            graph_name: GraphName::BlankNode("z".to_string()),
        },
    ]
}

fn some_store() -> SuccinctStore {
    let quads = some_quads();
    let chunks = vec![quads[..3].to_vec(), quads[3..].to_vec()];
    SuccinctStore::open_read_only(build_dataset(&chunks, 2).unwrap())
}

fn open_terms(config: TermStoreConfiguration, files: Vec<Vec<u8>>) -> TermStore {
    let indexes = index_terms_files(&config, &files).unwrap();
    TermStore::mmap(config, files, indexes).unwrap()
}

fn open_quads(config: QuadStoreConfiguration, files: Vec<SortedArraysFile<4>>) -> QuadStore {
    let indexes = index_quads(&config, &files).unwrap();
    QuadStore::mmap(config, files, indexes)
}

fn without_error<T>(list: Vec<Result<T, SuccinctDatasetError>>) -> Vec<T> {
    list.into_iter().map(|item| item.unwrap()).collect()
}

fn failed<T>(failure: DatasetFailure) -> Result<T, SuccinctDatasetError> {
    Err(SuccinctDatasetError(failure))
}

fn sorted(mut quads: Vec<Quad>) -> Vec<String> {
    quads.sort_by_key(|quad| format!("{quad:?}"));
    quads.iter().map(|quad| format!("{quad:?}")).collect()
}

#[test]
fn every_pattern_finds_the_quads_that_match() {
    let quads = some_quads();
    let mut store = some_store();
    let subjects = [None, Some(node("a")), Some(node("b")), Some(node("c"))];
    let predicates = [None, Some("knows"), Some("name"), Some("age")];
    let objects =
        [None, Some(named("a")), Some(text("Bob")), Some(french("Robert")), Some(number("42"))];
    let graphs = [None, Some(GraphName::DefaultGraph), Some(graph("g")), Some(graph("h"))];
    for s in &subjects {
        for p in &predicates {
            for o in &objects {
                for g in &graphs {
                    let found = store
                        .quads_for_pattern(s.as_ref(), *p, o.as_ref(), g.as_ref())
                        .unwrap();
                    let expected = quads
                        .iter()
                        .filter(|quad| {
                            s.as_ref().map_or(true, |s| *s == quad.subject)
                                && p.map_or(true, |p| p == quad.predicate)
                                && o.as_ref().map_or(true, |o| *o == quad.object)
                                && g.as_ref().map_or(true, |g| *g == quad.graph_name)
                        })
                        .cloned()
                        .collect();
                    assert_eq!(sorted(without_error(found)), sorted(expected));
                }
            }
        }
    }
}

#[test]
fn terms_of_a_dataset_have_ids() {
    let mut dataset = build_dataset(&vec![some_quads()], 3).unwrap();
    assert_eq!(dataset.internalize_graph_name(&GraphName::DefaultGraph), Ok(Some(0)));
    for term in [named("a"), named("knows"), text("Alice"), french("Robert"), number("42")] {
        let id = dataset.internalize_term(term.clone()).unwrap();
        assert_eq!(dataset.externalize_term(id), Ok(term));
    }
    assert_eq!(
        dataset.externalize_term(1000),
        Err(SuccinctDatasetError(DatasetFailure::UnknownTerm(1000)))
    );
}

#[test]
fn unknown_terms_find_nothing() {
    let mut store = some_store();
    let nobody = node("nobody");
    let refused = Ok(vec![failed(DatasetFailure::Quads(QuadsError::InvalidTerm))]);
    // twice, as the terms are then known to the store
    for _ in 0..2 {
        assert_eq!(store.quads_for_pattern(Some(&nobody), None, None, None), refused);
        assert_eq!(store.quads_for_pattern(None, None, Some(&named("nobody")), None), refused);
        assert_eq!(store.quads_for_pattern(None, Some("likes"), None, None), Ok(vec![]));
        assert_eq!(store.quads_for_pattern(None, None, None, Some(&graph("none"))), Ok(vec![]));
        assert_eq!(
            store.quads_for_pattern(Some(&node("a")), None, Some(&named("nobody")), None),
            Ok(vec![])
        );
    }
}

#[test]
fn unknown_terms_get_ids_after_the_known_ones() {
    let mut dataset = build_dataset(&vec![some_quads()], 1).unwrap();
    let num_terms = (0..).find(|id| dataset.externalize_term(*id).is_err() && *id > 0).unwrap();
    assert_eq!(dataset.internalize_term(named("nobody")), Ok(num_terms));
    assert_eq!(dataset.internalize_term(text("nothing")), Ok(num_terms + 1));
    // when they are met again, they have the same ids
    assert_eq!(dataset.internalize_term(named("nobody")), Ok(num_terms));
    assert_eq!(dataset.internalize_term(text("nothing")), Ok(num_terms + 1));
    assert_eq!(dataset.externalize_term(num_terms), Ok(named("nobody")));
    assert_eq!(dataset.externalize_term(num_terms + 1), Ok(text("nothing")));
    assert_eq!(
        dataset.externalize_term(num_terms + 2),
        Err(SuccinctDatasetError(DatasetFailure::UnknownTerm(num_terms + 2)))
    );
}

#[test]
fn terms_written_with_a_dictionary_are_found() {
    let quads = some_quads();
    let (config, files) = write_unique_terms(&vec![quads.clone()]).unwrap();
    let plain_size: usize = files.iter().map(|file| file.len()).sum();
    let mut bytes = Vec::new();
    let datatype = b"http://www.w3.org/2001/XMLSchema#integer";
    write_length_prefixed_string(&mut bytes, datatype).unwrap();
    let index = index_datatypes(&bytes).unwrap();
    let dictionary = TermDictionary::mmap("dict".to_string(), bytes, index).unwrap();
    let (config, files) = recompress_with_dictionary(config, files, None, &dictionary).unwrap();
    assert!(files.iter().map(|file| file.len()).sum::<usize>() < plain_size);
    let num_terms = config.num_terms;
    let mphf = build_terms_mphf(&config, files.clone(), Some(&dictionary)).unwrap();
    let terms = open_terms(config, files).with_dictionary(dictionary);
    let ids = hash_quads(&mphf, &quads).unwrap();
    let open = |order| {
        let (config, files) = compress_quads(&ids, num_terms, 2, order).unwrap();
        open_quads(config, files)
    };
    let (_, files) = compress_quads(&ids, num_terms, 2, QuadOrder::Spog).unwrap();
    let index = build_secondary_index(&files, num_terms).unwrap();
    let spog = open(QuadOrder::Spog);
    let opsg = open(QuadOrder::Opsg);
    let dataset = SuccinctDatasetView::new(mphf, terms, spog, opsg, index).unwrap();
    let mut store = SuccinctStore::open_read_only(dataset);
    let found = store.quads_for_pattern(None, None, None, None).unwrap();
    assert_eq!(sorted(without_error(found)), sorted(quads.clone()));
    let found = store.quads_for_pattern(None, None, Some(&number("42")), None).unwrap();
    assert_eq!(found, vec![Ok(quads[6].clone()), Ok(quads[7].clone())]);
}

fn store_of_parts(strings: &[&str], quads: &Vec<[usize; 4]>) -> SuccinctStore {
    let strings: Vec<Vec<u8>> = strings.iter().map(|s| s.as_bytes().to_vec()).collect();
    let config = TermStoreConfiguration {
        terms_per_frame: 4,
        frames_per_file: 4,
        num_terms: strings.len(),
        dictionary_filename: None,
    };
    let files = write_files(&config, &strings).unwrap();
    let mphf = build_terms_mphf(&config, files.clone(), None).unwrap();
    let terms = open_terms(config, files);
    let open = |order| {
        let (config, files) = compress_quads(quads, strings.len(), 2, order).unwrap();
        open_quads(config, files)
    };
    let (_, files) = compress_quads(quads, strings.len(), 2, QuadOrder::Spog).unwrap();
    let index = build_secondary_index(&files, strings.len()).unwrap();
    let dataset = SuccinctDatasetView::new(
        mphf,
        terms,
        open(QuadOrder::Spog),
        open(QuadOrder::Opsg),
        index,
    );
    SuccinctStore::open_read_only(dataset.unwrap())
}

#[test]
fn quads_of_misplaced_terms_are_refused() {
    let strings = ["", "\u{1}a", "\u{4}text", "\u{9}unknown"];
    for (quad, failure) in [
        ([2, 1, 1, 0], DatasetFailure::UnexpectedSubject),
        ([1, 2, 1, 0], DatasetFailure::UnexpectedPredicate),
        ([1, 1, 1, 2], DatasetFailure::UnexpectedGraphName),
        ([1, 1, 3, 0], DatasetFailure::Term(TermError::UnknownTag)),
    ] {
        let mut store = store_of_parts(&strings, &vec![quad]);
        assert_eq!(
            store.quads_for_pattern(None, None, None, None),
            Ok(vec![failed(failure)])
        );
    }
    // the quads after a refused one are found
    let mut store = store_of_parts(&strings, &vec![[1, 1, 2, 0], [1, 1, 3, 0], [1, 1, 1, 0]]);
    assert_eq!(
        store.quads_for_pattern(None, None, None, None),
        Ok(vec![
            Ok(quad("a", "a", named("a"), GraphName::DefaultGraph)),
            Ok(quad("a", "a", text("text"), GraphName::DefaultGraph)),
            failed(DatasetFailure::Term(TermError::UnknownTag)),
        ])
    );
}

#[test]
fn quads_of_ids_tell_the_default_graph_apart() {
    let dataset = build_dataset(&vec![some_quads()], 1).unwrap();
    let found: Vec<InternalQuad> =
        without_error(dataset.internal_quads_for_pattern(None, None, None, Some(None)));
    assert_eq!(found.len(), 3);
    assert!(found.iter().all(|quad| quad.graph_name.is_none()));
    let all = dataset.internal_quads_for_pattern(None, None, None, None);
    assert_eq!(all.len(), 9);
}

#[test]
fn the_default_graph_has_to_be_known() {
    let quads = vec![quad("a", "knows", named("b"), graph("g"))];
    let dataset = build_dataset(&vec![quads], 1).unwrap();
    assert_eq!(
        dataset.internal_quads_for_pattern(None, None, None, Some(None)),
        vec![failed(DatasetFailure::NoDefaultGraph)]
    );
    // also when the first term is that of a graph
    let quads = vec![quad("b", "knows", named("c"), graph("a"))];
    let mut dataset = build_dataset(&vec![quads], 1).unwrap();
    assert_eq!(dataset.internalize_term(named("a")), Ok(0));
    assert_eq!(
        dataset.internal_quads_for_pattern(None, None, None, Some(None)),
        vec![failed(DatasetFailure::NoDefaultGraph)]
    );
    assert_eq!(dataset.internal_quads_for_pattern(None, None, None, Some(Some(0))).len(), 1);
}

#[test]
fn what_comes_before_a_damaged_record_is_found() {
    let strings = ["", "\u{1}a", "\u{1}b", "\u{1}c", "\u{1}d"];
    let strings: Vec<Vec<u8>> = strings.iter().map(|s| s.as_bytes().to_vec()).collect();
    let config = TermStoreConfiguration {
        terms_per_frame: 4,
        frames_per_file: 4,
        num_terms: strings.len(),
        dictionary_filename: None,
    };
    let files = write_files(&config, &strings).unwrap();
    let mphf = build_terms_mphf(&config, files.clone(), None).unwrap();
    let terms = open_terms(config, files);
    let mut quads: Vec<[usize; 4]> = vec![[1, 2, 1, 0], [1, 2, 3, 0]];
    quads.extend((0..40).map(|i| [2 + i % 3, 1 + i % 4, 1 + i / 10, 0]));
    let (config, files) = compress_quads(&quads, 5, 1, QuadOrder::Spog).unwrap();
    let index = build_secondary_index(&files, 5).unwrap();
    let (opsg_config, opsg_files) = compress_quads(&quads, 5, 1, QuadOrder::Opsg).unwrap();
    let opsg = open_quads(opsg_config, opsg_files);
    // the file is cut after it was indexed
    let indexes = index_quads(&config, &files).unwrap();
    let mut bytes = files[0].as_bytes().to_vec();
    bytes.truncate(16);
    let cut = SortedArraysFile::<4>::mmap(bytes).unwrap();
    let spog = QuadStore::mmap(config, vec![cut], indexes);
    let dataset = SuccinctDatasetView::new(mphf, terms, spog, opsg, index).unwrap();
    let all = dataset.internal_quads_for_pattern(None, None, None, None);
    assert!(all.len() > 2 && all.len() < quads.len());
    assert!(all[..all.len() - 1].iter().all(|item| item.is_ok()));
    assert!(matches!(
        all[all.len() - 1],
        Err(SuccinctDatasetError(DatasetFailure::Quads(QuadsError::Arrays(_))))
    ));
    // the quads of the first subject come before the damage
    let found = dataset.internal_quads_for_pattern(Some(1), None, None, None);
    assert_eq!(without_error(found).len(), 2);
    let found = dataset.internal_quads_for_pattern(Some(1), Some(2), None, None);
    assert_eq!(without_error(found).len(), 2);
    // those of the last subject come after it
    let found = dataset.internal_quads_for_pattern(Some(4), None, None, None);
    assert!(found.len() == 1 && found[0].is_err());
    // the other store is not damaged
    let found = dataset.internal_quads_for_pattern(None, None, Some(3), None);
    assert_eq!(without_error(found).len(), 11);
}

#[test]
fn stores_are_queried_as_a_whole() {
    let dataset = QueryDataset {
        default_graph_graphs: Some(vec![GraphName::DefaultGraph]),
        available_named_graphs: None,
    };
    assert!(some_store().with_query_dataset(&dataset).is_ok());
    let unsupported = Some(SuccinctDatasetError(DatasetFailure::UnsupportedQueryDataset));
    let dataset = QueryDataset {
        default_graph_graphs: Some(vec![graph("g")]),
        available_named_graphs: None,
    };
    assert_eq!(some_store().with_query_dataset(&dataset).err(), unsupported);
    let dataset =
        QueryDataset { default_graph_graphs: None, available_named_graphs: Some(vec![]) };
    assert_eq!(some_store().with_query_dataset(&dataset).err(), unsupported);
    assert_eq!(
        some_store().contains_named_graph("g"),
        Err(SuccinctDatasetError(DatasetFailure::NotYetImplemented))
    );
}

#[test]
fn quads_of_unknown_terms_cannot_be_numbered() {
    let quads = vec![quad("a", "knows", named("b"), GraphName::DefaultGraph)];
    let (config, files) = write_unique_terms(&vec![quads.clone()]).unwrap();
    let mphf = build_terms_mphf(&config, files, None).unwrap();
    assert_eq!(hash_quads(&mphf, &quads), Ok(vec![[1, 3, 2, 0]]));
    let (config, files) = compress_parsed_quads(&quads, &mphf, 2, QuadOrder::Spog).unwrap();
    assert_eq!((config.num_quads, config.num_terms, files.len()), (1, 4, 2));
    let empty = TermStoreConfiguration {
        terms_per_frame: 16,
        frames_per_file: 4,
        num_terms: 0,
        dictionary_filename: None,
    };
    let mphf = build_terms_mphf(&empty, vec![], None).unwrap();
    assert!(matches!(hash_quads(&mphf, &quads), Err(LoadError::UnknownSubject(_))));
}

#[test]
fn a_dataset_needs_two_terms() {
    assert_eq!(
        build_dataset(&vec![], 2).err(),
        Some(BuildError::Load(LoadError::TooFewTerms))
    );
    let quads = vec![quad("a", "a", named("a"), graph("a"))];
    assert_eq!(
        build_dataset(&vec![quads], 2).err(),
        Some(BuildError::Load(LoadError::TooFewTerms))
    );
}

fn args(n: usize) -> ParseQuadsArgs {
    ParseQuadsArgs {
        file: (0..n).map(|i| format!("{i}.nt")).collect(),
        format: None,
        base: None,
        lenient: false,
        parallel_parser: false,
        graph: None,
    }
}

#[test]
fn databases_are_built_step_by_step() {
    let builder = DatabaseBuilder::new("db".to_string());
    assert_eq!(builder.build_all().err(), Some(BuildError::NoInput));
    let builder = builder.with_parse_quad_args(Some(args(1)));
    let spog = QuadOrder::Spog;
    let opsg = QuadOrder::Opsg;
    assert_eq!(
        builder.build_all(),
        Ok(vec![
            BuildStep::ExtractTerms,
            BuildStep::RecompressTerms,
            BuildStep::IndexTerms,
            BuildStep::BuildTermsMphf,
            BuildStep::CompressQuads(spog),
            BuildStep::RecompressQuads(spog, opsg),
            BuildStep::IndexQuadsFrames(spog),
            BuildStep::IndexQuadsByFirstTerm(spog),
            BuildStep::IndexQuadsByFirstTwoTerms(spog),
            BuildStep::IndexQuadsFrames(opsg),
            BuildStep::IndexQuadsByFirstTerm(opsg),
            BuildStep::IndexQuadsByFirstTwoTerms(opsg),
            BuildStep::IndexBySecondTerm(spog),
        ])
    );
    let builder = builder.with_quad_orders(vec![opsg]);
    assert_eq!(builder.compress_all_quads_stores(), vec![BuildStep::CompressQuads(opsg)]);
}

#[test]
fn finished_steps_are_skipped_unless_rebuilding() {
    let builder = DatabaseBuilder::new("db".to_string());
    assert!(builder.skips(BuildStep::ExtractTerms, true));
    assert!(!builder.skips(BuildStep::ExtractTerms, false));
    assert!(!builder.skips(BuildStep::IndexTerms, true));
    let builder = builder.with_rebuild(true);
    assert!(!builder.skips(BuildStep::ExtractTerms, true));
}

#[test]
fn numbers_of_quads_are_estimated() {
    let builder = DatabaseBuilder::new("db".to_string());
    assert_eq!(builder.compute_approx_num_quads(), None);
    let builder = builder.with_approx_quads_per_file(Some(10));
    assert_eq!(builder.compute_approx_num_quads(), None);
    let builder = builder.with_parse_quad_args(Some(args(3)));
    assert_eq!(builder.compute_approx_num_quads(), Some(30));
    let builder = builder.with_approx_num_quads(Some(7));
    assert_eq!(builder.compute_approx_num_quads(), Some(21));
}
