use oxigraph_succinct::dictionary::{index_datatypes, TermDictionary};
use oxigraph_succinct::front_coding::FrameError;
use oxigraph_succinct::recompression::recompress_with_dictionary;
use oxigraph_succinct::terms::{
    deserialize_term, serialize_term, GraphName, Literal, NamedOrBlankNode, Quad, Term, TermError,
    XSD_STRING,
};
use oxigraph_succinct::terms_mphf::{build_terms_mphf, HashError, TermHasher};
use oxigraph_succinct::terms_store::{
    index_terms, index_terms_files, list_terms_files, TermStore, TermStoreConfiguration,
    TermsError,
};
use oxigraph_succinct::terms_writer::{
    deduplicate_terms, default_configuration, write_files, write_unique_terms,
};

fn strings(texts: &[&str]) -> Vec<Vec<u8>> {
    texts.iter().map(|s| s.as_bytes().to_vec()).collect()
}

fn config(terms_per_frame: usize, frames_per_file: usize, num_terms: usize) -> TermStoreConfiguration {
    TermStoreConfiguration {
        terms_per_frame,
        frames_per_file,
        num_terms,
        dictionary_filename: None,
    }
}

fn open(config: TermStoreConfiguration, files: Vec<Vec<u8>>) -> TermStore {
    let indexes = index_terms_files(&config, &files).unwrap();
    TermStore::mmap(config, files, indexes).unwrap()
}

fn quad(subject: &str, predicate: &str, object: Term, graph_name: GraphName) -> Quad {
    Quad {
        subject: NamedOrBlankNode::NamedNode(subject.to_string()),
        predicate: predicate.to_string(),
        object,
        graph_name,
    }
}

fn named(iri: &str) -> Term {
    Term::NamedNode(iri.to_string())
}

fn literal(value: &str, datatype: &str) -> Term {
    Term::Literal(Literal {
        value: value.to_string(),
        language: None,
        datatype: datatype.to_string(),
    })
}

#[test]
fn terms_are_found_by_their_ids() {
    let texts = strings(&["", "a", "ab", "abc", "b", "bc", "c", "d", "e", "f", "g"]);
    let config = config(2, 2, texts.len());
    let files = write_files(&config, &texts).unwrap();
    assert_eq!(files.len(), 3);
    let store = open(config, files);
    assert_eq!(store.len(), 11);
    for (id, text) in texts.iter().enumerate() {
        assert_eq!(store.get(id), Ok(Some(text.clone())));
    }
    assert_eq!(store.get(11), Ok(None));
}

#[test]
fn terms_are_mapped_to_their_ids_and_back() {
    let texts = strings(&["", "a", "ab", "abc", "b", "bc", "c"]);
    let config = config(3, 1, texts.len());
    let files = write_files(&config, &texts).unwrap();
    let mphf = build_terms_mphf(&config, files.clone(), None).unwrap();
    let store = open(config, files);
    assert_eq!(mphf.len(), 7);
    assert!(!mphf.is_empty());
    for (id, text) in texts.iter().enumerate() {
        assert_eq!(mphf.hash_bytes(text), Ok(id));
        assert_eq!(store.get(id), Ok(Some(text.clone())));
    }
    // the ids of other terms are those of known terms, or none
    match mphf.hash_bytes(b"unknown") {
        Ok(id) => assert!(id < 7),
        Err(e) => assert_eq!(e, HashError::OutOfRange),
    }
}

#[test]
fn no_term_is_known_to_an_empty_map() {
    let mphf = build_terms_mphf(&config(2, 2, 0), vec![], None).unwrap();
    assert!(mphf.is_empty());
    assert_eq!(mphf.hash_namednode("a"), Err(HashError::OutOfRange));
}

#[test]
fn terms_that_cannot_be_written_have_no_id() {
    let mphf = build_terms_mphf(&config(2, 2, 0), vec![], None).unwrap();
    let term = Term::Literal(Literal {
        value: "a".to_string(),
        language: Some("en".to_string()),
        datatype: XSD_STRING.to_string(),
    });
    assert_eq!(mphf.hash_term(&term), Err(HashError::Term(TermError::LanguageAndDatatype)));
}

#[test]
fn files_have_ranges_of_ids() {
    let listed = list_terms_files(&config(2, 2, 10), vec![vec![1], vec![2], vec![3]]).unwrap();
    let ranges: Vec<(usize, usize)> =
        listed.iter().map(|file| (file.first_term_id, file.num_terms)).collect();
    assert_eq!(ranges, vec![(0, 4), (4, 4), (8, 2)]);
    assert_eq!(listed[1].compressed_frames, vec![2]);
    let listed = list_terms_files(&config(2, 2, 8), vec![vec![], vec![]]).unwrap();
    assert_eq!(listed[1].num_terms, 4);
    assert_eq!(
        list_terms_files(&config(2, 2, 10), vec![vec![]]).err(),
        Some(TermsError::WrongNumberOfFiles)
    );
}

#[test]
fn files_of_the_wrong_size_are_refused() {
    let texts = strings(&["a", "b", "c", "d"]);
    let files = write_files(&config(2, 2, 4), &texts).unwrap();
    assert_eq!(index_terms(&files[0], 6, 2).err(), Some(TermsError::FewerFrames));
    assert_eq!(index_terms(&files[0], 2, 2).err(), Some(TermsError::MoreFrames));
    assert!(index_terms(&files[0], 4, 2).is_ok());
    let mut truncated = files[0].clone();
    truncated.pop();
    assert_eq!(
        index_terms(&truncated, 4, 2).err(),
        Some(TermsError::Frame(FrameError::Truncated))
    );
    assert_eq!(
        build_terms_mphf(&config(2, 2, 3), files, None).err(),
        Some(TermsError::WrongNumberOfTerms)
    );
}

#[test]
fn files_are_read_when_terms_are() {
    let texts = strings(&["a", "b", "c", "d"]);
    let files = write_files(&config(2, 2, 4), &texts).unwrap();
    let indexes = || index_terms_files(&config(2, 2, 4), &files).unwrap();
    // the second frame of the file was lost since it was indexed
    let mut truncated = files[0].clone();
    truncated.truncate(files[0].len() / 2);
    let store = TermStore::mmap(config(2, 2, 4), vec![truncated], indexes()).unwrap();
    assert_eq!(store.get(0), Ok(Some(b"a".to_vec())));
    assert_eq!(store.get(1), Ok(Some(b"b".to_vec())));
    assert!(store.get(2).is_err());
    let store = TermStore::mmap(config(2, 2, 4), vec![vec![]], indexes()).unwrap();
    assert_eq!(store.get(2), Err(TermsError::FewerFrames));
    assert_eq!(
        TermStore::mmap(config(2, 2, 2), files.clone(), indexes()).err(),
        Some(TermsError::WrongNumberOfFrames)
    );
    assert_eq!(
        TermStore::mmap(config(2, 2, 6), files.clone(), indexes()).err(),
        Some(TermsError::WrongNumberOfFiles)
    );
    assert_eq!(
        index_terms_files(&config(2, 2, 6), &files).err(),
        Some(TermsError::WrongNumberOfFiles)
    );
}

#[test]
fn terms_of_quads_are_sorted_without_duplicates() {
    let chunks = vec![
        vec![
            quad("s", "p", named("o"), GraphName::DefaultGraph),
            quad("s", "p", literal("o", XSD_STRING), GraphName::DefaultGraph),
        ],
        vec![quad("o", "p", named("s"), GraphName::NamedNode("g".to_string()))],
    ];
    let mut sorter = deduplicate_terms(&chunks).unwrap();
    let expected = strings(&["", "\u{1}g", "\u{1}o", "\u{1}p", "\u{1}s", "\u{4}o"]);
    assert_eq!(sorter.drain_boxed_bytes(), expected);
    let (config, files) = write_unique_terms(&chunks).unwrap();
    let mut wanted = default_configuration();
    wanted.num_terms = 6;
    assert_eq!(config, wanted);
    assert_eq!((config.terms_per_frame, config.frames_per_file), (16, 1_048_576));
    assert_eq!(files.len(), 1);
    let store = open(config, files);
    for (id, string) in expected.iter().enumerate() {
        assert_eq!(store.get(id), Ok(Some(string.clone())));
    }
}

#[test]
fn terms_that_cannot_be_stored_are_refused() {
    let term = Term::Literal(Literal {
        value: "a".to_string(),
        language: Some("en".to_string()),
        datatype: XSD_STRING.to_string(),
    });
    let chunks = vec![vec![quad("s", "p", term, GraphName::DefaultGraph)]];
    assert_eq!(
        write_unique_terms(&chunks).err(),
        Some(TermsError::Term(TermError::LanguageAndDatatype))
    );
    let long = "x".repeat(104_857_600);
    let chunks = vec![vec![quad(&long, "p", named("o"), GraphName::DefaultGraph)]];
    assert_eq!(write_unique_terms(&chunks).err(), Some(TermsError::TermTooLong));
}

#[test]
fn dictionaries_hold_the_datatypes_of_terms() {
    let texts = strings(&["", "\u{1}a", "\u{4}plain"]);
    let config = config(2, 4, texts.len());
    let files = write_files(&config, &texts).unwrap();
    let dictionary = TermDictionary::train(&config, files.clone(), None).unwrap();
    assert_eq!(dictionary.get_name(), "dict");
    assert_eq!(dictionary.get_datatype(0), Ok(XSD_STRING.to_string()));
    let (new_config, new_files) =
        recompress_with_dictionary(config, files, None, &dictionary).unwrap();
    assert_eq!(new_config.dictionary_filename, Some("dict".to_string()));
    let mphf = build_terms_mphf(&new_config, new_files.clone(), Some(&dictionary)).unwrap();
    let store = open(new_config, new_files);
    for (id, text) in texts.iter().enumerate() {
        assert_eq!(store.get(id), Ok(Some(text.clone())));
        assert_eq!(mphf.hash_bytes(text), Ok(id));
    }
}

#[test]
fn terms_are_written_again_with_the_number_of_their_datatype() {
    // a typed literal whose datatype is numbered by a first dictionary
    let mut bytes = Vec::new();
    oxigraph_succinct::strings::write_length_prefixed_string(&mut bytes, b"d:int").unwrap();
    let index = index_datatypes(&bytes).unwrap();
    let first = TermDictionary::mmap("first".to_string(), bytes, index).unwrap();
    let term = literal("42", "d:int");
    let string = serialize_term(&term, Some(&first)).unwrap();
    let config = config(2, 4, 1);
    let files = write_files(&config, &vec![string]).unwrap();
    let second = TermDictionary::train(&config, files.clone(), Some(&first)).unwrap();
    assert_eq!(second.get_datatype_id("d:int"), Ok(Some(1)));
    let (config, files) =
        recompress_with_dictionary(config, files, Some(&first), &second).unwrap();
    let store = open(config, files);
    let stored = store.get(0).unwrap().unwrap();
    assert_eq!(stored, [7, b'4', b'2', 0, 0, 0, 1]);
    assert_eq!(deserialize_term(&stored, Some(&second)), Ok(term));
}

#[test]
fn stored_terms_that_cannot_be_read_are_refused() {
    let texts = strings(&["\u{9}a"]);
    let config = config(2, 4, 1);
    let files = write_files(&config, &texts).unwrap();
    assert_eq!(
        TermDictionary::train(&config, files, None).err(),
        Some(TermsError::Term(TermError::UnknownTag))
    );
}
