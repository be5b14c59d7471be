//! What a store answers of the quads that it was built from.

use crate::database_builder::{
    has_quads, ids_of, is_dataset_of, lemma_default_graph_first, quad_ids,
};
use crate::quads::QuadOrder;
use crate::quads_store::QuadsError;
use crate::queryable_dataset::{
    all_found, internal_quad, internal_quads, matching, term_matches, DatasetFailure, InternalQuad,
    QuadPattern, SuccinctDatasetError, SuccinctDatasetView,
};
use crate::radix::lemma_map_multiset;
use crate::store::{
    external_quad, external_results, graph_term, internalized_option, internalized_pattern,
    is_id_of, is_known, lemma_known_option, lemma_known_pattern, lemma_store_query, pattern_answer,
    quad_results, query_answer,
};
use crate::strings::{lemma_bytes_irreflexive, strings_increasing};
use crate::terms::{
    lemma_graph_name_round_trip, lemma_serialized_term_injective, serialized_graph_name,
    serialized_term, GraphNameView, Quad, QuadView, TermError, TermView,
};
use crate::terms_mphf::TermHasher;
use crate::terms_writer::{quad_error, quad_strings, quads_error, quads_strings};
use vstd::prelude::*;

verus! {

/// Whether a quad has the terms of a pattern.
pub open spec fn quad_matches(
    quad: QuadView,
    subject: Option<TermView>,
    predicate: Option<TermView>,
    object: Option<TermView>,
    graph_name: Option<GraphNameView>,
) -> bool {
    &&& subject matches Some(term) ==> quad.subject == term
    &&& predicate matches Some(term) ==> TermView::NamedNode(quad.predicate) == term
    &&& object matches Some(term) ==> quad.object == term
    &&& graph_name matches Some(graph) ==> quad.graph_name == graph
}

/// Whether a quad has a term at any place.
pub open spec fn has_term(quad: QuadView, term: TermView) -> bool {
    ||| quad.subject == term
    ||| TermView::NamedNode(quad.predicate) == term
    ||| quad.object == term
    ||| graph_term(Some(quad.graph_name)) == Some(term)
}

/// Whether some quad has a term, if there is one.
pub open spec fn occurs(quads: Seq<QuadView>, term: Option<TermView>) -> bool {
    term matches Some(term) ==> exists|i: int|
        0 <= i < quads.len() && has_term(#[trigger] quads[i], term)
}

/// Whether some quad is in the default graph.
pub open spec fn uses_default_graph(quads: Seq<QuadView>) -> bool {
    exists|i: int| 0 <= i < quads.len() && (#[trigger] quads[i]).graph_name is DefaultGraph
}

proof fn lemma_storable(quads: Seq<QuadView>, i: int)
    requires
        quads_error(quads) is None,
        0 <= i < quads.len(),
    ensures
        quad_error(quads[i]) is None,
    decreases quads.len(),
{
    if i < quads.len() - 1 {
        lemma_storable(quads.drop_last(), i);
        assert(quads.drop_last()[i] == quads[i]);
    }
}

/// A term of a quad is one of the strings of the dataset.
proof fn lemma_occurs_known(
    quads: Seq<QuadView>,
    strings: Seq<Seq<u8>>,
    term: Option<TermView>,
)
    requires
        strings.to_set() == quads_strings(quads),
        quads_error(quads) is None,
        forall|i: int| 0 <= i < quads.len() ==> (#[trigger] quads[i]).subject !is Literal,
        occurs(quads, term),
    ensures
        is_known(strings, term),
{
    if let Some(term) = term {
        let i = choose|i: int| 0 <= i < quads.len() && has_term(#[trigger] quads[i], term);
        lemma_storable(quads, i);
        let all = quad_strings(quads[i]);
        let bytes = serialized_term(term, None)->Ok_0;
        let j: int = if quads[i].subject == term {
            0
        } else if TermView::NamedNode(quads[i].predicate) == term {
            1
        } else if quads[i].object == term {
            2
        } else {
            3
        };
        assert(all[j] == bytes);
        assert(all.contains(bytes));
        assert(quads_strings(quads).contains(bytes));
        assert(strings.to_set().contains(bytes));
    }
}

/// Two ids of a list of different strings are the same if they stand for the same string.
proof fn lemma_same_string(strings: Seq<Seq<u8>>, i: int, j: int)
    requires
        strings_increasing(strings),
        0 <= i < strings.len(),
        0 <= j < strings.len(),
        strings[i] == strings[j],
    ensures
        i == j,
{
    lemma_bytes_irreflexive(strings[i]);
}

proof fn lemma_term_found(
    strings: Seq<Seq<u8>>,
    wanted: Option<TermView>,
    id: Option<usize>,
    term: TermView,
    i: usize,
)
    requires
        strings_increasing(strings),
        is_id_of(strings, wanted, id),
        i < strings.len(),
        serialized_term(term, None) == Ok::<Seq<u8>, TermError>(strings[i as int]),
        strings[i as int].len() <= usize::MAX,
    ensures
        term_matches(id, i) <==> (wanted matches Some(w) ==> term == w),
{
    if let Some(w) = wanted {
        let j = id->Some_0;
        if i == j {
            lemma_serialized_term_injective(term, w);
        }
        if term == w {
            lemma_same_string(strings, i as int, j as int);
        }
    }
}

/// Whether an id is that of a graph, if there is one.
spec fn is_graph_id(
    strings: Seq<Seq<u8>>,
    graph_name: Option<GraphNameView>,
    id: Option<usize>,
) -> bool {
    match graph_name {
        None => id is None,
        Some(graph) => id matches Some(i) && i < strings.len() && strings[i as int]
            == serialized_graph_name(graph),
    }
}

proof fn lemma_graph_found(
    strings: Seq<Seq<u8>>,
    wanted: Option<GraphNameView>,
    id: Option<usize>,
    graph: GraphNameView,
    i: usize,
)
    requires
        strings_increasing(strings),
        is_graph_id(strings, wanted, id),
        i < strings.len(),
        serialized_graph_name(graph) == strings[i as int],
    ensures
        term_matches(id, i) <==> (wanted matches Some(w) ==> graph == w),
{
    if let Some(w) = wanted {
        let j = id->Some_0;
        if i == j {
            lemma_graph_name_round_trip(graph);
            lemma_graph_name_round_trip(w);
        }
        if graph == w {
            lemma_same_string(strings, i as int, j as int);
        }
    }
}

/// The default graph has an id exactly if the dataset has its string.
proof fn lemma_default_graph_id(
    view: SuccinctDatasetView,
    quads: Seq<QuadView>,
    strings: Seq<Seq<u8>>,
    ids: Seq<Seq<usize>>,
    i: usize,
    graph: GraphNameView,
)
    requires
        is_dataset_of(view, quads, strings, ids),
        i < strings.len(),
        strings[i as int] == serialized_graph_name(graph),
    ensures
        Some(i) == view.default_graph() <==> graph is DefaultGraph,
{
    let empty = serialized_graph_name(GraphNameView::DefaultGraph);
    view.lemma_held(strings, i as nat);
    if graph is DefaultGraph {
        assert(view.mphf().id_of(strings[i as int]) == Some(i));
    } else if Some(i) == view.default_graph() {
        lemma_graph_name_round_trip(graph);
        assert(strings[i as int] == empty);
    }
}

/// A quad of the dataset is read back from its ids.
proof fn lemma_quad_read(
    view: SuccinctDatasetView,
    quads: Seq<QuadView>,
    strings: Seq<Seq<u8>>,
    ids: Seq<Seq<usize>>,
    i: int,
)
    requires
        is_dataset_of(view, quads, strings, ids),
        quads_error(quads) is None,
        0 <= i < quads.len(),
        quads[i].subject !is Literal,
    ensures
        external_quad(view, internal_quad(ids[i], view.default_graph())) == Ok::<
            QuadView,
            DatasetFailure,
        >(quads[i]),
{
    let quad = quads[i];
    let id = ids[i];
    lemma_storable(quads, i);
    assert(quad_ids(strings, quad, id));
    let all = quad_strings(quad);
    assert(strings[id[0] as int] == all[0]);
    assert(strings[id[1] as int] == all[1]);
    assert(strings[id[2] as int] == all[2]);
    assert(strings[id[3] as int] == all[3]);
    view.lemma_known_term(strings, id[0] as int, quad.subject);
    view.lemma_known_term(strings, id[1] as int, TermView::NamedNode(quad.predicate));
    view.lemma_known_term(strings, id[2] as int, quad.object);
    lemma_default_graph_id(view, quads, strings, ids, id[3], quad.graph_name);
    match quad.graph_name {
        GraphNameView::DefaultGraph => {},
        GraphNameView::NamedNode(iri) => {
            view.lemma_known_term(strings, id[3] as int, TermView::NamedNode(iri));
        },
        GraphNameView::BlankNode(label) => {
            view.lemma_known_term(strings, id[3] as int, TermView::BlankNode(label));
        },
    }
}

/// Whether an answer is made of given quads, without error.
pub open spec fn answers_with(
    res: Result<Vec<Result<Quad, SuccinctDatasetError>>, SuccinctDatasetError>,
    quads: Seq<QuadView>,
) -> bool {
    res matches Ok(list) && quad_results(list@) == quads.map_values(
        |quad: QuadView| Ok::<QuadView, SuccinctDatasetError>(quad),
    )
}

/// Whether an answer is made of a single error.
pub open spec fn answers_error(
    res: Result<Vec<Result<Quad, SuccinctDatasetError>>, SuccinctDatasetError>,
    failure: DatasetFailure,
) -> bool {
    res matches Ok(list) && quad_results(list@) == seq![
        Err::<QuadView, SuccinctDatasetError>(SuccinctDatasetError(failure)),
    ]
}

/// Quads of ids each of which stands for a quad stand for the list of these.
proof fn lemma_all_external(
    view: SuccinctDatasetView,
    quads: Seq<InternalQuad>,
    f: spec_fn(InternalQuad) -> QuadView,
)
    requires
        forall|i: int|
            0 <= i < quads.len() ==> external_quad(view, #[trigger] quads[i]) == Ok::<
                QuadView,
                DatasetFailure,
            >(f(quads[i])),
    ensures
        external_results(view, all_found(quads)) == quads.map_values(f).map_values(
            |quad: QuadView| Ok::<QuadView, SuccinctDatasetError>(quad),
        ),
{
    assert(external_results(view, all_found(quads)) =~= quads.map_values(f).map_values(
        |quad: QuadView| Ok::<QuadView, SuccinctDatasetError>(quad),
    ));
}

/// If ids match a pattern exactly if the quads that they stand for match another one, the same
/// places are picked by both.
proof fn lemma_filtered_together(
    quads: Seq<QuadView>,
    ids: Seq<Seq<usize>>,
    wanted: spec_fn(QuadView) -> bool,
    pattern: QuadPattern,
    f: spec_fn(Seq<usize>) -> QuadView,
)
    requires
        quads.len() == ids.len(),
        forall|i: int|
            0 <= i < ids.len() ==> (pattern.matches(#[trigger] ids[i]) <==> wanted(quads[i])),
        forall|i: int|
            0 <= i < ids.len() && wanted(quads[i]) ==> f(#[trigger] ids[i]) == quads[i],
    ensures
        matching(ids, QuadOrder::Spog, pattern).map_values(f) == quads.filter(wanted),
    decreases quads.len(),
{
    reveal(Seq::filter);
    let reversed = ids.map_values(|quad: Seq<usize>| QuadOrder::Spog.reverse(quad));
    assert(reversed =~= ids);
    if quads.len() > 0 {
        let before = ids.drop_last();
        assert forall|i: int| 0 <= i < before.len() implies (pattern.matches(#[trigger] before[i])
            <==> wanted(quads.drop_last()[i])) by {
            assert(before[i] == ids[i]);
        }
        assert forall|i: int|
            0 <= i < before.len() && wanted(quads.drop_last()[i]) implies f(#[trigger] before[i])
            == quads.drop_last()[i] by {
            assert(before[i] == ids[i]);
        }
        lemma_filtered_together(quads.drop_last(), before, wanted, pattern, f);
        assert(before.map_values(|quad: Seq<usize>| QuadOrder::Spog.reverse(quad)) =~= before);
        assert(ids.last() == ids[ids.len() - 1]);
        let shorter = matching(before, QuadOrder::Spog, pattern);
        assert(shorter.push(ids.last()).map_values(f) =~= shorter.map_values(f).push(
            f(ids.last()),
        ));
    } else {
        assert(matching(ids, QuadOrder::Spog, pattern).map_values(f) =~= Seq::empty());
    }
}

/// The ids of a quad match the ids of a pattern exactly if the quad matches the pattern.
proof fn lemma_ids_match(
    quads: Seq<QuadView>,
    strings: Seq<Seq<u8>>,
    ids: Seq<Seq<usize>>,
    subject: Option<TermView>,
    predicate: Option<TermView>,
    object: Option<TermView>,
    graph_name: Option<GraphNameView>,
    pattern: QuadPattern,
    i: int,
)
    requires
        strings_increasing(strings),
        ids_of(strings, quads, ids),
        quads_error(quads) is None,
        0 <= i < quads.len(),
        quads[i].subject !is Literal,
        is_id_of(strings, subject, pattern.subject),
        is_id_of(strings, predicate, pattern.predicate),
        is_id_of(strings, object, pattern.object),
        is_graph_id(strings, graph_name, pattern.graph_name),
    ensures
        pattern.matches(ids[i]) <==> quad_matches(quads[i], subject, predicate, object, graph_name),
{
    let quad = quads[i];
    let id = ids[i];
    lemma_storable(quads, i);
    assert(quad_ids(strings, quad, id));
    let all = quad_strings(quad);
    assert(strings[id[0] as int] == all[0]);
    assert(strings[id[1] as int] == all[1]);
    assert(strings[id[2] as int] == all[2]);
    assert(strings[id[3] as int] == all[3]);
    lemma_term_found(strings, subject, pattern.subject, quad.subject, id[0]);
    lemma_term_found(
        strings,
        predicate,
        pattern.predicate,
        TermView::NamedNode(quad.predicate),
        id[1],
    );
    lemma_term_found(strings, object, pattern.object, quad.object, id[2]);
    lemma_graph_found(strings, graph_name, pattern.graph_name, quad.graph_name, id[3]);
}

proof fn lemma_same_dataset(
    before: SuccinctDatasetView,
    after: SuccinctDatasetView,
    quads: Seq<QuadView>,
    strings: Seq<Seq<u8>>,
    ids: Seq<Seq<usize>>,
)
    requires
        is_dataset_of(before, quads, strings, ids),
        after.well_formed(),
        after.same_data(before),
    ensures
        is_dataset_of(after, quads, strings, ids),
{
    let stored = choose|stored: Seq<Seq<u8>>| #[trigger] before.holds_strings(stored, strings);
    assert(after.holds_strings(stored, strings));
}

/// The graph that a pattern of known terms is searched by is the one with the id of its name.
proof fn lemma_graph_wanted(
    view: SuccinctDatasetView,
    quads: Seq<QuadView>,
    strings: Seq<Seq<u8>>,
    ids: Seq<Seq<usize>>,
    graph_name: Option<GraphNameView>,
    id: Option<Option<usize>>,
)
    requires
        is_dataset_of(view, quads, strings, ids),
        match graph_name {
            None => id is None,
            Some(_) => id matches Some(id) && is_id_of(strings, graph_term(graph_name), id),
        },
        graph_name == Some(GraphNameView::DefaultGraph) ==> uses_default_graph(quads),
    ensures
        view.wanted_graph(id) matches Ok(wanted) && is_graph_id(strings, graph_name, wanted),
{
    if graph_name == Some(GraphNameView::DefaultGraph) {
        let i = choose|i: int|
            0 <= i < quads.len() && (#[trigger] quads[i]).graph_name is DefaultGraph;
        lemma_default_graph_first(view, quads, strings, ids, i);
        assert(quad_ids(strings, quads[i], ids[i]));
        assert(strings[ids[i][3] as int] == quad_strings(quads[i])[3]);
    }
}

/// A store built from quads answers a pattern of terms of these with the quads that match it, each
/// as often as it was given, and no other, without error. This leaves out the patterns of the
/// default graph when no quad is in it.
#[verifier::rlimit(50)]
pub proof fn lemma_loaded_query(
    before: SuccinctDatasetView,
    after: SuccinctDatasetView,
    quads: Seq<QuadView>,
    subject: Option<TermView>,
    predicate: Option<TermView>,
    object: Option<TermView>,
    graph_name: Option<GraphNameView>,
    res: Result<Vec<Result<Quad, SuccinctDatasetError>>, SuccinctDatasetError>,
) -> (answer: Seq<QuadView>)
    requires
        has_quads(before, quads),
        quads_error(quads) is None,
        forall|i: int| 0 <= i < quads.len() ==> (#[trigger] quads[i]).subject !is Literal,
        occurs(quads, subject),
        occurs(quads, predicate),
        occurs(quads, object),
        occurs(quads, graph_term(graph_name)),
        graph_name == Some(GraphNameView::DefaultGraph) ==> uses_default_graph(quads),
        query_answer(before, after, subject, predicate, object, graph_name, res),
    ensures
        answers_with(res, answer),
        answer.to_multiset() == quads.filter(
            |quad: QuadView| quad_matches(quad, subject, predicate, object, graph_name),
        ).to_multiset(),
{
    let (strings, ids) = choose|strings: Seq<Seq<u8>>, ids: Seq<Seq<usize>>| #[trigger]
        is_dataset_of(before, quads, strings, ids);
    lemma_occurs_known(quads, strings, subject);
    lemma_occurs_known(quads, strings, predicate);
    lemma_occurs_known(quads, strings, object);
    lemma_occurs_known(quads, strings, graph_term(graph_name));
    lemma_known_pattern(before, strings, subject, predicate, object, graph_name);
    let (s, p, o, g) = internalized_pattern(
        before.mphf(),
        before.terms(),
        before.extras(),
        subject,
        predicate,
        object,
        graph_name,
    ).0->Ok_0;
    lemma_graph_wanted(before, quads, strings, ids, graph_name, g);
    let graph = before.wanted_graph(g)->Ok_0;
    let pattern = QuadPattern { subject: s, predicate: p, object: o, graph_name: graph };
    lemma_same_dataset(before, after, quads, strings, ids);
    let found = lemma_store_query(after, ids, pattern, res->Ok_0@);
    let default = after.default_graph();
    let matched = choose|matched: Seq<Seq<usize>>| #[trigger]
        internal_quads(matched, default) == found && matched.to_multiset() == matching(
            ids,
            QuadOrder::Spog,
            pattern,
        ).to_multiset();
    let wanted = |quad: QuadView|
        quad_matches(quad, subject, predicate, object, graph_name);
    let of_internal = |quad: InternalQuad| external_quad(after, quad)->Ok_0;
    let of_ids = |quad: Seq<usize>| external_quad(after, internal_quad(quad, default))->Ok_0;
    assert forall|i: int| 0 <= i < ids.len() implies (pattern.matches(#[trigger] ids[i])
        <==> wanted(quads[i])) by {
        lemma_ids_match(quads, strings, ids, subject, predicate, object, graph_name, pattern, i);
    }
    assert forall|i: int| 0 <= i < ids.len() && wanted(quads[i]) implies of_ids(
        #[trigger] ids[i],
    ) == quads[i] by {
        lemma_quad_read(after, quads, strings, ids, i);
    }
    lemma_filtered_together(quads, ids, wanted, pattern, of_ids);
    lemma_map_multiset(matched, matching(ids, QuadOrder::Spog, pattern), of_ids);
    assert forall|k: int| 0 <= k < found.len() implies external_quad(after, #[trigger] found[k])
        == Ok::<QuadView, DatasetFailure>(of_internal(found[k])) by {
        let i = lemma_matched_id(ids, pattern, matched, k);
        lemma_ids_match(quads, strings, ids, subject, predicate, object, graph_name, pattern, i);
        lemma_quad_read(after, quads, strings, ids, i);
    }
    lemma_all_external(after, found, of_internal);
    assert(found.map_values(of_internal) =~= matched.map_values(of_ids));
    found.map_values(of_internal)
}

/// A quad that was found is one of those of the dataset, and matches.
proof fn lemma_matched_id(
    ids: Seq<Seq<usize>>,
    pattern: QuadPattern,
    matched: Seq<Seq<usize>>,
    k: int,
) -> (i: int)
    requires
        matched.to_multiset() == matching(ids, QuadOrder::Spog, pattern).to_multiset(),
        0 <= k < matched.len(),
    ensures
        0 <= i < ids.len(),
        ids[i] == matched[k],
        pattern.matches(ids[i]),
{
    let all = matching(ids, QuadOrder::Spog, pattern);
    let reversed = ids.map_values(|quad: Seq<usize>| QuadOrder::Spog.reverse(quad));
    let matches = |quad: Seq<usize>| pattern.matches(quad);
    assert(reversed =~= ids);
    vstd::seq_lib::to_multiset_contains(matched, matched[k]);
    vstd::seq_lib::to_multiset_contains(all, matched[k]);
    assert(matched.contains(matched[k]));
    let j = choose|j: int| 0 <= j < all.len() && all[j] == matched[k];
    ids.lemma_filter_pred(matches, j);
    ids.lemma_filter_contains_rev(matches, matched[k]);
    choose|i: int| 0 <= i < ids.len() && ids[i] == matched[k]
}

/// A term of no quad is not one of the strings of the dataset.
proof fn lemma_lacking(quads: Seq<QuadView>, strings: Seq<Seq<u8>>, term: TermView)
    requires
        strings.to_set() == quads_strings(quads),
        quads_error(quads) is None,
        forall|i: int| 0 <= i < quads.len() ==> (#[trigger] quads[i]).subject !is Literal,
        !occurs(quads, Some(term)),
    ensures
        serialized_term(term, None) matches Ok(bytes) ==> !strings.contains(bytes),
{
    if let Ok(bytes) = serialized_term(term, None) {
        if strings.contains(bytes) {
            assert(strings.to_set().contains(bytes));
            assert(quads_strings(quads).contains(bytes));
            let i = choose|i: int|
                0 <= i < quads.len() && quad_strings(#[trigger] quads[i]).contains(bytes);
            lemma_storable(quads, i);
            let all = quad_strings(quads[i]);
            let j = choose|j: int| 0 <= j < all.len() && all[j] == bytes;
            assert(bytes.len() > 0);
            let same = if j == 0 {
                quads[i].subject
            } else if j == 1 {
                TermView::NamedNode(quads[i].predicate)
            } else if j == 2 {
                quads[i].object
            } else {
                graph_term(Some(quads[i].graph_name))->Some_0
            };
            assert(serialized_term(same, None) == Ok::<Seq<u8>, TermError>(bytes));
            lemma_serialized_term_injective(same, term);
            assert(has_term(quads[i], term));
        }
    }
}

/// Whether an id is that which a term of a pattern is searched by: its own if some quad has it, and
/// one that no quad has otherwise.
pub open spec fn searched_by(
    quads: Seq<QuadView>,
    strings: Seq<Seq<u8>>,
    term: Option<TermView>,
    id: Option<usize>,
) -> bool {
    if occurs(quads, term) {
        is_id_of(strings, term, id)
    } else {
        id matches Some(i) && i >= strings.len()
    }
}

proof fn lemma_option_id(
    view: SuccinctDatasetView,
    quads: Seq<QuadView>,
    strings: Seq<Seq<u8>>,
    ids: Seq<Seq<usize>>,
    extras: Seq<TermView>,
    term: Option<TermView>,
)
    requires
        is_dataset_of(view, quads, strings, ids),
        quads_error(quads) is None,
        forall|i: int| 0 <= i < quads.len() ==> (#[trigger] quads[i]).subject !is Literal,
        strings.len() + extras.len() <= usize::MAX,
    ensures
        internalized_option(view.mphf(), view.terms(), extras, term).0 matches Ok(id)
            && searched_by(quads, strings, term, id),
        internalized_option(view.mphf(), view.terms(), extras, term).1.len() <= extras.len() + 1,
{
    if occurs(quads, term) {
        lemma_occurs_known(quads, strings, term);
        lemma_known_option(view, strings, extras, term);
    } else {
        lemma_lacking(quads, strings, term->Some_0);
        view.lemma_id_given(strings, extras, term->Some_0);
    }
}

/// The ids that the terms of a pattern are searched by.
proof fn lemma_pattern_ids(
    view: SuccinctDatasetView,
    quads: Seq<QuadView>,
    strings: Seq<Seq<u8>>,
    ids: Seq<Seq<usize>>,
    subject: Option<TermView>,
    predicate: Option<TermView>,
    object: Option<TermView>,
    graph_name: Option<GraphNameView>,
)
    requires
        is_dataset_of(view, quads, strings, ids),
        quads_error(quads) is None,
        forall|i: int| 0 <= i < quads.len() ==> (#[trigger] quads[i]).subject !is Literal,
        strings.len() + view.extras().len() + 4 <= usize::MAX,
    ensures
        internalized_pattern(
            view.mphf(),
            view.terms(),
            view.extras(),
            subject,
            predicate,
            object,
            graph_name,
        ).0 matches Ok((s, p, o, g)) && {
            &&& searched_by(quads, strings, subject, s)
            &&& searched_by(quads, strings, predicate, p)
            &&& searched_by(quads, strings, object, o)
            &&& match graph_name {
                None => g is None,
                Some(_) => g matches Some(id) && searched_by(
                    quads,
                    strings,
                    graph_term(graph_name),
                    id,
                ),
            }
        },
{
    let mphf = view.mphf();
    let terms = view.terms();
    let extras = view.extras();
    lemma_option_id(view, quads, strings, ids, extras, subject);
    let after_s = internalized_option(mphf, terms, extras, subject).1;
    lemma_option_id(view, quads, strings, ids, after_s, predicate);
    let after_p = internalized_option(mphf, terms, after_s, predicate).1;
    lemma_option_id(view, quads, strings, ids, after_p, object);
    let after_o = internalized_option(mphf, terms, after_p, object).1;
    lemma_option_id(view, quads, strings, ids, after_o, graph_term(graph_name));
}

/// A pattern with an id that no quad has finds none.
proof fn lemma_none_found(
    view: SuccinctDatasetView,
    quads: Seq<QuadView>,
    strings: Seq<Seq<u8>>,
    ids: Seq<Seq<usize>>,
    pattern: QuadPattern,
    list: Seq<Result<Quad, SuccinctDatasetError>>,
)
    requires
        is_dataset_of(view, quads, strings, ids),
        pattern_answer(view, pattern, list),
        pattern.subject matches Some(t) ==> t < strings.len(),
        pattern.subject is None ==> (pattern.object matches Some(t) ==> t < strings.len()),
        (pattern.predicate matches Some(t) && t >= strings.len()) || (pattern.object matches Some(t)
            && t >= strings.len()) || (pattern.graph_name matches Some(t) && t >= strings.len()),
    ensures
        list.len() == 0,
{
    let found = lemma_store_query(view, ids, pattern, list);
    let matched = choose|matched: Seq<Seq<usize>>| #[trigger]
        internal_quads(matched, view.default_graph()) == found && matched.to_multiset()
            == matching(ids, QuadOrder::Spog, pattern).to_multiset();
    if matched.len() > 0 {
        let i = lemma_matched_id(ids, pattern, matched, 0);
        assert(quad_ids(strings, quads[i], ids[i]));
        assert(ids[i][1] < strings.len() && ids[i][2] < strings.len() && ids[i][3]
            < strings.len());
    }
    assert(found.len() == 0);
    assert(quad_results(list).len() == 0);
}

/// A pattern with a subject, or else an object, that is no id of the dataset is refused.
proof fn lemma_refused(
    view: SuccinctDatasetView,
    pattern: QuadPattern,
    list: Seq<Result<Quad, SuccinctDatasetError>>,
)
    requires
        pattern_answer(view, pattern, list),
        match pattern.subject {
            Some(t) => t >= view.spog().config().num_terms,
            None => pattern.object matches Some(t) && t >= view.opsg().config().num_terms,
        },
    ensures
        quad_results(list) == seq![
            Err::<QuadView, SuccinctDatasetError>(
                SuccinctDatasetError(DatasetFailure::Quads(QuadsError::InvalidTerm)),
            ),
        ],
{
    let found = choose|found: Seq<Result<InternalQuad, SuccinctDatasetError>>| #[trigger]
        view.answers(pattern, found) && quad_results(list) == external_results(view, found);
    let error = SuccinctDatasetError(DatasetFailure::Quads(QuadsError::InvalidTerm));
    assert(found == seq![Err::<InternalQuad, SuccinctDatasetError>(error)]);
    assert(external_results(view, found) =~= seq![Err::<QuadView, SuccinctDatasetError>(error)]);
}

/// The default graph has no id if no quad is in it.
proof fn lemma_no_default_graph(
    view: SuccinctDatasetView,
    quads: Seq<QuadView>,
    strings: Seq<Seq<u8>>,
    ids: Seq<Seq<usize>>,
)
    requires
        is_dataset_of(view, quads, strings, ids),
        quads_error(quads) is None,
        forall|i: int| 0 <= i < quads.len() ==> (#[trigger] quads[i]).subject !is Literal,
        !uses_default_graph(quads),
    ensures
        view.default_graph() is None,
{
    let empty = serialized_graph_name(GraphNameView::DefaultGraph);
    if let Some(id) = view.default_graph() {
        view.lemma_held(strings, id as nat);
        assert(strings[id as int] == empty);
        assert(strings.contains(empty));
        assert(strings.to_set().contains(empty));
        assert(quads_strings(quads).contains(empty));
        let i = choose|i: int|
            0 <= i < quads.len() && quad_strings(#[trigger] quads[i]).contains(empty);
        lemma_storable(quads, i);
        let all = quad_strings(quads[i]);
        let j = choose|j: int| 0 <= j < all.len() && all[j] == empty;
        assert(j == 3);
        assert(quads[i].graph_name is DefaultGraph);
    }
}

/// A store built from quads none of which is in the default graph answers a pattern of that graph
/// with an error, whatever the other terms are. The terms that it knows and those of patterns that
/// it lacks have to be few enough to be counted.
pub proof fn lemma_default_graph_query(
    before: SuccinctDatasetView,
    after: SuccinctDatasetView,
    quads: Seq<QuadView>,
    subject: Option<TermView>,
    predicate: Option<TermView>,
    object: Option<TermView>,
    res: Result<Vec<Result<Quad, SuccinctDatasetError>>, SuccinctDatasetError>,
)
    requires
        has_quads(before, quads),
        quads_error(quads) is None,
        forall|i: int| 0 <= i < quads.len() ==> (#[trigger] quads[i]).subject !is Literal,
        !uses_default_graph(quads),
        before.terms().config().num_terms + before.extras().len() + 4 <= usize::MAX,
        query_answer(
            before,
            after,
            subject,
            predicate,
            object,
            Some(GraphNameView::DefaultGraph),
            res,
        ),
    ensures
        answers_error(res, DatasetFailure::NoDefaultGraph),
{
    let (strings, ids) = choose|strings: Seq<Seq<u8>>, ids: Seq<Seq<usize>>| #[trigger]
        is_dataset_of(before, quads, strings, ids);
    lemma_no_default_graph(before, quads, strings, ids);
    before.lemma_held(strings, 0);
    lemma_pattern_ids(
        before,
        quads,
        strings,
        ids,
        subject,
        predicate,
        object,
        Some(GraphNameView::DefaultGraph),
    );
}

/// What a store built from quads answers a pattern with a term that none of them has: one that has
/// no such subject is refused, and so is one without subject that has no such object; to others,
/// there are no quads. This is so whatever the kinds of the terms are. The terms that the store
/// knows and those of patterns that it lacks have to be few enough to be counted.
#[verifier::rlimit(50)]
pub proof fn lemma_missing_query(
    before: SuccinctDatasetView,
    after: SuccinctDatasetView,
    quads: Seq<QuadView>,
    subject: Option<TermView>,
    predicate: Option<TermView>,
    object: Option<TermView>,
    graph_name: Option<GraphNameView>,
    res: Result<Vec<Result<Quad, SuccinctDatasetError>>, SuccinctDatasetError>,
)
    requires
        has_quads(before, quads),
        quads_error(quads) is None,
        forall|i: int| 0 <= i < quads.len() ==> (#[trigger] quads[i]).subject !is Literal,
        !occurs(quads, subject) || !occurs(quads, predicate) || !occurs(quads, object) || !occurs(
            quads,
            graph_term(graph_name),
        ),
        graph_name == Some(GraphNameView::DefaultGraph) ==> uses_default_graph(quads),
        before.terms().config().num_terms + before.extras().len() + 4 <= usize::MAX,
        query_answer(before, after, subject, predicate, object, graph_name, res),
    ensures
        if !occurs(quads, subject) || (subject is None && !occurs(quads, object)) {
            answers_error(res, DatasetFailure::Quads(QuadsError::InvalidTerm))
        } else {
            answers_with(res, Seq::empty())
        },
{
    let (strings, ids) = choose|strings: Seq<Seq<u8>>, ids: Seq<Seq<usize>>| #[trigger]
        is_dataset_of(before, quads, strings, ids);
    before.lemma_held(strings, 0);
    lemma_pattern_ids(before, quads, strings, ids, subject, predicate, object, graph_name);
    let (s, p, o, g) = internalized_pattern(
        before.mphf(),
        before.terms(),
        before.extras(),
        subject,
        predicate,
        object,
        graph_name,
    ).0->Ok_0;
    if occurs(quads, graph_term(graph_name)) {
        lemma_graph_wanted(before, quads, strings, ids, graph_name, g);
    }
    let graph = before.wanted_graph(g)->Ok_0;
    let pattern = QuadPattern { subject: s, predicate: p, object: o, graph_name: graph };
    lemma_same_dataset(before, after, quads, strings, ids);
    if !occurs(quads, subject) || (subject is None && !occurs(quads, object)) {
        lemma_refused(after, pattern, res->Ok_0@);
    } else {
        lemma_none_found(after, quads, strings, ids, pattern, res->Ok_0@);
        assert(quad_results(res->Ok_0@) =~= Seq::<QuadView>::empty().map_values(
            |quad: QuadView| Ok::<QuadView, SuccinctDatasetError>(quad),
        ));
    }
}

} // verus!
