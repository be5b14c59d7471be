//! Stores that are queried by patterns of RDF terms.

use crate::queryable_dataset::{
    all_found, internalized, DatasetFailure, InternalQuad, QuadPattern, SuccinctDatasetError,
    SuccinctDatasetView,
};
use crate::terms::{
    copy_term, node_to_term, serialized_term, GraphName, GraphNameView, NamedOrBlankNode, Quad,
    QuadView, Term, TermError, TermView,
};
use crate::terms_mphf::TermMphf;
use crate::terms_store::TermStore;
use vstd::prelude::*;

verus! {

/// The graphs that a query is about.
pub struct QueryDataset {
    /// The graphs that make up the default one, unless it is all of them.
    pub default_graph_graphs: Option<Vec<GraphName>>,
    /// The named graphs, unless it is all of them.
    pub available_named_graphs: Option<Vec<NamedOrBlankNode>>,
}

/// A store that can only be read.
pub struct SuccinctStore {
    dataset: SuccinctDatasetView,
}

/// Whether the graphs that a query is about are those that a store can be queried with.
pub open spec fn supported(query_dataset: QueryDataset) -> bool {
    &&& query_dataset.default_graph_graphs matches Some(graphs) ==> graphs@.len() == 1
        && graphs@[0]@ == GraphNameView::DefaultGraph
    &&& query_dataset.available_named_graphs is None
}

/// The id of a term, if there is one.
pub open spec fn internalized_option(
    mphf: TermMphf,
    terms: TermStore,
    extras: Seq<TermView>,
    term: Option<TermView>,
) -> (Result<Option<usize>, DatasetFailure>, Seq<TermView>) {
    match term {
        None => (Ok(None), extras),
        Some(term) => match internalized(mphf, terms, extras, term) {
            (Err(e), extras) => (Err(e), extras),
            (Ok(id), extras) => (Ok(Some(id)), extras),
        },
    }
}

/// The ids of the terms of a pattern, and the graph.
pub open spec fn internalized_pattern(
    mphf: TermMphf,
    terms: TermStore,
    extras: Seq<TermView>,
    subject: Option<TermView>,
    predicate: Option<TermView>,
    object: Option<TermView>,
    graph_name: Option<GraphNameView>,
) -> (
    Result<(Option<usize>, Option<usize>, Option<usize>, Option<Option<usize>>), DatasetFailure>,
    Seq<TermView>,
) {
    match internalized_option(mphf, terms, extras, subject) {
        (Err(e), extras) => (Err(e), extras),
        (Ok(s), extras) => match internalized_option(mphf, terms, extras, predicate) {
            (Err(e), extras) => (Err(e), extras),
            (Ok(p), extras) => match internalized_option(mphf, terms, extras, object) {
                (Err(e), extras) => (Err(e), extras),
                (Ok(o), extras) => match internalized_option(
                    mphf,
                    terms,
                    extras,
                    graph_term(graph_name),
                ) {
                    (Err(e), extras) => (Err(e), extras),
                    (Ok(g), extras) => (
                        Ok(
                            (
                                s,
                                p,
                                o,
                                if graph_name is None {
                                    None
                                } else {
                                    Some(g)
                                },
                            ),
                        ),
                        extras,
                    ),
                },
            },
        },
    }
}

/// The term that names a graph, if it is not the default one.
pub open spec fn graph_term(graph_name: Option<GraphNameView>) -> Option<TermView> {
    match graph_name {
        None => None,
        Some(GraphNameView::DefaultGraph) => None,
        Some(GraphNameView::NamedNode(iri)) => Some(TermView::NamedNode(iri)),
        Some(GraphNameView::BlankNode(id)) => Some(TermView::BlankNode(id)),
    }
}

/// The quad that a quad of ids stands for.
pub open spec fn external_quad(view: SuccinctDatasetView, quad: InternalQuad) -> Result<
    QuadView,
    DatasetFailure,
> {
    match view.term_of(quad.subject) {
        Err(e) => Err(e),
        Ok(subject) => if subject is Literal {
            Err(DatasetFailure::UnexpectedSubject)
        } else {
            match view.term_of(quad.predicate) {
                Err(e) => Err(e),
                Ok(TermView::NamedNode(predicate)) => match view.term_of(quad.object) {
                    Err(e) => Err(e),
                    Ok(object) => match external_graph(view, quad.graph_name) {
                        Err(e) => Err(e),
                        Ok(graph_name) => Ok(QuadView { subject, predicate, object, graph_name }),
                    },
                },
                Ok(_) => Err(DatasetFailure::UnexpectedPredicate),
            }
        },
    }
}

/// The graph that an id stands for.
pub open spec fn external_graph(view: SuccinctDatasetView, graph_name: Option<usize>) -> Result<
    GraphNameView,
    DatasetFailure,
> {
    match graph_name {
        None => Ok(GraphNameView::DefaultGraph),
        Some(id) => match view.term_of(id) {
            Err(e) => Err(e),
            Ok(TermView::NamedNode(iri)) => Ok(GraphNameView::NamedNode(iri)),
            Ok(TermView::BlankNode(id)) => Ok(GraphNameView::BlankNode(id)),
            Ok(TermView::Literal(_, _, _)) => Err(DatasetFailure::UnexpectedGraphName),
        },
    }
}

/// What a quad of ids that was found stands for, or the error that was met.
pub open spec fn external_result(
    view: SuccinctDatasetView,
    found: Result<InternalQuad, SuccinctDatasetError>,
) -> Result<QuadView, SuccinctDatasetError> {
    match found {
        Err(e) => Err(e),
        Ok(quad) => match external_quad(view, quad) {
            Err(e) => Err(SuccinctDatasetError(e)),
            Ok(quad) => Ok(quad),
        },
    }
}

/// What quads of ids that were found stand for, and the errors that were met.
pub open spec fn external_results(
    view: SuccinctDatasetView,
    found: Seq<Result<InternalQuad, SuccinctDatasetError>>,
) -> Seq<Result<QuadView, SuccinctDatasetError>> {
    found.map_values(
        |found: Result<InternalQuad, SuccinctDatasetError>| external_result(view, found),
    )
}

/// What quads or errors are.
pub open spec fn quad_results(list: Seq<Result<Quad, SuccinctDatasetError>>) -> Seq<
    Result<QuadView, SuccinctDatasetError>,
> {
    list.map_values(
        |item: Result<Quad, SuccinctDatasetError>|
            match item {
                Ok(quad) => Ok(quad@),
                Err(e) => Err(e),
            },
    )
}

fn internalize_option(dataset: &mut SuccinctDatasetView, term: Option<Term>) -> (res: Result<
    Option<usize>,
    SuccinctDatasetError,
>)
    requires
        old(dataset).well_formed(),
    ensures
        final(dataset).well_formed(),
        final(dataset).same_data(*old(dataset)),
        ({
            let (id, extras) = internalized_option(
                old(dataset).mphf(),
                old(dataset).terms(),
                old(dataset).extras(),
                (match term {
                    None => None,
                    Some(term) => Some(term@),
                }),
            );
            &&& final(dataset).extras() == extras
            &&& match id {
                Err(e) => res is Err && res->Err_0 == SuccinctDatasetError(e),
                Ok(id) => res is Ok && res->Ok_0 == id,
            }
        }),
{
    match term {
        None => Ok(None),
        Some(term) => match dataset.internalize_term(term) {
            Err(e) => Err(e),
            Ok(id) => Ok(Some(id)),
        },
    }
}

/// The quad that a quad of ids stands for.
fn externalize_quad(dataset: &SuccinctDatasetView, quad: InternalQuad) -> (res: Result<
    Quad,
    SuccinctDatasetError,
>)
    requires
        dataset.well_formed(),
    ensures
        match external_quad(*dataset, quad) {
            Err(e) => res is Err && res->Err_0 == SuccinctDatasetError(e),
            Ok(view) => res matches Ok(q) && q@ == view,
        },
{
    let subject: NamedOrBlankNode = match dataset.externalize_term(quad.subject)? {
        Term::NamedNode(iri) => NamedOrBlankNode::NamedNode(iri),
        Term::BlankNode(id) => NamedOrBlankNode::BlankNode(id),
        Term::Literal(_) => {
            return Err(SuccinctDatasetError(DatasetFailure::UnexpectedSubject));
        },
    };
    let predicate: String = match dataset.externalize_term(quad.predicate)? {
        Term::NamedNode(iri) => iri,
        Term::BlankNode(_) => {
            return Err(SuccinctDatasetError(DatasetFailure::UnexpectedPredicate));
        },
        Term::Literal(_) => {
            return Err(SuccinctDatasetError(DatasetFailure::UnexpectedPredicate));
        },
    };
    let object: Term = dataset.externalize_term(quad.object)?;
    let graph_name: GraphName = match quad.graph_name {
        None => GraphName::DefaultGraph,
        Some(id) => match dataset.externalize_term(id)? {
            Term::NamedNode(iri) => GraphName::NamedNode(iri),
            Term::BlankNode(id) => GraphName::BlankNode(id),
            Term::Literal(_) => {
                return Err(SuccinctDatasetError(DatasetFailure::UnexpectedGraphName));
            },
        },
    };
    Ok(Quad { subject, predicate, object, graph_name })
}

/// What a store answers to a pattern of ids.
pub open spec fn pattern_answer(
    view: SuccinctDatasetView,
    pattern: QuadPattern,
    list: Seq<Result<Quad, SuccinctDatasetError>>,
) -> bool {
    exists|found: Seq<Result<InternalQuad, SuccinctDatasetError>>| #[trigger]
        view.answers(pattern, found) && quad_results(list) == external_results(view, found)
}

/// What a store answers to a pattern of terms, and what its dataset is before and after it.
pub open spec fn query_answer(
    before: SuccinctDatasetView,
    after: SuccinctDatasetView,
    subject: Option<TermView>,
    predicate: Option<TermView>,
    object: Option<TermView>,
    graph_name: Option<GraphNameView>,
    res: Result<Vec<Result<Quad, SuccinctDatasetError>>, SuccinctDatasetError>,
) -> bool {
    let (ids, extras) = internalized_pattern(
        before.mphf(),
        before.terms(),
        before.extras(),
        subject,
        predicate,
        object,
        graph_name,
    );
    &&& after.well_formed()
    &&& after.same_data(before)
    &&& after.extras() == extras
    &&& match ids {
        Err(e) => res is Err && res->Err_0 == SuccinctDatasetError(e),
        Ok((s, p, o, g)) => res is Ok && match before.wanted_graph(g) {
            Err(e) => quad_results(res->Ok_0@) == seq![
                Err::<QuadView, SuccinctDatasetError>(SuccinctDatasetError(e)),
            ],
            Ok(g) => pattern_answer(
                after,
                (QuadPattern { subject: s, predicate: p, object: o, graph_name: g }),
                res->Ok_0@,
            ),
        },
    }
}

/// What an optional node is.
pub open spec fn node_view(node: Option<&NamedOrBlankNode>) -> Option<TermView> {
    match node {
        None => None,
        Some(node) => Some(node@),
    }
}

/// What an optional named node is.
pub open spec fn iri_view(iri: Option<&str>) -> Option<TermView> {
    match iri {
        None => None,
        Some(iri) => Some(TermView::NamedNode(iri@)),
    }
}

/// What an optional term is.
pub open spec fn object_view(term: Option<&Term>) -> Option<TermView> {
    match term {
        None => None,
        Some(term) => Some(term@),
    }
}

/// What an optional name of a graph is.
pub open spec fn graph_view(graph_name: Option<&GraphName>) -> Option<GraphNameView> {
    match graph_name {
        None => None,
        Some(graph_name) => Some(graph_name@),
    }
}

impl SuccinctStore {
    /// The dataset of the store.
    pub closed spec fn dataset(self) -> SuccinctDatasetView {
        self.dataset
    }

    /// A store that queries a dataset.
    pub fn open_read_only(dataset: SuccinctDatasetView) -> (store: Self)
        ensures
            store.dataset() == dataset,
    {
        SuccinctStore { dataset }
    }

    /// The dataset of the store, if a query is about all of it.
    pub fn with_query_dataset(self, query_dataset: &QueryDataset) -> (res: Result<
        SuccinctDatasetView,
        SuccinctDatasetError,
    >)
        ensures
            if supported(*query_dataset) {
                res is Ok && res->Ok_0 == self.dataset()
            } else {
                res is Err && res->Err_0.0 == DatasetFailure::UnsupportedQueryDataset
            },
    {
        match &query_dataset.default_graph_graphs {
            None => {},
            Some(graphs) => {
                let default_only: bool = if graphs.len() == 1 {
                    match &graphs[0] {
                        GraphName::DefaultGraph => true,
                        GraphName::NamedNode(_) => false,
                        GraphName::BlankNode(_) => false,
                    }
                } else {
                    false
                };
                if !default_only {
                    return Err(SuccinctDatasetError(DatasetFailure::UnsupportedQueryDataset));
                }
            },
        }
        if query_dataset.available_named_graphs.is_some() {
            return Err(SuccinctDatasetError(DatasetFailure::UnsupportedQueryDataset));
        }
        Ok(self.dataset)
    }

    /// The quads that match a pattern, and the errors that are met. There is a single error when an
    /// id cannot be had for a term of the pattern.
    #[verifier::rlimit(50)]
    pub fn quads_for_pattern(
        &mut self,
        subject: Option<&NamedOrBlankNode>,
        predicate: Option<&str>,
        object: Option<&Term>,
        graph_name: Option<&GraphName>,
    ) -> (res: Result<Vec<Result<Quad, SuccinctDatasetError>>, SuccinctDatasetError>)
        requires
            old(self).dataset().well_formed(),
        ensures
            query_answer(
                old(self).dataset(),
                final(self).dataset(),
                node_view(subject),
                iri_view(predicate),
                object_view(object),
                graph_view(graph_name),
                res,
            ),
    {
        let subject: Option<Term> = match subject {
            None => None,
            Some(node) => Some(node_to_term(node)),
        };
        let s: Option<usize> = internalize_option(&mut self.dataset, subject)?;
        let predicate: Option<Term> = match predicate {
            None => None,
            Some(iri) => Some(Term::NamedNode(iri.to_owned())),
        };
        let p: Option<usize> = internalize_option(&mut self.dataset, predicate)?;
        let object: Option<Term> = match object {
            None => None,
            Some(term) => Some(copy_term(term)),
        };
        let o: Option<usize> = internalize_option(&mut self.dataset, object)?;
        let graph: Option<Term> = match graph_name {
            None => None,
            Some(GraphName::DefaultGraph) => None,
            Some(GraphName::NamedNode(iri)) => Some(Term::NamedNode(iri.as_str().to_owned())),
            Some(GraphName::BlankNode(id)) => Some(Term::BlankNode(id.as_str().to_owned())),
        };
        let graph_id: Option<usize> = internalize_option(&mut self.dataset, graph)?;
        let g: Option<Option<usize>> = match graph_name {
            None => None,
            Some(_) => Some(graph_id),
        };
        Ok(self.quads_for_ids(s, p, o, g))
    }

    /// The quads that match a pattern of ids, and the errors that are met.
    fn quads_for_ids(
        &self,
        subject: Option<usize>,
        predicate: Option<usize>,
        object: Option<usize>,
        graph_name: Option<Option<usize>>,
    ) -> (list: Vec<Result<Quad, SuccinctDatasetError>>)
        requires
            self.dataset().well_formed(),
        ensures
            match self.dataset().wanted_graph(graph_name) {
                Err(e) => quad_results(list@) == seq![
                    Err::<QuadView, SuccinctDatasetError>(SuccinctDatasetError(e)),
                ],
                Ok(graph_name) => pattern_answer(
                    self.dataset(),
                    (QuadPattern { subject, predicate, object, graph_name }),
                    list@,
                ),
            },
    {
        let found = self.dataset.internal_quads_for_pattern(subject, predicate, object, graph_name);
        let list = self.externalize(&found);
        proof {
            match self.dataset().wanted_graph(graph_name) {
                Err(e) => {
                    assert(quad_results(list@) =~= seq![
                        Err::<QuadView, SuccinctDatasetError>(SuccinctDatasetError(e)),
                    ]);
                },
                Ok(_) => {},
            }
        }
        list
    }

    /// What quads of ids that were found stand for, and the errors that were met.
    fn externalize(&self, found: &Vec<Result<InternalQuad, SuccinctDatasetError>>) -> (list: Vec<
        Result<Quad, SuccinctDatasetError>,
    >)
        requires
            self.dataset().well_formed(),
        ensures
            quad_results(list@) == external_results(self.dataset(), found@),
    {
        let mut list: Vec<Result<Quad, SuccinctDatasetError>> = Vec::new();
        let mut i: usize = 0;
        while i < found.len()
            invariant
                self.dataset().well_formed(),
                i <= found@.len(),
                list@.len() == i,
                forall|j: int|
                    0 <= j < i ==> #[trigger] quad_results(list@)[j] == external_result(
                        self.dataset(),
                        found@[j],
                    ),
            decreases found@.len() - i,
        {
            let ghost before = list@;
            let item: Result<Quad, SuccinctDatasetError> = match &found[i] {
                Err(e) => Err(*e),
                Ok(quad) => externalize_quad(&self.dataset, *quad),
            };
            list.push(item);
            assert forall|j: int| 0 <= j < i + 1 implies #[trigger] quad_results(list@)[j]
                == external_result(self.dataset(), found@[j]) by {
                if j < i {
                    assert(quad_results(list@)[j] == quad_results(before)[j]);
                }
            }
            i = i + 1;
        }
        assert(quad_results(list@) =~= external_results(self.dataset(), found@));
        list
    }

    /// Whether some quad is in a graph.
    pub fn contains_named_graph(&self, _iri: &str) -> (res: Result<bool, SuccinctDatasetError>)
        ensures
            res is Err && res->Err_0.0 == DatasetFailure::NotYetImplemented,
    {
        Err(SuccinctDatasetError(DatasetFailure::NotYetImplemented))
    }
}

/// Whether a term is one of the terms that a dataset holds.
pub open spec fn is_known(strings: Seq<Seq<u8>>, term: Option<TermView>) -> bool {
    term matches Some(term) ==> (serialized_term(term, None) matches Ok(bytes) && bytes.len()
        <= usize::MAX && strings.contains(bytes))
}

/// Whether an id is that of a term, if there is one.
pub open spec fn is_id_of(strings: Seq<Seq<u8>>, term: Option<TermView>, id: Option<usize>) -> bool {
    match term {
        None => id is None,
        Some(term) => id matches Some(i) && i < strings.len() && Ok::<Seq<u8>, TermError>(
            strings[i as int],
        ) == serialized_term(term, None),
    }
}

/// A term of the dataset is searched by its id, and nothing is added to the list of unknown terms.
pub proof fn lemma_known_option(
    view: SuccinctDatasetView,
    strings: Seq<Seq<u8>>,
    extras: Seq<TermView>,
    term: Option<TermView>,
)
    requires
        view.terms().config().well_formed(),
        view.holds_terms(strings),
        is_known(strings, term),
    ensures
        ({
            let (id, after) = internalized_option(view.mphf(), view.terms(), extras, term);
            after == extras && id is Ok && is_id_of(strings, term, id->Ok_0)
        }),
{
    if let Some(term) = term {
        let bytes = serialized_term(term, None)->Ok_0;
        let i = choose|i: int| 0 <= i < strings.len() && strings[i] == bytes;
        view.lemma_held(strings, i as nat);
        view.lemma_known_term(strings, i, term);
    }
}

/// The terms of a pattern that are in the dataset are searched by their ids, and nothing is added
/// to the list of unknown terms.
pub proof fn lemma_known_pattern(
    view: SuccinctDatasetView,
    strings: Seq<Seq<u8>>,
    subject: Option<TermView>,
    predicate: Option<TermView>,
    object: Option<TermView>,
    graph_name: Option<GraphNameView>,
)
    requires
        view.terms().config().well_formed(),
        view.holds_terms(strings),
        is_known(strings, subject),
        is_known(strings, predicate),
        is_known(strings, object),
        is_known(strings, graph_term(graph_name)),
    ensures
        ({
            let (ids, extras) = internalized_pattern(
                view.mphf(),
                view.terms(),
                view.extras(),
                subject,
                predicate,
                object,
                graph_name,
            );
            &&& extras == view.extras()
            &&& ids matches Ok((s, p, o, g)) && {
                &&& is_id_of(strings, subject, s)
                &&& is_id_of(strings, predicate, p)
                &&& is_id_of(strings, object, o)
                &&& match graph_name {
                    None => g is None,
                    Some(_) => g matches Some(id) && is_id_of(strings, graph_term(graph_name), id),
                }
            }
        }),
{
    lemma_known_option(view, strings, view.extras(), subject);
    lemma_known_option(view, strings, view.extras(), predicate);
    lemma_known_option(view, strings, view.extras(), object);
    lemma_known_option(view, strings, view.extras(), graph_term(graph_name));
}

/// What is answered to a pattern of terms of the dataset: what the quads that match stand for, each
/// as often as it is in the dataset, and nothing else.
pub proof fn lemma_store_query(
    view: SuccinctDatasetView,
    quads: Seq<Seq<usize>>,
    pattern: QuadPattern,
    list: Seq<Result<Quad, SuccinctDatasetError>>,
) -> (found: Seq<InternalQuad>)
    requires
        view.intact(),
        view.holds_quads(quads),
        pattern_answer(view, pattern, list),
        pattern.subject matches Some(t) ==> t < view.spog().config().num_terms,
        pattern.subject is None ==> (pattern.object matches Some(t) ==> t
            < view.opsg().config().num_terms),
    ensures
        view.finds(quads, pattern, found),
        quad_results(list) == external_results(view, all_found(found)),
{
    let found = choose|found: Seq<Result<InternalQuad, SuccinctDatasetError>>| #[trigger]
        view.answers(pattern, found) && quad_results(list) == external_results(view, found);
    view.lemma_query(quads, pattern, found)
}

/// A store answers queries about all its graphs, or about its default graph with all its named
/// ones, and no other.
pub proof fn lemma_supported(query_dataset: QueryDataset)
    ensures
        supported(query_dataset) <==> query_dataset.available_named_graphs is None && (
        query_dataset.default_graph_graphs is None || (
        query_dataset.default_graph_graphs->Some_0@.len() == 1
            && query_dataset.default_graph_graphs->Some_0@[0]@ is DefaultGraph)),
{
}

} // verus!
