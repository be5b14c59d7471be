//! Datasets that are queried by patterns of term ids.

use crate::dictionary::TermDictionary;
use crate::graphs::increasing;
use crate::quads::{lemma_order_inverse, QuadOrder, QuadStore};
use crate::quads::{lemma_intact_results, results_of_partitions};
use crate::quads_store::{
    answer_view, has_prefix, list_view, result_views, results, with_prefix, QuadsError,
};
use crate::secondary_indexes::{first_terms, SecondaryIndex};
use crate::strings::string_eq;
use crate::terms::{
    copy_term, deserialize_term, deserialized_term, lemma_serialized_term_injective,
    lemma_term_round_trip, serialize_graph_name, serialize_term, serialized_graph_name,
    serialized_term, term_eq, GraphName, GraphNameView, Term, TermError, TermView,
};
use crate::terms_mphf::{
    hash_result, key_of_term, lemma_mphf_key_at, mphf_key, mphf_keys, TermHasher, TermMphf,
};
use crate::terms_store::{lemma_stored_term, stores, TermStore, TermsError};
use vstd::prelude::*;

verus! {

/// What went wrong in a dataset.
#[derive(Clone, Copy, Debug, PartialEq, Eq, Structural)]
pub enum DatasetFailure {
    /// A quad store could not be queried.
    Quads(QuadsError),
    /// A term store could not be queried.
    Terms(TermsError),
    /// A stored term could not be read.
    Term(TermError),
    /// There is no term with the given id.
    UnknownTerm(usize),
    /// There is no quad in the default graph.
    NoDefaultGraph,
    /// The index of predicates lists a subject for which there is no quad.
    IndexMismatch,
    /// There are no ids left for unknown terms.
    TooManyTerms,
    /// The subject of a quad is a literal.
    UnexpectedSubject,
    /// The predicate of a quad is not a named node.
    UnexpectedPredicate,
    /// The graph of a quad is a literal.
    UnexpectedGraphName,
    /// Only the default dataset can be queried.
    UnsupportedQueryDataset,
    /// The operation does not exist yet.
    NotYetImplemented,
}

/// An error of a dataset.
#[derive(Clone, Copy, Debug, PartialEq, Eq, Structural)]
pub struct SuccinctDatasetError(pub DatasetFailure);

/// A quad of term ids. The default graph has no id.
#[derive(Clone, Copy, Debug, PartialEq, Eq, Structural)]
pub struct InternalQuad {
    /// The subject.
    pub subject: usize,
    /// The predicate.
    pub predicate: usize,
    /// The object.
    pub object: usize,
    /// The graph, unless it is the default one.
    pub graph_name: Option<usize>,
}

/// The graphs that make up a dataset.
pub struct InternalizedDatasetSpec {
    default: Option<Vec<usize>>,
    named: Option<Vec<usize>>,
}

/// The terms that quads are searched by.
#[derive(Clone, Copy, Debug, PartialEq, Eq, Structural)]
pub struct QuadPattern {
    /// The subject, if it matters.
    pub subject: Option<usize>,
    /// The predicate, if it matters.
    pub predicate: Option<usize>,
    /// The object, if it matters.
    pub object: Option<usize>,
    /// The graph, if it matters.
    pub graph_name: Option<usize>,
}

/// Whether a term is the one that is searched for, if one is.
pub open spec fn term_matches(wanted: Option<usize>, term: usize) -> bool {
    wanted matches Some(t) ==> t == term
}

impl QuadPattern {
    /// Whether a quad has the terms of the pattern.
    pub open spec fn matches(self, quad: Seq<usize>) -> bool {
        &&& term_matches(self.subject, quad[0])
        &&& term_matches(self.predicate, quad[1])
        &&& term_matches(self.object, quad[2])
        &&& term_matches(self.graph_name, quad[3])
    }
}

/// The quads of a list in a given order of their terms that match a pattern.
pub open spec fn matching(
    quads: Seq<Seq<usize>>,
    order: QuadOrder,
    pattern: QuadPattern,
) -> Seq<Seq<usize>> {
    quads.map_values(|quad: Seq<usize>| order.reverse(quad)).filter(
        |quad: Seq<usize>| pattern.matches(quad),
    )
}

proof fn lemma_matching_push(
    quads: Seq<Seq<usize>>,
    quad: Seq<usize>,
    order: QuadOrder,
    pattern: QuadPattern,
)
    ensures
        matching(quads.push(quad), order, pattern) == (if pattern.matches(order.reverse(quad)) {
            matching(quads, order, pattern).push(order.reverse(quad))
        } else {
            matching(quads, order, pattern)
        }),
{
    reveal(Seq::filter);
    let f = |quad: Seq<usize>| order.reverse(quad);
    assert(quads.push(quad).map_values(f) =~= quads.map_values(f).push(order.reverse(quad)));
    assert(quads.push(quad).map_values(f).drop_last() =~= quads.map_values(f));
}

/// The quads that match a pattern are among those that start with its terms.
proof fn lemma_matching_prefix(
    quads: Seq<Seq<usize>>,
    order: QuadOrder,
    pattern: QuadPattern,
    first: usize,
    second: Option<usize>,
)
    requires
        forall|quad: Seq<usize>| #[trigger]
            pattern.matches(order.reverse(quad)) ==> has_prefix(quad, first, second),
    ensures
        matching(with_prefix(quads, first, second), order, pattern) == matching(
            quads,
            order,
            pattern,
        ),
    decreases quads.len(),
{
    reveal(Seq::filter);
    if quads.len() == 0 {
        assert(with_prefix(quads, first, second) =~= quads);
    } else {
        let before = quads.drop_last();
        let last = quads.last();
        lemma_matching_prefix(before, order, pattern, first, second);
        assert(before.push(last) =~= quads);
        lemma_matching_push(before, last, order, pattern);
        let kept = with_prefix(before, first, second);
        if has_prefix(last, first, second) {
            assert(with_prefix(quads, first, second) =~= kept.push(last));
            lemma_matching_push(kept, last, order, pattern);
        } else {
            assert(with_prefix(quads, first, second) =~= kept);
        }
    }
}

/// A quad whose graph has no id if it is the default one.
pub open spec fn internal_quad(quad: Seq<usize>, default_graph_name: Option<usize>) -> InternalQuad {
    InternalQuad {
        subject: quad[0],
        predicate: quad[1],
        object: quad[2],
        graph_name: if Some(quad[3]) == default_graph_name {
            None
        } else {
            Some(quad[3])
        },
    }
}

/// Quads whose graphs have no id if they are the default one.
pub open spec fn internal_quads(
    quads: Seq<Seq<usize>>,
    default_graph_name: Option<usize>,
) -> Seq<InternalQuad> {
    quads.map_values(|quad: Seq<usize>| internal_quad(quad, default_graph_name))
}

/// A quad whose graph has no id if it is the default one.
fn to_internal_quad(quad: [usize; 4], default_graph_name: Option<usize>) -> (internal: InternalQuad)
    ensures
        internal == internal_quad(quad@, default_graph_name),
{
    let in_default: bool = match default_graph_name {
        None => false,
        Some(id) => id == quad[3],
    };
    InternalQuad {
        subject: quad[0],
        predicate: quad[1],
        object: quad[2],
        graph_name: if in_default {
            None
        } else {
            Some(quad[3])
        },
    }
}

fn term_is(wanted: Option<usize>, term: usize) -> (matches: bool)
    ensures
        matches == term_matches(wanted, term),
{
    match wanted {
        None => true,
        Some(t) => t == term,
    }
}

/// What is found of a pattern among quads or errors that were read: the quads that match, and the
/// errors.
pub open spec fn found_results(
    list: Seq<Result<Seq<usize>, QuadsError>>,
    order: QuadOrder,
    pattern: QuadPattern,
    default_graph_name: Option<usize>,
) -> Seq<Result<InternalQuad, SuccinctDatasetError>>
    decreases list.len(),
{
    if list.len() == 0 {
        Seq::empty()
    } else {
        let before = found_results(list.drop_last(), order, pattern, default_graph_name);
        match list.last() {
            Err(e) => before.push(Err(SuccinctDatasetError(DatasetFailure::Quads(e)))),
            Ok(quad) => if pattern.matches(order.reverse(quad)) {
                before.push(Ok(internal_quad(order.reverse(quad), default_graph_name)))
            } else {
                before
            },
        }
    }
}

/// Quads that were found without error.
pub open spec fn all_found(quads: Seq<InternalQuad>) -> Seq<
    Result<InternalQuad, SuccinctDatasetError>,
> {
    quads.map_values(|quad: InternalQuad| Ok::<InternalQuad, SuccinctDatasetError>(quad))
}

proof fn lemma_found_results(
    quads: Seq<Seq<usize>>,
    order: QuadOrder,
    pattern: QuadPattern,
    default_graph_name: Option<usize>,
)
    ensures
        found_results(results(quads, None), order, pattern, default_graph_name) == all_found(
            internal_quads(matching(quads, order, pattern), default_graph_name),
        ),
    decreases quads.len(),
{
    let list = results(quads, None);
    let found = all_found(internal_quads(matching(quads, order, pattern), default_graph_name));
    if quads.len() == 0 {
        reveal(Seq::filter);
        assert(found_results(list, order, pattern, default_graph_name) =~= found);
    } else {
        let before = quads.drop_last();
        assert(before.push(quads.last()) =~= quads);
        lemma_matching_push(before, quads.last(), order, pattern);
        lemma_found_results(before, order, pattern, default_graph_name);
        assert(list.drop_last() =~= results(before, None));
        assert(found_results(list, order, pattern, default_graph_name) =~= found);
    }
}

/// Lists of quads and errors, one after the other.
pub open spec fn one_after_other(
    parts: Seq<Seq<Result<InternalQuad, SuccinctDatasetError>>>,
) -> Seq<Result<InternalQuad, SuccinctDatasetError>>
    decreases parts.len(),
{
    if parts.len() == 0 {
        Seq::empty()
    } else {
        one_after_other(parts.drop_last()) + parts.last()
    }
}

/// What is found of a pattern in a quad store, given what is found of the terms that quads start
/// with.
pub open spec fn prefix_results(
    res: Result<Option<Seq<Result<Seq<usize>, QuadsError>>>, QuadsError>,
    order: QuadOrder,
    pattern: QuadPattern,
    default_graph_name: Option<usize>,
) -> Seq<Result<InternalQuad, SuccinctDatasetError>> {
    match res {
        Err(e) => seq![Err(SuccinctDatasetError(DatasetFailure::Quads(e)))],
        Ok(None) => Seq::empty(),
        Ok(Some(list)) => found_results(list, order, pattern, default_graph_name),
    }
}

/// Appends the quads of a list that match a pattern, and the errors.
fn push_matching(
    found: &mut Vec<Result<InternalQuad, SuccinctDatasetError>>,
    list: &Vec<Result<[usize; 4], QuadsError>>,
    order: QuadOrder,
    pattern: QuadPattern,
    default_graph_name: Option<usize>,
)
    ensures
        final(found)@ == old(found)@ + found_results(
            result_views(list@),
            order,
            pattern,
            default_graph_name,
        ),
{
    let ghost start = found@;
    let ghost all = result_views(list@);
    let mut i: usize = 0;
    assert(found@ =~= start + found_results(all.take(0), order, pattern, default_graph_name));
    while i < list.len()
        invariant
            i <= list@.len(),
            all == result_views(list@),
            found@ == start + found_results(
                all.take(i as int),
                order,
                pattern,
                default_graph_name,
            ),
        decreases list@.len() - i,
    {
        proof {
            assert(all.take(i + 1).drop_last() =~= all.take(i as int));
            assert(all.take(i + 1).last() == all[i as int]);
        }
        match &list[i] {
            Err(e) => {
                found.push(Err(SuccinctDatasetError(DatasetFailure::Quads(*e))));
            },
            Ok(quad) => {
                let quad: [usize; 4] = order.reverse_mapper(*quad);
                if term_is(pattern.subject, quad[0]) && term_is(pattern.predicate, quad[1])
                    && term_is(pattern.object, quad[2]) && term_is(pattern.graph_name, quad[3]) {
                    found.push(Ok(to_internal_quad(quad, default_graph_name)));
                }
            },
        }
        assert(found@ =~= start + found_results(
            all.take(i + 1),
            order,
            pattern,
            default_graph_name,
        ));
        i = i + 1;
    }
    assert(all.take(i as int) =~= all);
}

/// A dataset: its terms, and its quads in two orders.
pub struct SuccinctDatasetView {
    terms_mphf: TermMphf,
    terms: TermStore,
    spog_quads: QuadStore,
    opsg_quads: QuadStore,
    predicate_to_subject: SecondaryIndex,
    default_graph_name: Option<usize>,
    extras: Vec<Term>,
    dataset: InternalizedDatasetSpec,
}

/// What terms are.
pub open spec fn term_views(terms: Seq<Term>) -> Seq<TermView> {
    terms.map_values(|term: Term| term@)
}

/// The id of what may be the bytes of a term, if it is that of a stored term that is known by these
/// bytes.
pub open spec fn known_id(mphf: TermMphf, terms: TermStore, bytes: Result<Seq<u8>, TermError>) -> Result<
    Option<usize>,
    DatasetFailure,
> {
    match hash_result(bytes, mphf.id_of(bytes->Ok_0)) {
        Err(_) => Ok(None),
        Ok(id) => match terms.term(id as nat) {
            Err(e) => Err(DatasetFailure::Terms(e)),
            Ok(None) => Ok(None),
            Ok(Some(stored)) => match mphf_key(stored, terms.dictionary()) {
                Err(e) => Err(DatasetFailure::Terms(e)),
                Ok(key) => if key == bytes->Ok_0 {
                    Ok(Some(id))
                } else {
                    Ok(None)
                },
            },
        },
    }
}

/// The id of bytes, if it is that of a stored term that is known by these bytes.
fn find_bytes(mphf: &TermMphf, terms: &TermStore, bytes: &Vec<u8>) -> (res: Result<
    Option<usize>,
    SuccinctDatasetError,
>)
    requires
        terms.well_formed(),
    ensures
        match known_id(*mphf, *terms, Ok(bytes@)) {
            Err(e) => res is Err && res->Err_0 == SuccinctDatasetError(e),
            Ok(id) => res matches Ok(i) && i == id,
        },
{
    match mphf.hash_bytes(bytes.as_slice()) {
        Err(_) => Ok(None),
        Ok(id) => match terms.get(id) {
            Err(e) => Err(SuccinctDatasetError(DatasetFailure::Terms(e))),
            Ok(None) => Ok(None),
            Ok(Some(stored)) => match key_of_term(stored, terms.get_dictionary()) {
                Err(e) => Err(SuccinctDatasetError(DatasetFailure::Terms(e))),
                Ok(key) => {
                    if string_eq(key.as_slice(), bytes.as_slice()) {
                        Ok(Some(id))
                    } else {
                        Ok(None)
                    }
                },
            },
        },
    }
}

/// The position of a term in a list, or the length of the list if it is not in it.
pub open spec fn position_of(terms: Seq<TermView>, term: TermView) -> nat
    decreases terms.len(),
{
    if terms.len() == 0 || terms[0] == term {
        0
    } else {
        1 + position_of(terms.drop_first(), term)
    }
}

proof fn lemma_position_of(terms: Seq<TermView>, term: TermView, i: int)
    requires
        0 <= i <= terms.len(),
        forall|j: int| 0 <= j < i ==> terms[j] != term,
        i < terms.len() ==> terms[i] == term,
    ensures
        position_of(terms, term) == i,
    decreases i,
{
    if i > 0 {
        let rest = terms.drop_first();
        assert forall|j: int| 0 <= j < i - 1 implies rest[j] != term by {
            assert(rest[j] == terms[j + 1]);
        }
        lemma_position_of(rest, term, i - 1);
    }
}

/// The id of a term, and the list of the terms that are not in the dataset, to which it is added
/// when it is first met. The ids of these terms follow those of the dataset.
pub open spec fn internalized(
    mphf: TermMphf,
    terms: TermStore,
    extras: Seq<TermView>,
    term: TermView,
) -> (Result<usize, DatasetFailure>, Seq<TermView>) {
    match known_id(mphf, terms, serialized_term(term, None)) {
        Err(e) => (Err(e), extras),
        Ok(Some(id)) => (Ok(id), extras),
        Ok(None) => {
            let position = position_of(extras, term);
            let id = terms.config().num_terms + position;
            if id > usize::MAX {
                (Err(DatasetFailure::TooManyTerms), extras)
            } else if position < extras.len() {
                (Ok(id as usize), extras)
            } else {
                (Ok(id as usize), extras.push(term))
            }
        },
    }
}

/// The quads that have one of the given subjects and match a pattern, one subject after the other.
pub open spec fn matching_subjects(
    quads: Seq<Seq<usize>>,
    subjects: Seq<usize>,
    pattern: QuadPattern,
) -> Seq<Seq<usize>>
    decreases subjects.len(),
{
    if subjects.len() == 0 {
        Seq::empty()
    } else {
        matching_subjects(quads, subjects.drop_last(), pattern) + matching(
            quads,
            QuadOrder::Spog,
            QuadPattern { subject: Some(subjects.last()), ..pattern },
        )
    }
}

impl SuccinctDatasetView {
    /// The parts of the dataset can be queried.
    pub closed spec fn well_formed(self) -> bool {
        &&& self.terms.well_formed()
        &&& self.spog_quads.well_formed()
        &&& self.opsg_quads.well_formed()
        &&& self.predicate_to_subject.well_formed()
    }

    /// The map from terms to ids.
    pub closed spec fn mphf(self) -> TermMphf {
        self.terms_mphf
    }

    /// The terms.
    pub closed spec fn terms(self) -> TermStore {
        self.terms
    }

    /// The quads, in the order subject, predicate, object, graph.
    pub closed spec fn spog(self) -> QuadStore {
        self.spog_quads
    }

    /// The quads, in the order object, predicate, subject, graph.
    pub closed spec fn opsg(self) -> QuadStore {
        self.opsg_quads
    }

    /// The index from predicates to subjects.
    pub closed spec fn predicates(self) -> SecondaryIndex {
        self.predicate_to_subject
    }

    /// The id of the default graph, if some quad is in it.
    pub closed spec fn default_graph(self) -> Option<usize> {
        self.default_graph_name
    }

    /// The terms that are not in the dataset and were given an id.
    pub closed spec fn extras(self) -> Seq<TermView> {
        term_views(self.extras@)
    }

    /// A dataset made of its parts.
    pub fn new(
        terms_mphf: TermMphf,
        terms: TermStore,
        spog_quads: QuadStore,
        opsg_quads: QuadStore,
        predicate_to_subject: SecondaryIndex,
    ) -> (res: Result<Self, SuccinctDatasetError>)
        requires
            terms.well_formed(),
            spog_quads.well_formed(),
            opsg_quads.well_formed(),
            predicate_to_subject.well_formed(),
        ensures
            match known_id(
                terms_mphf,
                terms,
                Ok(serialized_graph_name(GraphNameView::DefaultGraph)),
            ) {
                Err(e) => res is Err && res->Err_0 == SuccinctDatasetError(e),
                Ok(id) => res matches Ok(view) && {
                    &&& view.well_formed()
                    &&& view.mphf() == terms_mphf
                    &&& view.terms() == terms
                    &&& view.spog() == spog_quads
                    &&& view.opsg() == opsg_quads
                    &&& view.predicates() == predicate_to_subject
                    &&& view.default_graph() == id
                    &&& view.extras() == Seq::<TermView>::empty()
                },
            },
    {
        let mut view = SuccinctDatasetView {
            terms_mphf,
            terms,
            spog_quads,
            opsg_quads,
            predicate_to_subject,
            default_graph_name: None,
            extras: Vec::new(),
            dataset: InternalizedDatasetSpec { default: None, named: None },
        };
        let default_graph_name: Option<usize> = view.internalize_graph_name(
            &GraphName::DefaultGraph,
        )?;
        view.default_graph_name = default_graph_name;
        assert(view.extras() =~= Seq::empty());
        Ok(view)
    }

    /// The id of the name of a graph, if some quad is in it.
    pub fn internalize_graph_name(&self, graph_name: &GraphName) -> (res: Result<
        Option<usize>,
        SuccinctDatasetError,
    >)
        requires
            self.well_formed(),
        ensures
            match known_id(self.mphf(), self.terms(), Ok(serialized_graph_name(graph_name@))) {
                Err(e) => res is Err && res->Err_0 == SuccinctDatasetError(e),
                Ok(id) => res matches Ok(i) && i == id,
            },
    {
        match serialize_graph_name(graph_name) {
            Err(e) => Err(SuccinctDatasetError(DatasetFailure::Term(e))),
            Ok(bytes) => find_bytes(&self.terms_mphf, &self.terms, &bytes),
        }
    }

    /// The graph that quads are searched by: the default graph must be that of some quad, and have
    /// the smallest id.
    pub open spec fn wanted_graph(self, graph_name: Option<Option<usize>>) -> Result<
        Option<usize>,
        DatasetFailure,
    > {
        match graph_name {
            None => Ok(None),
            Some(Some(id)) => Ok(Some(id)),
            Some(None) => if self.default_graph() == Some(0usize) {
                Ok(Some(0usize))
            } else {
                Err(DatasetFailure::NoDefaultGraph)
            },
        }
    }

    fn resolve_graph(&self, graph_name: Option<Option<usize>>) -> (res: Result<
        Option<usize>,
        SuccinctDatasetError,
    >)
        ensures
            match self.wanted_graph(graph_name) {
                Err(e) => res is Err && res->Err_0 == SuccinctDatasetError(e),
                Ok(id) => res matches Ok(i) && i == id,
            },
    {
        match graph_name {
            None => Ok(None),
            Some(Some(id)) => Ok(Some(id)),
            Some(None) => match self.default_graph_name {
                None => Err(SuccinctDatasetError(DatasetFailure::NoDefaultGraph)),
                Some(id) => {
                    if id != 0 {
                        Err(SuccinctDatasetError(DatasetFailure::NoDefaultGraph))
                    } else {
                        Ok(Some(id))
                    }
                },
            },
        }
    }

    /// The quad store of an order.
    pub open spec fn store(self, order: QuadOrder) -> QuadStore {
        match order {
            QuadOrder::Spog => self.spog(),
            QuadOrder::Opsg => self.opsg(),
        }
    }

    /// Whether all the quads can be read, and are found by the indexes.
    pub open spec fn intact(self) -> bool {
        self.spog().intact() && self.opsg().intact()
    }

    /// What is found of a pattern by the terms that quads start with in an order.
    pub open spec fn prefix_answers(
        self,
        order: QuadOrder,
        first: usize,
        second: Option<usize>,
        pattern: QuadPattern,
        found: Seq<Result<InternalQuad, SuccinctDatasetError>>,
    ) -> bool {
        exists|res: Result<Option<Seq<Result<Seq<usize>, QuadsError>>>, QuadsError>| #[trigger]
            self.store(order).prefix_answer(first, second, res) && found == prefix_results(
                res,
                order,
                pattern,
                self.default_graph(),
            )
    }

    /// What is found of a pattern among the quads of a subject that the index lists for a predicate:
    /// an error if there are none.
    pub open spec fn subject_answers(
        self,
        subject: usize,
        predicate: usize,
        pattern: QuadPattern,
        found: Seq<Result<InternalQuad, SuccinctDatasetError>>,
    ) -> bool {
        exists|res: Result<Option<Seq<Result<Seq<usize>, QuadsError>>>, QuadsError>| #[trigger]
            self.spog().prefix_answer(subject, Some(predicate), res) && found == (match res {
                Ok(None) => seq![Err(SuccinctDatasetError(DatasetFailure::IndexMismatch))],
                _ => prefix_results(
                    res,
                    QuadOrder::Spog,
                    QuadPattern { subject: Some(subject), ..pattern },
                    self.default_graph(),
                ),
            })
    }

    /// What is found of a pattern among the quads of each of the subjects that the index lists for a
    /// predicate.
    pub open spec fn each_subject_answers(
        self,
        subjects: Seq<usize>,
        predicate: usize,
        pattern: QuadPattern,
        parts: Seq<Seq<Result<InternalQuad, SuccinctDatasetError>>>,
    ) -> bool {
        &&& parts.len() == subjects.len()
        &&& forall|i: int|
            0 <= i < parts.len() ==> self.subject_answers(
                subjects[i],
                predicate,
                pattern,
                #[trigger] parts[i],
            )
    }

    /// What is found of a pattern among the quads of the subjects that the index lists for a
    /// predicate, one subject after the other.
    pub open spec fn subjects_answer(
        self,
        subjects: Seq<usize>,
        predicate: usize,
        pattern: QuadPattern,
        found: Seq<Result<InternalQuad, SuccinctDatasetError>>,
    ) -> bool {
        exists|parts: Seq<Seq<Result<InternalQuad, SuccinctDatasetError>>>| #[trigger]
            self.each_subject_answers(subjects, predicate, pattern, parts) && found
                == one_after_other(parts)
    }

    /// What is found of a pattern: quads, and the errors that are met.
    pub open spec fn answers(
        self,
        pattern: QuadPattern,
        found: Seq<Result<InternalQuad, SuccinctDatasetError>>,
    ) -> bool {
        if let Some(subject) = pattern.subject {
            self.prefix_answers(QuadOrder::Spog, subject, pattern.predicate, pattern, found)
        } else if let Some(object) = pattern.object {
            self.prefix_answers(QuadOrder::Opsg, object, pattern.predicate, pattern, found)
        } else if let Some(predicate) = pattern.predicate {
            match self.predicates().firsts(predicate) {
                None => found.len() == 0,
                Some(subjects) => self.subjects_answer(subjects, predicate, pattern, found),
            }
        } else {
            found == found_results(
                results_of_partitions(self.spog().partitions()),
                QuadOrder::Spog,
                pattern,
                self.default_graph(),
            )
        }
    }

    /// The quads that match a pattern, and the errors that are met.
    ///
    /// For `graph_name`, `Some(None)` stands for the default graph and `Some(Some(_))` for a named
    /// graph.
    pub fn internal_quads_for_pattern(
        &self,
        subject: Option<usize>,
        predicate: Option<usize>,
        object: Option<usize>,
        graph_name: Option<Option<usize>>,
    ) -> (found: Vec<Result<InternalQuad, SuccinctDatasetError>>)
        requires
            self.well_formed(),
        ensures
            match self.wanted_graph(graph_name) {
                Err(e) => found@ == seq![
                    Err::<InternalQuad, SuccinctDatasetError>(SuccinctDatasetError(e)),
                ],
                Ok(graph_name) => self.answers(
                    (QuadPattern { subject, predicate, object, graph_name }),
                    found@,
                ),
            },
    {
        let wanted: Option<usize> = match self.resolve_graph(graph_name) {
            Err(e) => {
                return vec![Err(e)];
            },
            Ok(wanted) => wanted,
        };
        let pattern = QuadPattern { subject, predicate, object, graph_name: wanted };
        match subject {
            Some(subject) => self.quads_by_prefix(QuadOrder::Spog, subject, predicate, pattern),
            None => match object {
                Some(object) => self.quads_by_prefix(QuadOrder::Opsg, object, predicate, pattern),
                None => match predicate {
                    Some(predicate) => self.quads_with_predicate(predicate, pattern),
                    None => {
                        let list = self.spog_quads.iter_all_quads();
                        let mut found: Vec<Result<InternalQuad, SuccinctDatasetError>> = Vec::new();
                        push_matching(
                            &mut found,
                            &list,
                            QuadOrder::Spog,
                            pattern,
                            self.default_graph_name,
                        );
                        assert(found@ =~= found_results(
                            results_of_partitions(self.spog().partitions()),
                            QuadOrder::Spog,
                            pattern,
                            self.default_graph(),
                        ));
                        found
                    },
                },
            },
        }
    }

    /// The quads that match a pattern, found by their first term in some order, or by the first two.
    fn quads_by_prefix(
        &self,
        order: QuadOrder,
        first: usize,
        second: Option<usize>,
        pattern: QuadPattern,
    ) -> (found: Vec<Result<InternalQuad, SuccinctDatasetError>>)
        requires
            self.well_formed(),
        ensures
            self.prefix_answers(order, first, second, pattern, found@),
    {
        let store: &QuadStore = match order {
            QuadOrder::Spog => &self.spog_quads,
            QuadOrder::Opsg => &self.opsg_quads,
        };
        let mut found: Vec<Result<InternalQuad, SuccinctDatasetError>> = Vec::new();
        match second {
            None => {
                let res = store.iter_quads_by_first_term(first);
                let ghost answer = list_view(res);
                match res {
                    Err(e) => {
                        found.push(Err(SuccinctDatasetError(DatasetFailure::Quads(e))));
                    },
                    Ok(list) => {
                        push_matching(&mut found, &list, order, pattern, self.default_graph_name);
                    },
                }
                assert(self.store(order).prefix_answer(first, second, answer));
                assert(found@ =~= prefix_results(answer, order, pattern, self.default_graph()));
            },
            Some(second_term) => {
                let res = store.iter_quads_by_first_two_terms(first, second_term);
                let ghost answer = answer_view(res);
                match res {
                    Err(e) => {
                        found.push(Err(SuccinctDatasetError(DatasetFailure::Quads(e))));
                    },
                    Ok(None) => {},
                    Ok(Some(list)) => {
                        push_matching(&mut found, &list, order, pattern, self.default_graph_name);
                    },
                }
                assert(self.store(order).prefix_answer(first, second, answer));
                assert(found@ =~= prefix_results(answer, order, pattern, self.default_graph()));
            },
        }
        found
    }

    /// The quads of a subject that the index lists for a predicate, and that match a pattern.
    fn quads_of_subject(&self, subject: usize, predicate: usize, pattern: QuadPattern) -> (found: Vec<
        Result<InternalQuad, SuccinctDatasetError>,
    >)
        requires
            self.well_formed(),
        ensures
            self.subject_answers(subject, predicate, pattern, found@),
    {
        let with_subject = QuadPattern {
            subject: Some(subject),
            predicate: pattern.predicate,
            object: pattern.object,
            graph_name: pattern.graph_name,
        };
        assert(with_subject == QuadPattern { subject: Some(subject), ..pattern });
        let mut found: Vec<Result<InternalQuad, SuccinctDatasetError>> = Vec::new();
        let res = self.spog_quads.iter_quads_by_first_two_terms(subject, predicate);
        let ghost answer = answer_view(res);
        assert(self.spog().prefix_answer(subject, Some(predicate), answer));
        match res {
            Err(e) => {
                found.push(Err(SuccinctDatasetError(DatasetFailure::Quads(e))));
                assert(found@ =~= prefix_results(
                    answer,
                    QuadOrder::Spog,
                    with_subject,
                    self.default_graph(),
                ));
            },
            Ok(None) => {
                found.push(Err(SuccinctDatasetError(DatasetFailure::IndexMismatch)));
                assert(found@ =~= seq![
                    Err::<InternalQuad, SuccinctDatasetError>(
                        SuccinctDatasetError(DatasetFailure::IndexMismatch),
                    ),
                ]);
            },
            Ok(Some(list)) => {
                push_matching(
                    &mut found,
                    &list,
                    QuadOrder::Spog,
                    with_subject,
                    self.default_graph_name,
                );
                assert(found@ =~= prefix_results(
                    answer,
                    QuadOrder::Spog,
                    with_subject,
                    self.default_graph(),
                ));
            },
        }
        found
    }

    /// The quads that match a pattern with a predicate only, and maybe a graph.
    fn quads_with_predicate(&self, predicate: usize, pattern: QuadPattern) -> (found: Vec<
        Result<InternalQuad, SuccinctDatasetError>,
    >)
        requires
            self.well_formed(),
            pattern.subject is None,
            pattern.predicate == Some(predicate),
            pattern.object is None,
        ensures
            self.answers(pattern, found@),
    {
        let mut found: Vec<Result<InternalQuad, SuccinctDatasetError>> = Vec::new();
        let subjects: &Vec<usize> = match self.predicate_to_subject.get(predicate) {
            None => {
                return found;
            },
            Some(subjects) => subjects,
        };
        let mut i: usize = 0;
        let ghost mut parts: Seq<Seq<Result<InternalQuad, SuccinctDatasetError>>> = Seq::empty();
        assert(found@ =~= one_after_other(parts));
        while i < subjects.len()
            invariant
                self.well_formed(),
                i <= subjects@.len(),
                parts.len() == i,
                forall|j: int|
                    0 <= j < i ==> self.subject_answers(
                        subjects@[j],
                        predicate,
                        pattern,
                        #[trigger] parts[j],
                    ),
                found@ == one_after_other(parts),
            decreases subjects@.len() - i,
        {
            let mut here = self.quads_of_subject(subjects[i], predicate, pattern);
            let ghost before = found@;
            let ghost added = here@;
            found.append(&mut here);
            proof {
                assert(parts.push(added).drop_last() =~= parts);
                parts = parts.push(added);
                assert(found@ =~= before + added);
            }
            i = i + 1;
        }
        assert(self.each_subject_answers(subjects@, predicate, pattern, parts));
        found
    }

    /// Whether another state of the dataset has the same terms and quads.
    pub open spec fn same_data(self, other: Self) -> bool {
        &&& self.mphf() == other.mphf()
        &&& self.terms() == other.terms()
        &&& self.spog() == other.spog()
        &&& self.opsg() == other.opsg()
        &&& self.predicates() == other.predicates()
        &&& self.default_graph() == other.default_graph()
    }

    /// The id of a term. A term that is not in the dataset is added to a list when it is first met,
    /// and its id is the position in the list, after the ids of the dataset.
    pub fn internalize_term(&mut self, term: Term) -> (res: Result<usize, SuccinctDatasetError>)
        requires
            old(self).well_formed(),
        ensures
            final(self).well_formed(),
            final(self).same_data(*old(self)),
            ({
                let (id, extras) = internalized(
                    old(self).mphf(),
                    old(self).terms(),
                    old(self).extras(),
                    term@,
                );
                &&& final(self).extras() == extras
                &&& match id {
                    Err(e) => res is Err && res->Err_0 == SuccinctDatasetError(e),
                    Ok(id) => res is Ok && res->Ok_0 == id,
                }
            }),
    {
        match serialize_term(&term, None) {
            Err(_) => {},
            Ok(bytes) => match find_bytes(&self.terms_mphf, &self.terms, &bytes)? {
                Some(id) => {
                    return Ok(id);
                },
                None => {},
            },
        }
        let known: usize = self.terms.len();
        let mut i: usize = 0;
        while i < self.extras.len()
            invariant
                *self == *old(self),
                known == self.terms().config().num_terms,
                self.well_formed(),
                known_id(self.mphf(), self.terms(), serialized_term(term@, None)) == Ok::<
                    Option<usize>,
                    DatasetFailure,
                >(None),
                i <= self.extras@.len(),
                forall|j: int| 0 <= j < i ==> self.extras()[j] != term@,
            decreases self.extras@.len() - i,
        {
            assert(self.extras()[i as int] == self.extras@[i as int]@);
            if term_eq(&self.extras[i], &term) {
                proof {
                    lemma_position_of(self.extras(), term@, i as int);
                }
                if known > usize::MAX - i {
                    return Err(SuccinctDatasetError(DatasetFailure::TooManyTerms));
                }
                return Ok(known + i);
            }
            i = i + 1;
        }
        proof {
            lemma_position_of(self.extras(), term@, i as int);
        }
        let extra: usize = self.extras.len();
        if known > usize::MAX - extra {
            return Err(SuccinctDatasetError(DatasetFailure::TooManyTerms));
        }
        let ghost view = term@;
        self.extras.push(term);
        assert(self.extras() =~= old(self).extras().push(view));
        Ok(known + extra)
    }

    /// The term of an id: one of the dataset, or one that is not in it and was given the id.
    pub open spec fn term_of(self, id: usize) -> Result<TermView, DatasetFailure> {
        match self.terms().term(id as nat) {
            Err(e) => Err(DatasetFailure::Terms(e)),
            Ok(None) => {
                let position = id - self.terms().config().num_terms;
                if position < self.extras().len() {
                    Ok(self.extras()[position])
                } else {
                    Err(DatasetFailure::UnknownTerm(id))
                }
            },
            Ok(Some(bytes)) => match deserialized_term(bytes, self.terms().dictionary()) {
                Err(e) => Err(DatasetFailure::Term(e)),
                Ok(term) => Ok(term),
            },
        }
    }

    /// The term of an id: one of the dataset, or one that is not in it and was given the id.
    pub fn externalize_term(&self, term: usize) -> (res: Result<Term, SuccinctDatasetError>)
        requires
            self.well_formed(),
        ensures
            match self.term_of(term) {
                Err(e) => res is Err && res->Err_0 == SuccinctDatasetError(e),
                Ok(view) => res matches Ok(t) && t@ == view,
            },
    {
        match self.terms.get(term) {
            Err(e) => Err(SuccinctDatasetError(DatasetFailure::Terms(e))),
            Ok(None) => {
                let known: usize = self.terms.len();
                if term - known < self.extras.len() {
                    assert(self.extras()[term - known] == self.extras@[term - known]@);
                    Ok(copy_term(&self.extras[term - known]))
                } else {
                    Err(SuccinctDatasetError(DatasetFailure::UnknownTerm(term)))
                }
            },
            Ok(Some(bytes)) => match deserialize_term(
                bytes.as_slice(),
                self.terms.get_dictionary(),
            ) {
                Err(e) => Err(SuccinctDatasetError(DatasetFailure::Term(e))),
                Ok(t) => Ok(t),
            },
        }
    }

    /// Whether the dataset holds terms that are written as given strings and known by given keys,
    /// each with its position as id.
    pub open spec fn holds_strings(self, strings: Seq<Seq<u8>>, keys: Seq<Seq<u8>>) -> bool {
        &&& stores(self.terms().config(), self.terms().files(), strings)
        &&& self.terms().is_indexed()
        &&& mphf_keys(strings, self.terms().dictionary()) == Ok::<Seq<Seq<u8>>, TermsError>(keys)
        &&& self.mphf().numbers(keys)
    }

    /// Whether the dataset holds terms that are known by given keys, each with its position as id.
    pub open spec fn holds_terms(self, keys: Seq<Seq<u8>>) -> bool {
        exists|strings: Seq<Seq<u8>>| #[trigger] self.holds_strings(strings, keys)
    }

    /// What the dataset holds at an id: a string that is known by the key of that id, or nothing if
    /// there is none.
    pub proof fn lemma_held(self, keys: Seq<Seq<u8>>, id: nat)
        requires
            self.terms().config().well_formed(),
            self.holds_terms(keys),
        ensures
            keys.len() == self.terms().config().num_terms,
            match self.terms().term(id) {
                Err(_) => false,
                Ok(None) => id >= keys.len(),
                Ok(Some(string)) => id < keys.len() && mphf_key(string, self.terms().dictionary())
                    == Ok::<Seq<u8>, TermsError>(keys[id as int]),
            },
    {
        let strings = choose|strings: Seq<Seq<u8>>| #[trigger] self.holds_strings(strings, keys);
        lemma_mphf_key_at(strings, self.terms().dictionary(), id as int);
        lemma_stored_term(self.terms().config(), self.terms().files(), strings, id);
        self.terms().lemma_indexed_term(id);
    }

    /// A term of the dataset has an id, and the id has that term.
    pub proof fn lemma_known_term(self, keys: Seq<Seq<u8>>, i: int, term: TermView)
        requires
            self.terms().config().well_formed(),
            self.holds_terms(keys),
            0 <= i < keys.len(),
            serialized_term(term, None) == Ok::<Seq<u8>, TermError>(keys[i]),
            keys[i].len() <= usize::MAX,
        ensures
            known_id(self.mphf(), self.terms(), serialized_term(term, None)) == Ok::<
                Option<usize>,
                DatasetFailure,
            >(Some(i as usize)),
            self.term_of(i as usize) == Ok::<TermView, DatasetFailure>(term),
    {
        assert(self.mphf().id_of(keys[i]) == Some(i as usize));
        self.lemma_held(keys, i as nat);
        lemma_key_read(
            self.terms().term(i as nat)->Ok_0->Some_0,
            self.terms().dictionary(),
            term,
        );
    }

    /// A term that is not in the dataset has no id of the dataset.
    pub proof fn lemma_unknown_term(self, keys: Seq<Seq<u8>>, term: TermView)
        requires
            self.terms().config().well_formed(),
            self.holds_terms(keys),
            serialized_term(term, None) matches Ok(bytes) ==> !keys.contains(bytes),
        ensures
            known_id(self.mphf(), self.terms(), serialized_term(term, None)) == Ok::<
                Option<usize>,
                DatasetFailure,
            >(None),
    {
        match serialized_term(term, None) {
            Err(_) => {},
            Ok(bytes) => match self.mphf().id_of(bytes) {
                None => {},
                Some(id) => {
                    self.lemma_held(keys, id as nat);
                },
            },
        }
    }

    /// The bytes that a term, or the name of a graph, is known by are found at its position, and
    /// other bytes are not found.
    pub proof fn lemma_bytes_found(self, keys: Seq<Seq<u8>>, bytes: Seq<u8>)
        requires
            self.terms().config().well_formed(),
            self.holds_terms(keys),
        ensures
            known_id(self.mphf(), self.terms(), Ok(bytes)) matches Ok(id) && match id {
                Some(id) => id < keys.len() && keys[id as int] == bytes,
                None => !keys.contains(bytes),
            },
    {
        if keys.contains(bytes) {
            let i = choose|i: int| 0 <= i < keys.len() && keys[i] == bytes;
            assert(self.mphf().id_of(keys[i]) == Some(i as usize));
            self.lemma_held(keys, i as nat);
        } else {
            match self.mphf().id_of(bytes) {
                None => {},
                Some(id) => {
                    self.lemma_held(keys, id as nat);
                },
            }
        }
    }

    /// Every term is given an id, whatever its kind, as long as the terms that are known and those
    /// that were met can be counted: a term of the dataset its position there, and any other one
    /// the position, after those of the dataset, that it has in the list of terms that were met,
    /// at the end of which it is put if it is not there.
    #[verifier::rlimit(50)]
    pub proof fn lemma_id_given(self, keys: Seq<Seq<u8>>, extras: Seq<TermView>, term: TermView)
        requires
            self.terms().config().well_formed(),
            self.holds_terms(keys),
            keys.len() + extras.len() <= usize::MAX,
        ensures
            ({
                let (id, after) = internalized(self.mphf(), self.terms(), extras, term);
                let known = serialized_term(term, None) matches Ok(bytes) && keys.contains(bytes);
                &&& id is Ok
                &&& known ==> {
                    &&& id->Ok_0 < keys.len()
                    &&& Ok::<Seq<u8>, TermError>(keys[id->Ok_0 as int]) == serialized_term(
                        term,
                        None,
                    )
                }
                &&& !known ==> {
                    &&& keys.len() <= id->Ok_0 < keys.len() + after.len()
                    &&& after[id->Ok_0 - keys.len()] == term
                }
                &&& after == if known || extras.contains(term) {
                    extras
                } else {
                    extras.push(term)
                }
            }),
    {
        self.lemma_held(keys, 0);
        lemma_position_contains(extras, term);
        let bytes = serialized_term(term, None);
        if bytes is Ok && keys.contains(bytes->Ok_0) {
            let i = choose|i: int| 0 <= i < keys.len() && keys[i] == bytes->Ok_0;
            assert(self.mphf().id_of(keys[i]) == Some(i as usize));
            self.lemma_held(keys, i as nat);
            assert(known_id(self.mphf(), self.terms(), bytes) == Ok::<
                Option<usize>,
                DatasetFailure,
            >(Some(i as usize)));
        } else {
            self.lemma_unknown_term(keys, term);
        }
    }

    /// The id that a term was given is read back as that term, whether or not it is in the dataset,
    /// also after other terms were given ids.
    pub proof fn lemma_id_read_back(self, extras: Seq<TermView>, term: TermView)
        requires
            serialized_term(term, None) matches Ok(bytes) ==> bytes.len() <= usize::MAX,
            internalized(self.mphf(), self.terms(), extras, term).0 is Ok,
            internalized(self.mphf(), self.terms(), extras, term).1.is_prefix_of(self.extras()),
        ensures
            self.term_of(internalized(self.mphf(), self.terms(), extras, term).0->Ok_0) == Ok::<
                TermView,
                DatasetFailure,
            >(term),
    {
        let (id, after) = internalized(self.mphf(), self.terms(), extras, term);
        lemma_position_found(extras, term);
        match known_id(self.mphf(), self.terms(), serialized_term(term, None))->Ok_0 {
            None => {
                let position = position_of(extras, term) as int;
                assert(after[position] == term);
                assert(self.extras()[position] == after[position]);
            },
            Some(i) => {
                lemma_key_read(
                    self.terms().term(i as nat)->Ok_0->Some_0,
                    self.terms().dictionary(),
                    term,
                );
            },
        }
    }
}

/// A string that is known by the bytes of a term stands for that term.
proof fn lemma_key_read(string: Seq<u8>, dictionary: Option<TermDictionary>, term: TermView)
    requires
        serialized_term(term, None) matches Ok(bytes) && bytes.len() <= usize::MAX && mphf_key(
            string,
            dictionary,
        ) == Ok::<Seq<u8>, TermsError>(bytes),
    ensures
        deserialized_term(string, dictionary) == Ok::<TermView, TermError>(term),
{
    let bytes = serialized_term(term, None)->Ok_0;
    assert(bytes.len() > 0);
    if dictionary is None {
        lemma_term_round_trip(term, None);
    } else {
        lemma_serialized_term_injective(term, deserialized_term(string, dictionary)->Ok_0);
    }
}

proof fn lemma_position_found(terms: Seq<TermView>, term: TermView)
    ensures
        position_of(terms, term) <= terms.len(),
        position_of(terms, term) < terms.len() ==> terms[position_of(terms, term) as int] == term,
    decreases terms.len(),
{
    if terms.len() > 0 && terms[0] != term {
        lemma_position_found(terms.drop_first(), term);
    }
}

proof fn lemma_position_contains(terms: Seq<TermView>, term: TermView)
    ensures
        position_of(terms, term) <= terms.len(),
        position_of(terms, term) < terms.len() <==> terms.contains(term),
        position_of(terms, term) < terms.len() ==> terms[position_of(terms, term) as int] == term,
{
    lemma_position_found(terms, term);
    if terms.contains(term) {
        let j = choose|j: int| 0 <= j < terms.len() && terms[j] == term;
        if position_of(terms, term) == terms.len() {
            lemma_position_first(terms, term, j);
        }
    }
}

proof fn lemma_position_prefix(terms: Seq<TermView>, more: Seq<TermView>, term: TermView)
    requires
        position_of(terms, term) < terms.len(),
        terms.is_prefix_of(more),
    ensures
        position_of(more, term) == position_of(terms, term),
    decreases terms.len(),
{
    assert(terms[0] == more[0]);
    if terms[0] != term {
        assert(more.drop_first().take(terms.len() - 1) =~= terms.drop_first());
        lemma_position_prefix(terms.drop_first(), more.drop_first(), term);
    }
}

/// A term that was given an id keeps it, whatever terms were given ids since.
pub proof fn lemma_id_kept(
    mphf: TermMphf,
    terms: TermStore,
    extras: Seq<TermView>,
    term: TermView,
    later: Seq<TermView>,
)
    requires
        internalized(mphf, terms, extras, term).0 is Ok,
        internalized(mphf, terms, extras, term).1.is_prefix_of(later),
    ensures
        internalized(mphf, terms, later, term) == (
            internalized(mphf, terms, extras, term).0,
            later,
        ),
{
    if known_id(mphf, terms, serialized_term(term, None)) == Ok::<Option<usize>, DatasetFailure>(
        None,
    ) {
        let after = internalized(mphf, terms, extras, term).1;
        lemma_position_found(extras, term);
        if position_of(extras, term) == extras.len() {
            assert forall|j: int| 0 <= j < extras.len() implies after[j] != term by {
                lemma_position_first(extras, term, j);
            }
            lemma_position_of(after, term, extras.len() as int);
        }
        lemma_position_prefix(after, later, term);
    }
}

proof fn lemma_position_first(terms: Seq<TermView>, term: TermView, j: int)
    requires
        0 <= j < position_of(terms, term),
    ensures
        j < terms.len(),
        terms[j] != term,
    decreases terms.len(),
{
    lemma_position_found(terms, term);
    if j > 0 {
        lemma_position_first(terms.drop_first(), term, j - 1);
    }
}

/// Different terms are given different ids.
pub proof fn lemma_ids_distinct(
    mphf: TermMphf,
    terms: TermStore,
    extras: Seq<TermView>,
    a: TermView,
    later: Seq<TermView>,
    b: TermView,
)
    requires
        a != b,
        serialized_term(a, None) matches Ok(bytes) ==> bytes.len() <= usize::MAX,
        internalized(mphf, terms, extras, a).0 is Ok,
        internalized(mphf, terms, extras, a).1.is_prefix_of(later),
    ensures
        internalized(mphf, terms, later, b).0 != internalized(mphf, terms, extras, a).0,
{
    lemma_id_kept(mphf, terms, extras, a, later);
    lemma_position_found(later, a);
    lemma_position_found(later, b);
    let of_a = known_id(mphf, terms, serialized_term(a, None));
    let of_b = known_id(mphf, terms, serialized_term(b, None));
    if of_a is Ok && of_a->Ok_0 is Some && of_a == of_b {
        lemma_serialized_term_injective(a, b);
    }
    if of_a == Ok::<Option<usize>, DatasetFailure>(None) {
        let after = internalized(mphf, terms, extras, a).1;
        lemma_position_found(extras, a);
        lemma_position_found(after, a);
        lemma_id_kept(mphf, terms, extras, a, after);
        assert(position_of(later, a) < later.len());
        if position_of(later, b) == position_of(later, a) {
            assert(later[position_of(later, a) as int] == a);
        }
    }
}

/// How often a quad is found in a list: as often as it is in the list, if it matches.
proof fn lemma_matching_count(
    quads: Seq<Seq<usize>>,
    order: QuadOrder,
    pattern: QuadPattern,
    quad: Seq<usize>,
)
    requires
        forall|i: int| 0 <= i < quads.len() ==> (#[trigger] quads[i]).len() == 4,
    ensures
        matching(quads, order, pattern).to_multiset().count(quad) == (if quad.len() == 4
            && pattern.matches(quad) {
            quads.to_multiset().count(order.order(quad))
        } else {
            0
        }),
    decreases quads.len(),
{
    broadcast use vstd::multiset::group_multiset_axioms;

    if quads.len() == 0 {
        reveal(Seq::filter);
        assert(matching(quads, order, pattern) =~= Seq::empty());
        assert(quads =~= Seq::empty());
        to_multiset_empty(quads);
        to_multiset_empty(matching(quads, order, pattern));
    } else {
        let before = quads.drop_last();
        let last = quads.last();
        assert(before.push(last) =~= quads);
        lemma_matching_count(before, order, pattern, quad);
        lemma_matching_push(before, last, order, pattern);
        to_multiset_push(before, last);
        to_multiset_push(matching(before, order, pattern), order.reverse(last));
        lemma_order_inverse(order, last);
        if quad.len() == 4 {
            lemma_order_inverse(order, quad);
        }
        assert(order.reverse(last).len() == 4);
    }
}

proof fn to_multiset_empty(quads: Seq<Seq<usize>>)
    requires
        quads.len() == 0,
    ensures
        forall|quad: Seq<usize>| #[trigger] quads.to_multiset().count(quad) == 0,
{
    broadcast use vstd::multiset::group_multiset_axioms;

    assert forall|quad: Seq<usize>| #[trigger] quads.to_multiset().count(quad) == 0 by {
        vstd::seq_lib::to_multiset_contains(quads, quad);
    }
}

proof fn to_multiset_push(quads: Seq<Seq<usize>>, quad: Seq<usize>)
    ensures
        quads.push(quad).to_multiset() == quads.to_multiset().insert(quad),
{
    vstd::seq_lib::to_multiset_build(quads, quad);
}

/// How often a quad is found among those of distinct subjects.
proof fn lemma_matching_subjects_count(
    quads: Seq<Seq<usize>>,
    subjects: Seq<usize>,
    pattern: QuadPattern,
    quad: Seq<usize>,
)
    requires
        forall|i: int| 0 <= i < quads.len() ==> (#[trigger] quads[i]).len() == 4,
        increasing(subjects),
        pattern.subject is None,
    ensures
        matching_subjects(quads, subjects, pattern).to_multiset().count(quad) == (if quad.len()
            == 4 && pattern.matches(quad) && subjects.contains(quad[0]) {
            quads.to_multiset().count(quad)
        } else {
            0
        }),
    decreases subjects.len(),
{
    broadcast use vstd::multiset::group_multiset_axioms;

    if subjects.len() == 0 {
        to_multiset_empty(matching_subjects(quads, subjects, pattern));
    } else {
        let before = subjects.drop_last();
        let last = subjects.last();
        lemma_matching_subjects_count(quads, before, pattern, quad);
        let here = QuadPattern { subject: Some(last), ..pattern };
        lemma_matching_count(quads, QuadOrder::Spog, here, quad);
        let a = matching_subjects(quads, before, pattern);
        let b = matching(quads, QuadOrder::Spog, here);
        vstd::seq_lib::lemma_multiset_commutative(a, b);
        assert(here.matches(quad) == (quad[0] == last && pattern.matches(quad)));
        if subjects.contains(quad[0]) {
            let i = choose|i: int| 0 <= i < subjects.len() && subjects[i] == quad[0];
            if i < before.len() {
                assert(before[i] == quad[0]);
                assert(subjects[i] < subjects[subjects.len() - 1]);
            }
        }
        if before.contains(quad[0]) {
            let i = choose|i: int| 0 <= i < before.len() && before[i] == quad[0];
            assert(subjects[i] == quad[0]);
            assert(subjects[i] < subjects[subjects.len() - 1]);
        }
        assert(subjects.contains(last)) by {
            assert(subjects[subjects.len() - 1] == last);
        }
    }
}

impl SuccinctDatasetView {
    /// Whether both quad stores and the index of predicates are those of given quads, in the order
    /// subject, predicate, object, graph.
    pub open spec fn holds_quads(self, quads: Seq<Seq<usize>>) -> bool {
        &&& forall|i: int|
            0 <= i < quads.len() ==> (#[trigger] quads[i]).len() == 4 && quads[i][0]
                < self.spog().config().num_terms
        &&& self.spog().quads().to_multiset() == quads.to_multiset()
        &&& self.opsg().quads().to_multiset() == quads.map_values(
            |quad: Seq<usize>| QuadOrder::Opsg.order(quad),
        ).to_multiset()
        &&& self.predicates().indexes(self.spog().quads())
    }

    /// Whether quads are found for a pattern, each as often as it is in the dataset.
    pub open spec fn finds(
        self,
        quads: Seq<Seq<usize>>,
        pattern: QuadPattern,
        found: Seq<InternalQuad>,
    ) -> bool {
        exists|matched: Seq<Seq<usize>>| #[trigger]
            internal_quads(matched, self.default_graph()) == found && matched.to_multiset()
                == matching(quads, QuadOrder::Spog, pattern).to_multiset()
    }

    /// What is found by the terms that quads start with in an order: the quads that match.
    proof fn lemma_prefix_query(
        self,
        order: QuadOrder,
        first: usize,
        pattern: QuadPattern,
        found: Seq<Result<InternalQuad, SuccinctDatasetError>>,
    )
        requires
            self.intact(),
            first < self.store(order).config().num_terms,
            match order {
                QuadOrder::Spog => pattern.subject == Some(first),
                QuadOrder::Opsg => pattern.object == Some(first),
            },
            self.prefix_answers(order, first, pattern.predicate, pattern, found),
        ensures
            found == all_found(
                internal_quads(
                    matching(self.store(order).quads(), order, pattern),
                    self.default_graph(),
                ),
            ),
    {
        let store = self.store(order);
        let second = pattern.predicate;
        let res = choose|
            res: Result<Option<Seq<Result<Seq<usize>, QuadsError>>>, QuadsError>,
        | #[trigger]
            store.prefix_answer(first, second, res) && found == prefix_results(
                res,
                order,
                pattern,
                self.default_graph(),
            );
        store.lemma_intact_prefix(first, second, res);
        lemma_matching_prefix(store.quads(), order, pattern, first, second);
        let kept = with_prefix(store.quads(), first, second);
        lemma_found_results(kept, order, pattern, self.default_graph());
        if res->Ok_0 is None {
            reveal(Seq::filter);
            assert(kept =~= Seq::empty());
            assert(found =~= all_found(
                internal_quads(matching(kept, order, pattern), self.default_graph()),
            ));
        }
    }

    /// What is found by the index of predicates among the quads of a subject: those that match.
    proof fn lemma_subject_query(
        self,
        subject: usize,
        predicate: usize,
        pattern: QuadPattern,
        found: Seq<Result<InternalQuad, SuccinctDatasetError>>,
    )
        requires
            self.intact(),
            pattern.predicate == Some(predicate),
            self.subject_answers(subject, predicate, pattern, found),
            subject < self.spog().config().num_terms,
            with_prefix(self.spog().quads(), subject, Some(predicate)).len() > 0,
        ensures
            found == all_found(
                internal_quads(
                    matching(
                        self.spog().quads(),
                        QuadOrder::Spog,
                        QuadPattern { subject: Some(subject), ..pattern },
                    ),
                    self.default_graph(),
                ),
            ),
    {
        let with_subject = QuadPattern { subject: Some(subject), ..pattern };
        let default = self.default_graph();
        let res = choose|
            res: Result<Option<Seq<Result<Seq<usize>, QuadsError>>>, QuadsError>,
        | #[trigger]
            self.spog().prefix_answer(subject, Some(predicate), res) && found == (match res {
                Ok(None) => seq![Err(SuccinctDatasetError(DatasetFailure::IndexMismatch))],
                _ => prefix_results(res, QuadOrder::Spog, with_subject, default),
            });
        self.spog().lemma_intact_prefix(subject, Some(predicate), res);
        assert(self.store(QuadOrder::Spog).prefix_answer(subject, Some(predicate), res));
        assert(self.prefix_answers(
            QuadOrder::Spog,
            subject,
            Some(predicate),
            with_subject,
            found,
        ));
        self.lemma_prefix_query(QuadOrder::Spog, subject, with_subject, found);
    }

    /// What is found by the index of predicates: the quads of the subjects that match.
    proof fn lemma_subjects_query(
        self,
        subjects: Seq<usize>,
        predicate: usize,
        pattern: QuadPattern,
        parts: Seq<Seq<Result<InternalQuad, SuccinctDatasetError>>>,
    )
        requires
            self.intact(),
            pattern.predicate == Some(predicate),
            self.each_subject_answers(subjects, predicate, pattern, parts),
            forall|i: int|
                0 <= i < subjects.len() ==> (#[trigger] subjects[i])
                    < self.spog().config().num_terms && with_prefix(
                    self.spog().quads(),
                    subjects[i],
                    Some(predicate),
                ).len() > 0,
        ensures
            one_after_other(parts) == all_found(
                internal_quads(
                    matching_subjects(self.spog().quads(), subjects, pattern),
                    self.default_graph(),
                ),
            ),
        decreases subjects.len(),
    {
        let spog = self.spog().quads();
        let default = self.default_graph();
        if subjects.len() == 0 {
            assert(one_after_other(parts) =~= all_found(
                internal_quads(matching_subjects(spog, subjects, pattern), default),
            ));
        } else {
            let n = subjects.len() - 1;
            let subject = subjects[n];
            let others = subjects.drop_last();
            let before = parts.drop_last();
            assert forall|i: int| 0 <= i < others.len() implies (#[trigger] others[i])
                < self.spog().config().num_terms && with_prefix(
                spog,
                others[i],
                Some(predicate),
            ).len() > 0 by {
                assert(others[i] == subjects[i]);
            }
            assert forall|i: int| 0 <= i < before.len() implies self.subject_answers(
                others[i],
                predicate,
                pattern,
                #[trigger] before[i],
            ) by {
                assert(before[i] == parts[i]);
            }
            self.lemma_subjects_query(others, predicate, pattern, before);
            assert(self.subject_answers(subject, predicate, pattern, parts[n]));
            self.lemma_subject_query(subject, predicate, pattern, parts[n]);
            let with_subject = QuadPattern { subject: Some(subject), ..pattern };
            let a = matching_subjects(spog, others, pattern);
            let b = matching(spog, QuadOrder::Spog, with_subject);
            assert(all_found(internal_quads(a + b, default)) =~= all_found(
                internal_quads(a, default),
            ) + all_found(internal_quads(b, default)));
        }
    }

    /// A query by terms of the dataset finds the quads that match, each as often as it is in the
    /// dataset, and no other, without error.
    #[verifier::rlimit(50)]
    pub proof fn lemma_query(
        self,
        quads: Seq<Seq<usize>>,
        pattern: QuadPattern,
        res: Seq<Result<InternalQuad, SuccinctDatasetError>>,
    ) -> (found: Seq<InternalQuad>)
        requires
            self.intact(),
            self.holds_quads(quads),
            self.answers(pattern, res),
            pattern.subject matches Some(t) ==> t < self.spog().config().num_terms,
            pattern.subject is None ==> (pattern.object matches Some(t) ==> t
                < self.opsg().config().num_terms),
        ensures
            res == all_found(found),
            self.finds(quads, pattern, found),
    {
        broadcast use vstd::multiset::group_multiset_axioms;

        let spog = self.spog().quads();
        let opsg = self.opsg().quads();
        let wanted = matching(quads, QuadOrder::Spog, pattern);
        let default = self.default_graph();
        lemma_same_elements_len(quads, spog);
        let in_spog = matching(spog, QuadOrder::Spog, pattern);
        assert forall|quad: Seq<usize>| #[trigger] in_spog.to_multiset().count(quad)
            == wanted.to_multiset().count(quad) by {
            lemma_matching_count(spog, QuadOrder::Spog, pattern, quad);
            lemma_matching_count(quads, QuadOrder::Spog, pattern, quad);
        }
        assert(in_spog.to_multiset() =~= wanted.to_multiset());
        if let Some(subject) = pattern.subject {
            self.lemma_prefix_query(QuadOrder::Spog, subject, pattern, res);
            internal_quads(in_spog, default)
        } else if let Some(object) = pattern.object {
            let f = |quad: Seq<usize>| QuadOrder::Opsg.order(quad);
            let ordered = quads.map_values(f);
            let in_opsg = matching(opsg, QuadOrder::Opsg, pattern);
            lemma_same_elements_len(ordered, opsg);
            assert forall|quad: Seq<usize>| #[trigger] in_opsg.to_multiset().count(quad)
                == wanted.to_multiset().count(quad) by {
                lemma_matching_count(opsg, QuadOrder::Opsg, pattern, quad);
                lemma_matching_count(quads, QuadOrder::Spog, pattern, quad);
                if quad.len() == 4 {
                    lemma_ordered_count(quads, quad);
                }
            }
            assert(in_opsg.to_multiset() =~= wanted.to_multiset());
            self.lemma_prefix_query(QuadOrder::Opsg, object, pattern, res);
            internal_quads(in_opsg, default)
        } else if let Some(predicate) = pattern.predicate {
            match self.predicates().firsts(predicate) {
                None => {
                    assert forall|quad: Seq<usize>| #[trigger] wanted.to_multiset().count(quad)
                        == 0 by {
                        lemma_matching_count(spog, QuadOrder::Spog, pattern, quad);
                        vstd::seq_lib::to_multiset_contains(spog, quad);
                        if spog.contains(quad) {
                            let i = choose|i: int| 0 <= i < spog.len() && spog[i] == quad;
                            assert(first_terms(spog, quad[1]).contains(spog[i][0]));
                        }
                    }
                    let none: Seq<Seq<usize>> = Seq::empty();
                    to_multiset_empty(none);
                    assert(none.to_multiset() =~= wanted.to_multiset());
                    assert(all_found(internal_quads(none, default)) =~= res);
                    internal_quads(none, default)
                },
                Some(subjects) => {
                    let matched = matching_subjects(spog, subjects, pattern);
                    assert forall|quad: Seq<usize>| #[trigger] matched.to_multiset().count(quad)
                        == wanted.to_multiset().count(quad) by {
                        lemma_matching_subjects_count(spog, subjects, pattern, quad);
                        lemma_matching_count(spog, QuadOrder::Spog, pattern, quad);
                        vstd::seq_lib::to_multiset_contains(spog, quad);
                        if spog.contains(quad) && pattern.matches(quad) {
                            let i = choose|i: int| 0 <= i < spog.len() && spog[i] == quad;
                            assert(first_terms(spog, predicate).contains(spog[i][0]));
                            assert(subjects.to_set().contains(quad[0]));
                        }
                    }
                    assert(matched.to_multiset() =~= wanted.to_multiset());
                    assert forall|i: int| 0 <= i < subjects.len() implies (#[trigger] subjects[i])
                        < self.spog().config().num_terms && with_prefix(
                        spog,
                        subjects[i],
                        Some(predicate),
                    ).len() > 0 by {
                        let subject = subjects[i];
                        assert(subjects.to_set().contains(subject));
                        assert(first_terms(spog, predicate).contains(subject));
                        let k = choose|k: int|
                            0 <= k < spog.len() && (#[trigger] spog[k])[0] == subject
                                && spog[k][1] == predicate;
                        vstd::seq_lib::to_multiset_contains(spog, spog[k]);
                        vstd::seq_lib::to_multiset_contains(quads, spog[k]);
                        assert(spog.contains(spog[k]));
                        assert(quads.contains(spog[k]));
                        lemma_prefix_found(spog, subject, predicate, k);
                    }
                    let parts = choose|
                        parts: Seq<Seq<Result<InternalQuad, SuccinctDatasetError>>>,
                    | #[trigger]
                        self.each_subject_answers(subjects, predicate, pattern, parts) && res
                            == one_after_other(parts);
                    self.lemma_subjects_query(subjects, predicate, pattern, parts);
                    internal_quads(matched, default)
                },
            }
        } else {
            assert forall|p: int| 0 <= p < self.spog().partitions().len() implies (
            #[trigger] self.spog().partitions()[p]).intact() by {}
            lemma_intact_results(self.spog().partitions());
            lemma_found_results(spog, QuadOrder::Spog, pattern, default);
            internal_quads(in_spog, default)
        }
    }
}

proof fn lemma_same_elements_len(a: Seq<Seq<usize>>, b: Seq<Seq<usize>>)
    requires
        a.to_multiset() == b.to_multiset(),
        forall|i: int| 0 <= i < a.len() ==> (#[trigger] a[i]).len() == 4,
    ensures
        forall|i: int| 0 <= i < b.len() ==> (#[trigger] b[i]).len() == 4,
{
    assert forall|i: int| 0 <= i < b.len() implies (#[trigger] b[i]).len() == 4 by {
        vstd::seq_lib::to_multiset_contains(a, b[i]);
        vstd::seq_lib::to_multiset_contains(b, b[i]);
        assert(b.contains(b[i]));
        assert(a.contains(b[i]));
    }
}

proof fn lemma_ordered_count(quads: Seq<Seq<usize>>, quad: Seq<usize>)
    requires
        forall|i: int| 0 <= i < quads.len() ==> (#[trigger] quads[i]).len() == 4,
        quad.len() == 4,
    ensures
        quads.map_values(|quad: Seq<usize>| QuadOrder::Opsg.order(quad)).to_multiset().count(
            QuadOrder::Opsg.order(quad),
        ) == quads.to_multiset().count(quad),
    decreases quads.len(),
{
    broadcast use vstd::multiset::group_multiset_axioms;

    let f = |quad: Seq<usize>| QuadOrder::Opsg.order(quad);
    if quads.len() == 0 {
        to_multiset_empty(quads);
        to_multiset_empty(quads.map_values(f));
    } else {
        let before = quads.drop_last();
        let last = quads.last();
        lemma_ordered_count(before, quad);
        assert(before.push(last) =~= quads);
        assert(before.map_values(f).push(f(last)) =~= quads.map_values(f));
        to_multiset_push(before, last);
        to_multiset_push(before.map_values(f), f(last));
        lemma_order_inverse(QuadOrder::Opsg, last);
        lemma_order_inverse(QuadOrder::Opsg, quad);
    }
}

proof fn lemma_prefix_found(quads: Seq<Seq<usize>>, first: usize, second: usize, k: int)
    requires
        0 <= k < quads.len(),
        quads[k][0] == first,
        quads[k][1] == second,
    ensures
        with_prefix(quads, first, Some(second)).len() > 0,
    decreases quads.len(),
{
    reveal(Seq::filter);
    if k < quads.len() - 1 {
        assert(quads.drop_last()[k] == quads[k]);
        lemma_prefix_found(quads.drop_last(), first, second, k);
    }
}

impl SuccinctDatasetView {
    /// What quads a dataset holds does not depend on the order they are given in.
    pub proof fn lemma_same_quads(self, a: Seq<Seq<usize>>, b: Seq<Seq<usize>>)
        requires
            self.holds_quads(a),
            a.to_multiset() == b.to_multiset(),
        ensures
            self.holds_quads(b),
    {
        broadcast use vstd::multiset::group_multiset_axioms;

        let f = |quad: Seq<usize>| QuadOrder::Opsg.order(quad);
        lemma_same_elements_len(a, b);
        assert forall|i: int| 0 <= i < b.len() implies (#[trigger] b[i]).len() == 4 && b[i][0]
            < self.spog().config().num_terms by {
            vstd::seq_lib::to_multiset_contains(a, b[i]);
            vstd::seq_lib::to_multiset_contains(b, b[i]);
            assert(b.contains(b[i]));
            assert(a.contains(b[i]));
        }
        assert forall|quad: Seq<usize>| #[trigger] a.map_values(f).to_multiset().count(quad)
            == b.map_values(f).to_multiset().count(quad) by {
            if quad.len() == 4 {
                lemma_order_inverse(QuadOrder::Opsg, quad);
                lemma_ordered_count(a, QuadOrder::Opsg.reverse(quad));
                lemma_ordered_count(b, QuadOrder::Opsg.reverse(quad));
            } else {
                vstd::seq_lib::to_multiset_contains(a.map_values(f), quad);
                vstd::seq_lib::to_multiset_contains(b.map_values(f), quad);
                if a.map_values(f).contains(quad) {
                    let i = choose|i: int| 0 <= i < a.len() && a.map_values(f)[i] == quad;
                    assert(quad == f(a[i]));
                }
                if b.map_values(f).contains(quad) {
                    let i = choose|i: int| 0 <= i < b.len() && b.map_values(f)[i] == quad;
                    assert(quad == f(b[i]));
                }
            }
        }
        assert(a.map_values(f).to_multiset() =~= b.map_values(f).to_multiset());
    }
}

} // verus!
