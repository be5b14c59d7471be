//! Indexes from the second terms of quads to their first terms.

use crate::arrays::{item_views, ArraysError, SortedArraysFile};
use crate::graphs::{bv, increasing, lemma_targets_push, targets, Graph};
use crate::indexes::{seq_index_of, sequence_of, MonotoneSeq};
use crate::quads::quads_of_files;
use crate::quads_store::QuadsError;
use sux::bits::BitVec;
use sux::traits::{BitVecOps, BitVecOpsMut};
use vstd::prelude::*;

verus! {

/// Declares bit vectors.
#[verifier::external_type_specification]
#[verifier::external_body]
#[verifier::reject_recursive_types(B)]
pub struct ExBitVec<B>(BitVec<B>);

/// The bits of a vector.
pub uninterp spec fn bit_values(bits: BitVec<Vec<usize>>) -> Seq<bool>;

/// `BitVec::new`: a vector of bits that are all false.
#[verifier::external_body]
pub(crate) fn new_bits(len: usize) -> (bits: BitVec<Vec<usize>>)
    requires
        len < usize::MAX / 2,
    ensures
        bit_values(bits) == Seq::new(len as nat, |i: int| false),
{
    BitVec::new(len)
}

/// `BitVecOpsMut::set`, with `true`: sets a bit.
#[verifier::external_body]
pub(crate) fn set_bit(bits: &mut BitVec<Vec<usize>>, index: usize)
    requires
        index < bit_values(*old(bits)).len(),
    ensures
        bit_values(*final(bits)) == bit_values(*old(bits)).update(index as int, true),
{
    bits.set(index, true);
}

/// `BitVecOps::iter_ones`: the indexes of the bits that are set, in increasing order. There must
/// be at least one bit: an iterator over no bit reads out of bounds.
#[verifier::external_body]
pub(crate) fn set_bits(bits: &BitVec<Vec<usize>>) -> (ones: Vec<usize>)
    requires
        bit_values(*bits).len() > 0,
    ensures
        forall|i: int, j: int| 0 <= i < j < ones@.len() ==> ones@[i] < ones@[j],
        forall|i: int| #![trigger ones@[i]]
            0 <= i < ones@.len() ==> ones@[i] < bit_values(*bits).len() && bit_values(
                *bits,
            )[ones@[i] as int],
        forall|k: usize|
            k < bit_values(*bits).len() && #[trigger] bit_values(*bits)[k as int]
                ==> ones@.contains(k),
{
    bits.iter_ones().collect()
}

/// A map from some terms to consecutive integers.
pub struct Contraction(MonotoneSeq);

impl Contraction {
    /// The terms, each at the index it is mapped to.
    pub closed spec fn terms(self) -> Seq<usize> {
        crate::indexes::seq_values(self.0)
    }

    /// The integer that a term is mapped to, if it is.
    pub fn get(&self, term_id: usize) -> (id: Option<usize>)
        ensures
            match id {
                Some(i) => i < self.terms().len() && self.terms()[i as int] == term_id,
                None => !self.terms().contains(term_id),
            },
    {
        seq_index_of(&self.0, term_id)
    }
}

/// The first terms of the quads that have a given second term.
pub open spec fn first_terms(quads: Seq<Seq<usize>>, second: usize) -> Set<usize> {
    Set::new(
        |first: usize|
            exists|i: int|
                0 <= i < quads.len() && (#[trigger] quads[i])[0] == first && quads[i][1] == second,
    )
}

/// Why some file cannot be read to its end, if so.
pub open spec fn files_read_error(files: Seq<SortedArraysFile<4>>) -> Option<ArraysError>
    decreases files.len(),
{
    if files.len() == 0 {
        None
    } else {
        match files_read_error(files.drop_last()) {
            Some(e) => Some(e),
            None => files.last().read_error(),
        }
    }
}

proof fn lemma_files_read_error(files: Seq<SortedArraysFile<4>>, n: int)
    requires
        0 <= n <= files.len(),
    ensures
        files_read_error(files.take(n)) is Some ==> files_read_error(files) == files_read_error(
            files.take(n),
        ),
    decreases files.len() - n,
{
    if n == files.len() {
        assert(files.take(n) =~= files);
    } else {
        lemma_files_read_error(files, n + 1);
        assert(files.take(n + 1).drop_last() =~= files.take(n));
    }
}

/// Reads the quads of several files.
pub(crate) fn read_quads(files: &Vec<SortedArraysFile<4>>) -> (res: Result<Vec<[usize; 4]>, QuadsError>)
    ensures
        match files_read_error(files@) {
            Some(e) => res is Err && res->Err_0 == QuadsError::Arrays(e),
            None => res matches Ok(quads) && item_views(quads@) == quads_of_files(files@),
        },
{
    let mut quads: Vec<[usize; 4]> = Vec::new();
    let mut i: usize = 0;
    assert(item_views(quads@) =~= quads_of_files(files@.take(0)));
    while i < files.len()
        invariant
            i <= files@.len(),
            item_views(quads@) == quads_of_files(files@.take(i as int)),
            files_read_error(files@.take(i as int)) is None,
        decreases files@.len() - i,
    {
        proof {
            assert(files@.take(i + 1).drop_last() =~= files@.take(i as int));
            lemma_files_read_error(files@, i + 1);
        }
        let mut scan = match files[i].iter() {
            Err(e) => {
                return Err(QuadsError::Arrays(e));
            },
            Ok(scan) => scan,
        };
        match scan.error {
            Some(e) => {
                return Err(QuadsError::Arrays(e));
            },
            None => {},
        }
        let ghost before = quads@;
        let ghost added = scan.items@;
        quads.append(&mut scan.items);
        assert(item_views(quads@) =~= item_views(before) + item_views(added));
        i = i + 1;
    }
    assert(files@.take(i as int) =~= files@);
    Ok(quads)
}

/// The second terms of quads.
pub open spec fn second_terms_of(quads: Seq<Seq<usize>>) -> Set<usize> {
    Set::new(|term: usize| exists|i: int| 0 <= i < quads.len() && (#[trigger] quads[i])[1] == term)
}

/// Lists the second terms of quads, in increasing order.
fn second_terms(quads: &Vec<[usize; 4]>, num_terms: usize) -> (res: Result<Vec<usize>, QuadsError>)
    requires
        num_terms < usize::MAX / 2,
    ensures
        match res {
            Err(e) => e == QuadsError::InvalidTerm && exists|i: int|
                0 <= i < quads@.len() && (#[trigger] quads@[i])@[1] >= num_terms,
            Ok(terms) => {
                &&& forall|i: int| 0 <= i < quads@.len() ==> (#[trigger] quads@[i])@[1] < num_terms
                &&& increasing(terms@)
                &&& terms@.len() <= num_terms
                &&& forall|i: int| 0 <= i < terms@.len() ==> #[trigger] terms@[i] < num_terms
                &&& forall|term: usize| #[trigger]
                    terms@.contains(term) <==> exists|i: int|
                        0 <= i < quads@.len() && (#[trigger] quads@[i])@[1] == term
            },
        },
{
    let mut present = new_bits(num_terms);
    let mut i: usize = 0;
    while i < quads.len()
        invariant
            i <= quads@.len(),
            bit_values(present).len() == num_terms,
            forall|k: int| 0 <= k < i ==> (#[trigger] quads@[k])@[1] < num_terms,
            forall|k: int|
                0 <= k < i ==> bit_values(present)[(#[trigger] quads@[k])@[1] as int],
            forall|t: int|
                0 <= t < num_terms && #[trigger] bit_values(present)[t] ==> exists|k: int|
                    0 <= k < i && (#[trigger] quads@[k])@[1] == t,
        decreases quads@.len() - i,
    {
        let second: usize = quads[i][1];
        assert(quads@[i as int]@[1] == second);
        if second >= num_terms {
            return Err(QuadsError::InvalidTerm);
        }
        set_bit(&mut present, second);
        i = i + 1;
    }
    let terms: Vec<usize> = if num_terms == 0 {
        Vec::new()
    } else {
        set_bits(&present)
    };
    proof {
        lemma_increasing_len(terms@, num_terms as int);
        assert forall|term: usize| #[trigger] terms@.contains(term) implies exists|i: int|
            0 <= i < quads@.len() && (#[trigger] quads@[i])@[1] == term by {
            let j = choose|j: int| 0 <= j < terms@.len() && terms@[j] == term;
            assert(bit_values(present)[terms@[j] as int]);
        }
        assert forall|term: usize|
            (exists|i: int| 0 <= i < quads@.len() && (#[trigger] quads@[i])@[1] == term) implies
            #[trigger] terms@.contains(term) by {
            let i = choose|i: int| 0 <= i < quads@.len() && (#[trigger] quads@[i])@[1] == term;
            assert(bit_values(present)[quads@[i]@[1] as int]);
        }
    }
    Ok(terms)
}

proof fn lemma_increasing_len(list: Seq<usize>, bound: int)
    requires
        increasing(list),
        forall|i: int| 0 <= i < list.len() ==> list[i] < bound,
        bound >= 0,
    ensures
        list.len() <= bound,
    decreases list.len(),
{
    if list.len() > 0 {
        lemma_increasing_len(list.drop_last(), list.last() as int);
    }
}

/// Given a second term, lists the first terms of the quads that have it.
pub struct SecondaryIndex {
    contraction: Contraction,
    graph: Graph,
}

impl SecondaryIndex {
    /// The second terms are mapped to the nodes of the graph.
    pub closed spec fn well_formed(self) -> bool {
        &&& increasing(self.contraction.terms())
        &&& self.contraction.terms().len() == self.graph.num_nodes()
    }

    /// The first terms of the quads that have a given second term, if there are such quads.
    pub closed spec fn firsts(self, second: usize) -> Option<Seq<usize>> {
        if self.contraction.terms().contains(second) {
            Some(self.graph.successors_of(self.contraction.terms().index_of(second)))
        } else {
            None
        }
    }

    /// Whether the index is that of given quads: it lists the first terms of the quads that have a
    /// given second term, each once, in increasing order.
    pub open spec fn indexes(self, quads: Seq<Seq<usize>>) -> bool {
        forall|second: usize|
            match #[trigger] self.firsts(second) {
                None => first_terms(quads, second) == Set::<usize>::empty(),
                Some(list) => list.len() > 0 && increasing(list) && list.to_set() == first_terms(
                    quads,
                    second,
                ),
            }
    }

    /// The first terms of the quads that have a given second term, if there are such quads.
    pub fn get(&self, term: usize) -> (res: Option<&Vec<usize>>)
        requires
            self.well_formed(),
        ensures
            match self.firsts(term) {
                None => res is None,
                Some(list) => res matches Some(firsts) && firsts@ == list,
            },
    {
        match self.contraction.get(term) {
            None => None,
            Some(id) => {
                proof {
                    let terms = self.contraction.terms();
                    assert(terms.contains(term));
                    let j = terms.index_of(term);
                    assert(terms[j] == terms[id as int]);
                    assert(j == id);
                }
                Some(self.graph.successors(id))
            },
        }
    }
}

proof fn lemma_first_terms_push(quads: Seq<Seq<usize>>, quad: Seq<usize>, second: usize)
    ensures
        first_terms(quads.push(quad), second) == (if quad[1] == second {
            first_terms(quads, second).insert(quad[0])
        } else {
            first_terms(quads, second)
        }),
{
    let more = quads.push(quad);
    assert forall|first: usize| #[trigger] first_terms(more, second).contains(first) <==> (
    first_terms(quads, second).contains(first) || (quad[1] == second && quad[0] == first)) by {
        if first_terms(quads, second).contains(first) {
            let i = choose|i: int|
                0 <= i < quads.len() && (#[trigger] quads[i])[0] == first && quads[i][1] == second;
            assert(more[i] == quads[i]);
        }
        assert(more[quads.len() as int] == quad);
        if first_terms(more, second).contains(first) {
            let i = choose|i: int|
                0 <= i < more.len() && (#[trigger] more[i])[0] == first && more[i][1] == second;
            if i < quads.len() {
                assert(more[i] == quads[i]);
            }
        }
    }
    if quad[1] == second {
        assert(first_terms(more, second) =~= first_terms(quads, second).insert(quad[0]));
    } else {
        assert(first_terms(more, second) =~= first_terms(quads, second));
    }
}

/// Whether the arcs from each node end in the first terms of the quads that have its second term.
spec fn arcs_of(pairs: Seq<(usize, usize)>, terms: Seq<usize>, quads: Seq<Seq<usize>>) -> bool {
    &&& forall|i: int| 0 <= i < pairs.len() ==> (#[trigger] pairs[i]).0 < terms.len()
    &&& forall|node: int|
        0 <= node < terms.len() ==> #[trigger] targets(pairs, node) == first_terms(
            quads,
            terms[node],
        )
}

proof fn lemma_arcs_push(
    pairs: Seq<(usize, usize)>,
    terms: Seq<usize>,
    quads: Seq<Seq<usize>>,
    id: usize,
    quad: Seq<usize>,
)
    requires
        arcs_of(pairs, terms, quads),
        increasing(terms),
        id < terms.len(),
        terms[id as int] == quad[1],
    ensures
        arcs_of(pairs.push((id, quad[0])), terms, quads.push(quad)),
        first_terms(quads, quad[1]).contains(quad[0]) ==> arcs_of(pairs, terms, quads.push(quad)),
{
    let pair = (id, quad[0]);
    let more = pairs.push(pair);
    assert forall|node: int| 0 <= node < terms.len() implies #[trigger] targets(more, node)
        == first_terms(quads.push(quad), terms[node]) by {
        lemma_targets_push(pairs, pair, node);
        lemma_first_terms_push(quads, quad, terms[node]);
        assert(targets(pairs, node) == first_terms(quads, terms[node]));
    }
    if first_terms(quads, quad[1]).contains(quad[0]) {
        assert forall|node: int| 0 <= node < terms.len() implies #[trigger] targets(pairs, node)
            == first_terms(quads.push(quad), terms[node]) by {
            lemma_first_terms_push(quads, quad, terms[node]);
            assert(first_terms(quads, quad[1]).insert(quad[0]) =~= first_terms(quads, quad[1]));
        }
    }
}

/// Lists the pairs of the integer that stands for the second term of a quad and of its first term.
fn contracted_pairs(quads: &Vec<[usize; 4]>, contraction: &Contraction) -> (pairs: Vec<
    (usize, usize),
>)
    requires
        increasing(contraction.terms()),
        forall|i: int|
            0 <= i < quads@.len() ==> contraction.terms().contains((#[trigger] quads@[i])@[1]),
    ensures
        arcs_of(pairs@, contraction.terms(), item_views(quads@)),
{
    let ghost terms = contraction.terms();
    let ghost all = item_views(quads@);
    let mut pairs: Vec<(usize, usize)> = Vec::new();
    let mut i: usize = 0;
    proof {
        assert forall|node: int| 0 <= node < terms.len() implies #[trigger] targets(pairs@, node)
            == first_terms(all.take(0), terms[node]) by {
            assert(targets(pairs@, node) =~= first_terms(all.take(0), terms[node]));
        }
    }
    while i < quads.len()
        invariant
            i <= quads@.len(),
            terms == contraction.terms(),
            increasing(terms),
            all == item_views(quads@),
            forall|k: int| 0 <= k < quads@.len() ==> terms.contains((#[trigger] quads@[k])@[1]),
            arcs_of(pairs@, terms, all.take(i as int)),
        decreases quads@.len() - i,
    {
        let quad: [usize; 4] = quads[i];
        assert(terms.contains(quads@[i as int]@[1]));
        let id: usize = match contraction.get(quad[1]) {
            None => {
                return pairs;
            },
            Some(id) => id,
        };
        proof {
            assert(all.take(i as int).push(all[i as int]) =~= all.take(i + 1));
            lemma_arcs_push(pairs@, terms, all.take(i as int), id, all[i as int]);
        }
        if i > 0 && quads[i - 1][0] == quad[0] && quads[i - 1][1] == quad[1] {
            assert(all.take(i as int)[i - 1][0] == quad@[0] && all.take(i as int)[i - 1][1]
                == quad@[1]);
        } else {
            pairs.push((id, quad[0]));
        }
        i = i + 1;
    }
    assert(all.take(i as int) =~= all);
    pairs
}

proof fn lemma_index(index: SecondaryIndex, pairs: Seq<(usize, usize)>, quads: Seq<Seq<usize>>)
    requires
        index.well_formed(),
        arcs_of(pairs, index.contraction.terms(), quads),
        forall|i: int|
            0 <= i < quads.len() ==> index.contraction.terms().contains((#[trigger] quads[i])[1]),
        forall|term: usize| #[trigger]
            index.contraction.terms().contains(term) ==> exists|i: int|
                0 <= i < quads.len() && (#[trigger] quads[i])[1] == term,
        forall|src: int|
            0 <= src < index.graph.num_nodes() ==> increasing(
                #[trigger] index.graph.successors_of(src),
            ) && index.graph.successors_of(src).to_set() == targets(pairs, src),
    ensures
        index.indexes(quads),
{
    let terms = index.contraction.terms();
    assert forall|second: usize|
        match #[trigger] index.firsts(second) {
            None => first_terms(quads, second) == Set::<usize>::empty(),
            Some(list) => list.len() > 0 && increasing(list) && list.to_set() == first_terms(
                quads,
                second,
            ),
        } by {
        if terms.contains(second) {
            let node = terms.index_of(second);
            let list = index.graph.successors_of(node);
            assert(targets(pairs, node) == first_terms(quads, second));
            let k = choose|k: int| 0 <= k < quads.len() && (#[trigger] quads[k])[1] == second;
            assert(first_terms(quads, second).contains(quads[k][0]));
            assert(list.to_set().contains(quads[k][0]));
        } else {
            assert forall|first: usize| !first_terms(quads, second).contains(first) by {
                if first_terms(quads, second).contains(first) {
                    let k = choose|k: int|
                        0 <= k < quads.len() && (#[trigger] quads[k])[0] == first && quads[k][1]
                            == second;
                    assert(terms.contains(quads[k][1]));
                }
            }
            assert(first_terms(quads, second) =~= Set::empty());
        }
    }
}

/// Builds the index from the second terms of the quads of a store, whose files are given, to their
/// first terms.
///
/// The index lists the second terms, so that it can be too large.
#[verifier::rlimit(50)]
pub fn build_secondary_index(files: &Vec<SortedArraysFile<4>>, num_terms: usize) -> (res: Result<
    SecondaryIndex,
    QuadsError,
>)
    ensures
        if num_terms >= usize::MAX / 2 {
            res is Err && res->Err_0 == QuadsError::IndexTooLarge
        } else {
            match files_read_error(files@) {
                Some(e) => res is Err && res->Err_0 == QuadsError::Arrays(e),
                None => {
                    let quads = quads_of_files(files@);
                    if exists|i: int| 0 <= i < quads.len() && (#[trigger] quads[i])[1] >= num_terms {
                        res is Err && res->Err_0 == QuadsError::InvalidTerm
                    } else if second_terms_of(quads).len() + num_terms >= usize::MAX / 2 {
                        res is Err && res->Err_0 == QuadsError::IndexTooLarge
                    } else {
                        res matches Ok(index) && index.well_formed() && index.indexes(quads)
                    }
                },
            }
        },
{
    if num_terms >= usize::MAX / 2 {
        return Err(QuadsError::IndexTooLarge);
    }
    let quads: Vec<[usize; 4]> = read_quads(files)?;
    let ghost all = quads_of_files(files@);
    proof {
        assert(all.len() == quads@.len());
        assert forall|i: int| 0 <= i < quads@.len() implies all[i] == (#[trigger] quads@[i])@ by {
            assert(item_views(quads@)[i] == quads@[i]@);
        }
    }
    let terms: Vec<usize> = match second_terms(&quads, num_terms) {
        Err(e) => {
            proof {
                let i = choose|i: int|
                    0 <= i < quads@.len() && (#[trigger] quads@[i])@[1] >= num_terms;
                assert(all[i][1] >= num_terms);
            }
            return Err(e);
        },
        Ok(terms) => terms,
    };
    proof {
        assert forall|i: int| 0 <= i < all.len() implies (#[trigger] all[i])[1] < num_terms by {
            assert(all[i] == quads@[i]@);
        }
        assert forall|term: usize| #[trigger] terms@.to_set().contains(term)
            <==> second_terms_of(all).contains(term) by {
            assert(terms@.to_set().contains(term) <==> terms@.contains(term));
            if terms@.contains(term) {
                let i = choose|i: int| 0 <= i < quads@.len() && (#[trigger] quads@[i])@[1] == term;
                assert(all[i][1] == term);
            }
            if second_terms_of(all).contains(term) {
                let i = choose|i: int| 0 <= i < all.len() && (#[trigger] all[i])[1] == term;
                assert(quads@[i]@[1] == term);
            }
        }
        assert(terms@.to_set() =~= second_terms_of(all));
        terms@.unique_seq_to_set();
    }
    if terms.len() >= usize::MAX / 2 - num_terms {
        return Err(QuadsError::IndexTooLarge);
    }
    let contraction = Contraction(sequence_of(&terms, num_terms));
    proof {
        assert(contraction.terms() == terms@);
        assert forall|i: int| 0 <= i < all.len() implies (#[trigger] all[i])[1] < num_terms by {
            assert(all[i] == quads@[i]@);
        }
        assert forall|i: int| 0 <= i < quads@.len() implies contraction.terms().contains(
            (#[trigger] quads@[i])@[1],
        ) by {}
    }
    let pairs: Vec<(usize, usize)> = contracted_pairs(&quads, &contraction);
    let graph: Graph = match bv(&pairs, terms.len()) {
        Err(_) => {
            proof {
                let i = choose|i: int|
                    0 <= i < pairs@.len() && (#[trigger] pairs@[i]).0 >= terms@.len();
                assert(pairs@[i].0 < contraction.terms().len());
            }
            return Err(QuadsError::InvalidTerm);
        },
        Ok(graph) => graph,
    };
    let index = SecondaryIndex { contraction, graph };
    proof {
        assert(all =~= item_views(quads@));
        assert forall|i: int| 0 <= i < all.len() implies index.contraction.terms().contains(
            (#[trigger] all[i])[1],
        ) by {
            assert(all[i] == quads@[i]@);
        }
        assert forall|term: usize| #[trigger]
            index.contraction.terms().contains(term) implies exists|i: int|
            0 <= i < all.len() && (#[trigger] all[i])[1] == term by {
            let i = choose|i: int| 0 <= i < quads@.len() && (#[trigger] quads@[i])@[1] == term;
            assert(all[i][1] == term);
        }
        lemma_index(index, pairs@, all);
    }
    Ok(index)
}

/// Looking up a second term gives the first terms of the quads that have it, and nothing if no quad
/// has it.
pub proof fn lemma_firsts(index: SecondaryIndex, quads: Seq<Seq<usize>>, second: usize)
    requires
        index.indexes(quads),
    ensures
        index.firsts(second) is Some <==> exists|i: int|
            0 <= i < quads.len() && (#[trigger] quads[i])[1] == second,
        index.firsts(second) matches Some(list) ==> increasing(list) && forall|first: usize|
            list.contains(first) <==> exists|i: int|
                0 <= i < quads.len() && (#[trigger] quads[i])[0] == first && quads[i][1] == second,
{
    let all = first_terms(quads, second);
    match index.firsts(second) {
        None => {
            if exists|i: int| 0 <= i < quads.len() && (#[trigger] quads[i])[1] == second {
                let i = choose|i: int| 0 <= i < quads.len() && (#[trigger] quads[i])[1] == second;
                assert(all.contains(quads[i][0]));
            }
        },
        Some(list) => {
            assert forall|first: usize| list.contains(first) <==> exists|i: int|
                0 <= i < quads.len() && (#[trigger] quads[i])[0] == first && quads[i][1]
                    == second by {
                assert(list.to_set().contains(first) <==> all.contains(first));
            }
            assert(list.contains(list[0]));
            let i = choose|i: int|
                0 <= i < quads.len() && (#[trigger] quads[i])[0] == list[0] && quads[i][1]
                    == second;
        },
    }
}

/// Files can be read to their ends if each of them can.
pub proof fn lemma_files_readable(files: Seq<SortedArraysFile<4>>)
    ensures
        files_read_error(files) is None <==> forall|i: int|
            0 <= i < files.len() ==> (#[trigger] files[i]).read_error() is None,
    decreases files.len(),
{
    if files.len() > 0 {
        let before = files.drop_last();
        let n = files.len() - 1;
        lemma_files_readable(before);
        assert(files[n] == files.last());
        if files_read_error(files) is None {
            assert forall|i: int| 0 <= i < files.len() implies (
            #[trigger] files[i]).read_error() is None by {
                if i < n {
                    assert(before[i] == files[i]);
                }
            }
        }
        if forall|i: int| 0 <= i < files.len() ==> (#[trigger] files[i]).read_error() is None {
            assert forall|i: int| 0 <= i < before.len() implies (
            #[trigger] before[i]).read_error() is None by {
                assert(before[i] == files[i]);
            }
            assert(files[n].read_error() is None);
        }
    }
}

} // verus!
