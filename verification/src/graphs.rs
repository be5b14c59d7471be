//! Graphs: for each node, the sorted list of its successors.
//!
//! Graphs are kept as plain lists: the `webgraph` program, to which their arcs are handed, writes
//! the compressed form, and the crate of that program is not a dependency.

use vstd::prelude::*;

verus! {

/// Why a graph could not be built.
#[derive(Clone, Copy, Debug, PartialEq, Eq, Structural)]
pub enum GraphError {
    /// An arc starts from a node that does not exist.
    InvalidNode,
}

/// A graph, whose arcs may end anywhere.
pub struct Graph {
    lists: Vec<Vec<usize>>,
}

/// Whether a list is strictly increasing.
pub open spec fn increasing(list: Seq<usize>) -> bool {
    forall|i: int, j: int| 0 <= i < j < list.len() ==> list[i] < list[j]
}

/// The nodes that the arcs from a node end in.
pub open spec fn targets(pairs: Seq<(usize, usize)>, src: int) -> Set<usize> {
    Set::new(
        |dst: usize|
            exists|i: int| 0 <= i < pairs.len() && (#[trigger] pairs[i]).0 == src && pairs[i].1 == dst,
    )
}

impl Graph {
    /// The number of nodes.
    pub closed spec fn num_nodes(self) -> nat {
        self.lists@.len()
    }

    /// The successors of a node.
    pub closed spec fn successors_of(self, node: int) -> Seq<usize> {
        self.lists@[node]@
    }

    /// The number of nodes.
    pub fn len(&self) -> (len: usize)
        ensures
            len == self.num_nodes(),
    {
        self.lists.len()
    }

    /// The successors of a node.
    pub fn successors(&self, node: usize) -> (list: &Vec<usize>)
        requires
            node < self.num_nodes(),
        ensures
            list@ == self.successors_of(node as int),
    {
        &self.lists[node]
    }
}

/// Adds a value to a strictly increasing list, unless it is there already.
fn insert_sorted(list: &mut Vec<usize>, value: usize)
    requires
        increasing(old(list)@),
    ensures
        increasing(final(list)@),
        final(list)@.to_set() == old(list)@.to_set().insert(value),
{
    let ghost before = list@;
    let mut pos: usize = list.len();
    while pos > 0 && list[pos - 1] > value
        invariant
            list@ == before,
            pos <= list@.len(),
            increasing(before),
            forall|i: int| pos <= i < list@.len() ==> value < list@[i],
        decreases pos,
    {
        pos = pos - 1;
    }
    if pos > 0 && list[pos - 1] == value {
        assert(before.contains(value)) by {
            assert(before[pos - 1] == value);
        }
        assert(before.to_set() =~= before.to_set().insert(value));
        return;
    }
    list.insert(pos, value);
    proof {
        let after = list@;
        assert(after =~= before.insert(pos as int, value));
        assert(after[pos as int] == value);
        assert forall|v: usize| #[trigger] after.to_set().contains(v) <==> before.to_set().insert(
            value,
        ).contains(v) by {
            if after.contains(v) {
                let i = choose|i: int| 0 <= i < after.len() && after[i] == v;
                if i < pos {
                    assert(before[i] == v);
                } else if i > pos {
                    assert(before[i - 1] == v);
                }
            }
            if before.contains(v) {
                let i = choose|i: int| 0 <= i < before.len() && before[i] == v;
                if i < pos {
                    assert(after[i] == v);
                } else {
                    assert(after[i + 1] == v);
                }
            }
        }
        assert(after.to_set() =~= before.to_set().insert(value));
    }
}

/// The graph that has the given arcs, from a source to a destination, each at most once.
pub fn bv(pairs: &Vec<(usize, usize)>, num_terms: usize) -> (res: Result<Graph, GraphError>)
    ensures
        match res {
            Err(e) => e == GraphError::InvalidNode && exists|i: int|
                0 <= i < pairs@.len() && (#[trigger] pairs@[i]).0 >= num_terms,
            Ok(graph) => {
                &&& forall|i: int| 0 <= i < pairs@.len() ==> (#[trigger] pairs@[i]).0 < num_terms
                &&& graph.num_nodes() == num_terms
                &&& forall|src: int|
                    0 <= src < num_terms ==> increasing(#[trigger] graph.successors_of(src))
                        && graph.successors_of(src).to_set() == targets(pairs@, src)
            },
        },
{
    let mut lists: Vec<Vec<usize>> = Vec::new();
    let mut node: usize = 0;
    while node < num_terms
        invariant
            node <= num_terms,
            lists@.len() == node,
            forall|src: int| 0 <= src < node ==> (#[trigger] lists@[src])@.len() == 0,
        decreases num_terms - node,
    {
        lists.push(Vec::new());
        node = node + 1;
    }
    let mut i: usize = 0;
    proof {
        assert forall|src: int| 0 <= src < num_terms implies increasing((#[trigger] lists@[src])@)
            && lists@[src]@.to_set() == targets(pairs@.take(0), src) by {
            assert(lists@[src]@.to_set() =~= targets(pairs@.take(0), src));
        }
    }
    while i < pairs.len()
        invariant
            i <= pairs@.len(),
            lists@.len() == num_terms,
            forall|k: int| 0 <= k < i ==> (#[trigger] pairs@[k]).0 < num_terms,
            forall|src: int|
                0 <= src < num_terms ==> increasing((#[trigger] lists@[src])@)
                    && lists@[src]@.to_set() == targets(pairs@.take(i as int), src),
        decreases pairs@.len() - i,
    {
        let (src, dst) = pairs[i];
        if src >= num_terms {
            assert(pairs@[i as int].0 >= num_terms);
            return Err(GraphError::InvalidNode);
        }
        let ghost before = lists@;
        insert_sorted(&mut lists[src], dst);
        proof {
            assert forall|s: int| 0 <= s < num_terms implies increasing((#[trigger] lists@[s])@)
                && lists@[s]@.to_set() == targets(pairs@.take(i + 1), s) by {
                lemma_targets_push(pairs@.take(i as int), pairs@[i as int], s);
                assert(pairs@.take(i as int).push(pairs@[i as int]) =~= pairs@.take(i + 1));
                assert(increasing(before[s]@));
            }
        }
        i = i + 1;
    }
    assert(pairs@.take(i as int) =~= pairs@);
    let graph = Graph { lists };
    assert forall|src: int| 0 <= src < num_terms implies increasing(
        #[trigger] graph.successors_of(src),
    ) && graph.successors_of(src).to_set() == targets(pairs@, src) by {
        assert(graph.successors_of(src) == lists@[src]@);
    }
    Ok(graph)
}

/// An arc adds its end to those of its source.
pub proof fn lemma_targets_push(pairs: Seq<(usize, usize)>, pair: (usize, usize), src: int)
    ensures
        targets(pairs.push(pair), src) == (if pair.0 == src {
            targets(pairs, src).insert(pair.1)
        } else {
            targets(pairs, src)
        }),
{
    let more = pairs.push(pair);
    assert forall|dst: usize| #[trigger] targets(more, src).contains(dst) <==> (targets(
        pairs,
        src,
    ).contains(dst) || (pair.0 == src && pair.1 == dst)) by {
        if targets(pairs, src).contains(dst) {
            let i = choose|i: int|
                0 <= i < pairs.len() && (#[trigger] pairs[i]).0 == src && pairs[i].1 == dst;
            assert(more[i] == pairs[i]);
        }
        assert(more[pairs.len() as int] == pair);
        if targets(more, src).contains(dst) {
            let i = choose|i: int|
                0 <= i < more.len() && (#[trigger] more[i]).0 == src && more[i].1 == dst;
            if i < pairs.len() {
                assert(more[i] == pairs[i]);
            }
        }
    }
    if pair.0 == src {
        assert(targets(more, src) =~= targets(pairs, src).insert(pair.1));
    } else {
        assert(targets(more, src) =~= targets(pairs, src));
    }
}

/// Whether two terms are different terms of a quad, besides its graph.
pub open spec fn linked(quad: Seq<usize>, src: int, dst: int) -> bool {
    ||| quad[0] == src && quad[1] == dst
    ||| quad[0] == src && quad[2] == dst
    ||| quad[1] == src && quad[0] == dst
    ||| quad[1] == src && quad[2] == dst
    ||| quad[2] == src && quad[0] == dst
    ||| quad[2] == src && quad[1] == dst
}

/// The terms that are linked to a term by some quad.
pub open spec fn neighbours(quads: Seq<[usize; 4]>, src: int) -> Set<usize> {
    Set::new(
        |dst: usize|
            exists|i: int| 0 <= i < quads.len() && linked((#[trigger] quads[i])@, src, dst as int),
    )
}

/// A term is linked to those that are linked to it.
pub proof fn lemma_neighbours_symmetric(quads: Seq<[usize; 4]>, src: usize, dst: usize)
    ensures
        neighbours(quads, src as int).contains(dst) == neighbours(quads, dst as int).contains(src),
{
    if neighbours(quads, src as int).contains(dst) {
        let i = choose|i: int|
            0 <= i < quads.len() && linked((#[trigger] quads[i])@, src as int, dst as int);
        assert(linked(quads[i]@, dst as int, src as int));
    }
    if neighbours(quads, dst as int).contains(src) {
        let i = choose|i: int|
            0 <= i < quads.len() && linked((#[trigger] quads[i])@, dst as int, src as int);
        assert(linked(quads[i]@, src as int, dst as int));
    }
}

proof fn lemma_neighbours_push(
    quads: Seq<[usize; 4]>,
    quad: [usize; 4],
    pairs: Seq<(usize, usize)>,
    src: int,
)
    requires
        targets(pairs, src) == neighbours(quads, src),
    ensures
        targets(
            pairs.push((quad@[0], quad@[1])).push((quad@[0], quad@[2])).push(
                (quad@[1], quad@[0]),
            ).push((quad@[1], quad@[2])).push((quad@[2], quad@[0])).push((quad@[2], quad@[1])),
            src,
        ) == neighbours(quads.push(quad), src),
{
    let (s, p, o) = (quad@[0], quad@[1], quad@[2]);
    let pairs1 = pairs.push((s, p));
    let pairs2 = pairs1.push((s, o));
    let pairs3 = pairs2.push((p, s));
    let pairs4 = pairs3.push((p, o));
    let pairs5 = pairs4.push((o, s));
    lemma_targets_push(pairs, (s, p), src);
    lemma_targets_push(pairs1, (s, o), src);
    lemma_targets_push(pairs2, (p, s), src);
    lemma_targets_push(pairs3, (p, o), src);
    lemma_targets_push(pairs4, (o, s), src);
    lemma_targets_push(pairs5, (o, p), src);
    let more = quads.push(quad);
    assert(more[quads.len() as int] == quad);
    assert forall|dst: usize| #[trigger] neighbours(more, src).contains(dst) <==> (neighbours(
        quads,
        src,
    ).contains(dst) || linked(quad@, src, dst as int)) by {
        if neighbours(quads, src).contains(dst) {
            let i = choose|i: int|
                0 <= i < quads.len() && linked((#[trigger] quads[i])@, src, dst as int);
            assert(more[i] == quads[i]);
        }
        if neighbours(more, src).contains(dst) {
            let i = choose|i: int|
                0 <= i < more.len() && linked((#[trigger] more[i])@, src, dst as int);
            if i < quads.len() {
                assert(more[i] == quads[i]);
            }
        }
    }
    assert(targets(pairs5.push((o, p)), src) =~= neighbours(more, src));
}

/// The graph that links the terms of quads, besides their graphs, in both directions.
pub fn symmetric_bv(quads: &Vec<[usize; 4]>, num_terms: usize) -> (res: Result<Graph, GraphError>)
    ensures
        match res {
            Err(e) => e == GraphError::InvalidNode && exists|i: int|
                0 <= i < quads@.len() && ((#[trigger] quads@[i])@[0] >= num_terms || quads@[i]@[1]
                    >= num_terms || quads@[i]@[2] >= num_terms),
            Ok(graph) => {
                &&& forall|i: int|
                    0 <= i < quads@.len() ==> (#[trigger] quads@[i])@[0] < num_terms
                        && quads@[i]@[1] < num_terms && quads@[i]@[2] < num_terms
                &&& graph.num_nodes() == num_terms
                &&& forall|src: int|
                    0 <= src < num_terms ==> increasing(#[trigger] graph.successors_of(src))
                        && graph.successors_of(src).to_set() == neighbours(quads@, src)
            },
        },
{
    let mut pairs: Vec<(usize, usize)> = Vec::new();
    let mut i: usize = 0;
    proof {
        assert forall|src: int| #[trigger] targets(pairs@, src) == neighbours(
            quads@.take(0),
            src,
        ) by {
            assert(targets(pairs@, src) =~= neighbours(quads@.take(0), src));
        }
    }
    while i < quads.len()
        invariant
            i <= quads@.len(),
            forall|k: int|
                0 <= k < i ==> (#[trigger] quads@[k])@[0] < num_terms && quads@[k]@[1] < num_terms
                    && quads@[k]@[2] < num_terms,
            forall|k: int| 0 <= k < pairs@.len() ==> (#[trigger] pairs@[k]).0 < num_terms,
            forall|src: int| #[trigger]
                targets(pairs@, src) == neighbours(quads@.take(i as int), src),
        decreases quads@.len() - i,
    {
        let quad: [usize; 4] = quads[i];
        let s: usize = quad[0];
        let p: usize = quad[1];
        let o: usize = quad[2];
        assert(quads@[i as int]@[0] == s && quads@[i as int]@[1] == p && quads@[i as int]@[2] == o);
        if s >= num_terms || p >= num_terms || o >= num_terms {
            return Err(GraphError::InvalidNode);
        }
        let ghost before = pairs@;
        pairs.push((s, p));
        pairs.push((s, o));
        pairs.push((p, s));
        pairs.push((p, o));
        pairs.push((o, s));
        pairs.push((o, p));
        proof {
            assert(quads@.take(i as int).push(quad) =~= quads@.take(i + 1));
            assert forall|src: int| #[trigger] targets(pairs@, src) == neighbours(
                quads@.take(i + 1),
                src,
            ) by {
                assert(targets(before, src) == neighbours(quads@.take(i as int), src));
                lemma_neighbours_push(quads@.take(i as int), quad, before, src);
            }
        }
        i = i + 1;
    }
    assert(quads@.take(i as int) =~= quads@);
    let graph = bv(&pairs, num_terms);
    assert forall|src: int| true implies #[trigger] targets(pairs@, src) == neighbours(
        quads@,
        src,
    ) by {}
    graph
}

/// The nodes that the arcs from a node end in are the ends of the arcs of the list that start from
/// it.
pub proof fn lemma_targets(pairs: Seq<(usize, usize)>, src: usize, dst: usize)
    ensures
        targets(pairs, src as int).contains(dst) <==> pairs.contains((src, dst)),
{
    if targets(pairs, src as int).contains(dst) {
        let i = choose|i: int|
            0 <= i < pairs.len() && (#[trigger] pairs[i]).0 == src && pairs[i].1 == dst;
        assert(pairs[i] == (src, dst));
    }
    if pairs.contains((src, dst)) {
        let i = choose|i: int| 0 <= i < pairs.len() && pairs[i] == (src, dst);
        assert(pairs[i].0 == src && pairs[i].1 == dst);
    }
}

/// Each of the subject, the predicate and the object of a quad is linked to the two others, and no
/// other terms are linked.
pub proof fn lemma_neighbours(quads: Seq<[usize; 4]>, src: usize, dst: usize)
    ensures
        neighbours(quads, src as int).contains(dst) <==> exists|i: int, a: int, b: int|
            0 <= i < quads.len() && 0 <= a < 3 && 0 <= b < 3 && a != b && (#[trigger] quads[i]@[a])
                == src && (#[trigger] quads[i]@[b]) == dst,
{
    if neighbours(quads, src as int).contains(dst) {
        let i = choose|i: int|
            0 <= i < quads.len() && linked((#[trigger] quads[i])@, src as int, dst as int);
        let q = quads[i]@;
        assert(q[0] == q[0] && q[1] == q[1] && q[2] == q[2]);
        assert(quads[i]@[0] == q[0] && quads[i]@[1] == q[1] && quads[i]@[2] == q[2]);
    }
    if exists|i: int, a: int, b: int|
        0 <= i < quads.len() && 0 <= a < 3 && 0 <= b < 3 && a != b && (#[trigger] quads[i]@[a])
            == src && (#[trigger] quads[i]@[b]) == dst {
        let (i, a, b) = choose|i: int, a: int, b: int|
            0 <= i < quads.len() && 0 <= a < 3 && 0 <= b < 3 && a != b && (#[trigger] quads[i]@[a])
                == src && (#[trigger] quads[i]@[b]) == dst;
        assert(linked(quads[i]@, src as int, dst as int));
    }
}

} // verus!
