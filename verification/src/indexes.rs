//! The two compact structures that indexes are made of: monotone sequences of integers
//! (Elias–Fano) and static functions from byte strings to integers.

use crate::strings::string_views;
use dsi_progress_logger::ProgressLogger;
use sux::bits::BitFieldVec;
use sux::dict::elias_fano::{EfSeqDict, EliasFanoBuilder};
use sux::func::{VBuilder, VFunc};
use sux::traits::{IndexedDict, IndexedSeq};
use sux::utils::FromSlice;
use vstd::prelude::*;

verus! {

/// Declares the builder of Elias–Fano sequences.
#[verifier::external_type_specification]
#[verifier::external_body]
pub struct ExEliasFanoBuilder(EliasFanoBuilder);

/// Declares the error of the builder of static functions.
#[verifier::external_type_specification]
#[verifier::external_body]
pub struct ExAnyhowError(anyhow::Error);

/// A monotone sequence of integers that finds the value at an index, and the index of a value.
#[verifier::external_body]
pub struct MonotoneSeq {
    inner: EfSeqDict,
}

/// A function from byte strings to integers, which is exact on the keys it was built with and
/// arbitrary on others.
#[verifier::external_body]
pub struct StaticFunc {
    inner: VFunc<[u8], usize, BitFieldVec<usize>>,
}

/// The values pushed so far.
pub uninterp spec fn builder_values(builder: EliasFanoBuilder) -> Seq<usize>;

/// The number of values that the builder was made for, and the largest of them that is allowed.
pub uninterp spec fn builder_limits(builder: EliasFanoBuilder) -> (nat, nat);

/// The values of a sequence.
pub uninterp spec fn seq_values(seq: MonotoneSeq) -> Seq<usize>;

/// Positions as natural numbers.
pub open spec fn positions_view(positions: Seq<usize>) -> Seq<nat> {
    positions.map_values(|p: usize| p as nat)
}

/// What the outcome of the construction of a static function maps each byte string to: for a
/// function, the value that it has there; for an error, some value, on the keys that no function
/// was found for.
pub uninterp spec fn func_values(func: Result<StaticFunc, anyhow::Error>) -> Map<Seq<u8>, usize>;

/// The number of keys that a static function was built with.
pub uninterp spec fn func_len(func: StaticFunc) -> nat;

/// Whether the construction of a static function on given keys failed.
pub open spec fn construction_failed(keys: Set<Seq<u8>>) -> bool {
    exists|error: anyhow::Error| (#[trigger] func_values(Err(error))).dom() == keys
}

/// `EliasFanoBuilder::new`: a builder for `n` values that are at most `max`.
#[verifier::external_body]
pub(crate) fn new_builder(n: usize, max: usize) -> (builder: EliasFanoBuilder)
    requires
        n + max < usize::MAX / 2,
    ensures
        builder_values(builder) == Seq::<usize>::empty(),
        builder_limits(builder) == (n as nat, max as nat),
{
    EliasFanoBuilder::new(n, max)
}

/// `EliasFanoBuilder::push`: adds a value that is no smaller than those before it.
#[verifier::external_body]
pub(crate) fn push_value(builder: &mut EliasFanoBuilder, value: usize)
    requires
        builder_values(*old(builder)).len() < builder_limits(*old(builder)).0,
        value <= builder_limits(*old(builder)).1,
        builder_values(*old(builder)).len() > 0 ==> builder_values(*old(builder)).last() <= value,
    ensures
        builder_values(*final(builder)) == builder_values(*old(builder)).push(value),
        builder_limits(*final(builder)) == builder_limits(*old(builder)),
{
    builder.push(value);
}

/// `EliasFanoBuilder::build_with_seq_and_dict`: the sequence of the values pushed, of which there
/// are as many as announced.
#[verifier::external_body]
pub(crate) fn build_seq(builder: EliasFanoBuilder) -> (seq: MonotoneSeq)
    requires
        builder_values(builder).len() == builder_limits(builder).0,
    ensures
        seq_values(seq) == builder_values(builder),
{
    MonotoneSeq { inner: builder.build_with_seq_and_dict() }
}

/// `EliasFano::len`: the number of values.
#[verifier::external_body]
pub(crate) fn seq_len(seq: &MonotoneSeq) -> (len: usize)
    ensures
        len == seq_values(*seq).len(),
{
    seq.inner.len()
}

/// `IndexedSeq::get`: the value at an index.
#[verifier::external_body]
pub(crate) fn seq_get(seq: &MonotoneSeq, index: usize) -> (value: usize)
    requires
        index < seq_values(*seq).len(),
    ensures
        value == seq_values(*seq)[index as int],
{
    seq.inner.get(index)
}

/// `IndexedDict::index_of`: the index of a value, if the sequence holds it.
#[verifier::external_body]
pub(crate) fn seq_index_of(seq: &MonotoneSeq, value: usize) -> (index: Option<usize>)
    ensures
        match index {
            Some(i) => i < seq_values(*seq).len() && seq_values(*seq)[i as int] == value,
            None => !seq_values(*seq).contains(value),
        },
{
    seq.inner.index_of(value)
}

/// `VBuilder::try_build_func`, which checks that no key occurs twice: a function that maps each
/// key to the value at the same index, or an error, whose name says on which keys the construction
/// failed. The construction is randomized, so nothing is said of when it succeeds.
#[verifier::external_body]
pub(crate) fn build_func(keys: &Vec<Vec<u8>>, values: &Vec<usize>) -> (res: Result<
    StaticFunc,
    anyhow::Error,
>)
    requires
        keys@.len() == values@.len(),
        keys@.len() > 0,
    ensures
        res matches Ok(func) ==> {
            &&& func_len(func) == keys@.len()
            &&& forall|i: int|
                0 <= i < keys@.len() ==> func_values(Ok(func))[(#[trigger] keys@[i])@] == values@[i]
        },
        res matches Err(error) ==> func_values(Err(error)).dom() == string_views(keys@).to_set(),
{
    let func = VBuilder::<usize, BitFieldVec<usize>>::default()
        .check_dups(true)
        .low_mem(true)
        .try_build_func::<[u8], Vec<u8>>(
            FromSlice::new(keys),
            FromSlice::new(values),
            &mut Option::<ProgressLogger>::None,
        )?;
    Ok(StaticFunc { inner: func })
}

/// `VFunc::get`: the value of a key.
#[verifier::external_body]
pub(crate) fn func_get(func: &StaticFunc, key: &[u8]) -> (value: usize)
    ensures
        value == func_values(Ok(*func))[key@],
{
    func.inner.get(key)
}

/// `VFunc::len`: the number of keys.
#[verifier::external_body]
pub(crate) fn func_num_keys(func: &StaticFunc) -> (len: usize)
    ensures
        len == func_len(*func),
{
    func.inner.len()
}

/// The sequence of the given values, which are sorted and at most `max`.
pub(crate) fn sequence_of(values: &Vec<usize>, max: usize) -> (seq: MonotoneSeq)
    requires
        values@.len() + max < usize::MAX / 2,
        forall|i: int, j: int| 0 <= i <= j < values@.len() ==> values@[i] <= values@[j],
        forall|i: int| 0 <= i < values@.len() ==> values@[i] <= max,
    ensures
        seq_values(seq) == values@,
{
    let mut builder = new_builder(values.len(), max);
    let mut i: usize = 0;
    assert(values@.take(0) =~= Seq::empty());
    while i < values.len()
        invariant
            i <= values@.len(),
            builder_limits(builder) == (values@.len(), max as nat),
            builder_values(builder) == values@.take(i as int),
            forall|i: int, j: int| 0 <= i <= j < values@.len() ==> values@[i] <= values@[j],
            forall|i: int| 0 <= i < values@.len() ==> values@[i] <= max,
        decreases values@.len() - i,
    {
        push_value(&mut builder, values[i]);
        assert(values@.take(i + 1) =~= values@.take(i as int).push(values@[i as int]));
        i = i + 1;
    }
    assert(values@.take(i as int) =~= values@);
    build_seq(builder)
}

} // verus!
