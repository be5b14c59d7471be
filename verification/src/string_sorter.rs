//! A sorter of byte strings that drops duplicates: a set of strings in memory, and sorted runs in
//! which each string is preceded by its length.

use crate::strings::{
    bytes_lt, lemma_bytes_antisymmetric, lemma_bytes_asymmetric, lemma_bytes_irreflexive,
    lemma_bytes_transitive, lemma_strings_round_trip, prefixed_all, read_length_prefixed_string,
    string_eq, string_lt, string_views, strings_from, strings_increasing, strings_sorted,
    write_length_prefixed_string, StringsError,
};
use itertools::Itertools;
use rayon::slice::ParallelSliceMut;
use rustc_hash::{FxBuildHasher, FxHashSet};
use vstd::multiset::Multiset;
use vstd::prelude::*;

verus! {

/// A set of byte strings.
#[verifier::external_body]
pub struct StringSet {
    inner: FxHashSet<Vec<u8>>,
}

/// The strings of a set.
pub uninterp spec fn set_strings(set: StringSet) -> Set<Seq<u8>>;

/// `FxHashSet::with_hasher`: an empty set.
#[verifier::external_body]
pub(crate) fn new_set() -> (set: StringSet)
    ensures
        set_strings(set) == Set::<Seq<u8>>::empty(),
{
    StringSet { inner: FxHashSet::with_hasher(FxBuildHasher) }
}

/// `FxHashSet::insert`: adds a string, and tells whether it was not there.
#[verifier::external_body]
pub(crate) fn set_insert(set: &mut StringSet, string: Vec<u8>) -> (new: bool)
    ensures
        new == !set_strings(*old(set)).contains(string@),
        set_strings(*final(set)) == set_strings(*old(set)).insert(string@),
{
    set.inner.insert(string)
}

/// `FxHashSet::len`: the number of strings.
#[verifier::external_body]
pub(crate) fn set_len(set: &StringSet) -> (len: usize)
    ensures
        len == set_strings(*set).len(),
{
    set.inner.len()
}

/// `FxHashSet::drain`: takes all the strings out of the set, each once, in an order that is not
/// specified.
#[verifier::external_body]
pub(crate) fn set_drain(set: &mut StringSet) -> (strings: Vec<Vec<u8>>)
    ensures
        set_strings(*final(set)) == Set::<Seq<u8>>::empty(),
        string_views(strings@).no_duplicates(),
        string_views(strings@).to_set() == set_strings(*old(set)),
{
    set.inner.drain().collect()
}

/// `ParallelSliceMut::par_sort_unstable` on byte strings: sorts them.
#[verifier::external_body]
pub(crate) fn par_sort_strings(strings: &mut Vec<Vec<u8>>)
    ensures
        strings_sorted(string_views(final(strings)@)),
        string_views(final(strings)@).to_multiset() == string_views(old(strings)@).to_multiset(),
{
    strings.par_sort_unstable();
}

/// `Itertools::kmerge_by` on sorted lists of byte strings: all their strings, sorted.
#[verifier::external_body]
pub(crate) fn kmerge_strings(runs: Vec<Vec<Vec<u8>>>) -> (merged: Vec<Vec<u8>>)
    requires
        forall|i: int|
            0 <= i < runs@.len() ==> strings_sorted(string_views((#[trigger] runs@[i])@)),
    ensures
        strings_sorted(string_views(merged@)),
        string_views(merged@).to_multiset() == strings_of_lists(runs@),
{
    runs.into_iter().kmerge_by(|a, b| string_lt(a, b)).collect()
}

/// The strings of several lists, together.
pub open spec fn strings_of_lists(lists: Seq<Vec<Vec<u8>>>) -> Multiset<Seq<u8>>
    decreases lists.len(),
{
    if lists.len() == 0 {
        Multiset::empty()
    } else {
        strings_of_lists(lists.drop_last()).add(string_views(lists.last()@).to_multiset())
    }
}

proof fn lemma_strings_of_lists(lists: Seq<Vec<Vec<u8>>>, string: Seq<u8>)
    ensures
        strings_of_lists(lists).count(string) > 0 <==> exists|i: int|
            0 <= i < lists.len() && string_views((#[trigger] lists[i])@).contains(string),
    decreases lists.len(),
{
    if lists.len() > 0 {
        let before = lists.drop_last();
        lemma_strings_of_lists(before, string);
        vstd::seq_lib::to_multiset_contains(string_views(lists.last()@), string);
        if strings_of_lists(before).count(string) > 0 {
            let i = choose|i: int|
                0 <= i < before.len() && string_views((#[trigger] before[i])@).contains(string);
            assert(lists[i] == before[i]);
        }
        if exists|i: int|
            0 <= i < lists.len() && string_views((#[trigger] lists[i])@).contains(string) {
            let i = choose|i: int|
                0 <= i < lists.len() && string_views((#[trigger] lists[i])@).contains(string);
            if i < before.len() {
                assert(lists[i] == before[i]);
            }
        }
        if string_views(lists.last()@).contains(string) {
            assert(lists[lists.len() - 1] == lists.last());
        }
    }
}

proof fn lemma_push_contains(strings: Seq<Seq<u8>>, string: Seq<u8>)
    ensures
        forall|s: Seq<u8>| #[trigger]
            strings.push(string).contains(s) <==> strings.contains(s) || s == string,
{
    let pushed = strings.push(string);
    assert forall|s: Seq<u8>| #[trigger] pushed.contains(s) <==> strings.contains(s) || s
        == string by {
        if strings.contains(s) {
            let i = choose|i: int| 0 <= i < strings.len() && strings[i] == s;
            assert(pushed[i] == s);
        }
        if s == string {
            assert(pushed[strings.len() as int] == s);
        }
        if pushed.contains(s) {
            let i = choose|i: int| 0 <= i < pushed.len() && pushed[i] == s;
            if i < strings.len() {
                assert(strings[i] == s);
            }
        }
    }
}

/// Drops the strings of a sorted list that are the same as the one before them.
fn dedup_strings(strings: Vec<Vec<u8>>) -> (unique: Vec<Vec<u8>>)
    requires
        strings_sorted(string_views(strings@)),
    ensures
        strings_increasing(string_views(unique@)),
        string_views(unique@).to_set() == string_views(strings@).to_set(),
{
    let ghost all = string_views(strings@);
    let mut unique: Vec<Vec<u8>> = Vec::new();
    for string in it: strings
        invariant
            it.seq() == strings@,
            all == string_views(strings@),
            strings_sorted(all),
            strings_increasing(string_views(unique@)),
            unique@.len() == 0 <==> it.index() == 0,
            it.index() > 0 ==> string_views(unique@).last() == all[it.index() - 1],
            forall|s: Seq<u8>|
                string_views(unique@).contains(s) <==> all.take(it.index()).contains(s),
    {
        let ghost k = it.index();
        let ghost before = string_views(unique@);
        assert(all[k] == string@);
        let n: usize = unique.len();
        let same: bool = n > 0 && string_eq(unique[n - 1].as_slice(), string.as_slice());
        proof {
            if n > 0 {
                assert(before[n - 1] == unique@[n - 1]@);
                assert(!bytes_lt(all[k], all[k - 1]));
            }
            assert(all.take(k + 1) =~= all.take(k).push(string@));
            lemma_push_contains(all.take(k), string@);
        }
        if same {
            assert(before[n - 1] == string@);
        } else {
            unique.push(string);
            proof {
                let after = string_views(unique@);
                assert(after =~= before.push(string@));
                assert forall|i: int, j: int| 0 <= i < j < after.len() implies bytes_lt(
                    after[i],
                    after[j],
                ) by {
                    if j == n {
                        if bytes_lt(string@, before[n - 1]) {
                        } else if !bytes_lt(before[n - 1], string@) {
                            lemma_bytes_antisymmetric(before[n - 1], string@);
                        }
                        assert(bytes_lt(before[n - 1], string@));
                        if i < n - 1 {
                            assert(bytes_lt(before[i], before[n - 1]));
                            lemma_bytes_asymmetric(before[i], before[n - 1]);
                            lemma_bytes_asymmetric(before[n - 1], string@);
                            lemma_bytes_transitive(before[i], before[n - 1], string@);
                        }
                    } else {
                        assert(after[i] == before[i] && after[j] == before[j]);
                    }
                }
                lemma_push_contains(before, string@);
            }
        }
    }
    proof {
        assert(all.take(all.len() as int) =~= all);
        assert(string_views(unique@).to_set() =~= all.to_set());
    }
    unique
}

/// The strings of a run.
pub open spec fn run_strings(run: Vec<u8>) -> Seq<Seq<u8>> {
    strings_from(run@, 0).0
}

/// Whether a run can be read, and its strings are sorted, without duplicates.
pub open spec fn is_run(run: Vec<u8>) -> bool {
    strings_from(run@, 0).1 is None && strings_increasing(run_strings(run))
}

/// Whether a string is in one of several runs.
pub open spec fn in_runs(runs: Seq<Vec<u8>>, string: Seq<u8>) -> bool {
    exists|i: int| 0 <= i < runs.len() && run_strings(#[trigger] runs[i]).contains(string)
}

proof fn lemma_strings_from_short(data: Seq<u8>, pos: nat)
    ensures
        forall|i: int|
            0 <= i < strings_from(data, pos).0.len() ==> (#[trigger] strings_from(
                data,
                pos,
            ).0[i]).len() <= u32::MAX,
    decreases data.len() - pos,
{
    match crate::strings::string_at(data, pos) {
        crate::strings::NextString::Item(string, next) => {
            lemma_strings_from_short(data, next);
            reveal_with_fuel(crate::bytes::byte_range, 5);
            crate::bytes::lemma_le_value_range(data.subrange(pos as int, (pos + 4) as int));
            let rest = strings_from(data, next).0;
            assert forall|i: int| 0 <= i < strings_from(data, pos).0.len() implies (
            #[trigger] strings_from(data, pos).0[i]).len() <= u32::MAX by {
                if i > 0 {
                    assert(strings_from(data, pos).0[i] == rest[i - 1]);
                }
            }
        },
        _ => {},
    }
}

/// Reads the strings of a run.
fn read_run(run: &Vec<u8>) -> (strings: Vec<Vec<u8>>)
    requires
        is_run(*run),
    ensures
        string_views(strings@) == run_strings(*run),
        strings_sorted(string_views(strings@)),
{
    let ghost all = run_strings(*run);
    let mut strings: Vec<Vec<u8>> = Vec::new();
    let mut pos: usize = 0;
    assert(all.skip(0) =~= all);
    loop
        invariant
            is_run(*run),
            all == run_strings(*run),
            strings@.len() <= all.len(),
            string_views(strings@) == all.take(strings@.len() as int),
            strings_from(run@, pos as nat) == (
                all.skip(strings@.len() as int),
                None::<StringsError>,
            ),
        decreases all.len() - strings@.len(),
    {
        let ghost k = strings@.len() as int;
        match read_length_prefixed_string(run.as_slice(), pos) {
            Err(_) => {
                return strings;
            },
            Ok(None) => {
                proof {
                    assert(all.skip(k).len() == 0);
                    assert(all.take(k) =~= all);
                    lemma_increasing_sorted(all);
                }
                return strings;
            },
            Ok(Some((string, next))) => {
                let ghost before = strings@;
                proof {
                    assert(all.skip(k)[0] == string@);
                    assert(all.skip(k).drop_first() =~= all.skip(k + 1));
                    assert(strings_from(run@, next as nat).0 =~= all.skip(k).drop_first());
                    assert(all.take(k + 1) =~= all.take(k).push(string@));
                }
                strings.push(string);
                assert(string_views(strings@) =~= string_views(before).push(string@));
                pos = next;
            },
        }
    }
}

proof fn lemma_increasing_sorted(strings: Seq<Seq<u8>>)
    requires
        strings_increasing(strings),
    ensures
        strings_sorted(strings),
{
    assert forall|i: int, j: int| 0 <= i <= j < strings.len() implies !bytes_lt(
        strings[j],
        strings[i],
    ) by {
        if i == j {
            lemma_bytes_irreflexive(strings[i]);
        } else {
            lemma_bytes_asymmetric(strings[i], strings[j]);
        }
    }
}

/// Writes a run of strings.
fn write_run(strings: &Vec<Vec<u8>>) -> (res: Result<Vec<u8>, StringsError>)
    requires
        strings_increasing(string_views(strings@)),
    ensures
        match res {
            Ok(run) => is_run(run) && run_strings(run) == string_views(strings@),
            Err(e) => e == StringsError::TooLong && exists|i: int|
                0 <= i < strings@.len() && (#[trigger] strings@[i])@.len() > u32::MAX,
        },
{
    let ghost all = string_views(strings@);
    let mut run: Vec<u8> = Vec::new();
    let mut i: usize = 0;
    assert(run@ =~= prefixed_all(all.take(0)));
    while i < strings.len()
        invariant
            i <= strings@.len(),
            all == string_views(strings@),
            run@ == prefixed_all(all.take(i as int)),
            forall|j: int| 0 <= j < i ==> (#[trigger] all[j]).len() <= u32::MAX,
        decreases strings@.len() - i,
    {
        assert(all.take(i + 1).drop_last() =~= all.take(i as int));
        assert(all.take(i + 1).last() == strings@[i as int]@);
        write_length_prefixed_string(&mut run, strings[i].as_slice())?;
        i = i + 1;
    }
    proof {
        assert(all.take(i as int) =~= all);
        lemma_strings_round_trip(all);
    }
    Ok(run)
}

/// Reads and merges runs and one more sorted list of strings, and drops the duplicates.
fn merge_runs(runs: &Vec<Vec<u8>>, more: Vec<Vec<u8>>) -> (strings: Vec<Vec<u8>>)
    requires
        forall|i: int| 0 <= i < runs@.len() ==> is_run(#[trigger] runs@[i]),
        strings_sorted(string_views(more@)),
    ensures
        strings_increasing(string_views(strings@)),
        forall|s: Seq<u8>| #[trigger]
            string_views(strings@).contains(s) <==> in_runs(runs@, s) || string_views(
                more@,
            ).contains(s),
{
    let mut lists: Vec<Vec<Vec<u8>>> = Vec::new();
    let mut i: usize = 0;
    while i < runs.len()
        invariant
            i <= runs@.len(),
            lists@.len() == i,
            forall|i: int| 0 <= i < runs@.len() ==> is_run(#[trigger] runs@[i]),
            forall|j: int|
                0 <= j < i ==> {
                    &&& strings_sorted(string_views((#[trigger] lists@[j])@))
                    &&& string_views(lists@[j]@) == run_strings(runs@[j])
                },
        decreases runs@.len() - i,
    {
        lists.push(read_run(&runs[i]));
        i = i + 1;
    }
    lists.push(more);
    let ghost all = lists@;
    let merged: Vec<Vec<u8>> = kmerge_strings(lists);
    let strings: Vec<Vec<u8>> = dedup_strings(merged);
    proof {
        assert forall|s: Seq<u8>| #[trigger] string_views(strings@).contains(s) <==> in_runs(
            runs@,
            s,
        ) || string_views(more@).contains(s) by {
            let n = runs@.len() as int;
            lemma_strings_of_lists(all, s);
            vstd::seq_lib::to_multiset_contains(string_views(merged@), s);
            assert(string_views(strings@).contains(s) <==> string_views(
                strings@,
            ).to_set().contains(s));
            assert(string_views(merged@).contains(s) <==> string_views(merged@).to_set().contains(
                s,
            ));
            if strings_of_lists(all).count(s) > 0 {
                let j = choose|j: int|
                    0 <= j < all.len() && string_views((#[trigger] all[j])@).contains(s);
                if j < n {
                    assert(run_strings(runs@[j]).contains(s));
                }
            }
            if in_runs(runs@, s) {
                let j = choose|j: int|
                    0 <= j < runs@.len() && run_strings(#[trigger] runs@[j]).contains(s);
                assert(string_views(all[j]@).contains(s));
            }
            if string_views(more@).contains(s) {
                assert(string_views(all[n]@).contains(s));
            }
        }
    }
    strings
}

/// The number of strings of several runs.
pub open spec fn runs_len(runs: Seq<Vec<u8>>) -> nat
    decreases runs.len(),
{
    if runs.len() == 0 {
        0
    } else {
        runs_len(runs.drop_last()) + run_strings(runs.last()).len()
    }
}

/// Why a string could not be sorted.
#[derive(Clone, Copy, Debug, PartialEq, Eq, Structural)]
pub enum StringSorterError {
    /// A string does not fit in the buffer.
    DoesNotFit,
    /// A run could not be written.
    Strings(StringsError),
}

/// The number of bytes that a buffer counts for a string besides its own.
pub open spec fn string_overhead() -> nat {
    usize::BITS as nat / 8
}

/// Sorts and deduplicates byte strings.
///
/// Strings are first added to a set, to drop duplicates as soon as possible. When the set reaches
/// a number of bytes, its strings are sorted and written to a run. When there are too many runs,
/// they are merged into a single one.
pub struct ExternalDeduplicatingStringSorter {
    sorted_files: Vec<Vec<u8>>,
    max_buffer_size: usize,
    max_num_files: usize,
    buffer_size: usize,
    buffer: StringSet,
    num_unique_items_upperbound: usize,
}

impl ExternalDeduplicatingStringSorter {
    /// The runs can be read, and the number of their strings is known, up to the largest number.
    pub closed spec fn well_formed(self) -> bool {
        &&& forall|i: int|
            0 <= i < self.sorted_files@.len() ==> is_run(#[trigger] self.sorted_files@[i])
        &&& self.num_unique_items_upperbound == (if runs_len(self.sorted_files@) > usize::MAX {
            usize::MAX as nat
        } else {
            runs_len(self.sorted_files@)
        })
    }

    /// The size of the buffer, in bytes.
    pub closed spec fn max_buffer_size(self) -> nat {
        self.max_buffer_size as nat
    }

    /// The strings that are in memory.
    pub closed spec fn buffered(self) -> Set<Seq<u8>> {
        set_strings(self.buffer)
    }

    /// The runs.
    pub closed spec fn runs(self) -> Seq<Vec<u8>> {
        self.sorted_files@
    }

    /// The strings that were pushed.
    pub open spec fn strings(self) -> Set<Seq<u8>> {
        Set::new(|s: Seq<u8>| self.buffered().contains(s) || in_runs(self.runs(), s))
    }

    /// A sorter with a buffer of a given size, which keeps a given number of runs.
    pub fn new(max_buffer_size: usize, max_num_files: usize) -> (sorter: Self)
        ensures
            sorter.well_formed(),
            sorter.max_buffer_size() == max_buffer_size,
            sorter.strings() == Set::<Seq<u8>>::empty(),
            sorter.runs().len() == 0,
    {
        let sorter = ExternalDeduplicatingStringSorter {
            sorted_files: Vec::new(),
            max_buffer_size,
            max_num_files,
            buffer_size: 0,
            buffer: new_set(),
            num_unique_items_upperbound: 0,
        };
        assert(sorter.strings() =~= Set::empty());
        sorter
    }

    /// The number of strings of the runs, which is at least that of different ones.
    pub fn num_unique_items_upperbound(&self) -> (n: usize)
        requires
            self.well_formed(),
        ensures
            n == (if runs_len(self.runs()) > usize::MAX {
                usize::MAX as nat
            } else {
                runs_len(self.runs())
            }),
    {
        self.num_unique_items_upperbound
    }

    /// Adds a run.
    fn write_sorted_items(&mut self, strings: &Vec<Vec<u8>>) -> (res: Result<(), StringsError>)
        requires
            old(self).well_formed(),
            strings_increasing(string_views(strings@)),
        ensures
            final(self).well_formed(),
            final(self).max_buffer_size() == old(self).max_buffer_size(),
            final(self).buffered() == old(self).buffered(),
            match res {
                Ok(()) => forall|s: Seq<u8>| #[trigger]
                    in_runs(final(self).runs(), s) <==> in_runs(old(self).runs(), s)
                        || string_views(strings@).contains(s),
                Err(e) => {
                    &&& final(self).runs() == old(self).runs()
                    &&& e == StringsError::TooLong
                    &&& exists|i: int|
                        0 <= i < strings@.len() && (#[trigger] strings@[i])@.len() > u32::MAX
                },
            },
    {
        let run: Vec<u8> = write_run(strings)?;
        let ghost before = self.sorted_files@;
        self.sorted_files.push(run);
        let count: usize = strings.len();
        self.num_unique_items_upperbound = if count > usize::MAX
            - self.num_unique_items_upperbound {
            usize::MAX
        } else {
            self.num_unique_items_upperbound + count
        };
        proof {
            let after = self.sorted_files@;
            let n = before.len() as int;
            assert(after.drop_last() =~= before);
            assert forall|s: Seq<u8>| #[trigger] in_runs(after, s) <==> in_runs(before, s)
                || string_views(strings@).contains(s) by {
                if in_runs(after, s) {
                    let i = choose|i: int|
                        0 <= i < after.len() && run_strings(#[trigger] after[i]).contains(s);
                    if i < n {
                        assert(run_strings(before[i]).contains(s));
                    }
                }
                if in_runs(before, s) {
                    let i = choose|i: int|
                        0 <= i < before.len() && run_strings(#[trigger] before[i]).contains(s);
                    assert(run_strings(after[i]).contains(s));
                }
                if string_views(strings@).contains(s) {
                    assert(run_strings(after[n]).contains(s));
                }
            }
        }
        Ok(())
    }

    /// Merges all the runs into a single one.
    pub fn compact_files(&mut self)
        requires
            old(self).well_formed(),
        ensures
            final(self).well_formed(),
            final(self).max_buffer_size() == old(self).max_buffer_size(),
            final(self).buffered() == old(self).buffered(),
            final(self).strings() == old(self).strings(),
            final(self).runs().len() == 1,
    {
        let ghost start = *self;
        let more: Vec<Vec<u8>> = Vec::new();
        let merged: Vec<Vec<u8>> = merge_runs(&self.sorted_files, more);
        proof {
            assert forall|i: int| 0 <= i < merged@.len() implies (#[trigger] merged@[i])@.len()
                <= u32::MAX by {
                let s = merged@[i]@;
                assert(string_views(merged@)[i] == s);
                assert(string_views(merged@).contains(s));
                let j = choose|j: int|
                    0 <= j < start.runs().len() && run_strings(
                        #[trigger] start.runs()[j],
                    ).contains(s);
                lemma_strings_from_short(start.runs()[j]@, 0);
                let k = choose|k: int|
                    0 <= k < run_strings(start.runs()[j]).len() && run_strings(
                        start.runs()[j],
                    )[k] == s;
                assert(strings_from(start.runs()[j]@, 0).0[k].len() <= u32::MAX);
            }
        }
        match write_run(&merged) {
            Err(_) => {},
            Ok(run) => {
                let mut runs: Vec<Vec<u8>> = Vec::new();
                runs.push(run);
                assert(runs@.drop_last() =~= Seq::empty());
                assert(runs_len(runs@) == runs_len(runs@.drop_last()) + run_strings(
                    runs@.last(),
                ).len());
                self.sorted_files = runs;
                self.num_unique_items_upperbound = merged.len();
                proof {
                    assert forall|s: Seq<u8>| #[trigger] in_runs(self.runs(), s) <==> in_runs(
                        start.runs(),
                        s,
                    ) by {
                        if string_views(merged@).contains(s) {
                            assert(run_strings(self.runs()[0]).contains(s));
                        }
                    }
                    assert(self.strings() =~= start.strings());
                }
            },
        }
    }

    /// Moves the strings in memory to a run.
    fn flush_buffer(&mut self) -> (res: Result<(), StringsError>)
        requires
            old(self).well_formed(),
        ensures
            final(self).well_formed(),
            final(self).max_buffer_size() == old(self).max_buffer_size(),
            final(self).buffered() == Set::<Seq<u8>>::empty(),
            match res {
                Ok(()) => {
                    &&& final(self).strings() == old(self).strings()
                    &&& final(self).buffered() == Set::<Seq<u8>>::empty()
                },
                Err(e) => e == StringsError::TooLong && exists|s: Seq<u8>| #[trigger]
                    old(self).buffered().contains(s) && s.len() > u32::MAX,
            },
    {
        let ghost start = *self;
        let mut strings: Vec<Vec<u8>> = set_drain(&mut self.buffer);
        let ghost drained = string_views(strings@);
        par_sort_strings(&mut strings);
        let ghost sorted = string_views(strings@);
        let unique: Vec<Vec<u8>> = dedup_strings(strings);
        proof {
            assert forall|s: Seq<u8>| #[trigger] string_views(unique@).contains(s)
                <==> start.buffered().contains(s) by {
                vstd::seq_lib::to_multiset_contains(drained, s);
                vstd::seq_lib::to_multiset_contains(sorted, s);
                assert(drained.to_set().contains(s) <==> drained.contains(s));
                assert(sorted.to_set().contains(s) <==> sorted.contains(s));
                assert(string_views(unique@).to_set().contains(s) <==> string_views(
                    unique@,
                ).contains(s));
            }
        }
        match self.write_sorted_items(&unique) {
            Err(e) => {
                proof {
                    let i = choose|i: int|
                        0 <= i < unique@.len() && (#[trigger] unique@[i])@.len() > u32::MAX;
                    assert(string_views(unique@)[i] == unique@[i]@);
                    assert(string_views(unique@).contains(unique@[i]@));
                    assert(start.buffered().contains(unique@[i]@));
                }
                return Err(e);
            },
            Ok(()) => {},
        }
        let ghost written = *self;
        self.buffer_size = 0;
        proof {
            assert(self.runs() == written.runs() && self.buffered() == written.buffered());
            assert forall|s: Seq<u8>| #[trigger] self.strings().contains(s)
                <==> start.strings().contains(s) by {
                assert(in_runs(written.runs(), s) <==> in_runs(start.runs(), s) || string_views(
                    unique@,
                ).contains(s));
            }
            assert(self.strings() =~= start.strings());
        }
        if self.sorted_files.len() > self.max_num_files {
            self.compact_files();
        }
        Ok(())
    }

    /// Adds a string.
    pub fn push_boxed_bytes(&mut self, bytes: Vec<u8>) -> (res: Result<(), StringSorterError>)
        requires
            old(self).well_formed(),
        ensures
            final(self).max_buffer_size() == old(self).max_buffer_size(),
            final(self).well_formed(),
            forall|s: Seq<u8>| #[trigger]
                final(self).buffered().contains(s) ==> old(self).buffered().contains(s) || s
                    == bytes@,
            match res {
                Ok(()) => final(self).strings() == old(self).strings().insert(bytes@)
                    && string_overhead() + bytes@.len() < old(self).max_buffer_size(),
                Err(StringSorterError::DoesNotFit) => final(self).strings() == old(self).strings()
                    && string_overhead() + bytes@.len() >= old(self).max_buffer_size(),
                Err(StringSorterError::Strings(e)) => e == StringsError::TooLong && exists|
                    s: Seq<u8>,
                | #[trigger]
                    old(self).buffered().contains(s) && s.len() > u32::MAX,
            },
    {
        let ghost start = *self;
        let len: usize = bytes.len();
        let overhead: usize = (usize::BITS / 8) as usize;
        if self.buffer_size > self.max_buffer_size || len > self.max_buffer_size
            - self.buffer_size {
            match self.flush_buffer() {
                Err(e) => {
                    return Err(StringSorterError::Strings(e));
                },
                Ok(()) => {},
            }
        }
        if overhead >= self.max_buffer_size || len >= self.max_buffer_size - overhead {
            return Err(StringSorterError::DoesNotFit);
        }
        let ghost string = bytes@;
        if set_insert(&mut self.buffer, bytes) {
            self.buffer_size = if self.buffer_size > usize::MAX - overhead - len {
                usize::MAX
            } else {
                self.buffer_size + overhead + len
            };
        }
        assert(self.strings() =~= start.strings().insert(string));
        Ok(())
    }

    /// Takes all the strings out of the sorter, sorted, without duplicates.
    pub fn drain_boxed_bytes(&mut self) -> (strings: Vec<Vec<u8>>)
        requires
            old(self).well_formed(),
        ensures
            strings_increasing(string_views(strings@)),
            string_views(strings@).to_set() == old(self).strings(),
            final(self).well_formed(),
            final(self).max_buffer_size() == old(self).max_buffer_size(),
            final(self).strings() == Set::<Seq<u8>>::empty(),
    {
        let ghost start = *self;
        let mut buffer: Vec<Vec<u8>> = set_drain(&mut self.buffer);
        let ghost drained = string_views(buffer@);
        par_sort_strings(&mut buffer);
        let ghost sorted = string_views(buffer@);
        let strings: Vec<Vec<u8>> = merge_runs(&self.sorted_files, buffer);
        self.sorted_files = Vec::new();
        self.num_unique_items_upperbound = 0;
        self.buffer_size = 0;
        proof {
            assert forall|s: Seq<u8>| #[trigger] string_views(strings@).to_set().contains(s)
                <==> start.strings().contains(s) by {
                vstd::seq_lib::to_multiset_contains(drained, s);
                vstd::seq_lib::to_multiset_contains(sorted, s);
                assert(drained.to_set().contains(s) <==> drained.contains(s));
                assert(string_views(strings@).to_set().contains(s) <==> string_views(
                    strings@,
                ).contains(s));
            }
            assert(string_views(strings@).to_set() =~= start.strings());
            assert(self.strings() =~= Set::empty());
        }
        strings
    }

    /// Adds the runs of another sorter.
    fn take_runs(&mut self, runs: Vec<Vec<u8>>, count: usize)
        requires
            old(self).well_formed(),
            forall|i: int| 0 <= i < runs@.len() ==> is_run(#[trigger] runs@[i]),
            count == (if runs_len(runs@) > usize::MAX {
                usize::MAX as nat
            } else {
                runs_len(runs@)
            }),
        ensures
            final(self).well_formed(),
            final(self).max_buffer_size() == old(self).max_buffer_size(),
            final(self).buffered() == old(self).buffered(),
            forall|s: Seq<u8>| #[trigger]
                in_runs(final(self).runs(), s) <==> in_runs(old(self).runs(), s) || in_runs(
                    runs@,
                    s,
                ),
    {
        let ghost before = self.sorted_files@;
        let mut more: Vec<Vec<u8>> = runs;
        let ghost added = more@;
        self.sorted_files.append(&mut more);
        self.num_unique_items_upperbound = if count > usize::MAX
            - self.num_unique_items_upperbound {
            usize::MAX
        } else {
            self.num_unique_items_upperbound + count
        };
        proof {
            let after = self.sorted_files@;
            assert(after =~= before + added);
            lemma_runs_len_add(before, added);
            assert forall|i: int| 0 <= i < after.len() implies is_run(#[trigger] after[i]) by {
                if i >= before.len() {
                    assert(after[i] == added[i - before.len()]);
                } else {
                    assert(after[i] == before[i]);
                }
            }
            assert forall|s: Seq<u8>| #[trigger] in_runs(after, s) <==> in_runs(before, s)
                || in_runs(added, s) by {
                if in_runs(after, s) {
                    let i = choose|i: int|
                        0 <= i < after.len() && run_strings(#[trigger] after[i]).contains(s);
                    if i < before.len() {
                        assert(run_strings(before[i]).contains(s));
                    } else {
                        assert(run_strings(added[i - before.len()]).contains(s));
                    }
                }
                if in_runs(before, s) {
                    let i = choose|i: int|
                        0 <= i < before.len() && run_strings(#[trigger] before[i]).contains(s);
                    assert(run_strings(after[i]).contains(s));
                }
                if in_runs(added, s) {
                    let i = choose|i: int|
                        0 <= i < added.len() && run_strings(#[trigger] added[i]).contains(s);
                    assert(run_strings(after[before.len() + i]).contains(s));
                }
            }
        }
    }

    /// The strings of two sorters, in one.
    #[verifier::rlimit(50)]
    pub fn merge(self, other: Self) -> (res: Result<Self, StringSorterError>)
        requires
            self.well_formed(),
            other.well_formed(),
        ensures
            match res {
                Ok(merged) => {
                    &&& merged.well_formed()
                    &&& merged.max_buffer_size() == self.max_buffer_size()
                    &&& merged.strings() == self.strings().union(other.strings())
                },
                Err(StringSorterError::DoesNotFit) => exists|s: Seq<u8>| #[trigger]
                    self.buffered().union(other.buffered()).contains(s) && string_overhead()
                        + s.len() >= self.max_buffer_size(),
                Err(StringSorterError::Strings(e)) => e == StringsError::TooLong && exists|
                    s: Seq<u8>,
                | #[trigger]
                    self.buffered().union(other.buffered()).contains(s) && s.len() > u32::MAX,
            },
    {
        let mut this = self;
        let mut that = other;
        if this.max_num_files < that.sorted_files.len() || this.sorted_files.len()
            > this.max_num_files - that.sorted_files.len() {
            this.compact_files();
            that.compact_files();
        }
        let ghost compacted = this;
        let ghost compacted_other = that;
        proof {
            assert(this.strings() == self.strings() && that.strings() == other.strings());
        }
        let ghost all = this.buffered().union(that.buffered());
        let count: usize = that.num_unique_items_upperbound;
        this.take_runs(that.sorted_files, count);
        let ghost taken = this;
        let mut smaller: StringSet = that.buffer;
        if set_len(&this.buffer) < set_len(&smaller) {
            std::mem::swap(&mut this.buffer, &mut smaller);
            this.buffer_size = that.buffer_size;
        }
        let strings: Vec<Vec<u8>> = set_drain(&mut smaller);
        let ghost views = string_views(strings@);
        let ghost swapped = this;
        proof {
            assert(this.runs() == taken.runs());
            assert forall|s: Seq<u8>| #[trigger] views.contains(s) implies all.contains(s) by {
                assert(views.to_set().contains(s));
            }
            assert forall|s: Seq<u8>| #[trigger] this.strings().contains(s) || views.contains(s)
                <==> self.strings().union(other.strings()).contains(s) by {
                assert(views.to_set().contains(s) <==> views.contains(s));
                assert(in_runs(taken.runs(), s) <==> in_runs(compacted.runs(), s) || in_runs(
                    compacted_other.runs(),
                    s,
                ));
                assert(self.strings().contains(s) <==> compacted.strings().contains(s));
                assert(other.strings().contains(s) <==> compacted_other.strings().contains(s));
            }
        }
        for bytes in it: strings
            invariant
                it.seq() == strings@,
                views == string_views(strings@),
                this.well_formed(),
                this.max_buffer_size() == self.max_buffer_size(),
                all == self.buffered().union(other.buffered()),
                forall|s: Seq<u8>| #[trigger] views.contains(s) ==> all.contains(s),
                forall|s: Seq<u8>| #[trigger] this.buffered().contains(s) ==> all.contains(s),
                forall|s: Seq<u8>| #[trigger]
                    this.strings().contains(s) <==> swapped.strings().contains(s) || views.take(
                        it.index(),
                    ).contains(s),
        {
            let ghost k = it.index();
            let ghost before = this;
            let ghost string = bytes@;
            proof {
                assert(views[k] == string);
                assert(views.contains(string));
                assert(views.take(k + 1) =~= views.take(k).push(string));
                lemma_push_contains(views.take(k), string);
            }
            this.push_boxed_bytes(bytes)?;
            proof {
                assert forall|s: Seq<u8>| #[trigger] this.strings().contains(s)
                    <==> swapped.strings().contains(s) || views.take(k + 1).contains(s) by {
                    assert(before.strings().contains(s) <==> swapped.strings().contains(s)
                        || views.take(k).contains(s));
                }
            }
        }
        proof {
            assert(views.take(views.len() as int) =~= views);
            assert forall|s: Seq<u8>| #[trigger] this.strings().contains(s)
                <==> self.strings().union(other.strings()).contains(s) by {
                assert(swapped.strings().contains(s) || views.contains(s)
                    <==> self.strings().union(other.strings()).contains(s));
            }
            assert(this.strings() =~= self.strings().union(other.strings()));
        }
        Ok(this)
    }
}

proof fn lemma_runs_len_add(a: Seq<Vec<u8>>, b: Seq<Vec<u8>>)
    ensures
        runs_len(a + b) == runs_len(a) + runs_len(b),
    decreases b.len(),
{
    if b.len() == 0 {
        assert(a + b =~= a);
    } else {
        lemma_runs_len_add(a, b.drop_last());
        assert((a + b).drop_last() =~= a + b.drop_last());
    }
}

} // verus!
