//! Byte strings: their order, and lists of them in which each is preceded by its length.

use crate::bytes::{le_bytes, le_value, push_le, read_le};
use vstd::prelude::*;

verus! {

/// The lexicographic order on byte strings, strict.
pub open spec fn bytes_lt(a: Seq<u8>, b: Seq<u8>) -> bool
    decreases a.len(),
{
    if a.len() == 0 || b.len() == 0 {
        a.len() < b.len()
    } else if a[0] != b[0] {
        a[0] < b[0]
    } else {
        bytes_lt(a.drop_first(), b.drop_first())
    }
}

/// The byte strings of a list.
pub open spec fn string_views(strings: Seq<Vec<u8>>) -> Seq<Seq<u8>> {
    strings.map_values(|string: Vec<u8>| string@)
}

/// Whether each string of a list comes no earlier than those before it.
pub open spec fn strings_sorted(strings: Seq<Seq<u8>>) -> bool {
    forall|i: int, j: int| 0 <= i <= j < strings.len() ==> !bytes_lt(strings[j], strings[i])
}

/// Whether each string of a list comes after those before it.
pub open spec fn strings_increasing(strings: Seq<Seq<u8>>) -> bool {
    forall|i: int, j: int| 0 <= i < j < strings.len() ==> bytes_lt(strings[i], strings[j])
}

/// No string comes before itself.
pub proof fn lemma_bytes_irreflexive(a: Seq<u8>)
    ensures
        !bytes_lt(a, a),
    decreases a.len(),
{
    if a.len() > 0 {
        lemma_bytes_irreflexive(a.drop_first());
    }
}

/// Of two strings neither of which comes before the other, both are the same.
pub proof fn lemma_bytes_antisymmetric(a: Seq<u8>, b: Seq<u8>)
    requires
        !bytes_lt(a, b),
        !bytes_lt(b, a),
    ensures
        a == b,
    decreases a.len(),
{
    if a.len() > 0 && b.len() > 0 {
        lemma_bytes_antisymmetric(a.drop_first(), b.drop_first());
        assert(a =~= seq![a[0]] + a.drop_first());
        assert(b =~= seq![b[0]] + b.drop_first());
    } else {
        assert(a =~= b);
    }
}

/// If a string comes before another one, that one does not come before it.
pub proof fn lemma_bytes_asymmetric(a: Seq<u8>, b: Seq<u8>)
    requires
        bytes_lt(a, b),
    ensures
        !bytes_lt(b, a),
    decreases a.len(),
{
    if a.len() > 0 && b.len() > 0 && a[0] == b[0] {
        lemma_bytes_asymmetric(a.drop_first(), b.drop_first());
    }
}

/// The order on strings is transitive.
pub proof fn lemma_bytes_transitive(a: Seq<u8>, b: Seq<u8>, c: Seq<u8>)
    requires
        !bytes_lt(b, a),
        !bytes_lt(c, b),
    ensures
        !bytes_lt(c, a),
        bytes_lt(a, b) || bytes_lt(b, c) ==> bytes_lt(a, c),
    decreases a.len(),
{
    if a.len() > 0 && b.len() > 0 && c.len() > 0 && a[0] == b[0] && b[0] == c[0] {
        lemma_bytes_transitive(a.drop_first(), b.drop_first(), c.drop_first());
    }
}

/// Whether a string comes before another one.
pub fn string_lt(a: &Vec<u8>, b: &Vec<u8>) -> (lt: bool)
    ensures
        lt == bytes_lt(a@, b@),
{
    let mut i: usize = 0;
    assert(a@.skip(0) =~= a@ && b@.skip(0) =~= b@);
    while i < a.len() && i < b.len()
        invariant
            i <= a@.len(),
            i <= b@.len(),
            bytes_lt(a@, b@) == bytes_lt(a@.skip(i as int), b@.skip(i as int)),
        decreases a@.len() - i,
    {
        assert(a@.skip(i as int)[0] == a@[i as int] && b@.skip(i as int)[0] == b@[i as int]);
        if a[i] != b[i] {
            return a[i] < b[i];
        }
        assert(a@.skip(i as int).drop_first() =~= a@.skip(i + 1));
        assert(b@.skip(i as int).drop_first() =~= b@.skip(i + 1));
        i = i + 1;
    }
    a.len() < b.len()
}

/// Whether two strings are the same.
pub fn string_eq(a: &[u8], b: &[u8]) -> (eq: bool)
    ensures
        eq == (a@ == b@),
{
    if a.len() != b.len() {
        return false;
    }
    let mut i: usize = 0;
    while i < a.len()
        invariant
            i <= a@.len() == b@.len(),
            forall|j: int| 0 <= j < i ==> a@[j] == b@[j],
        decreases a@.len() - i,
    {
        if a[i] != b[i] {
            assert(a@[i as int] != b@[i as int]);
            return false;
        }
        i = i + 1;
    }
    assert(a@ =~= b@);
    true
}

/// A copy of a part of a string.
pub fn copy_range(data: &[u8], from: usize, to: usize) -> (part: Vec<u8>)
    requires
        from <= to <= data@.len(),
    ensures
        part@ == data@.subrange(from as int, to as int),
{
    let mut part: Vec<u8> = Vec::new();
    part.extend_from_slice(vstd::slice::slice_subrange(data, from, to));
    assert(part@ =~= data@.subrange(from as int, to as int));
    part
}

/// Why a string could not be written or read.
#[derive(Clone, Copy, Debug, PartialEq, Eq, Structural)]
pub enum StringsError {
    /// The length of a string overflows 32 bits.
    TooLong,
    /// A list ends before a string does.
    Truncated,
}

/// A string preceded by its length.
pub open spec fn prefixed(string: Seq<u8>) -> Seq<u8> {
    le_bytes(string.len(), 4) + string
}

/// What comes next in a list of strings.
pub enum NextString {
    /// The end of the list.
    End,
    /// A string, and the position after it.
    Item(Seq<u8>, nat),
    /// The list cannot be decoded.
    Fail(StringsError),
}

/// The string at a position of a list.
pub open spec fn string_at(data: Seq<u8>, pos: nat) -> NextString {
    if pos + 4 > data.len() {
        NextString::End
    } else {
        let len = le_value(data.subrange(pos as int, (pos + 4) as int));
        if pos + 4 + len > data.len() {
            NextString::Fail(StringsError::Truncated)
        } else {
            NextString::Item(
                data.subrange((pos + 4) as int, (pos + 4 + len) as int),
                (pos + 4 + len) as nat,
            )
        }
    }
}

/// The strings from a position of a list on, and the error that ends them, if one does.
pub open spec fn strings_from(data: Seq<u8>, pos: nat) -> (Seq<Seq<u8>>, Option<StringsError>)
    decreases data.len() - pos,
{
    match string_at(data, pos) {
        NextString::End => (Seq::empty(), None),
        NextString::Fail(e) => (Seq::empty(), Some(e)),
        NextString::Item(string, next) => {
            let (strings, error) = strings_from(data, next);
            (seq![string] + strings, error)
        },
    }
}

/// Appends a string preceded by its length.
pub fn write_length_prefixed_string(out: &mut Vec<u8>, string: &[u8]) -> (res: Result<
    (),
    StringsError,
>)
    ensures
        if string@.len() > u32::MAX {
            res == Err::<(), StringsError>(StringsError::TooLong) && *final(out) == *old(out)
        } else {
            res is Ok && final(out)@ == old(out)@ + prefixed(string@)
        },
{
    if string.len() as u64 > u32::MAX as u64 {
        return Err(StringsError::TooLong);
    }
    push_le(out, string.len() as u64, 4);
    out.extend_from_slice(string);
    assert(out@ =~= old(out)@ + prefixed(string@));
    Ok(())
}

/// Reads the string at a position of a list, and gives the position after it.
pub fn read_length_prefixed_string(data: &[u8], pos: usize) -> (res: Result<
    Option<(Vec<u8>, usize)>,
    StringsError,
>)
    ensures
        match string_at(data@, pos as nat) {
            NextString::End => res matches Ok(None),
            NextString::Fail(e) => res is Err && res->Err_0 == e,
            NextString::Item(string, next) => res matches Ok(Some((s, n))) && s@ == string && n
                == next,
        },
{
    if data.len() < 4 || pos > data.len() - 4 {
        return Ok(None);
    }
    let len: u64 = read_le(data, pos, 4);
    if len > (data.len() - 4 - pos) as u64 {
        return Err(StringsError::Truncated);
    }
    let start: usize = pos + 4;
    let end: usize = start + len as usize;
    Ok(Some((copy_range(data, start, end), end)))
}

/// A string that was written is read back, whatever comes after it.
pub proof fn lemma_string_round_trip(before: Seq<u8>, string: Seq<u8>, after: Seq<u8>)
    requires
        string.len() <= u32::MAX,
    ensures
        string_at(before + prefixed(string) + after, before.len()) == NextString::Item(
            string,
            before.len() + prefixed(string).len(),
        ),
        prefixed(string).len() == 4 + string.len(),
{
    let data = before + prefixed(string) + after;
    let pos = before.len();
    crate::bytes::lemma_le_bytes_len(string.len(), 4);
    reveal_with_fuel(crate::bytes::byte_range, 5);
    crate::bytes::lemma_le_round_trip(string.len(), 4);
    assert(data.subrange(pos as int, (pos + 4) as int) =~= le_bytes(string.len(), 4));
    assert(data.subrange((pos + 4) as int, (pos + 4 + string.len()) as int) =~= string);
}

/// The bytes of a list of strings.
pub open spec fn prefixed_all(strings: Seq<Seq<u8>>) -> Seq<u8>
    decreases strings.len(),
{
    if strings.len() == 0 {
        Seq::empty()
    } else {
        prefixed_all(strings.drop_last()) + prefixed(strings.last())
    }
}

proof fn lemma_strings_from_written(strings: Seq<Seq<u8>>, i: int)
    requires
        0 <= i <= strings.len(),
        forall|j: int| 0 <= j < strings.len() ==> (#[trigger] strings[j]).len() <= u32::MAX,
    ensures
        strings_from(prefixed_all(strings), prefixed_all(strings.take(i)).len()) == (
            strings.skip(i),
            None::<StringsError>,
        ),
        prefixed_all(strings.take(i)).len() <= prefixed_all(strings).len(),
    decreases strings.len() - i,
{
    let data = prefixed_all(strings);
    if i == strings.len() {
        assert(strings.take(i) =~= strings);
        assert(strings.skip(i) =~= Seq::empty());
    } else {
        lemma_strings_from_written(strings, i + 1);
        lemma_prefixed_all_split(strings, i + 1);
        assert(strings.take(i + 1).drop_last() =~= strings.take(i));
        let head = prefixed_all(strings.take(i));
        let string = strings[i];
        let tail = data.skip(prefixed_all(strings.take(i + 1)).len() as int);
        assert(data =~= head + prefixed(string) + tail);
        lemma_string_round_trip(head, string, tail);
        assert(strings.skip(i) =~= seq![string] + strings.skip(i + 1));
    }
}

proof fn lemma_prefixed_all_split(strings: Seq<Seq<u8>>, i: int)
    requires
        0 <= i <= strings.len(),
    ensures
        prefixed_all(strings.take(i)).len() <= prefixed_all(strings).len(),
        prefixed_all(strings.take(i)) == prefixed_all(strings).take(
            prefixed_all(strings.take(i)).len() as int,
        ),
    decreases strings.len(),
{
    if i == strings.len() {
        assert(strings.take(i) =~= strings);
        assert(prefixed_all(strings) =~= prefixed_all(strings).take(
            prefixed_all(strings).len() as int,
        ));
    } else {
        let before = strings.drop_last();
        lemma_prefixed_all_split(before, i);
        assert(before.take(i) =~= strings.take(i));
        assert(prefixed_all(strings.take(i)) =~= prefixed_all(strings).take(
            prefixed_all(strings.take(i)).len() as int,
        ));
    }
}

/// A list of strings that was written is read back.
pub proof fn lemma_strings_round_trip(strings: Seq<Seq<u8>>)
    requires
        forall|j: int| 0 <= j < strings.len() ==> (#[trigger] strings[j]).len() <= u32::MAX,
    ensures
        strings_from(prefixed_all(strings), 0) == (strings, None::<StringsError>),
{
    lemma_strings_from_written(strings, 0);
    assert(strings.take(0) =~= Seq::empty());
    assert(strings.skip(0) =~= strings);
}

/// A string comes before another one if they first differ at a byte that is smaller in it, or if it
/// is the beginning of the other one. Of two different strings, one comes before the other.
pub proof fn lemma_bytes_order(a: Seq<u8>, b: Seq<u8>, n: int)
    requires
        0 <= n <= a.len(),
        n <= b.len(),
        a.take(n) == b.take(n),
    ensures
        n == a.len() && n < b.len() ==> bytes_lt(a, b),
        n < a.len() && n < b.len() && a[n] < b[n] ==> bytes_lt(a, b),
        bytes_lt(a, b) || bytes_lt(b, a) || a == b,
    decreases n,
{
    if !bytes_lt(a, b) && !bytes_lt(b, a) {
        lemma_bytes_antisymmetric(a, b);
    }
    if n > 0 {
        let (x, y) = (a.drop_first(), b.drop_first());
        assert(a.take(n)[0] == a[0] && b.take(n)[0] == b[0]);
        assert(x.take(n - 1) =~= a.take(n).drop_first());
        assert(y.take(n - 1) =~= b.take(n).drop_first());
        assert(n < a.len() ==> x[n - 1] == a[n]);
        assert(n < b.len() ==> y[n - 1] == b[n]);
        lemma_bytes_order(x, y, n - 1);
    }
}

} // verus!
