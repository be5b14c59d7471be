//! Dictionaries of the datatypes of literals.

use crate::indexes::{positions_view, seq_len, sequence_of, MonotoneSeq};
use crate::strings::{
    prefixed, prefixed_all, read_length_prefixed_string, string_at, string_lt, strings_from,
    NextString, StringsError,
};
use crate::terms::{read_text, text_eq, text_of, TermError};
use crate::terms_store::TermsError;
use vstd::prelude::*;
use vstd::utf8::encode_utf8;

verus! {

/// A dictionary of the datatypes of literals: a sorted list of strings, and the positions at which
/// they start and end.
pub struct TermDictionary {
    name: String,
    datatypes: Vec<u8>,
    datatypes_offsets: MonotoneSeq,
}

/// The positions at which strings start in their list, and that of its end.
pub open spec fn string_offsets(strings: Seq<Seq<u8>>) -> Seq<nat> {
    Seq::new(strings.len() + 1, |i: int| prefixed_all(strings.take(i)).len())
}

proof fn lemma_string_offsets_push(strings: Seq<Seq<u8>>, string: Seq<u8>)
    ensures
        string_offsets(strings.push(string)) == string_offsets(strings).push(
            prefixed_all(strings.push(string)).len(),
        ),
{
    let more = strings.push(string);
    assert forall|i: int| 0 <= i <= strings.len() implies #[trigger] string_offsets(more)[i]
        == string_offsets(strings)[i] by {
        assert(more.take(i) =~= strings.take(i));
    }
    assert(more.take(more.len() as int) =~= more);
    assert(string_offsets(more) =~= string_offsets(strings).push(prefixed_all(more).len()));
}

/// Builds the index of a list of datatypes, which are strings preceded by their lengths: the
/// positions at which they start, and that of the end of the list.
pub fn index_datatypes(datatypes: &[u8]) -> (res: Result<MonotoneSeq, TermsError>)
    ensures
        ({
            let (strings, error) = strings_from(datatypes@, 0);
            if error is Some {
                res is Err && res->Err_0 == TermsError::Term(TermError::TruncatedDictionary)
            } else if strings.len() + 1 + datatypes@.len() >= usize::MAX / 2 {
                res is Err && res->Err_0 == TermsError::IndexTooLarge
            } else {
                res matches Ok(index) && positions_view(crate::indexes::seq_values(index))
                    == string_offsets(strings)
            }
        }),
{
    let mut offsets: Vec<usize> = vec![0];
    let mut offset: usize = 0;
    let ghost mut read: Seq<Seq<u8>> = Seq::empty();
    let ghost all = strings_from(datatypes@, 0);
    proof {
        assert(read + all.0 =~= all.0);
        assert(positions_view(offsets@) =~= string_offsets(read));
    }
    loop
        invariant
            all == strings_from(datatypes@, 0),
            all == (
                read + strings_from(datatypes@, offset as nat).0,
                strings_from(datatypes@, offset as nat).1,
            ),
            offset <= datatypes@.len(),
            offset == prefixed_all(read).len(),
            positions_view(offsets@) == string_offsets(read),
            offsets@.len() == read.len() + 1,
            forall|i: int| 0 <= i < offsets@.len() ==> offsets@[i] <= offset,
            forall|i: int, j: int| 0 <= i <= j < offsets@.len() ==> offsets@[i] <= offsets@[j],
        ensures
            all == (read, None::<StringsError>),
        decreases datatypes@.len() - offset,
    {
        let ghost rest = strings_from(datatypes@, offset as nat);
        match read_length_prefixed_string(datatypes, offset) {
            Err(_) => {
                return Err(TermsError::Term(TermError::TruncatedDictionary));
            },
            Ok(None) => {
                assert(read + rest.0 =~= read);
                break;
            },
            Ok(Some((string, next))) => {
                proof {
                    let more = read.push(string@);
                    crate::bytes::lemma_le_bytes_len(string@.len(), 4);
                    assert(more.drop_last() =~= read);
                    assert(prefixed_all(more) == prefixed_all(read) + prefixed(string@));
                    assert(read + (seq![string@] + strings_from(datatypes@, next as nat).0)
                        =~= more + strings_from(datatypes@, next as nat).0);
                    lemma_string_offsets_push(read, string@);
                    read = more;
                }
                let ghost before = offsets@;
                offset = next;
                offsets.push(offset);
                assert(positions_view(offsets@) =~= positions_view(before).push(offset as nat));
            },
        }
    }
    if offsets.len() as u128 + datatypes.len() as u128 >= (usize::MAX / 2) as u128 {
        return Err(TermsError::IndexTooLarge);
    }
    Ok(sequence_of(&offsets, datatypes.len()))
}

impl TermDictionary {
    /// The bytes of the list of datatypes.
    pub closed spec fn data(self) -> Seq<u8> {
        self.datatypes@
    }

    /// The positions at which datatypes start, and that of the end of the list.
    pub closed spec fn offsets(self) -> Seq<usize> {
        crate::indexes::seq_values(self.datatypes_offsets)
    }

    /// The name of the dictionary.
    pub closed spec fn name(self) -> Seq<char> {
        self.name@
    }

    /// The first datatype of the list.
    pub open spec fn first_datatype(self) -> Result<Seq<char>, TermError> {
        match string_at(self.data(), 0) {
            NextString::End => Err(TermError::TruncatedDictionary),
            NextString::Fail(_) => Err(TermError::TruncatedDictionary),
            NextString::Item(string, _) => text_of(string),
        }
    }

    /// The datatype that a number in the range of the dictionary stands for: it is read from the
    /// beginning of the list, whatever the number.
    pub open spec fn datatype(self, id: nat) -> Result<Seq<char>, TermError> {
        if id >= self.offsets().len() {
            Err(TermError::InvalidDatatypeId)
        } else {
            self.first_datatype()
        }
    }

    /// The number that is found for a datatype. As each number reads the first datatype of the
    /// list, only that one is found, with the number halfway through the list.
    pub open spec fn datatype_id(self, datatype: Seq<char>) -> Result<Option<u32>, TermError> {
        if self.offsets().len() - 1 > u32::MAX {
            Err(TermError::TooManyDatatypes)
        } else {
            match self.first_datatype() {
                Err(e) => Err(e),
                Ok(first) => if first == datatype {
                    Ok(Some(((self.offsets().len() - 1) / 2) as u32))
                } else {
                    Ok(None)
                },
            }
        }
    }

    /// The position of the end of the list is known.
    pub closed spec fn well_formed(self) -> bool {
        self.offsets().len() > 0
    }

    /// The number that is found for a datatype stands for that datatype.
    pub proof fn lemma_datatype(self, datatype: Seq<char>)
        requires
            self.well_formed(),
            self.datatype_id(datatype) matches Ok(Some(_)),
        ensures
            self.datatype(self.datatype_id(datatype)->Ok_0->Some_0 as nat) == Ok::<
                Seq<char>,
                TermError,
            >(datatype),
    {
    }

    /// Looking up the datatypes of a dictionary that is made of a list of strings: only the first
    /// one is found, by the number halfway through the list, and each number up to that of the end
    /// of the list stands for it. Other numbers stand for nothing.
    pub proof fn lemma_lookup(
        self,
        list: Seq<Seq<u8>>,
        first: Seq<char>,
        datatype: Seq<char>,
        id: nat,
    )
        requires
            self.data() == prefixed_all(list),
            self.offsets().len() == list.len() + 1,
            0 < list.len() <= u32::MAX,
            forall|j: int| 0 <= j < list.len() ==> (#[trigger] list[j]).len() <= u32::MAX,
            list[0] == encode_utf8(first),
        ensures
            datatype == first ==> self.datatype_id(datatype) == Ok::<Option<u32>, TermError>(
                Some((list.len() / 2) as u32),
            ),
            datatype != first ==> self.datatype_id(datatype) == Ok::<Option<u32>, TermError>(None),
            id <= list.len() ==> self.datatype(id) == Ok::<Seq<char>, TermError>(first),
            id > list.len() ==> self.datatype(id) == Err::<Seq<char>, TermError>(
                TermError::InvalidDatatypeId,
            ),
    {
        crate::strings::lemma_strings_round_trip(list);
        vstd::utf8::encode_utf8_valid_utf8(first);
        vstd::utf8::encode_utf8_decode_utf8(first);
        match string_at(self.data(), 0) {
            NextString::Item(string, next) => {
                let rest = strings_from(self.data(), next).0;
                assert((seq![string] + rest)[0] == string);
            },
            _ => {},
        }
    }

    /// Opens a dictionary, whose datatypes are given as a list of strings preceded by their
    /// lengths, with its index. Nothing is read.
    pub fn mmap(name: String, datatypes: Vec<u8>, datatypes_offsets: MonotoneSeq) -> (res: Result<
        Self,
        TermsError,
    >)
        ensures
            if crate::indexes::seq_values(datatypes_offsets).len() == 0 {
                res is Err && res->Err_0 == TermsError::Term(TermError::TruncatedDictionary)
            } else {
                res matches Ok(dictionary) && {
                    &&& dictionary.well_formed()
                    &&& dictionary.name() == name@
                    &&& dictionary.data() == datatypes@
                    &&& dictionary.offsets() == crate::indexes::seq_values(datatypes_offsets)
                }
            },
    {
        if seq_len(&datatypes_offsets) == 0 {
            return Err(TermsError::Term(TermError::TruncatedDictionary));
        }
        Ok(TermDictionary { name, datatypes, datatypes_offsets })
    }

    /// The bytes of the list of datatypes.
    pub fn as_bytes(&self) -> (bytes: &[u8])
        ensures
            bytes@ == self.data(),
    {
        self.datatypes.as_slice()
    }

    /// The name of the dictionary.
    pub fn get_name(&self) -> (name: String)
        ensures
            name@ == self.name(),
    {
        self.name.as_str().to_owned()
    }

    /// The datatype that a number stands for, which is the first one of the list.
    pub fn get_datatype(&self, id: u32) -> (res: Result<String, TermError>)
        ensures
            match self.datatype(id as nat) {
                Err(e) => res is Err && res->Err_0 == e,
                Ok(datatype) => res matches Ok(s) && s@ == datatype,
            },
    {
        if id as u64 >= seq_len(&self.datatypes_offsets) as u64 {
            return Err(TermError::InvalidDatatypeId);
        }
        match read_length_prefixed_string(self.datatypes.as_slice(), 0) {
            Err(_) => Err(TermError::TruncatedDictionary),
            Ok(None) => Err(TermError::TruncatedDictionary),
            Ok(Some((string, _next))) => {
                assert(string@.subrange(0, string@.len() as int) =~= string@);
                read_text(string.as_slice(), 0, string.len())
            },
        }
    }

    /// The number that is found for a datatype by bisection. As each number reads the first datatype
    /// of the list, no other one is found.
    pub fn get_datatype_id(&self, datatype: &str) -> (res: Result<Option<u32>, TermError>)
        requires
            self.well_formed(),
        ensures
            match self.datatype_id(datatype@) {
                Err(e) => res is Err && res->Err_0 == e,
                Ok(id) => res matches Ok(i) && i == id,
            },
    {
        let count: usize = seq_len(&self.datatypes_offsets) - 1;
        if count as u64 > u32::MAX as u64 {
            return Err(TermError::TooManyDatatypes);
        }
        let wanted: Vec<u8> = vstd::slice::slice_to_vec(datatype.as_bytes());
        let mut left: u32 = 0;
        let mut right: u32 = count as u32;
        let ghost mut started: bool = false;
        while left < right
            invariant
                self.well_formed(),
                left <= right <= count,
                count == self.offsets().len() - 1,
                count <= u32::MAX,
                !started ==> left == 0 && right == count,
                started ==> (self.first_datatype() matches Ok(first) && first != datatype@),
            ensures
                !started ==> count == 0,
            decreases right - left,
        {
            let pivot_id: u32 = left + (right - left) / 2;
            let pivot: String = self.get_datatype(pivot_id)?;
            if text_eq(pivot.as_str(), datatype) {
                return Ok(Some(pivot_id));
            }
            proof {
                started = true;
            }
            let pivot_bytes: Vec<u8> = vstd::slice::slice_to_vec(pivot.as_str().as_bytes());
            if string_lt(&pivot_bytes, &wanted) {
                if left == pivot_id {
                    break;
                }
                left = pivot_id;
            } else {
                right = pivot_id;
            }
        }
        let last: String = self.get_datatype(left)?;
        if text_eq(last.as_str(), datatype) {
            Ok(Some(left))
        } else {
            Ok(None)
        }
    }
}

} // verus!
