//! Dictionaries made from the terms of a store, and stores rewritten to use them.

use crate::dictionary::{index_datatypes, string_offsets, TermDictionary};
use crate::front_coding::{
    frames_code, lemma_frames_round_trip, lender_start, lender_strings, FrameError, FrameLender,
};
use crate::indexes::positions_view;
use crate::string_sorter::ExternalDeduplicatingStringSorter;
use crate::strings::{
    prefixed_all, string_views, strings_increasing, write_length_prefixed_string,
};
use crate::terms::{
    deserialize_term, deserialized_term, dictionary_view, lemma_term_round_trip, serialize_term,
    serialized_term, text_eq, Term, TermError, TermView, RDF_LANG_STRING,
    XSD_STRING,
};
use crate::terms_mphf::mphf_key;
use crate::terms_store::{list_terms_files, num_files, TermStoreConfiguration, TermsError};
use crate::terms_writer::{
    merge_sorters, push_string, sortable, sorts, write_frames, TERM_BUFFER_SIZE,
};
use vstd::prelude::*;
use vstd::utf8::encode_utf8;

verus! {

/// The size of the buffers that the datatypes of a file are sorted in.
pub const DATATYPE_BUFFER_SIZE: usize = 100_000_000;

/// The datatype that a stored term adds to a dictionary, if any.
pub open spec fn term_datatype(string: Seq<u8>, dictionary: Option<TermDictionary>) -> Result<
    Option<Seq<u8>>,
    TermsError,
> {
    if string.len() == 0 {
        Ok(None)
    } else {
        match deserialized_term(string, dictionary) {
            Err(e) => Err(TermsError::Term(e)),
            Ok(TermView::NamedNode(_)) => Ok(None),
            Ok(TermView::BlankNode(_)) => Ok(None),
            Ok(TermView::Literal(_, None, datatype)) => if datatype == XSD_STRING@ {
                Ok(None)
            } else if sortable(encode_utf8(datatype), DATATYPE_BUFFER_SIZE as nat) {
                Ok(Some(encode_utf8(datatype)))
            } else {
                Err(TermsError::TermTooLong)
            },
            Ok(TermView::Literal(_, Some(_), datatype)) => if datatype == RDF_LANG_STRING@ {
                Ok(None)
            } else {
                Err(TermsError::Term(TermError::LanguageAndDatatype))
            },
        }
    }
}

/// Why the first stored term of which the datatype cannot be told is not, if there is one.
pub open spec fn strings_training_error(
    strings: Seq<Seq<u8>>,
    dictionary: Option<TermDictionary>,
) -> Option<TermsError>
    decreases strings.len(),
{
    if strings.len() == 0 {
        None
    } else {
        match strings_training_error(strings.drop_last(), dictionary) {
            Some(e) => Some(e),
            None => match term_datatype(strings.last(), dictionary) {
                Err(e) => Some(e),
                Ok(_) => None,
            },
        }
    }
}

/// The datatypes that stored terms add to a dictionary, besides that of plain literals.
pub open spec fn strings_datatypes(
    strings: Seq<Seq<u8>>,
    dictionary: Option<TermDictionary>,
) -> Set<Seq<u8>> {
    Set::new(
        |s: Seq<u8>|
            s == encode_utf8(XSD_STRING@) || exists|i: int|
                0 <= i < strings.len() && term_datatype(#[trigger] strings[i], dictionary) == Ok::<
                    Option<Seq<u8>>,
                    TermsError,
                >(Some(s)),
    )
}

proof fn lemma_training_error_prefix(
    strings: Seq<Seq<u8>>,
    more: Seq<Seq<u8>>,
    dictionary: Option<TermDictionary>,
)
    ensures
        strings_training_error(strings, dictionary) is Some ==> strings_training_error(
            strings + more,
            dictionary,
        ) == strings_training_error(strings, dictionary),
    decreases more.len(),
{
    if more.len() == 0 {
        assert(strings + more =~= strings);
    } else {
        lemma_training_error_prefix(strings, more.drop_last(), dictionary);
        assert((strings + more).drop_last() =~= strings + more.drop_last());
    }
}

proof fn lemma_datatypes_push(
    strings: Seq<Seq<u8>>,
    string: Seq<u8>,
    dictionary: Option<TermDictionary>,
)
    ensures
        strings_datatypes(strings.push(string), dictionary) == (match term_datatype(
            string,
            dictionary,
        ) {
            Ok(Some(datatype)) => strings_datatypes(strings, dictionary).insert(datatype),
            _ => strings_datatypes(strings, dictionary),
        }),
{
    let more = strings.push(string);
    let before = strings_datatypes(strings, dictionary);
    let after = strings_datatypes(more, dictionary);
    assert forall|s: Seq<u8>| #[trigger] before.contains(s) implies after.contains(s) by {
        if s != encode_utf8(XSD_STRING@) {
            let i = choose|i: int|
                0 <= i < strings.len() && term_datatype(#[trigger] strings[i], dictionary) == Ok::<
                    Option<Seq<u8>>,
                    TermsError,
                >(Some(s));
            assert(more[i] == strings[i]);
        }
    }
    assert(more[strings.len() as int] == string);
    assert forall|s: Seq<u8>| #[trigger] after.contains(s) implies before.contains(s)
        || term_datatype(string, dictionary) == Ok::<Option<Seq<u8>>, TermsError>(Some(s)) by {
        if s != encode_utf8(XSD_STRING@) {
            let i = choose|i: int|
                0 <= i < more.len() && term_datatype(#[trigger] more[i], dictionary) == Ok::<
                    Option<Seq<u8>>,
                    TermsError,
                >(Some(s));
            if i < strings.len() {
                assert(more[i] == strings[i]);
            }
        }
    }
    match term_datatype(string, dictionary) {
        Ok(Some(datatype)) => {
            assert(after =~= before.insert(datatype));
        },
        _ => {
            assert(after =~= before);
        },
    }
}

/// Why the datatypes of a file cannot be listed, if so.
pub open spec fn file_training_error(
    data: Seq<u8>,
    max: nat,
    dictionary: Option<TermDictionary>,
) -> Option<TermsError> {
    let (strings, error) = lender_strings(data, max, lender_start(max));
    match strings_training_error(strings, dictionary) {
        Some(e) => Some(e),
        None => match error {
            Some(e) => Some(TermsError::Frame(e)),
            None => None,
        },
    }
}

/// The datatypes of a file.
pub open spec fn file_datatypes(
    data: Seq<u8>,
    max: nat,
    dictionary: Option<TermDictionary>,
) -> Set<Seq<u8>> {
    strings_datatypes(lender_strings(data, max, lender_start(max)).0, dictionary)
}

/// Adds the datatype of a stored term to a sorter.
fn push_datatype(
    sorter: &mut ExternalDeduplicatingStringSorter,
    string: &Vec<u8>,
    dictionary: Option<&TermDictionary>,
) -> (res: Result<(), TermsError>)
    requires
        dictionary matches Some(dictionary) ==> dictionary.well_formed(),
        old(sorter).max_buffer_size() == DATATYPE_BUFFER_SIZE,
        sorts(*old(sorter), old(sorter).strings(), DATATYPE_BUFFER_SIZE as nat),
    ensures
        final(sorter).max_buffer_size() == DATATYPE_BUFFER_SIZE,
        match term_datatype(string@, dictionary_view(dictionary)) {
            Err(e) => res is Err && res->Err_0 == e,
            Ok(None) => res is Ok && sorts(
                *final(sorter),
                old(sorter).strings(),
                DATATYPE_BUFFER_SIZE as nat,
            ),
            Ok(Some(datatype)) => res is Ok && sorts(
                *final(sorter),
                old(sorter).strings().insert(datatype),
                DATATYPE_BUFFER_SIZE as nat,
            ),
        },
{
    if string.len() == 0 {
        return Ok(());
    }
    let term: Term = match deserialize_term(string.as_slice(), dictionary) {
        Err(e) => {
            return Err(TermsError::Term(e));
        },
        Ok(term) => term,
    };
    match &term {
        Term::NamedNode(_) => Ok(()),
        Term::BlankNode(_) => Ok(()),
        Term::Literal(literal) => match &literal.language {
            None => {
                if text_eq(literal.datatype.as_str(), XSD_STRING) {
                    Ok(())
                } else {
                    let bytes: Vec<u8> = vstd::slice::slice_to_vec(
                        literal.datatype.as_str().as_bytes(),
                    );
                    push_string(sorter, bytes)
                }
            },
            Some(_) => {
                if text_eq(literal.datatype.as_str(), RDF_LANG_STRING) {
                    Ok(())
                } else {
                    Err(TermsError::Term(TermError::LanguageAndDatatype))
                }
            },
        },
    }
}

proof fn lemma_encoded_len(chars: Seq<char>)
    ensures
        encode_utf8(chars).len() <= 4 * chars.len(),
    decreases chars.len(),
{
    if chars.len() > 0 {
        lemma_encoded_len(chars.drop_first());
    }
}

proof fn lemma_plain_datatype_sortable()
    ensures
        sortable(encode_utf8(XSD_STRING@), DATATYPE_BUFFER_SIZE as nat),
{
    reveal_strlit("http://www.w3.org/2001/XMLSchema#string");
    lemma_encoded_len(XSD_STRING@);
}

/// Lists the datatypes of a file.
fn train_file(frames: &[u8], terms_per_frame: usize, dictionary: Option<&TermDictionary>) -> (res:
    Result<ExternalDeduplicatingStringSorter, TermsError>)
    requires
        dictionary matches Some(dictionary) ==> dictionary.well_formed(),
        terms_per_frame > 0,
    ensures
        match file_training_error(frames@, terms_per_frame as nat, dictionary_view(dictionary)) {
            Some(e) => res is Err && res->Err_0 == e,
            None => res matches Ok(sorter) && sorts(
                sorter,
                file_datatypes(frames@, terms_per_frame as nat, dictionary_view(dictionary)),
                DATATYPE_BUFFER_SIZE as nat,
            ),
        },
{
    let mut sorter = ExternalDeduplicatingStringSorter::new(DATATYPE_BUFFER_SIZE, 10);
    proof {
        lemma_plain_datatype_sortable();
    }
    push_string(&mut sorter, vstd::slice::slice_to_vec(XSD_STRING.as_bytes()))?;
    let ghost max = terms_per_frame as nat;
    let ghost dict = dictionary_view(dictionary);
    let ghost all = lender_strings(frames@, max, lender_start(max));
    let ghost mut read: Seq<Seq<u8>> = Seq::empty();
    let mut lender = FrameLender::new(frames, terms_per_frame);
    proof {
        assert(read + all.0 =~= all.0);
        assert(strings_datatypes(read, dict) =~= Set::<Seq<u8>>::empty().insert(
            encode_utf8(XSD_STRING@),
        ));
    }
    loop
        invariant
            dictionary matches Some(dictionary) ==> dictionary.well_formed(),
            lender.well_formed(),
            lender.data() == frames@,
            lender.max() == max,
            max == terms_per_frame,
            dict == dictionary_view(dictionary),
            all == lender_strings(frames@, max, lender_start(max)),
            all == (
                read + lender_strings(frames@, max, lender.state()).0,
                lender_strings(frames@, max, lender.state()).1,
            ),
            sorter.max_buffer_size() == DATATYPE_BUFFER_SIZE,
            sorts(sorter, strings_datatypes(read, dict), DATATYPE_BUFFER_SIZE as nat),
            strings_training_error(read, dict) is None,
        ensures
            all == (read, None::<FrameError>),
            sorts(sorter, strings_datatypes(read, dict), DATATYPE_BUFFER_SIZE as nat),
            strings_training_error(read, dict) is None,
        decreases frames@.len() - lender.state().pos,
    {
        let ghost state = lender.state();
        let ghost rest = lender_strings(frames@, max, state);
        proof {
            crate::front_coding::lemma_lender_step_advances(frames@, max, state);
        }
        match lender.next() {
            Err(e) => {
                assert(read + rest.0 =~= read);
                return Err(TermsError::Frame(e));
            },
            Ok(None) => {
                assert(read + rest.0 =~= read);
                break;
            },
            Ok(Some(string)) => {
                let ghost more = read.push(string@);
                let ghost after = lender_strings(frames@, max, lender.state());
                proof {
                    assert(read + (seq![string@] + after.0) =~= more + after.0);
                    assert(more.drop_last() =~= read);
                    lemma_training_error_prefix(more, after.0, dict);
                    lemma_datatypes_push(read, string@, dict);
                }
                push_datatype(&mut sorter, &string, dictionary)?;
                proof {
                    read = more;
                }
            },
        }
    }
    Ok(sorter)
}

/// Why the datatypes of files cannot be listed, if so.
pub open spec fn files_training_error(
    files: Seq<Seq<u8>>,
    max: nat,
    dictionary: Option<TermDictionary>,
) -> Option<TermsError>
    decreases files.len(),
{
    if files.len() == 0 {
        None
    } else {
        match files_training_error(files.drop_last(), max, dictionary) {
            Some(e) => Some(e),
            None => file_training_error(files.last(), max, dictionary),
        }
    }
}

/// The datatypes of files.
pub open spec fn files_datatypes(
    files: Seq<Seq<u8>>,
    max: nat,
    dictionary: Option<TermDictionary>,
) -> Set<Seq<u8>>
    decreases files.len(),
{
    if files.len() == 0 {
        Set::empty()
    } else {
        files_datatypes(files.drop_last(), max, dictionary).union(
            file_datatypes(files.last(), max, dictionary),
        )
    }
}

proof fn lemma_files_training_error(
    files: Seq<Seq<u8>>,
    max: nat,
    dictionary: Option<TermDictionary>,
    n: int,
)
    requires
        0 <= n <= files.len(),
    ensures
        files_training_error(files.take(n), max, dictionary) is Some ==> files_training_error(
            files,
            max,
            dictionary,
        ) == files_training_error(files.take(n), max, dictionary),
    decreases files.len() - n,
{
    if n == files.len() {
        assert(files.take(n) =~= files);
    } else {
        lemma_files_training_error(files, max, dictionary, n + 1);
        assert(files.take(n + 1).drop_last() =~= files.take(n));
    }
}

/// Whether a dictionary is made of a sorted list of datatypes.
pub open spec fn holds_datatypes(dictionary: TermDictionary, datatypes: Set<Seq<u8>>) -> bool {
    exists|strings: Seq<Seq<u8>>|
        {
            &&& strings_increasing(strings)
            &&& strings.to_set() == datatypes
            &&& dictionary.data() == #[trigger] prefixed_all(strings)
            &&& positions_view(dictionary.offsets()) == string_offsets(strings)
        }
}

/// Whether a sorted list of datatypes is too large for an index.
pub open spec fn too_many_datatypes(datatypes: Set<Seq<u8>>) -> bool {
    exists|strings: Seq<Seq<u8>>|
        {
            &&& strings_increasing(strings)
            &&& strings.to_set() == datatypes
            &&& strings.len() + 1 + (#[trigger] prefixed_all(strings)).len() >= usize::MAX / 2
        }
}

impl TermDictionary {
    /// Makes a dictionary of the datatypes of the terms of a store.
    #[verifier::rlimit(50)]
    pub fn train(
        config: &TermStoreConfiguration,
        files: Vec<Vec<u8>>,
        dictionary: Option<&TermDictionary>,
    ) -> (res: Result<Self, TermsError>)
        requires
            config.well_formed(),
            dictionary matches Some(dictionary) ==> dictionary.well_formed(),
        ensures
            ({
                let views = string_views(files@);
                let max = config.terms_per_frame as nat;
                let old_dictionary = dictionary_view(dictionary);
                let datatypes = files_datatypes(views, max, old_dictionary);
                if files@.len() != num_files(*config) {
                    res is Err && res->Err_0 == TermsError::WrongNumberOfFiles
                } else {
                    match files_training_error(views, max, old_dictionary) {
                        Some(e) => res is Err && res->Err_0 == e,
                        None => match res {
                            Ok(trained) => trained.well_formed() && trained.name() == "dict"@
                                && holds_datatypes(trained, datatypes),
                            Err(e) => e == TermsError::IndexTooLarge && too_many_datatypes(
                                datatypes,
                            ),
                        },
                    }
                }
            }),
    {
        let ghost views = string_views(files@);
        let ghost max = config.terms_per_frame as nat;
        let ghost dict = dictionary_view(dictionary);
        let listed = list_terms_files(config, files)?;
        let mut sorter = ExternalDeduplicatingStringSorter::new(TERM_BUFFER_SIZE, 10);
        let mut i: usize = 0;
        while i < listed.len()
            invariant
                config.well_formed(),
                dictionary matches Some(dictionary) ==> dictionary.well_formed(),
                max == config.terms_per_frame,
                dict == dictionary_view(dictionary),
                i <= listed@.len() == views.len(),
                forall|j: int|
                    0 <= j < listed@.len() ==> (#[trigger] listed@[j]).compressed_frames@
                        == views[j],
                sorter.max_buffer_size() == TERM_BUFFER_SIZE,
                sorts(
                    sorter,
                    files_datatypes(views.take(i as int), max, dict),
                    DATATYPE_BUFFER_SIZE as nat,
                ),
                files_training_error(views.take(i as int), max, dict) is None,
                views == string_views(files@),
                files@.len() == num_files(*config),
            decreases listed@.len() - i,
        {
            proof {
                let next = views.take(i + 1);
                assert(next.drop_last() =~= views.take(i as int));
                assert(next.last() == views[i as int]);
                lemma_files_training_error(views, max, dict, i + 1);
            }
            let part = train_file(
                listed[i].compressed_frames.as_slice(),
                config.terms_per_frame,
                dictionary,
            )?;
            sorter = merge_sorters(sorter, part, Ghost(DATATYPE_BUFFER_SIZE as nat))?;
            i = i + 1;
        }
        assert(views.take(i as int) =~= views);
        let ghost datatypes = files_datatypes(views, max, dict);
        let strings: Vec<Vec<u8>> = sorter.drain_boxed_bytes();
        let ghost sorted = string_views(strings@);
        let mut data: Vec<u8> = Vec::new();
        let mut j: usize = 0;
        proof {
            assert forall|k: int| 0 <= k < sorted.len() implies (#[trigger] sorted[k]).len()
                <= u32::MAX by {
                assert(sorted.to_set().contains(sorted[k]));
                assert(sortable(sorted[k], DATATYPE_BUFFER_SIZE as nat));
            }
            assert(sorted.take(0) =~= Seq::empty());
        }
        while j < strings.len()
            invariant
                sorted == string_views(strings@),
                j <= strings@.len(),
                data@ == prefixed_all(sorted.take(j as int)),
                forall|k: int| 0 <= k < sorted.len() ==> (#[trigger] sorted[k]).len() <= u32::MAX,
            decreases strings@.len() - j,
        {
            assert(sorted[j as int] == strings@[j as int]@);
            let written = write_length_prefixed_string(&mut data, strings[j].as_slice());
            proof {
                assert(written is Ok);
                assert(sorted.take(j + 1).drop_last() =~= sorted.take(j as int));
            }
            j = j + 1;
        }
        proof {
            assert(sorted.take(j as int) =~= sorted);
            crate::strings::lemma_strings_round_trip(sorted);
            assert(sorted.to_set() == datatypes);
            assert(data@ == prefixed_all(sorted));
        }
        let index = index_datatypes(data.as_slice())?;
        proof {
            let positions = crate::indexes::seq_values(index);
            assert(positions_view(positions).len() == positions.len());
            assert(positions_view(positions) == string_offsets(sorted));
        }
        TermDictionary::mmap("dict".to_owned(), data, index)
    }
}

/// The bytes that stand for a stored term with another dictionary.
pub open spec fn recoded(
    string: Seq<u8>,
    old_dictionary: Option<TermDictionary>,
    dictionary: TermDictionary,
) -> Result<Seq<u8>, TermsError> {
    if string.len() == 0 {
        Ok(string)
    } else {
        match deserialized_term(string, old_dictionary) {
            Err(e) => Err(TermsError::Term(e)),
            Ok(term) => match serialized_term(term, Some(dictionary)) {
                Err(e) => Err(TermsError::Term(e)),
                Ok(bytes) => Ok(bytes),
            },
        }
    }
}

/// The bytes that stand for stored terms with another dictionary.
pub open spec fn recoded_all(
    strings: Seq<Seq<u8>>,
    old_dictionary: Option<TermDictionary>,
    dictionary: TermDictionary,
) -> Result<Seq<Seq<u8>>, TermsError>
    decreases strings.len(),
{
    if strings.len() == 0 {
        Ok(Seq::empty())
    } else {
        match recoded_all(strings.drop_last(), old_dictionary, dictionary) {
            Err(e) => Err(e),
            Ok(before) => match recoded(strings.last(), old_dictionary, dictionary) {
                Err(e) => Err(e),
                Ok(last) => Ok(before.push(last)),
            },
        }
    }
}

/// A file whose terms are written with another dictionary.
pub open spec fn recompressed_file(
    data: Seq<u8>,
    max: nat,
    old_dictionary: Option<TermDictionary>,
    dictionary: TermDictionary,
) -> Result<Seq<u8>, TermsError> {
    let (strings, error) = lender_strings(data, max, lender_start(max));
    match recoded_all(strings, old_dictionary, dictionary) {
        Err(e) => Err(e),
        Ok(recoded) => match error {
            Some(e) => Err(TermsError::Frame(e)),
            None => match frames_code(max, recoded) {
                Err(e) => Err(TermsError::Frame(e)),
                Ok(code) => Ok(code),
            },
        },
    }
}

proof fn lemma_recoded_prefix(
    strings: Seq<Seq<u8>>,
    more: Seq<Seq<u8>>,
    old_dictionary: Option<TermDictionary>,
    dictionary: TermDictionary,
)
    ensures
        recoded_all(strings, old_dictionary, dictionary) is Err ==> recoded_all(
            strings + more,
            old_dictionary,
            dictionary,
        ) == recoded_all(strings, old_dictionary, dictionary),
    decreases more.len(),
{
    if more.len() == 0 {
        assert(strings + more =~= strings);
    } else {
        lemma_recoded_prefix(strings, more.drop_last(), old_dictionary, dictionary);
        assert((strings + more).drop_last() =~= strings + more.drop_last());
    }
}

/// Writes a stored term with another dictionary.
fn recode(
    string: Vec<u8>,
    old_dictionary: Option<&TermDictionary>,
    dictionary: &TermDictionary,
) -> (res: Result<Vec<u8>, TermsError>)
    requires
        old_dictionary matches Some(dictionary) ==> dictionary.well_formed(),
        dictionary.well_formed(),
    ensures
        match recoded(string@, dictionary_view(old_dictionary), *dictionary) {
            Err(e) => res is Err && res->Err_0 == e,
            Ok(bytes) => res matches Ok(v) && v@ == bytes,
        },
{
    if string.len() == 0 {
        return Ok(string);
    }
    match deserialize_term(string.as_slice(), old_dictionary) {
        Err(e) => Err(TermsError::Term(e)),
        Ok(term) => match serialize_term(&term, Some(dictionary)) {
            Err(e) => Err(TermsError::Term(e)),
            Ok(bytes) => Ok(bytes),
        },
    }
}

/// Writes the terms of a file with another dictionary.
#[verifier::rlimit(50)]
fn recompress_file(
    frames: &[u8],
    terms_per_frame: usize,
    old_dictionary: Option<&TermDictionary>,
    dictionary: &TermDictionary,
) -> (res: Result<Vec<u8>, TermsError>)
    requires
        old_dictionary matches Some(dictionary) ==> dictionary.well_formed(),
        dictionary.well_formed(),
        terms_per_frame > 0,
    ensures
        match recompressed_file(
            frames@,
            terms_per_frame as nat,
            dictionary_view(old_dictionary),
            *dictionary,
        ) {
            Err(e) => res is Err && res->Err_0 == e,
            Ok(code) => res matches Ok(bytes) && bytes@ == code,
        },
{
    let ghost max = terms_per_frame as nat;
    let ghost old_dict = dictionary_view(old_dictionary);
    let ghost all = lender_strings(frames@, max, lender_start(max));
    let ghost mut read: Seq<Seq<u8>> = Seq::empty();
    let mut buf: Vec<Vec<u8>> = Vec::new();
    let mut lender = FrameLender::new(frames, terms_per_frame);
    proof {
        assert(read + all.0 =~= all.0);
        assert(string_views(buf@) =~= Seq::empty());
    }
    loop
        invariant
            old_dictionary matches Some(dictionary) ==> dictionary.well_formed(),
            dictionary.well_formed(),
            lender.well_formed(),
            lender.data() == frames@,
            lender.max() == max,
            max == terms_per_frame,
            old_dict == dictionary_view(old_dictionary),
            all == lender_strings(frames@, max, lender_start(max)),
            all == (
                read + lender_strings(frames@, max, lender.state()).0,
                lender_strings(frames@, max, lender.state()).1,
            ),
            recoded_all(read, old_dict, *dictionary) == Ok::<Seq<Seq<u8>>, TermsError>(
                string_views(buf@),
            ),
        ensures
            all == (read, None::<FrameError>),
            recoded_all(read, old_dict, *dictionary) == Ok::<Seq<Seq<u8>>, TermsError>(
                string_views(buf@),
            ),
        decreases frames@.len() - lender.state().pos,
    {
        let ghost state = lender.state();
        let ghost rest = lender_strings(frames@, max, state);
        proof {
            crate::front_coding::lemma_lender_step_advances(frames@, max, state);
        }
        match lender.next() {
            Err(e) => {
                assert(read + rest.0 =~= read);
                return Err(TermsError::Frame(e));
            },
            Ok(None) => {
                assert(read + rest.0 =~= read);
                break;
            },
            Ok(Some(string)) => {
                let ghost more = read.push(string@);
                let ghost after = lender_strings(frames@, max, lender.state());
                let ghost before = buf@;
                proof {
                    assert(read + (seq![string@] + after.0) =~= more + after.0);
                    assert(more.drop_last() =~= read);
                    lemma_recoded_prefix(more, after.0, old_dict, *dictionary);
                }
                let bytes: Vec<u8> = recode(string, old_dictionary, dictionary)?;
                buf.push(bytes);
                proof {
                    assert(string_views(buf@) =~= string_views(before).push(bytes@));
                    read = more;
                }
            },
        }
    }
    proof {
        assert(string_views(buf@).subrange(0, buf@.len() as int) =~= string_views(buf@));
    }
    match write_frames(&buf, 0, buf.len(), terms_per_frame) {
        Err(e) => Err(TermsError::Frame(e)),
        Ok(bytes) => Ok(bytes),
    }
}

/// Writes the terms of a store with another dictionary.
#[verifier::rlimit(50)]
pub fn recompress_with_dictionary(
    config: TermStoreConfiguration,
    files: Vec<Vec<u8>>,
    old_dictionary: Option<&TermDictionary>,
    dictionary: &TermDictionary,
) -> (res: Result<(TermStoreConfiguration, Vec<Vec<u8>>), TermsError>)
    requires
        config.well_formed(),
        old_dictionary matches Some(dictionary) ==> dictionary.well_formed(),
        dictionary.well_formed(),
    ensures
        if files@.len() != num_files(config) {
            res is Err && res->Err_0 == TermsError::WrongNumberOfFiles
        } else {
            match res {
                Ok((new_config, new_files)) => {
                    &&& new_config.terms_per_frame == config.terms_per_frame
                    &&& new_config.frames_per_file == config.frames_per_file
                    &&& new_config.num_terms == config.num_terms
                    &&& new_config.dictionary_filename matches Some(name) && name@
                        == dictionary.name()
                    &&& new_files@.len() == files@.len()
                    &&& forall|i: int|
                        0 <= i < files@.len() ==> recompressed_file(
                            #[trigger] files@[i]@,
                            config.terms_per_frame as nat,
                            dictionary_view(old_dictionary),
                            *dictionary,
                        ) == Ok::<Seq<u8>, TermsError>(new_files@[i]@)
                },
                Err(e) => exists|i: int|
                    0 <= i < files@.len() && recompressed_file(
                        #[trigger] files@[i]@,
                        config.terms_per_frame as nat,
                        dictionary_view(old_dictionary),
                        *dictionary,
                    ) == Err::<Seq<u8>, TermsError>(e) && forall|j: int|
                        0 <= j < i ==> recompressed_file(
                            #[trigger] files@[j]@,
                            config.terms_per_frame as nat,
                            dictionary_view(old_dictionary),
                            *dictionary,
                        ) is Ok,
            }
        },
{
    let ghost given = files@;
    let listed = list_terms_files(&config, files)?;
    let mut new_files: Vec<Vec<u8>> = Vec::new();
    let mut i: usize = 0;
    while i < listed.len()
        invariant
            config.well_formed(),
            old_dictionary matches Some(dictionary) ==> dictionary.well_formed(),
            dictionary.well_formed(),
            given == files@,
            given.len() == num_files(config),
            i <= listed@.len() == given.len(),
            new_files@.len() == i,
            forall|j: int|
                0 <= j < listed@.len() ==> (#[trigger] listed@[j]).compressed_frames == given[j],
            forall|j: int|
                0 <= j < i ==> recompressed_file(
                    #[trigger] given[j]@,
                    config.terms_per_frame as nat,
                    dictionary_view(old_dictionary),
                    *dictionary,
                ) == Ok::<Seq<u8>, TermsError>(new_files@[j]@),
        decreases listed@.len() - i,
    {
        assert(listed@[i as int].compressed_frames == given[i as int]);
        let file: Vec<u8> = match recompress_file(
            listed[i].compressed_frames.as_slice(),
            config.terms_per_frame,
            old_dictionary,
            dictionary,
        ) {
            Err(e) => {
                assert(recompressed_file(
                    given[i as int]@,
                    config.terms_per_frame as nat,
                    dictionary_view(old_dictionary),
                    *dictionary,
                ) == Err::<Seq<u8>, TermsError>(e));
                return Err(e);
            },
            Ok(file) => file,
        };
        new_files.push(file);
        i = i + 1;
    }
    let new_config = TermStoreConfiguration {
        terms_per_frame: config.terms_per_frame,
        frames_per_file: config.frames_per_file,
        num_terms: config.num_terms,
        dictionary_filename: Some(dictionary.get_name()),
    };
    Ok((new_config, new_files))
}

proof fn lemma_recoded_len(
    strings: Seq<Seq<u8>>,
    old_dictionary: Option<TermDictionary>,
    dictionary: TermDictionary,
)
    requires
        recoded_all(strings, old_dictionary, dictionary) is Ok,
    ensures
        recoded_all(strings, old_dictionary, dictionary)->Ok_0.len() == strings.len(),
        forall|i: int|
            0 <= i < strings.len() ==> recoded(
                #[trigger] strings[i],
                old_dictionary,
                dictionary,
            ) == Ok::<Seq<u8>, TermsError>(
                recoded_all(strings, old_dictionary, dictionary)->Ok_0[i],
            ),
    decreases strings.len(),
{
    if strings.len() > 0 {
        let before = strings.drop_last();
        lemma_recoded_len(before, old_dictionary, dictionary);
        let all = recoded_all(strings, old_dictionary, dictionary)->Ok_0;
        assert forall|i: int| 0 <= i < strings.len() implies recoded(
            #[trigger] strings[i],
            old_dictionary,
            dictionary,
        ) == Ok::<Seq<u8>, TermsError>(all[i]) by {
            if i < before.len() {
                assert(before[i] == strings[i]);
            }
        }
    }
}

/// A term that was rewritten stands for the same term, with the new dictionary.
pub proof fn lemma_recoded_term(
    string: Seq<u8>,
    old_dictionary: Option<TermDictionary>,
    dictionary: TermDictionary,
)
    requires
        dictionary.well_formed(),
        string.len() > 0,
        recoded(string, old_dictionary, dictionary) matches Ok(bytes) && bytes.len() <= usize::MAX,
    ensures
        deserialized_term(
            recoded(string, old_dictionary, dictionary)->Ok_0,
            Some(dictionary),
        ) == deserialized_term(string, old_dictionary),
{
    lemma_term_round_trip(deserialized_term(string, old_dictionary)->Ok_0, Some(dictionary));
}

/// A term that was rewritten has the key, among the keys of the perfect hash function, that it
/// had before.
pub proof fn lemma_recoded_key(
    term: TermView,
    old_dictionary: Option<TermDictionary>,
    dictionary: TermDictionary,
)
    requires
        old_dictionary matches Some(old) ==> old.well_formed(),
        dictionary.well_formed(),
        serialized_term(term, old_dictionary) matches Ok(string) && string.len() <= usize::MAX && (
        recoded(string, old_dictionary, dictionary) matches Ok(bytes) && bytes.len()
            <= usize::MAX),
    ensures
        ({
            let string = serialized_term(term, old_dictionary)->Ok_0;
            let bytes = recoded(string, old_dictionary, dictionary)->Ok_0;
            mphf_key(bytes, Some(dictionary)) == mphf_key(string, old_dictionary)
        }),
{
    let string = serialized_term(term, old_dictionary)->Ok_0;
    let bytes = recoded(string, old_dictionary, dictionary)->Ok_0;
    assert(string.len() > 0);
    lemma_term_round_trip(term, old_dictionary);
    lemma_term_round_trip(term, Some(dictionary));
    assert(bytes.len() > 0);
}

/// A rewritten file holds the rewritten terms, in the same order.
pub proof fn lemma_recompressed_file(
    data: Seq<u8>,
    max: nat,
    old_dictionary: Option<TermDictionary>,
    dictionary: TermDictionary,
)
    requires
        max > 0,
        recompressed_file(data, max, old_dictionary, dictionary) is Ok,
    ensures
        ({
            let old_strings = lender_strings(data, max, lender_start(max)).0;
            let (strings, error) = lender_strings(
                recompressed_file(data, max, old_dictionary, dictionary)->Ok_0,
                max,
                lender_start(max),
            );
            &&& error is None
            &&& strings.len() == old_strings.len()
            &&& forall|i: int|
                0 <= i < strings.len() ==> recoded(
                    #[trigger] old_strings[i],
                    old_dictionary,
                    dictionary,
                ) == Ok::<Seq<u8>, TermsError>(strings[i])
        }),
{
    let old_strings = lender_strings(data, max, lender_start(max)).0;
    let strings = recoded_all(old_strings, old_dictionary, dictionary)->Ok_0;
    lemma_recoded_len(old_strings, old_dictionary, dictionary);
    lemma_frames_round_trip(max, strings);
}

/// The strings of a file.
pub open spec fn strings_of_file(data: Seq<u8>, max: nat) -> Seq<Seq<u8>> {
    lender_strings(data, max, lender_start(max)).0
}

proof fn lemma_no_training_error(
    strings: Seq<Seq<u8>>,
    dictionary: Option<TermDictionary>,
    k: int,
)
    requires
        strings_training_error(strings, dictionary) is None,
        0 <= k < strings.len(),
    ensures
        term_datatype(strings[k], dictionary) is Ok,
    decreases strings.len(),
{
    if k < strings.len() - 1 {
        lemma_no_training_error(strings.drop_last(), dictionary, k);
        assert(strings.drop_last()[k] == strings[k]);
    }
}

proof fn lemma_no_file_error(
    files: Seq<Seq<u8>>,
    max: nat,
    dictionary: Option<TermDictionary>,
    i: int,
)
    requires
        files_training_error(files, max, dictionary) is None,
        0 <= i < files.len(),
    ensures
        file_training_error(files[i], max, dictionary) is None,
    decreases files.len(),
{
    if i < files.len() - 1 {
        lemma_no_file_error(files.drop_last(), max, dictionary, i);
        assert(files.drop_last()[i] == files[i]);
    }
}

proof fn lemma_files_datatypes(
    files: Seq<Seq<u8>>,
    max: nat,
    dictionary: Option<TermDictionary>,
    datatype: Seq<u8>,
)
    ensures
        files_datatypes(files, max, dictionary).contains(datatype) <==> exists|i: int|
            0 <= i < files.len() && file_datatypes(#[trigger] files[i], max, dictionary).contains(
                datatype,
            ),
    decreases files.len(),
{
    if files.len() > 0 {
        let before = files.drop_last();
        lemma_files_datatypes(before, max, dictionary, datatype);
        if exists|i: int|
            0 <= i < before.len() && file_datatypes(#[trigger] before[i], max, dictionary).contains(
                datatype,
            ) {
            let i = choose|i: int|
                0 <= i < before.len() && file_datatypes(
                    #[trigger] before[i],
                    max,
                    dictionary,
                ).contains(datatype);
            assert(files[i] == before[i]);
        }
        if exists|i: int|
            0 <= i < files.len() && file_datatypes(#[trigger] files[i], max, dictionary).contains(
                datatype,
            ) {
            let i = choose|i: int|
                0 <= i < files.len() && file_datatypes(
                    #[trigger] files[i],
                    max,
                    dictionary,
                ).contains(datatype);
            if i < before.len() {
                assert(before[i] == files[i]);
            }
        }
        assert(files[files.len() - 1] == files.last());
    }
}

/// Whether a stored string stands for a literal without language tag that has a datatype.
pub open spec fn is_typed_with(
    string: Seq<u8>,
    dictionary: Option<TermDictionary>,
    datatype: Seq<u8>,
) -> bool {
    deserialized_term(string, dictionary) matches Ok(TermView::Literal(_, None, iri)) && datatype
        == encode_utf8(iri)
}

/// The dictionary made from the terms of a store lists, in increasing order, the datatypes of all
/// the literals without language tag of the store, whatever these datatypes are, and that of simple
/// literals, and nothing else. It is empty if the store has no file.
pub proof fn lemma_trained_datatypes(
    files: Seq<Seq<u8>>,
    max: nat,
    dictionary: Option<TermDictionary>,
    trained: TermDictionary,
) -> (list: Seq<Seq<u8>>)
    requires
        files_training_error(files, max, dictionary) is None,
        holds_datatypes(trained, files_datatypes(files, max, dictionary)),
    ensures
        strings_increasing(list),
        trained.data() == prefixed_all(list),
        trained.offsets().len() == list.len() + 1,
        files.len() > 0 ==> list.contains(
            encode_utf8("http://www.w3.org/2001/XMLSchema#string"@),
        ),
        forall|i: int, k: int, datatype: Seq<u8>|
            0 <= i < files.len() && 0 <= k < strings_of_file(files[i], max).len()
                && #[trigger] is_typed_with(
                strings_of_file(files[i], max)[k],
                dictionary,
                datatype,
            ) ==> list.contains(datatype),
        forall|datatype: Seq<u8>| #[trigger]
            list.contains(datatype) ==> datatype == encode_utf8(
                "http://www.w3.org/2001/XMLSchema#string"@,
            ) || exists|i: int, k: int|
                0 <= i < files.len() && 0 <= k < strings_of_file(files[i], max).len()
                    && #[trigger] is_typed_with(
                    strings_of_file(files[i], max)[k],
                    dictionary,
                    datatype,
                ),
{
    let all = files_datatypes(files, max, dictionary);
    let list = choose|list: Seq<Seq<u8>>|
        {
            &&& strings_increasing(list)
            &&& list.to_set() == all
            &&& trained.data() == #[trigger] prefixed_all(list)
            &&& positions_view(trained.offsets()) == string_offsets(list)
        };
    let plain = encode_utf8(XSD_STRING@);
    assert(positions_view(trained.offsets()).len() == list.len() + 1);
    if files.len() > 0 {
        lemma_files_datatypes(files, max, dictionary, plain);
        assert(file_datatypes(files[0], max, dictionary).contains(plain));
        assert(list.to_set().contains(plain));
    }
    assert forall|i: int, k: int, datatype: Seq<u8>|
        0 <= i < files.len() && 0 <= k < strings_of_file(files[i], max).len()
            && #[trigger] is_typed_with(
            strings_of_file(files[i], max)[k],
            dictionary,
            datatype,
        ) implies list.contains(datatype) by {
        let strings = strings_of_file(files[i], max);
        lemma_no_file_error(files, max, dictionary, i);
        lemma_no_training_error(strings, dictionary, k);
        lemma_files_datatypes(files, max, dictionary, datatype);
        assert(strings[k].len() > 0);
        if datatype != plain {
            assert(term_datatype(strings[k], dictionary) == Ok::<Option<Seq<u8>>, TermsError>(
                Some(datatype),
            ));
        }
        assert(file_datatypes(files[i], max, dictionary).contains(datatype));
        assert(list.to_set().contains(datatype));
    }
    assert forall|datatype: Seq<u8>| #[trigger] list.contains(datatype) && datatype
        != plain implies exists|i: int, k: int|
        0 <= i < files.len() && 0 <= k < strings_of_file(files[i], max).len()
            && #[trigger] is_typed_with(
            strings_of_file(files[i], max)[k],
            dictionary,
            datatype,
        ) by {
        assert(list.to_set().contains(datatype));
        lemma_files_datatypes(files, max, dictionary, datatype);
        let i = choose|i: int|
            0 <= i < files.len() && file_datatypes(#[trigger] files[i], max, dictionary).contains(
                datatype,
            );
        let strings = strings_of_file(files[i], max);
        let k = choose|k: int|
            0 <= k < strings.len() && term_datatype(#[trigger] strings[k], dictionary) == Ok::<
                Option<Seq<u8>>,
                TermsError,
            >(Some(datatype));
        assert(is_typed_with(strings[k], dictionary, datatype));
    }
    list
}

/// A dictionary can be made from a store whose files can be read, and whose strings stand for terms
/// that have datatypes of less than 100 000 000 bytes, with a machine word.
pub proof fn lemma_trainable(
    files: Seq<Seq<u8>>,
    max: nat,
    dictionary: Option<TermDictionary>,
)
    requires
        forall|i: int|
            0 <= i < files.len() ==> lender_strings(
                #[trigger] files[i],
                max,
                lender_start(max),
            ).1 is None,
        forall|i: int, k: int|
            0 <= i < files.len() && 0 <= k < strings_of_file(files[i], max).len() ==> {
                let string = #[trigger] strings_of_file(files[i], max)[k];
                ||| string.len() == 0
                ||| (deserialized_term(string, dictionary) matches Ok(term) && (
                term matches TermView::Literal(_, _, datatype) ==> encode_utf8(datatype).len()
                    + usize::BITS / 8 < 100_000_000))
            },
    ensures
        files_training_error(files, max, dictionary) is None,
    decreases files.len(),
{
    if files.len() > 0 {
        let before = files.drop_last();
        assert forall|i: int| 0 <= i < before.len() implies lender_strings(
            #[trigger] before[i],
            max,
            lender_start(max),
        ).1 is None by {
            assert(before[i] == files[i]);
        }
        assert forall|i: int, k: int|
            0 <= i < before.len() && 0 <= k < strings_of_file(before[i], max).len() implies {
            let string = #[trigger] strings_of_file(before[i], max)[k];
            ||| string.len() == 0
            ||| (deserialized_term(string, dictionary) matches Ok(term) && (
            term matches TermView::Literal(_, _, datatype) ==> encode_utf8(datatype).len()
                + usize::BITS / 8 < 100_000_000))
        } by {
            assert(before[i] == files[i]);
            let string = strings_of_file(files[i], max)[k];
        }
        lemma_trainable(before, max, dictionary);
        let n = files.len() - 1;
        assert(files[n] == files.last());
        let strings = strings_of_file(files[n], max);
        assert forall|k: int| 0 <= k < strings.len() implies term_datatype(
            #[trigger] strings[k],
            dictionary,
        ) is Ok by {
            let string = strings_of_file(files[n], max)[k];
        }
        lemma_all_have_datatypes(strings, dictionary);
    }
}

proof fn lemma_all_have_datatypes(strings: Seq<Seq<u8>>, dictionary: Option<TermDictionary>)
    requires
        forall|k: int|
            0 <= k < strings.len() ==> term_datatype(#[trigger] strings[k], dictionary) is Ok,
    ensures
        strings_training_error(strings, dictionary) is None,
    decreases strings.len(),
{
    if strings.len() > 0 {
        let before = strings.drop_last();
        assert forall|k: int| 0 <= k < before.len() implies term_datatype(
            #[trigger] before[k],
            dictionary,
        ) is Ok by {
            assert(before[k] == strings[k]);
        }
        lemma_all_have_datatypes(before, dictionary);
        assert(strings[strings.len() - 1] == strings.last());
    }
}

/// A file of terms can be written with another dictionary if it can be read, its strings stand for
/// terms, the dictionary can be searched, and the terms have less than 2^32 bytes with it.
pub proof fn lemma_recompressible(
    data: Seq<u8>,
    max: nat,
    old_dictionary: Option<TermDictionary>,
    dictionary: TermDictionary,
)
    requires
        lender_strings(data, max, lender_start(max)).1 is None,
        forall|datatype: Seq<char>| (#[trigger] dictionary.datatype_id(datatype)) is Ok,
        forall|k: int|
            0 <= k < strings_of_file(data, max).len() ==> {
                let string = #[trigger] strings_of_file(data, max)[k];
                ||| string.len() == 0
                ||| (deserialized_term(string, old_dictionary) matches Ok(term) && serialized_term(
                    term,
                    None,
                ) is Ok && serialized_term(term, Some(dictionary))->Ok_0.len() <= u32::MAX)
            },
    ensures
        recompressed_file(data, max, old_dictionary, dictionary) is Ok,
{
    let strings = strings_of_file(data, max);
    assert forall|k: int| 0 <= k < strings.len() implies recoded(
        #[trigger] strings[k],
        old_dictionary,
        dictionary,
    ) matches Ok(bytes) && bytes.len() <= u32::MAX by {
        let string = strings_of_file(data, max)[k];
        if string.len() > 0 {
            let term = deserialized_term(string, old_dictionary)->Ok_0;
            crate::terms::lemma_storable_with_dictionary(term, dictionary);
            match term {
                TermView::Literal(_, None, datatype) => {
                    assert(dictionary.datatype_id(datatype) is Ok);
                },
                _ => {},
            }
        }
    }
    lemma_all_recoded(strings, old_dictionary, dictionary);
    lemma_recoded_len(strings, old_dictionary, dictionary);
    let all = recoded_all(strings, old_dictionary, dictionary)->Ok_0;
    assert forall|k: int| 0 <= k < all.len() implies (#[trigger] all[k]).len() <= u32::MAX by {
        assert(recoded(strings[k], old_dictionary, dictionary) == Ok::<Seq<u8>, TermsError>(
            all[k],
        ));
    }
    crate::terms_writer::lemma_short_strings_frames(max, all);
}

proof fn lemma_all_recoded(
    strings: Seq<Seq<u8>>,
    old_dictionary: Option<TermDictionary>,
    dictionary: TermDictionary,
)
    requires
        forall|k: int|
            0 <= k < strings.len() ==> recoded(
                #[trigger] strings[k],
                old_dictionary,
                dictionary,
            ) is Ok,
    ensures
        recoded_all(strings, old_dictionary, dictionary) is Ok,
    decreases strings.len(),
{
    if strings.len() > 0 {
        let before = strings.drop_last();
        assert forall|k: int| 0 <= k < before.len() implies recoded(
            #[trigger] before[k],
            old_dictionary,
            dictionary,
        ) is Ok by {
            assert(before[k] == strings[k]);
        }
        lemma_all_recoded(before, old_dictionary, dictionary);
        assert(strings[strings.len() - 1] == strings.last());
    }
}

/// How a stored term is written with another dictionary: the empty string as it is; a literal
/// without language tag whose datatype is found in the dictionary, and is not that of simple
/// literals, with its value and the number of the datatype in four bytes; any other term as without
/// a dictionary.
pub proof fn lemma_recoded_bytes(
    string: Seq<u8>,
    old_dictionary: Option<TermDictionary>,
    dictionary: TermDictionary,
)
    requires
        recoded(string, old_dictionary, dictionary) is Ok,
    ensures
        ({
            let bytes = recoded(string, old_dictionary, dictionary)->Ok_0;
            let term = deserialized_term(string, old_dictionary)->Ok_0;
            &&& string.len() == 0 ==> bytes.len() == 0
            &&& string.len() > 0 ==> match term {
                TermView::Literal(value, None, datatype) => if datatype
                    != "http://www.w3.org/2001/XMLSchema#string"@ && dictionary.datatype_id(
                    datatype,
                )->Ok_0 is Some {
                    bytes == seq![7u8] + encode_utf8(value) + crate::bytes::be_bytes(
                        dictionary.datatype_id(datatype)->Ok_0->Some_0 as nat,
                        4,
                    )
                } else {
                    serialized_term(term, None) == Ok::<Seq<u8>, TermError>(bytes)
                },
                _ => serialized_term(term, None) == Ok::<Seq<u8>, TermError>(bytes),
            }
        }),
{
}

/// Whether a stored term is written with another dictionary depends on the term and on the
/// dictionary: it is, unless the string stands for no term, or the term could not be stored without
/// a dictionary, or its datatype cannot be looked up.
pub proof fn lemma_recodable(
    string: Seq<u8>,
    old_dictionary: Option<TermDictionary>,
    dictionary: TermDictionary,
)
    ensures
        recoded(string, old_dictionary, dictionary) is Ok <==> string.len() == 0 || (
        deserialized_term(string, old_dictionary) matches Ok(term) && serialized_term(
            term,
            None,
        ) is Ok && !(term matches TermView::Literal(_, None, datatype) && datatype
            != "http://www.w3.org/2001/XMLSchema#string"@ && dictionary.datatype_id(
            datatype,
        ) is Err)),
{
}

/// A dictionary is too large only if the list of its datatypes is: with their lengths in four bytes
/// each, they have half as many bytes as a `usize` can count.
pub proof fn lemma_few_datatypes(list: Seq<Seq<u8>>)
    requires
        strings_increasing(list),
        list.len() + 1 + prefixed_all(list).len() < usize::MAX / 2,
    ensures
        !too_many_datatypes(list.to_set()),
{
    assert forall|strings: Seq<Seq<u8>>|
        strings_increasing(strings) && strings.to_set() == list.to_set() implies strings.len() + 1
        + (#[trigger] prefixed_all(strings)).len() < usize::MAX / 2 by {
        crate::buildable::lemma_increasing_same(strings, list);
    }
}

} // verus!
