//! Maps from terms to their ids.

use crate::dictionary::TermDictionary;
use crate::flatten::{
    flat_strings, lender_views, FallibleRewindableFlattenLender, LenderView,
};
use crate::front_coding::{lender_start, FrameError, FrameLender};
use crate::indexes::{build_func, construction_failed, func_get, func_num_keys, StaticFunc};
use crate::strings::string_views;
use crate::terms::{
    deserialize_term, deserialized_term, dictionary_view, serialize_graph_name,
    serialize_named_node, serialize_named_or_blank_node, serialize_term, serialized_graph_name,
    serialized_term, GraphName, NamedOrBlankNode, Term, TermError, TermView,
};
use crate::terms_store::{list_terms_files, num_files, TermStoreConfiguration, TermsError};
use vstd::prelude::*;

verus! {

/// Why a term has no id.
#[derive(Clone, Copy, Debug, PartialEq, Eq, Structural)]
pub enum HashError {
    /// The term is not known.
    OutOfRange,
    /// The term cannot be written.
    Term(TermError),
}

/// What is returned for bytes that may stand for a term, of which the id is given.
pub open spec fn hash_result(
    bytes: Result<Seq<u8>, TermError>,
    id: Option<usize>,
) -> Result<usize, HashError> {
    match bytes {
        Err(e) => Err(HashError::Term(e)),
        Ok(_) => match id {
            None => Err(HashError::OutOfRange),
            Some(id) => Ok(id),
        },
    }
}

/// Turns a term into an integer. Known terms have their own ids; other terms may have the id of
/// any known term, or none.
pub trait TermHasher {
    /// The number of known terms.
    spec fn num_known(&self) -> nat;

    /// The id of the term that bytes stand for, if it has one.
    spec fn id_of(&self, bytes: Seq<u8>) -> Option<usize>;

    /// The number of known terms.
    fn len(&self) -> (len: usize)
        ensures
            len == self.num_known(),
    ;

    /// Whether there are no known terms.
    fn is_empty(&self) -> (empty: bool)
        ensures
            empty == (self.num_known() == 0),
    {
        self.len() == 0
    }

    /// The id of the term that bytes stand for, which is less than the number of known terms.
    fn hash_bytes(&self, s: &[u8]) -> (res: Result<usize, HashError>)
        ensures
            res == hash_result(Ok(s@), self.id_of(s@)),
            res matches Ok(id) ==> id < self.num_known(),
    ;

    /// The id of a node that can be a subject.
    fn hash_namedorblanknode(&self, term: &NamedOrBlankNode) -> (res: Result<usize, HashError>)
        ensures
            res == hash_result(
                serialized_term(term@, None),
                self.id_of(serialized_term(term@, None)->Ok_0),
            ),
            res matches Ok(id) ==> id < self.num_known(),
    {
        let bytes: Vec<u8> = serialize_named_or_blank_node(term);
        self.hash_bytes(bytes.as_slice())
    }

    /// The id of a named node.
    fn hash_namednode(&self, iri: &str) -> (res: Result<usize, HashError>)
        ensures
            res == hash_result(
                serialized_term(TermView::NamedNode(iri@), None),
                self.id_of(serialized_term(TermView::NamedNode(iri@), None)->Ok_0),
            ),
            res matches Ok(id) ==> id < self.num_known(),
    {
        let bytes: Vec<u8> = serialize_named_node(iri);
        self.hash_bytes(bytes.as_slice())
    }

    /// The id of a term.
    fn hash_term(&self, term: &Term) -> (res: Result<usize, HashError>)
        ensures
            res == hash_result(
                serialized_term(term@, None),
                self.id_of(serialized_term(term@, None)->Ok_0),
            ),
            res matches Ok(id) ==> id < self.num_known(),
    {
        match serialize_term(term, None) {
            Err(e) => Err(HashError::Term(e)),
            Ok(bytes) => self.hash_bytes(bytes.as_slice()),
        }
    }

    /// The id of the name of a graph.
    fn hash_graphname(&self, graph_name: &GraphName) -> (res: Result<usize, HashError>)
        ensures
            res == hash_result(
                Ok(serialized_graph_name(graph_name@)),
                self.id_of(serialized_graph_name(graph_name@)),
            ),
            res matches Ok(id) ==> id < self.num_known(),
    {
        match serialize_graph_name(graph_name) {
            Err(e) => Err(HashError::Term(e)),
            Ok(bytes) => self.hash_bytes(bytes.as_slice()),
        }
    }
}

/// A map from the terms of a store to their ids.
pub struct TermMphf {
    vfunc: Option<StaticFunc>,
}

impl TermHasher for TermMphf {
    closed spec fn num_known(&self) -> nat {
        match self.vfunc {
            None => 0,
            Some(vfunc) => crate::indexes::func_len(vfunc),
        }
    }

    closed spec fn id_of(&self, bytes: Seq<u8>) -> Option<usize> {
        match self.vfunc {
            None => None,
            Some(vfunc) => {
                let hash = crate::indexes::func_values(Ok(vfunc))[bytes];
                if hash < crate::indexes::func_len(vfunc) {
                    Some(hash)
                } else {
                    None
                }
            },
        }
    }

    fn len(&self) -> (len: usize) {
        match &self.vfunc {
            None => 0,
            Some(vfunc) => func_num_keys(vfunc),
        }
    }

    fn hash_bytes(&self, s: &[u8]) -> (res: Result<usize, HashError>) {
        match &self.vfunc {
            None => Err(HashError::OutOfRange),
            Some(vfunc) => {
                let hash: usize = func_get(vfunc, s);
                if hash < func_num_keys(vfunc) {
                    Ok(hash)
                } else {
                    Err(HashError::OutOfRange)
                }
            },
        }
    }
}

/// The bytes that a stored term is known by: those it is written with when there is no dictionary.
pub open spec fn mphf_key(string: Seq<u8>, dictionary: Option<TermDictionary>) -> Result<
    Seq<u8>,
    TermsError,
> {
    if string.len() == 0 || dictionary is None {
        Ok(string)
    } else {
        match deserialized_term(string, dictionary) {
            Err(e) => Err(TermsError::Term(e)),
            Ok(term) => match serialized_term(term, None) {
                Err(e) => Err(TermsError::Term(e)),
                Ok(bytes) => Ok(bytes),
            },
        }
    }
}

/// The bytes that stored terms are known by.
pub open spec fn mphf_keys(strings: Seq<Seq<u8>>, dictionary: Option<TermDictionary>) -> Result<
    Seq<Seq<u8>>,
    TermsError,
>
    decreases strings.len(),
{
    if strings.len() == 0 {
        Ok(Seq::empty())
    } else {
        match mphf_keys(strings.drop_last(), dictionary) {
            Err(e) => Err(e),
            Ok(before) => match mphf_key(strings.last(), dictionary) {
                Err(e) => Err(e),
                Ok(last) => Ok(before.push(last)),
            },
        }
    }
}

proof fn lemma_mphf_keys_prefix(
    strings: Seq<Seq<u8>>,
    more: Seq<Seq<u8>>,
    dictionary: Option<TermDictionary>,
)
    ensures
        mphf_keys(strings, dictionary) is Err ==> mphf_keys(strings + more, dictionary)
            == mphf_keys(strings, dictionary),
    decreases more.len(),
{
    if more.len() == 0 {
        assert(strings + more =~= strings);
    } else {
        lemma_mphf_keys_prefix(strings, more.drop_last(), dictionary);
        assert((strings + more).drop_last() =~= strings + more.drop_last());
    }
}

/// Without a dictionary, stored terms are known by the bytes they are stored as.
pub proof fn lemma_mphf_keys(strings: Seq<Seq<u8>>)
    ensures
        mphf_keys(strings, None) == Ok::<Seq<Seq<u8>>, TermsError>(strings),
    decreases strings.len(),
{
    if strings.len() > 0 {
        lemma_mphf_keys(strings.drop_last());
        assert(strings.drop_last().push(strings.last()) =~= strings);
    } else {
        assert(strings =~= Seq::empty());
    }
}

/// Each stored term is known by its own bytes.
pub proof fn lemma_mphf_key_at(
    strings: Seq<Seq<u8>>,
    dictionary: Option<TermDictionary>,
    i: int,
)
    requires
        mphf_keys(strings, dictionary) is Ok,
    ensures
        mphf_keys(strings, dictionary)->Ok_0.len() == strings.len(),
        0 <= i < strings.len() ==> mphf_key(strings[i], dictionary) == Ok::<Seq<u8>, TermsError>(
            mphf_keys(strings, dictionary)->Ok_0[i],
        ),
    decreases strings.len(),
{
    if strings.len() > 0 {
        lemma_mphf_key_at(strings.drop_last(), dictionary, i);
        if 0 <= i < strings.len() - 1 {
            assert(strings.drop_last()[i] == strings[i]);
        }
    }
}

/// Readers of whole files.
pub open spec fn start_views(files: Seq<Seq<u8>>, max: nat) -> Seq<LenderView> {
    Seq::new(
        files.len(),
        |i: int| LenderView { data: files[i], max, state: lender_start(max) },
    )
}

/// The terms of files, one file after the other, and the error that ends them, if one does.
pub open spec fn files_strings(files: Seq<Seq<u8>>, max: nat) -> (
    Seq<Seq<u8>>,
    Option<FrameError>,
) {
    flat_strings(start_views(files, max), 0)
}

impl TermMphf {
    /// Whether the ids of keys are their positions.
    pub open spec fn numbers(self, keys: Seq<Seq<u8>>) -> bool {
        &&& self.num_known() == keys.len()
        &&& forall|i: int|
            0 <= i < keys.len() ==> self.id_of(#[trigger] keys[i]) == Some(i as usize)
    }
}

/// The bytes that a stored term is known by.
pub(crate) fn key_of_term(string: Vec<u8>, dictionary: Option<&TermDictionary>) -> (res: Result<
    Vec<u8>,
    TermsError,
>)
    requires
        dictionary matches Some(dictionary) ==> dictionary.well_formed(),
    ensures
        match mphf_key(string@, dictionary_view(dictionary)) {
            Err(e) => res is Err && res->Err_0 == e,
            Ok(key) => res matches Ok(v) && v@ == key,
        },
{
    if string.len() == 0 || dictionary.is_none() {
        return Ok(string);
    }
    match deserialize_term(string.as_slice(), dictionary) {
        Err(e) => Err(TermsError::Term(e)),
        Ok(term) => match serialize_term(&term, None) {
            Err(e) => Err(TermsError::Term(e)),
            Ok(bytes) => Ok(bytes),
        },
    }
}

/// Reads the keys of the terms of files.
fn read_keys<'a>(
    lenders: Vec<FrameLender<'a>>,
    dictionary: Option<&TermDictionary>,
    Ghost(files): Ghost<Seq<Seq<u8>>>,
    Ghost(max): Ghost<nat>,
) -> (res: Result<Vec<Vec<u8>>, TermsError>)
    requires
        dictionary matches Some(dictionary) ==> dictionary.well_formed(),
        forall|i: int| 0 <= i < lenders@.len() ==> (#[trigger] lenders@[i]).well_formed(),
        lender_views(lenders@) == start_views(files, max),
    ensures
        ({
            let (strings, error) = files_strings(files, max);
            match mphf_keys(strings, dictionary_view(dictionary)) {
                Err(e) => res is Err && res->Err_0 == e,
                Ok(keys) => match error {
                    Some(e) => res is Err && res->Err_0 == TermsError::Frame(e),
                    None => res matches Ok(v) && string_views(v@) == keys,
                },
            }
        }),
{
    let ghost dict = dictionary_view(dictionary);
    let ghost all = files_strings(files, max);
    let ghost mut read: Seq<Seq<u8>> = Seq::empty();
    let mut keys: Vec<Vec<u8>> = Vec::new();
    let mut lender = FallibleRewindableFlattenLender::new(lenders);
    proof {
        assert(read + all.0 =~= all.0);
        assert(string_views(keys@) =~= Seq::empty());
    }
    loop
        invariant
            dictionary matches Some(dictionary) ==> dictionary.well_formed(),
            lender.well_formed(),
            dict == dictionary_view(dictionary),
            all == files_strings(files, max),
            all == (
                read + flat_strings(lender.lenders(), lender.current()).0,
                flat_strings(lender.lenders(), lender.current()).1,
            ),
            mphf_keys(read, dict) == Ok::<Seq<Seq<u8>>, TermsError>(string_views(keys@)),
        ensures
            all == (read, None::<FrameError>),
            mphf_keys(read, dict) == Ok::<Seq<Seq<u8>>, TermsError>(string_views(keys@)),
        decreases flat_strings(lender.lenders(), lender.current()).0.len(),
    {
        let ghost rest = flat_strings(lender.lenders(), lender.current());
        match lender.next() {
            Err(e) => {
                assert(read + rest.0 =~= read);
                return Err(TermsError::Frame(e));
            },
            Ok(None) => {
                assert(read + rest.0 =~= read);
                break;
            },
            Ok(Some(string)) => {
                let ghost more = read.push(string@);
                let ghost after = flat_strings(lender.lenders(), lender.current());
                let ghost before = keys@;
                proof {
                    assert(read + (seq![string@] + after.0) =~= more + after.0);
                    assert(more.drop_last() =~= read);
                    lemma_mphf_keys_prefix(more, after.0, dict);
                }
                let key: Vec<u8> = key_of_term(string, dictionary)?;
                keys.push(key);
                proof {
                    assert(string_views(keys@) =~= string_views(before).push(key@));
                    read = more;
                }
            },
        }
    }
    Ok(keys)
}

/// The numbers below `n`, in order.
pub fn ids_below(n: usize) -> (ids: Vec<usize>)
    ensures
        ids@ == Seq::new(n as nat, |i: int| i as usize),
{
    let mut ids: Vec<usize> = Vec::new();
    let mut id: usize = 0;
    while id < n
        invariant
            id <= n,
            ids@ == Seq::new(id as nat, |i: int| i as usize),
        decreases n - id,
    {
        ids.push(id);
        id = id + 1;
        assert(ids@ =~= Seq::new(id as nat, |i: int| i as usize));
    }
    assert(ids@ =~= Seq::new(n as nat, |i: int| i as usize));
    ids
}

/// Numbers keys by their positions.
pub(crate) fn number_keys(keys: &Vec<Vec<u8>>) -> (res: Result<TermMphf, TermsError>)
    ensures
        match res {
            Ok(mphf) => mphf.numbers(string_views(keys@)),
            Err(e) => e == TermsError::StaticFunction && keys@.len() > 0 && construction_failed(
                string_views(keys@).to_set(),
            ),
        },
{
    if keys.len() == 0 {
        return Ok(TermMphf { vfunc: None });
    }
    let values: Vec<usize> = ids_below(keys.len());
    match build_func(keys, &values) {
        Err(_) => Err(TermsError::StaticFunction),
        Ok(vfunc) => {
            let mphf = TermMphf { vfunc: Some(vfunc) };
            proof {
                let all = string_views(keys@);
                assert forall|j: int| 0 <= j < all.len() implies mphf.id_of(#[trigger] all[j])
                    == Some(j as usize) by {
                    assert(all[j] == keys@[j]@);
                }
            }
            Ok(mphf)
        },
    }
}

/// Builds the map from the terms of a store to their ids, which are their positions.
pub fn build_terms_mphf(
    config: &TermStoreConfiguration,
    files: Vec<Vec<u8>>,
    dictionary: Option<&TermDictionary>,
) -> (res: Result<TermMphf, TermsError>)
    requires
        config.well_formed(),
        dictionary matches Some(dictionary) ==> dictionary.well_formed(),
    ensures
        if files@.len() != num_files(*config) {
            res is Err && res->Err_0 == TermsError::WrongNumberOfFiles
        } else {
            let (strings, error) = files_strings(
                string_views(files@),
                config.terms_per_frame as nat,
            );
            match mphf_keys(strings, dictionary_view(dictionary)) {
                Err(e) => res is Err && res->Err_0 == e,
                Ok(keys) => match error {
                    Some(e) => res is Err && res->Err_0 == TermsError::Frame(e),
                    None => if keys.len() != config.num_terms {
                        res is Err && res->Err_0 == TermsError::WrongNumberOfTerms
                    } else {
                        match res {
                            Ok(mphf) => mphf.numbers(keys),
                            Err(e) => e == TermsError::StaticFunction && keys.len() > 0
                                && construction_failed(keys.to_set()),
                        }
                    },
                },
            }
        },
{
    let ghost views = string_views(files@);
    let ghost max = config.terms_per_frame as nat;
    let listed = list_terms_files(config, files)?;
    let mut lenders: Vec<FrameLender<'_>> = Vec::new();
    let mut i: usize = 0;
    while i < listed.len()
        invariant
            config.well_formed(),
            max == config.terms_per_frame,
            i <= listed@.len() == views.len(),
            forall|j: int|
                0 <= j < listed@.len() ==> (#[trigger] listed@[j]).compressed_frames@ == views[j],
            lenders@.len() == i,
            forall|j: int| 0 <= j < lenders@.len() ==> (#[trigger] lenders@[j]).well_formed(),
            forall|j: int|
                0 <= j < lenders@.len() ==> crate::flatten::lender_view(#[trigger] lenders@[j])
                    == start_views(views, max)[j],
        decreases listed@.len() - i,
    {
        let frames = listed[i].compressed_frames.as_slice();
        lenders.push(FrameLender::new(frames, config.terms_per_frame));
        i = i + 1;
    }
    assert(lender_views(lenders@) =~= start_views(views, max));
    let keys: Vec<Vec<u8>> = read_keys(lenders, dictionary, Ghost(views), Ghost(max))?;
    if keys.len() != config.num_terms {
        return Err(TermsError::WrongNumberOfTerms);
    }
    number_keys(&keys)
}

/// The files of a store hold its terms, one file after the other.
pub proof fn lemma_files_strings(
    config: TermStoreConfiguration,
    files: Seq<Seq<u8>>,
    strings: Seq<Seq<u8>>,
)
    requires
        config.well_formed(),
        crate::terms_store::stores(config, files, strings),
    ensures
        files_strings(files, config.terms_per_frame as nat) == (strings, None::<FrameError>),
{
    lemma_flat_from(config, files, strings, 0);
    assert(0 * config.terms_per_file() == 0) by (nonlinear_arith);
    assert(strings.skip(0) =~= strings);
    if files.len() == 0 {
        let t = config.terms_per_file();
        assert(t > 0) by (nonlinear_arith)
            requires
                t == config.terms_per_frame * config.frames_per_file,
                config.terms_per_frame > 0,
                config.frames_per_file > 0,
        ;
        crate::terms_store::lemma_ceil_div(config.num_terms as nat, t);
        assert(strings =~= Seq::empty());
    }
}

proof fn lemma_flat_from(
    config: TermStoreConfiguration,
    files: Seq<Seq<u8>>,
    strings: Seq<Seq<u8>>,
    from: nat,
)
    requires
        config.well_formed(),
        crate::terms_store::stores(config, files, strings),
        from <= files.len(),
    ensures
        flat_strings(start_views(files, config.terms_per_frame as nat), from) == (
            if from < files.len() {
                strings.skip((from * config.terms_per_file()) as int)
            } else {
                Seq::empty()
            },
            None::<FrameError>,
        ),
    decreases files.len() - from,
{
    let t = config.terms_per_file();
    let max = config.terms_per_frame as nat;
    let views = start_views(files, max);
    if from < files.len() {
        lemma_flat_from(config, files, strings, from + 1);
        crate::terms_store::lemma_file_num_terms(config, from as int);
        assert((from + 1) * t == from * t + t) by (nonlinear_arith);
        let here = crate::terms_store::file_strings(strings, t, from as int);
        assert(views[from as int].data == files[from as int]);
        if from + 1 < files.len() {
            crate::terms_store::lemma_file_num_terms(config, (from + 1) as int);
            assert(here + strings.skip(((from + 1) * t) as int) =~= strings.skip(
                (from * t) as int,
            ));
        } else {
            assert(here + Seq::<Seq<u8>>::empty() =~= strings.skip((from * t) as int)) by {
                crate::terms_store::lemma_ceil_div(config.num_terms as nat, t);
            }
        }
    }
}

/// Terms are mapped to their ids, and ids to their terms: the map that was built from the terms of
/// a store gives each of them the id that the store knows it by, with a dictionary or without.
pub proof fn lemma_terms_and_ids(
    mphf: TermMphf,
    config: TermStoreConfiguration,
    files: Seq<Seq<u8>>,
    dictionary: Option<TermDictionary>,
    strings: Seq<Seq<u8>>,
    id: int,
)
    requires
        config.well_formed(),
        crate::terms_store::stores(config, files, strings),
        mphf_keys(strings, dictionary) is Ok,
        mphf.numbers(mphf_keys(strings, dictionary)->Ok_0),
        0 <= id < strings.len(),
    ensures
        mphf_key(strings[id], dictionary) matches Ok(key) && mphf.id_of(key) == Some(id as usize),
        crate::terms_store::term_at(config, files, id as nat) == Ok::<
            Option<Seq<u8>>,
            FrameError,
        >(Some(strings[id])),
{
    lemma_mphf_key_at(strings, dictionary, id);
    crate::terms_store::lemma_stored_term(config, files, strings, id as nat);
}

} // verus!
