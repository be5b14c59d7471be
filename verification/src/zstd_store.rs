//! Stores of the texts of terms, sorted and without duplicates, in files of frames that are
//! compressed with Zstandard.

use crate::indexes::{positions_view, seq_values, MonotoneSeq};
use crate::string_sorter::ExternalDeduplicatingStringSorter;
use crate::strings::{string_views, strings_increasing};
use crate::terms::{
    option_view, push_text, GraphName, GraphNameView, Literal, NamedOrBlankNode, Quad, QuadView,
    Term, TermView, XSD_STRING,
};
use crate::terms_mphf::{number_keys, TermMphf};
use crate::terms_store::{
    file_num_terms, file_strings, lemma_ceil_div, lemma_file_num_terms, list_terms_files,
    num_files, TermStoreConfiguration,
};
use crate::terms_writer::{
    chunk_views, default_configuration, merge_sorters, push_string, quad_views, sortable, sorts,
    TERM_BUFFER_SIZE,
};
use crate::zstd_terms::{
    fits_frame, index_zstd_file, is_zstd_file, lemma_prefixed_len, lemma_zstd_index,
    lemma_zstd_round_trip, prefixed_range, read_zstd_file, write_zstd_file, zstd_index,
    zstd_strings, ZstdError,
};
use oxrdf::{LiteralRef, NamedNodeRef};
use vstd::prelude::*;
use vstd::utf8::encode_utf8;

verus! {

/// A digit of a number in base 16, in upper case.
pub open spec fn hex_digit(digit: int) -> char {
    "0123456789ABCDEF"@[digit]
}

/// A character of the lexical form of a literal, escaped if it is special.
pub open spec fn escaped(c: char) -> Seq<char> {
    let code = c as int;
    if code == 8 {
        seq!['\\', 'b']
    } else if code == 9 {
        seq!['\\', 't']
    } else if code == 10 {
        seq!['\\', 'n']
    } else if code == 12 {
        seq!['\\', 'f']
    } else if code == 13 {
        seq!['\\', 'r']
    } else if c == '"' || c == '\\' {
        seq!['\\', c]
    } else if code < 0x20 || code == 0x7f || code == 0xfffe || code == 0xffff {
        seq![
            '\\',
            'u',
            hex_digit(code / 4096 % 16),
            hex_digit(code / 256 % 16),
            hex_digit(code / 16 % 16),
            hex_digit(code % 16),
        ]
    } else {
        seq![c]
    }
}

/// Characters, escaped if they are special.
pub open spec fn all_escaped(value: Seq<char>) -> Seq<char>
    decreases value.len(),
{
    if value.len() == 0 {
        Seq::empty()
    } else {
        all_escaped(value.drop_last()) + escaped(value.last())
    }
}

/// The lexical form of a literal, between quotes and with its special characters escaped.
pub open spec fn quoted_text(value: Seq<char>) -> Seq<char> {
    seq!['"'] + all_escaped(value) + seq!['"']
}

/// What follows the lexical form in the text of a literal: its language tag, or its datatype.
pub open spec fn literal_suffix(language: Option<Seq<char>>, datatype: Seq<char>) -> Seq<char> {
    match language {
        Some(language) => seq!['@'] + language,
        None => if datatype == XSD_STRING@ {
            Seq::empty()
        } else {
            seq!['^', '^', '<'] + datatype + seq!['>']
        },
    }
}

/// `Display` of `oxrdf::LiteralRef`: the quoted lexical form of a literal, and its language tag or
/// its datatype, except that of simple literals.
#[verifier::external_body]
pub(crate) fn print_literal(literal: &Literal) -> (text: String)
    ensures
        text@ == quoted_text(literal.value@) + literal_suffix(
            option_view(literal.language),
            literal.datatype@,
        ),
{
    let value = literal.value.as_str();
    match &literal.language {
        Some(tag) => LiteralRef::new_language_tagged_literal_unchecked(value, tag).to_string(),
        None => {
            let datatype = NamedNodeRef::new_unchecked(&literal.datatype);
            LiteralRef::new_typed_literal(value, datatype).to_string()
        },
    }
}

/// The text of a term.
pub open spec fn term_text(term: TermView) -> Seq<char> {
    match term {
        TermView::NamedNode(iri) => iri,
        TermView::BlankNode(id) => id,
        TermView::Literal(value, language, datatype) => quoted_text(value) + literal_suffix(
            language,
            datatype,
        ),
    }
}

/// The text of the name of a graph.
pub open spec fn graph_name_text(graph_name: GraphNameView) -> Seq<char> {
    match graph_name {
        GraphNameView::NamedNode(iri) => iri,
        GraphNameView::BlankNode(id) => id,
        GraphNameView::DefaultGraph => Seq::empty(),
    }
}

/// The texts of the terms of a quad, in UTF-8.
pub open spec fn quad_texts(quad: QuadView) -> Seq<Seq<u8>> {
    seq![
        encode_utf8(term_text(quad.subject)),
        encode_utf8(quad.predicate),
        encode_utf8(graph_name_text(quad.graph_name)),
        encode_utf8(term_text(quad.object)),
    ]
}

/// The texts of the terms of quads, in UTF-8.
pub open spec fn quads_texts(quads: Seq<QuadView>) -> Seq<Seq<u8>>
    decreases quads.len(),
{
    if quads.len() == 0 {
        Seq::empty()
    } else {
        quads_texts(quads.drop_last()) + quad_texts(quads.last())
    }
}

/// Whether strings can all be sorted.
pub open spec fn all_sortable(strings: Seq<Seq<u8>>) -> bool {
    forall|i: int|
        0 <= i < strings.len() ==> sortable(#[trigger] strings[i], TERM_BUFFER_SIZE as nat)
}

fn text_bytes(text: &str) -> (bytes: Vec<u8>)
    ensures
        bytes@ == encode_utf8(text@),
{
    let mut bytes: Vec<u8> = Vec::new();
    push_text(&mut bytes, text);
    assert(bytes@ =~= encode_utf8(text@));
    bytes
}

/// Adds the text of an object.
fn push_term(sorter: &mut ExternalDeduplicatingStringSorter, term: &Term) -> (res: Result<
    (),
    ZstdError,
>)
    requires
        old(sorter).max_buffer_size() == TERM_BUFFER_SIZE,
        sorts(*old(sorter), old(sorter).strings(), TERM_BUFFER_SIZE as nat),
    ensures
        ({
            let text = encode_utf8(term_text(term@));
            if sortable(text, TERM_BUFFER_SIZE as nat) {
                res is Ok && final(sorter).max_buffer_size() == TERM_BUFFER_SIZE && sorts(
                    *final(sorter),
                    old(sorter).strings().insert(text),
                    TERM_BUFFER_SIZE as nat,
                )
            } else {
                res is Err && res->Err_0 == ZstdError::TermTooLong
            }
        }),
{
    let bytes: Vec<u8> = match term {
        Term::NamedNode(iri) => text_bytes(iri.as_str()),
        Term::BlankNode(id) => text_bytes(id.as_str()),
        Term::Literal(literal) => text_bytes(print_literal(literal).as_str()),
    };
    match push_string(sorter, bytes) {
        Err(_) => Err(ZstdError::TermTooLong),
        Ok(()) => Ok(()),
    }
}

/// Adds a text.
fn push_str(sorter: &mut ExternalDeduplicatingStringSorter, text: &str) -> (res: Result<
    (),
    ZstdError,
>)
    requires
        old(sorter).max_buffer_size() == TERM_BUFFER_SIZE,
        sorts(*old(sorter), old(sorter).strings(), TERM_BUFFER_SIZE as nat),
    ensures
        if sortable(encode_utf8(text@), TERM_BUFFER_SIZE as nat) {
            res is Ok && final(sorter).max_buffer_size() == TERM_BUFFER_SIZE && sorts(
                *final(sorter),
                old(sorter).strings().insert(encode_utf8(text@)),
                TERM_BUFFER_SIZE as nat,
            )
        } else {
            res is Err && res->Err_0 == ZstdError::TermTooLong
        },
{
    match push_string(sorter, text_bytes(text)) {
        Err(_) => Err(ZstdError::TermTooLong),
        Ok(()) => Ok(()),
    }
}

/// Adds the texts of the terms of a quad.
fn push_quad(sorter: &mut ExternalDeduplicatingStringSorter, quad: &Quad) -> (res: Result<
    (),
    ZstdError,
>)
    requires
        old(sorter).max_buffer_size() == TERM_BUFFER_SIZE,
        sorts(*old(sorter), old(sorter).strings(), TERM_BUFFER_SIZE as nat),
    ensures
        if all_sortable(quad_texts(quad@)) {
            res is Ok && final(sorter).max_buffer_size() == TERM_BUFFER_SIZE && sorts(
                *final(sorter),
                old(sorter).strings().union(quad_texts(quad@).to_set()),
                TERM_BUFFER_SIZE as nat,
            )
        } else {
            res is Err && res->Err_0 == ZstdError::TermTooLong
        },
{
    let ghost before = sorter.strings();
    let ghost texts = quad_texts(quad@);
    proof {
        assert(encode_utf8(Seq::<char>::empty()) =~= encode_utf8(""@)) by {
            reveal_strlit("");
            assert(""@ =~= Seq::<char>::empty());
        }
        assert(all_sortable(texts) <==> sortable(texts[0], TERM_BUFFER_SIZE as nat) && sortable(
            texts[1],
            TERM_BUFFER_SIZE as nat,
        ) && sortable(texts[2], TERM_BUFFER_SIZE as nat) && sortable(
            texts[3],
            TERM_BUFFER_SIZE as nat,
        ));
    }
    match &quad.subject {
        NamedOrBlankNode::NamedNode(iri) => {
            push_str(sorter, iri.as_str())?;
        },
        NamedOrBlankNode::BlankNode(id) => {
            push_str(sorter, id.as_str())?;
        },
    }
    push_str(sorter, quad.predicate.as_str())?;
    match &quad.graph_name {
        GraphName::NamedNode(iri) => {
            push_str(sorter, iri.as_str())?;
        },
        GraphName::BlankNode(id) => {
            push_str(sorter, id.as_str())?;
        },
        GraphName::DefaultGraph => {
            push_str(sorter, "")?;
        },
    }
    push_term(sorter, &quad.object)?;
    proof {
        assert(texts.to_set() =~= set![texts[0], texts[1], texts[2], texts[3]]) by {
            assert forall|s: Seq<u8>| #[trigger] texts.to_set().contains(s) implies s == texts[0]
                || s == texts[1] || s == texts[2] || s == texts[3] by {
                let i = choose|i: int| 0 <= i < texts.len() && texts[i] == s;
            }
            assert(texts.contains(texts[0]));
            assert(texts.contains(texts[1]));
            assert(texts.contains(texts[2]));
            assert(texts.contains(texts[3]));
        }
        assert(before.insert(texts[0]).insert(texts[1]).insert(texts[2]).insert(texts[3])
            =~= before.union(texts.to_set()));
    }
    Ok(())
}

proof fn lemma_texts_concat(left: Seq<QuadView>, right: Seq<QuadView>)
    ensures
        quads_texts(left + right) == quads_texts(left) + quads_texts(right),
    decreases right.len(),
{
    if right.len() == 0 {
        assert(left + right =~= left);
        assert(quads_texts(left) + quads_texts(right) =~= quads_texts(left));
    } else {
        lemma_texts_concat(left, right.drop_last());
        assert((left + right).drop_last() =~= left + right.drop_last());
        assert(quads_texts(left + right) =~= quads_texts(left) + quads_texts(right));
    }
}

proof fn lemma_concat_set(left: Seq<Seq<u8>>, right: Seq<Seq<u8>>)
    ensures
        (left + right).to_set() == left.to_set().union(right.to_set()),
        all_sortable(left + right) <==> all_sortable(left) && all_sortable(right),
{
    let both = left + right;
    assert forall|s: Seq<u8>| #[trigger] both.to_set().contains(s) <==> left.to_set().union(
        right.to_set(),
    ).contains(s) by {
        if left.contains(s) {
            let i = choose|i: int| 0 <= i < left.len() && left[i] == s;
            assert(both[i] == s);
        }
        if right.contains(s) {
            let i = choose|i: int| 0 <= i < right.len() && right[i] == s;
            assert(both[left.len() + i] == s);
        }
        if both.contains(s) {
            let i = choose|i: int| 0 <= i < both.len() && both[i] == s;
            if i < left.len() {
                assert(left[i] == s);
            } else {
                assert(right[i - left.len()] == s);
            }
        }
    }
    assert(both.to_set() =~= left.to_set().union(right.to_set()));
    if all_sortable(both) {
        assert forall|i: int| 0 <= i < left.len() implies sortable(
            #[trigger] left[i],
            TERM_BUFFER_SIZE as nat,
        ) by {
            assert(both[i] == left[i]);
        }
        assert forall|i: int| 0 <= i < right.len() implies sortable(
            #[trigger] right[i],
            TERM_BUFFER_SIZE as nat,
        ) by {
            assert(both[left.len() + i] == right[i]);
        }
    }
}

/// Adds the texts of the terms of quads to a new sorter.
fn deduplicate_chunk(quads: &Vec<Quad>) -> (res: Result<
    ExternalDeduplicatingStringSorter,
    ZstdError,
>)
    ensures
        if all_sortable(quads_texts(quad_views(quads@))) {
            res matches Ok(sorter) && sorts(
                sorter,
                quads_texts(quad_views(quads@)).to_set(),
                TERM_BUFFER_SIZE as nat,
            )
        } else {
            res is Err && res->Err_0 == ZstdError::TermTooLong
        },
{
    let mut sorter = ExternalDeduplicatingStringSorter::new(TERM_BUFFER_SIZE, 10);
    let ghost all = quad_views(quads@);
    let mut i: usize = 0;
    assert(quads_texts(all.take(0)).to_set() =~= Set::empty());
    while i < quads.len()
        invariant
            all == quad_views(quads@),
            i <= quads@.len(),
            sorter.max_buffer_size() == TERM_BUFFER_SIZE,
            sorts(sorter, quads_texts(all.take(i as int)).to_set(), TERM_BUFFER_SIZE as nat),
            all_sortable(quads_texts(all.take(i as int))),
        decreases quads@.len() - i,
    {
        proof {
            let next = all.take(i + 1);
            assert(next.drop_last() =~= all.take(i as int));
            assert(next.last() == quads@[i as int]@);
            lemma_concat_set(quads_texts(all.take(i as int)), quad_texts(quads@[i as int]@));
            lemma_texts_concat(next, all.skip(i + 1));
            assert(next + all.skip(i + 1) =~= all);
            lemma_concat_set(quads_texts(next), quads_texts(all.skip(i + 1)));
        }
        push_quad(&mut sorter, &quads[i])?;
        i = i + 1;
    }
    assert(all.take(i as int) =~= all);
    Ok(sorter)
}

/// The texts of the terms of quads. Each list of quads is handled by itself, and the results are
/// merged.
pub fn deduplicate_terms(chunks: &Vec<Vec<Quad>>) -> (res: Result<
    ExternalDeduplicatingStringSorter,
    ZstdError,
>)
    ensures
        if all_sortable(quads_texts(chunk_views(chunks@))) {
            res matches Ok(sorter) && sorter.well_formed() && sorter.strings() == quads_texts(
                chunk_views(chunks@),
            ).to_set()
        } else {
            res is Err && res->Err_0 == ZstdError::TermTooLong
        },
{
    let mut sorter = ExternalDeduplicatingStringSorter::new(TERM_BUFFER_SIZE, 10);
    let mut i: usize = 0;
    proof {
        assert(chunks@.take(0) =~= Seq::empty());
        assert(quads_texts(chunk_views(chunks@.take(0))).to_set() =~= Set::empty());
    }
    while i < chunks.len()
        invariant
            i <= chunks@.len(),
            sorts(
                sorter,
                quads_texts(chunk_views(chunks@.take(i as int))).to_set(),
                TERM_BUFFER_SIZE as nat,
            ),
            all_sortable(quads_texts(chunk_views(chunks@.take(i as int)))),
        decreases chunks@.len() - i,
    {
        proof {
            let before = chunk_views(chunks@.take(i as int));
            let here = quad_views(chunks@[i as int]@);
            let next = chunks@.take(i + 1);
            assert(next.drop_last() =~= chunks@.take(i as int));
            assert(chunk_views(next) == before + here);
            lemma_texts_concat(before, here);
            lemma_concat_set(quads_texts(before), quads_texts(here));
            lemma_prefix_sortable(chunks@, i + 1);
        }
        let part = deduplicate_chunk(&chunks[i])?;
        match merge_sorters(sorter, part, Ghost(TERM_BUFFER_SIZE as nat)) {
            Err(_) => {
                return Err(ZstdError::TermTooLong);
            },
            Ok(merged) => {
                sorter = merged;
            },
        }
        i = i + 1;
    }
    assert(chunks@.take(i as int) =~= chunks@);
    Ok(sorter)
}

proof fn lemma_prefix_sortable(chunks: Seq<Vec<Quad>>, n: int)
    requires
        0 <= n <= chunks.len(),
    ensures
        all_sortable(quads_texts(chunk_views(chunks))) ==> all_sortable(
            quads_texts(chunk_views(chunks.take(n))),
        ),
    decreases chunks.len() - n,
{
    if n == chunks.len() {
        assert(chunks.take(n) =~= chunks);
    } else {
        lemma_prefix_sortable(chunks, n + 1);
        let next = chunks.take(n + 1);
        assert(next.drop_last() =~= chunks.take(n));
        lemma_texts_concat(chunk_views(chunks.take(n)), quad_views(chunks[n]@));
        lemma_concat_set(
            quads_texts(chunk_views(chunks.take(n))),
            quads_texts(quad_views(chunks[n]@)),
        );
    }
}

/// Whether files hold a list of strings.
pub open spec fn zstd_stores(
    config: TermStoreConfiguration,
    files: Seq<Seq<u8>>,
    strings: Seq<Seq<u8>>,
) -> bool {
    &&& config.num_terms == strings.len()
    &&& files.len() == num_files(config)
    &&& forall|i: int|
        0 <= i < files.len() ==> is_zstd_file(
            #[trigger] files[i],
            config.terms_per_frame as nat,
            file_strings(strings, config.terms_per_file(), i),
        )
}

/// Writes strings to the files of a store.
fn write_zstd_files(config: &TermStoreConfiguration, strings: &Vec<Vec<u8>>) -> (res: Result<
    Vec<Vec<u8>>,
    ZstdError,
>)
    requires
        config.well_formed(),
        config.num_terms == strings@.len(),
        config.terms_per_frame <= 16,
        forall|i: int|
            0 <= i < strings@.len() ==> (#[trigger] strings@[i])@.len() <= TERM_BUFFER_SIZE,
    ensures
        res matches Ok(files) && zstd_stores(
            *config,
            string_views(files@),
            string_views(strings@),
        ),
{
    let ghost views = string_views(strings@);
    let terms_per_file: usize = config.terms_per_frame * config.frames_per_file;
    assert(terms_per_file > 0) by (nonlinear_arith)
        requires
            terms_per_file == config.terms_per_frame * config.frames_per_file,
            config.terms_per_frame > 0,
            config.frames_per_file > 0,
    ;
    let expected: usize = crate::quads::div_ceil(config.num_terms, terms_per_file);
    let mut files: Vec<Vec<u8>> = Vec::new();
    let mut file_id: usize = 0;
    while file_id < expected
        invariant
            config.well_formed(),
            config.num_terms == strings@.len(),
            views == string_views(strings@),
            terms_per_file == config.terms_per_file(),
            terms_per_file > 0,
            expected == num_files(*config),
            file_id <= expected,
            files@.len() == file_id,
            config.terms_per_frame <= 16,
            forall|i: int|
                0 <= i < strings@.len() ==> (#[trigger] strings@[i])@.len() <= TERM_BUFFER_SIZE,
            forall|i: int|
                0 <= i < files@.len() ==> is_zstd_file(
                    (#[trigger] files@[i])@,
                    config.terms_per_frame as nat,
                    file_strings(views, config.terms_per_file(), i),
                ),
        decreases expected - file_id,
    {
        proof {
            lemma_file_num_terms(*config, file_id as int);
            assert((file_id + 1) * terms_per_file == file_id * terms_per_file + terms_per_file)
                by (nonlinear_arith);
        }
        let start: usize = file_id * terms_per_file;
        let end: usize = if config.num_terms - start < terms_per_file {
            config.num_terms
        } else {
            start + terms_per_file
        };
        assert(file_strings(views, terms_per_file as nat, file_id as int) =~= views.subrange(
            start as int,
            end as int,
        ));
        proof {
            assert forall|i: int, j: int|
                start <= i <= j <= end && j - i <= config.terms_per_frame implies fits_frame(
                (#[trigger] prefixed_range(views, i, j)).len(),
            ) by {
                let part = views.subrange(i, j);
                assert forall|k: int| 0 <= k < part.len() implies (#[trigger] part[k]).len()
                    <= TERM_BUFFER_SIZE by {
                    assert(part[k] == strings@[i + k]@);
                }
                lemma_prefixed_len(part, TERM_BUFFER_SIZE as nat);
                assert(part.len() * (TERM_BUFFER_SIZE + 4) <= 16 * (TERM_BUFFER_SIZE + 4))
                    by (nonlinear_arith)
                    requires
                        part.len() <= 16,
                ;
            }
        }
        files.push(write_zstd_file(strings, start, end, config.terms_per_frame)?);
        file_id = file_id + 1;
    }
    proof {
        assert forall|i: int| 0 <= i < string_views(files@).len() implies is_zstd_file(
            #[trigger] string_views(files@)[i],
            config.terms_per_frame as nat,
            file_strings(views, config.terms_per_file(), i),
        ) by {
            assert(string_views(files@)[i] == files@[i]@);
        }
    }
    Ok(files)
}

/// Whether files hold a set of strings, in increasing order.
pub open spec fn holds_texts(
    config: TermStoreConfiguration,
    files: Seq<Seq<u8>>,
    set: Set<Seq<u8>>,
) -> bool {
    exists|strings: Seq<Seq<u8>>|
        {
            &&& strings_increasing(strings)
            &&& strings.to_set() == set
            &&& #[trigger] zstd_stores(config, files, strings)
        }
}

/// Writes the texts of the terms of quads, sorted and without duplicates, to the files of a new
/// store.
pub fn write_unique_terms(chunks: &Vec<Vec<Quad>>) -> (res: Result<
    (TermStoreConfiguration, Vec<Vec<u8>>),
    ZstdError,
>)
    ensures
        ({
            let texts = quads_texts(chunk_views(chunks@));
            if !all_sortable(texts) {
                res is Err && res->Err_0 == ZstdError::TermTooLong
            } else {
                res matches Ok((config, files)) && {
                    &&& config.well_formed()
                    &&& config.terms_per_frame == 16
                    &&& config.frames_per_file == 1_048_576
                    &&& config.dictionary_filename is None
                    &&& holds_texts(config, string_views(files@), texts.to_set())
                }
            }
        }),
{
    let ghost texts = quads_texts(chunk_views(chunks@));
    let mut sorter = deduplicate_terms(chunks)?;
    let strings: Vec<Vec<u8>> = sorter.drain_boxed_bytes();
    let ghost views = string_views(strings@);
    proof {
        assert(views.to_set() == texts.to_set());
        assert forall|i: int| 0 <= i < strings@.len() implies (#[trigger] strings@[i])@.len()
            <= TERM_BUFFER_SIZE by {
            assert(views[i] == strings@[i]@);
            assert(views.to_set().contains(views[i]));
            let j = choose|j: int| 0 <= j < texts.len() && texts[j] == views[i];
            assert(sortable(texts[j], TERM_BUFFER_SIZE as nat));
        }
    }
    let mut config = default_configuration();
    config.num_terms = strings.len();
    let files = write_zstd_files(&config, &strings)?;
    Ok((config, files))
}

/// The index of one of the files of a store.
pub open spec fn file_index(config: TermStoreConfiguration, files: Seq<Seq<u8>>, i: int) -> Result<
    Seq<nat>,
    ZstdError,
> {
    zstd_index(files[i], file_num_terms(config, i) as nat, config.terms_per_frame as nat)
}

/// Whether the first file that cannot be indexed cannot be so for a given reason.
pub open spec fn index_fails(
    config: TermStoreConfiguration,
    files: Seq<Seq<u8>>,
    error: ZstdError,
) -> bool {
    exists|i: int|
        0 <= i < files.len() && #[trigger] file_index(config, files, i) == Err::<
            Seq<nat>,
            ZstdError,
        >(error) && forall|j: int|
            0 <= j < i ==> (#[trigger] file_index(config, files, j)) is Ok
}

/// Indexes the files of a store.
pub fn index_terms(config: &TermStoreConfiguration, files: Vec<Vec<u8>>) -> (res: Result<
    Vec<MonotoneSeq>,
    ZstdError,
>)
    requires
        config.well_formed(),
    ensures
        if files@.len() != num_files(*config) {
            res is Err && res->Err_0 == ZstdError::WrongNumberOfFiles
        } else {
            match res {
                Err(e) => index_fails(*config, string_views(files@), e),
                Ok(indexes) => indexes@.len() == files@.len() && forall|i: int|
                    0 <= i < indexes@.len() ==> file_index(*config, string_views(files@), i)
                        == Ok::<Seq<nat>, ZstdError>(
                        positions_view(seq_values(#[trigger] indexes@[i])),
                    ),
            }
        },
{
    let ghost views = string_views(files@);
    let listed = match list_terms_files(config, files) {
        Err(_) => {
            return Err(ZstdError::WrongNumberOfFiles);
        },
        Ok(listed) => listed,
    };
    let mut indexes: Vec<MonotoneSeq> = Vec::new();
    let mut i: usize = 0;
    while i < listed.len()
        invariant
            config.well_formed(),
            i <= listed@.len() == views.len(),
            views == string_views(files@),
            files@.len() == num_files(*config),
            forall|j: int|
                0 <= j < listed@.len() ==> (#[trigger] listed@[j]).compressed_frames@ == views[j]
                    && listed@[j].num_terms == file_num_terms(*config, j),
            indexes@.len() == i,
            forall|j: int|
                0 <= j < indexes@.len() ==> file_index(*config, views, j) == Ok::<
                    Seq<nat>,
                    ZstdError,
                >(positions_view(seq_values(#[trigger] indexes@[j]))),
        decreases listed@.len() - i,
    {
        let file = &listed[i];
        match index_zstd_file(
            file.compressed_frames.as_slice(),
            file.num_terms,
            config.terms_per_frame,
        ) {
            Err(e) => {
                proof {
                    assert(file_index(*config, views, i as int) == Err::<Seq<nat>, ZstdError>(e));
                    assert forall|j: int| 0 <= j < i implies (#[trigger] file_index(
                        *config,
                        views,
                        j,
                    )) is Ok by {
                        assert(positions_view(seq_values(indexes@[j])) == positions_view(
                            seq_values(indexes@[j]),
                        ));
                    }
                }
                return Err(e);
            },
            Ok(index) => {
                indexes.push(index);
            },
        }
        i = i + 1;
    }
    Ok(indexes)
}

/// The strings of files, one file after the other, or the first error.
pub open spec fn zstd_files_strings(files: Seq<Seq<u8>>) -> Result<Seq<Seq<u8>>, ZstdError>
    decreases files.len(),
{
    if files.len() == 0 {
        Ok(Seq::empty())
    } else {
        match zstd_files_strings(files.drop_last()) {
            Err(e) => Err(e),
            Ok(before) => match zstd_strings(files.last()) {
                Err(e) => Err(e),
                Ok(strings) => Ok(before + strings),
            },
        }
    }
}

proof fn lemma_files_error(files: Seq<Seq<u8>>, n: int)
    requires
        0 <= n <= files.len(),
    ensures
        zstd_files_strings(files.take(n)) is Err ==> zstd_files_strings(files)
            == zstd_files_strings(files.take(n)),
    decreases files.len() - n,
{
    if n == files.len() {
        assert(files.take(n) =~= files);
    } else {
        lemma_files_error(files, n + 1);
        assert(files.take(n + 1).drop_last() =~= files.take(n));
    }
}

/// Builds the map from the texts of a store to their ids, which are their positions. Nothing is
/// said of when the map can be built.
pub fn build_terms_mph(config: &TermStoreConfiguration, files: Vec<Vec<u8>>) -> (res: Result<
    TermMphf,
    ZstdError,
>)
    requires
        config.well_formed(),
    ensures
        if files@.len() != num_files(*config) {
            res is Err && res->Err_0 == ZstdError::WrongNumberOfFiles
        } else {
            match zstd_files_strings(string_views(files@)) {
                Err(e) => res is Err && res->Err_0 == e,
                Ok(strings) => if strings.len() > config.num_terms {
                    res is Err && res->Err_0 == ZstdError::TooManyTerms
                } else {
                    match res {
                        Ok(mphf) => mphf.numbers(strings),
                        Err(e) => e == ZstdError::StaticFunction && strings.len() > 0
                            && crate::indexes::construction_failed(strings.to_set()),
                    }
                },
            }
        },
{
    let ghost views = string_views(files@);
    let listed = match list_terms_files(config, files) {
        Err(_) => {
            return Err(ZstdError::WrongNumberOfFiles);
        },
        Ok(listed) => listed,
    };
    let mut keys: Vec<Vec<u8>> = Vec::new();
    let mut i: usize = 0;
    proof {
        assert(views.take(0) =~= Seq::empty());
        assert(string_views(keys@) =~= Seq::empty());
    }
    while i < listed.len()
        invariant
            i <= listed@.len() == views.len(),
            views == string_views(files@),
            files@.len() == num_files(*config),
            forall|j: int|
                0 <= j < listed@.len() ==> (#[trigger] listed@[j]).compressed_frames@ == views[j],
            zstd_files_strings(views.take(i as int)) == Ok::<Seq<Seq<u8>>, ZstdError>(
                string_views(keys@),
            ),
        decreases listed@.len() - i,
    {
        let ghost before = string_views(keys@);
        proof {
            assert(views.take(i + 1).drop_last() =~= views.take(i as int));
            assert(views.take(i + 1).last() == views[i as int]);
            lemma_files_error(views, i + 1);
        }
        let mut strings = read_zstd_file(listed[i].compressed_frames.as_slice())?;
        let ghost more = string_views(strings@);
        keys.append(&mut strings);
        assert(string_views(keys@) =~= before + more);
        i = i + 1;
    }
    assert(views.take(i as int) =~= views);
    if keys.len() > config.num_terms {
        return Err(ZstdError::TooManyTerms);
    }
    match number_keys(&keys) {
        Err(_) => Err(ZstdError::StaticFunction),
        Ok(mphf) => Ok(mphf),
    }
}

/// The files of a store can be indexed, unless they are too large, and hold its strings, one file
/// after the other.
pub proof fn lemma_zstd_store(
    config: TermStoreConfiguration,
    files: Seq<Seq<u8>>,
    strings: Seq<Seq<u8>>,
)
    requires
        config.well_formed(),
        zstd_stores(config, files, strings),
        strings_increasing(strings),
        forall|i: int| 0 <= i < strings.len() ==> (#[trigger] strings[i]).len() <= u32::MAX,
    ensures
        zstd_files_strings(files) == Ok::<Seq<Seq<u8>>, ZstdError>(strings),
        forall|i: int|
            0 <= i < files.len() ==> (#[trigger] file_index(config, files, i)) is Ok || file_index(
                config,
                files,
                i,
            )->Err_0 == ZstdError::IndexTooLarge,
{
    let t = config.terms_per_file();
    assert(t > 0) by (nonlinear_arith)
        requires
            t == config.terms_per_frame * config.frames_per_file,
            config.terms_per_frame > 0,
            config.frames_per_file > 0,
    ;
    lemma_ceil_div(strings.len(), t);
    lemma_files_prefix(config, files, strings, files.len() as int);
    assert(files.take(files.len() as int) =~= files);
    if files.len() > 0 {
        lemma_file_num_terms(config, files.len() - 1);
        assert(strings.take(strings.len() as int) =~= strings);
    } else {
        assert(strings =~= Seq::empty());
    }
    assert forall|i: int| 0 <= i < files.len() implies (#[trigger] file_index(config, files, i)) is Ok
        || file_index(config, files, i)->Err_0 == ZstdError::IndexTooLarge by {
        lemma_file_num_terms(config, i);
        lemma_zstd_index(
            files[i],
            config.terms_per_frame as nat,
            file_strings(strings, t, i),
        );
    }
}

proof fn lemma_files_prefix(
    config: TermStoreConfiguration,
    files: Seq<Seq<u8>>,
    strings: Seq<Seq<u8>>,
    n: int,
)
    requires
        config.well_formed(),
        zstd_stores(config, files, strings),
        strings_increasing(strings),
        forall|i: int| 0 <= i < strings.len() ==> (#[trigger] strings[i]).len() <= u32::MAX,
        0 <= n <= files.len(),
    ensures
        zstd_files_strings(files.take(n)) == Ok::<Seq<Seq<u8>>, ZstdError>(
            strings.take(
                if n == 0 {
                    0
                } else {
                    crate::terms_store::file_end(strings.len(), config.terms_per_file(), n - 1)
                },
            ),
        ),
    decreases n,
{
    let t = config.terms_per_file();
    if n == 0 {
        assert(files.take(0) =~= Seq::empty());
        assert(strings.take(0) =~= Seq::empty());
    } else {
        lemma_files_prefix(config, files, strings, n - 1);
        lemma_file_num_terms(config, n - 1);
        let here = file_strings(strings, t, n - 1);
        let start = (n - 1) * t;
        assert forall|i: int, j: int| 0 <= i < j < here.len() implies crate::strings::bytes_lt(
            here[i],
            here[j],
        ) by {
            assert(here[i] == strings[start + i]);
            assert(here[j] == strings[start + j]);
        }
        assert forall|i: int| 0 <= i < here.len() implies (#[trigger] here[i]).len()
            <= u32::MAX by {
            assert(here[i] == strings[start + i]);
        }
        lemma_zstd_round_trip(files[n - 1], config.terms_per_frame as nat, here);
        assert(files.take(n).drop_last() =~= files.take(n - 1));
        if n > 1 {
            lemma_file_num_terms(config, n - 2);
        } else {
            assert(0 * t == 0);
        }
        let end = crate::terms_store::file_end(strings.len(), t, n - 1);
        assert(strings.take(start) + here =~= strings.take(end));
    }
}

proof fn lemma_texts_of_quads(quads: Seq<QuadView>, text: Seq<u8>)
    ensures
        quads_texts(quads).contains(text) <==> exists|i: int|
            0 <= i < quads.len() && quad_texts(#[trigger] quads[i]).contains(text),
    decreases quads.len(),
{
    if quads.len() > 0 {
        let before = quads.drop_last();
        let (a, b) = (quads_texts(before), quad_texts(quads.last()));
        lemma_texts_of_quads(before, text);
        lemma_concat_set(a, b);
        assert((a + b).to_set().contains(text) <==> a.to_set().contains(text) || b.to_set().contains(
            text,
        ));
        if a.contains(text) {
            let i = choose|i: int|
                0 <= i < before.len() && quad_texts(#[trigger] before[i]).contains(text);
            assert(quads[i] == before[i]);
        }
        if b.contains(text) {
            assert(quads[quads.len() - 1] == quads.last());
        }
        if exists|i: int| 0 <= i < quads.len() && quad_texts(#[trigger] quads[i]).contains(text) {
            let i = choose|i: int|
                0 <= i < quads.len() && quad_texts(#[trigger] quads[i]).contains(text);
            if i < before.len() {
                assert(before[i] == quads[i]);
            }
        }
    }
}

/// The texts of the terms of quads are, of each quad, the IRI or the label of its subject, the IRI
/// of its predicate, that of its object if it is a named node, its label if it is a blank one or
/// the literal in quotes with its language tag or datatype, and the IRI or the label of its graph,
/// or the empty text if that is the default one. Each of them is there, and nothing else is.
pub proof fn lemma_texts(quads: Seq<QuadView>, text: Seq<u8>)
    ensures
        quads_texts(quads).contains(text) <==> exists|i: int|
            0 <= i < quads.len() && {
                let quad = #[trigger] quads[i];
                ||| quad.subject matches TermView::NamedNode(iri) && text == encode_utf8(iri)
                ||| quad.subject matches TermView::BlankNode(id) && text == encode_utf8(id)
                ||| quad.subject is Literal && text == encode_utf8(term_text(quad.subject))
                ||| text == encode_utf8(quad.predicate)
                ||| quad.object matches TermView::NamedNode(iri) && text == encode_utf8(iri)
                ||| quad.object matches TermView::BlankNode(id) && text == encode_utf8(id)
                ||| quad.object matches TermView::Literal(value, Some(language), _) && text
                    == encode_utf8(seq!['"'] + all_escaped(value) + seq!['"', '@'] + language)
                ||| quad.object matches TermView::Literal(value, None, datatype) && datatype
                    == "http://www.w3.org/2001/XMLSchema#string"@ && text == encode_utf8(
                    seq!['"'] + all_escaped(value) + seq!['"'],
                )
                ||| quad.object matches TermView::Literal(value, None, datatype) && datatype
                    != "http://www.w3.org/2001/XMLSchema#string"@ && text == encode_utf8(
                    seq!['"'] + all_escaped(value) + seq!['"', '^', '^', '<'] + datatype + seq![
                        '>',
                    ],
                )
                ||| quad.graph_name matches GraphNameView::NamedNode(iri) && text == encode_utf8(
                    iri,
                )
                ||| quad.graph_name matches GraphNameView::BlankNode(id) && text == encode_utf8(id)
                ||| quad.graph_name is DefaultGraph && text.len() == 0
            },
{
    lemma_texts_of_quads(quads, text);
    assert forall|i: int| 0 <= i < quads.len() implies (quad_texts(#[trigger] quads[i]).contains(
        text,
    ) <==> {
        let quad = quads[i];
        ||| text == encode_utf8(term_text(quad.subject))
        ||| text == encode_utf8(quad.predicate)
        ||| text == encode_utf8(graph_name_text(quad.graph_name))
        ||| text == encode_utf8(term_text(quad.object))
    }) by {
        let texts = quad_texts(quads[i]);
        assert(texts[0] == texts[0] && texts[1] == texts[1] && texts[2] == texts[2] && texts[3]
            == texts[3]);
        if texts.contains(text) {
            let k = choose|k: int| 0 <= k < texts.len() && texts[k] == text;
        }
    }
    assert forall|i: int| 0 <= i < quads.len() implies literal_texts(
        (#[trigger] quads[i]).object,
    ) by {
        lemma_literal_texts(quads[i].object);
    }
    assert(encode_utf8(Seq::<char>::empty()).len() == 0);
    if text.len() == 0 {
        assert(text =~= encode_utf8(Seq::<char>::empty()));
    }
}

/// Whether the text of a literal is its value, in quotes, followed by its language tag or its
/// datatype, unless it has none.
spec fn literal_texts(term: TermView) -> bool {
    match term {
        TermView::Literal(value, Some(language), _) => term_text(term) == seq!['"'] + all_escaped(
            value,
        ) + seq!['"', '@'] + language,
        TermView::Literal(value, None, datatype) => if datatype
            == "http://www.w3.org/2001/XMLSchema#string"@ {
            term_text(term) == seq!['"'] + all_escaped(value) + seq!['"']
        } else {
            term_text(term) == seq!['"'] + all_escaped(value) + seq!['"', '^', '^', '<'] + datatype
                + seq!['>']
        },
        _ => true,
    }
}

proof fn lemma_literal_texts(term: TermView)
    ensures
        literal_texts(term),
{
    match term {
        TermView::Literal(value, Some(language), _) => {
            assert(term_text(term) =~= seq!['"'] + all_escaped(value) + seq!['"', '@'] + language);
        },
        TermView::Literal(value, None, datatype) => {
            if datatype == XSD_STRING@ {
                assert(term_text(term) =~= seq!['"'] + all_escaped(value) + seq!['"']);
            } else {
                assert(term_text(term) =~= seq!['"'] + all_escaped(value) + seq!['"', '^', '^', '<']
                    + datatype + seq!['>']);
            }
        },
        _ => {},
    }
}

/// A value without special characters is printed as it is.
pub proof fn lemma_plain_value(value: Seq<char>)
    requires
        forall|i: int|
            0 <= i < value.len() ==> {
                let code = (#[trigger] value[i]) as int;
                code >= 0x20 && value[i] != '"' && value[i] != '\\' && code != 0x7f && code
                    != 0xfffe && code != 0xffff
            },
    ensures
        all_escaped(value) == value,
    decreases value.len(),
{
    if value.len() > 0 {
        let before = value.drop_last();
        assert forall|i: int| 0 <= i < before.len() implies {
            let code = (#[trigger] before[i]) as int;
            code >= 0x20 && before[i] != '"' && before[i] != '\\' && code != 0x7f && code != 0xfffe
                && code != 0xffff
        } by {
            assert(before[i] == value[i]);
        }
        lemma_plain_value(before);
        assert(value[value.len() - 1] == value.last());
        assert(all_escaped(value) =~= value);
    } else {
        assert(all_escaped(value) =~= value);
    }
}

/// A store of texts that was written from quads is read back as the texts of their terms, sorted
/// and without duplicates: each text of a term of a quad is in the list, and nothing else is.
pub proof fn lemma_written_texts(
    config: TermStoreConfiguration,
    files: Seq<Seq<u8>>,
    quads: Seq<QuadView>,
) -> (strings: Seq<Seq<u8>>)
    requires
        config.well_formed(),
        all_sortable(quads_texts(quads)),
        holds_texts(config, files, quads_texts(quads).to_set()),
    ensures
        zstd_files_strings(files) == Ok::<Seq<Seq<u8>>, ZstdError>(strings),
        strings.len() == config.num_terms,
        strings_increasing(strings),
        forall|text: Seq<u8>| strings.contains(text) <==> #[trigger] quads_texts(quads).contains(text),
{
    let texts = quads_texts(quads);
    let strings = choose|strings: Seq<Seq<u8>>|
        {
            &&& strings_increasing(strings)
            &&& strings.to_set() == texts.to_set()
            &&& #[trigger] zstd_stores(config, files, strings)
        };
    assert forall|text: Seq<u8>| strings.contains(text) <==> #[trigger] texts.contains(text) by {
        assert(strings.to_set().contains(text) <==> texts.to_set().contains(text));
    }
    assert forall|i: int| 0 <= i < strings.len() implies (#[trigger] strings[i]).len()
        <= u32::MAX by {
        assert(strings.contains(strings[i]));
        assert(texts.contains(strings[i]));
        let j = choose|j: int| 0 <= j < texts.len() && texts[j] == strings[i];
        assert(sortable(texts[j], TERM_BUFFER_SIZE as nat));
    }
    lemma_zstd_store(config, files, strings);
    strings
}

/// Which texts can be stored: those of less bytes, with a machine word, than the buffer has.
pub proof fn lemma_sortable_texts(quads: Seq<QuadView>)
    ensures
        all_sortable(quads_texts(quads)) <==> forall|text: Seq<u8>| #[trigger]
            quads_texts(quads).contains(text) ==> text.len() + usize::BITS / 8 < 104_857_600,
{
    let texts = quads_texts(quads);
    if all_sortable(texts) {
        assert forall|text: Seq<u8>| #[trigger] texts.contains(text) implies text.len()
            + usize::BITS / 8 < 104_857_600 by {
            let j = choose|j: int| 0 <= j < texts.len() && texts[j] == text;
            assert(sortable(texts[j], TERM_BUFFER_SIZE as nat));
        }
    }
    if forall|text: Seq<u8>| #[trigger]
        texts.contains(text) ==> text.len() + usize::BITS / 8 < 104_857_600 {
        assert forall|i: int| 0 <= i < texts.len() implies sortable(
            #[trigger] texts[i],
            TERM_BUFFER_SIZE as nat,
        ) by {
            assert(texts.contains(texts[i]));
        }
    }
}

} // verus!
