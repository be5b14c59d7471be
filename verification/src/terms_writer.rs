//! The terms of quads, without duplicates, sorted and written to the files of a term store.

use crate::front_coding::{
    frame_code, frames_code, lemma_frames_round_trip, lender_start, lender_strings, write_frame,
    FrameError,
};
use crate::string_sorter::{string_overhead, ExternalDeduplicatingStringSorter};
use crate::strings::{string_views, strings_increasing};
use crate::terms::{
    serialize_graph_name, serialize_named_node, serialize_named_or_blank_node, serialize_term,
    serialized_graph_name, serialized_term, GraphNameView, Quad, QuadView, Term, TermError,
    TermView,
};
use crate::terms_store::{
    file_strings, lemma_ceil_div, num_files, stores, TermStoreConfiguration, TermsError,
};
use vstd::prelude::*;
use vstd::utf8::encode_utf8;

verus! {

/// The size of the buffers that terms are sorted in.
pub const TERM_BUFFER_SIZE: usize = 104_857_600;

/// Whether a string can be sorted with a buffer of a given size.
pub open spec fn sortable(string: Seq<u8>, buffer_size: nat) -> bool {
    string_overhead() + string.len() < buffer_size
}

/// The four byte strings that stand for the terms of a quad.
pub open spec fn quad_strings(quad: QuadView) -> Seq<Seq<u8>> {
    seq![
        serialized_term(quad.subject, None)->Ok_0,
        serialized_term(TermView::NamedNode(quad.predicate), None)->Ok_0,
        serialized_term(quad.object, None)->Ok_0,
        serialized_graph_name(quad.graph_name),
    ]
}

/// Why the terms of a quad cannot be stored, if so.
pub open spec fn quad_error(quad: QuadView) -> Option<TermsError> {
    let strings = quad_strings(quad);
    if !sortable(strings[0], TERM_BUFFER_SIZE as nat) || !sortable(
        strings[1],
        TERM_BUFFER_SIZE as nat,
    ) {
        Some(TermsError::TermTooLong)
    } else {
        match serialized_term(quad.object, None) {
            Err(e) => Some(TermsError::Term(e)),
            Ok(_) => if !sortable(strings[2], TERM_BUFFER_SIZE as nat) || !sortable(
                strings[3],
                TERM_BUFFER_SIZE as nat,
            ) {
                Some(TermsError::TermTooLong)
            } else {
                None
            },
        }
    }
}

/// Why the terms of the first quad of which they cannot be stored are not, if there is one.
pub open spec fn quads_error(quads: Seq<QuadView>) -> Option<TermsError>
    decreases quads.len(),
{
    if quads.len() == 0 {
        None
    } else {
        match quads_error(quads.drop_last()) {
            Some(e) => Some(e),
            None => quad_error(quads.last()),
        }
    }
}

/// The byte strings that stand for the terms of quads.
pub open spec fn quads_strings(quads: Seq<QuadView>) -> Set<Seq<u8>> {
    Set::new(
        |s: Seq<u8>| exists|i: int| 0 <= i < quads.len() && quad_strings(#[trigger] quads[i]).contains(s),
    )
}

/// What quads are.
pub open spec fn quad_views(quads: Seq<Quad>) -> Seq<QuadView> {
    quads.map_values(|quad: Quad| quad@)
}

/// The quads of several lists, one list after the other.
pub open spec fn chunk_views(chunks: Seq<Vec<Quad>>) -> Seq<QuadView>
    decreases chunks.len(),
{
    if chunks.len() == 0 {
        Seq::empty()
    } else {
        chunk_views(chunks.drop_last()) + quad_views(chunks.last()@)
    }
}

proof fn lemma_quads_error_prefix(quads: Seq<QuadView>, more: Seq<QuadView>)
    ensures
        quads_error(quads) is Some ==> quads_error(quads + more) == quads_error(quads),
    decreases more.len(),
{
    if more.len() == 0 {
        assert(quads + more =~= quads);
    } else {
        lemma_quads_error_prefix(quads, more.drop_last());
        assert((quads + more).drop_last() =~= quads + more.drop_last());
    }
}

/// Whether a sorter holds a set of strings, all of which fit in its buffer.
pub(crate) open spec fn sorts(
    sorter: ExternalDeduplicatingStringSorter,
    strings: Set<Seq<u8>>,
    buffer_size: nat,
) -> bool {
    &&& sorter.well_formed()
    &&& sorter.max_buffer_size() >= buffer_size
    &&& sorter.max_buffer_size() <= u32::MAX
    &&& sorter.strings() == strings
    &&& forall|s: Seq<u8>| #[trigger] strings.contains(s) ==> sortable(s, buffer_size)
}

/// Adds a string to a sorter, if it fits in its buffer.
pub(crate) fn push_string(
    sorter: &mut ExternalDeduplicatingStringSorter,
    string: Vec<u8>,
) -> (res: Result<(), TermsError>)
    requires
        sorts(*old(sorter), old(sorter).strings(), old(sorter).max_buffer_size()),
    ensures
        final(sorter).max_buffer_size() == old(sorter).max_buffer_size(),
        if sortable(string@, old(sorter).max_buffer_size()) {
            res is Ok && sorts(
                *final(sorter),
                old(sorter).strings().insert(string@),
                old(sorter).max_buffer_size(),
            )
        } else {
            res is Err && res->Err_0 == TermsError::TermTooLong
        },
{
    let ghost before = *sorter;
    let ghost bytes = string@;
    let res = sorter.push_boxed_bytes(string);
    proof {
        assert forall|s: Seq<u8>| #[trigger] before.buffered().contains(s) implies s.len()
            <= u32::MAX by {
            assert(before.strings().contains(s));
        }
    }
    match res {
        Ok(()) => {
            assert forall|s: Seq<u8>| #[trigger]
                before.strings().insert(bytes).contains(s) implies sortable(
                s,
                before.max_buffer_size(),
            ) by {
                if s != bytes {
                    assert(before.strings().contains(s));
                }
            }
            Ok(())
        },
        Err(_) => Err(TermsError::TermTooLong),
    }
}

/// Puts the strings of two sorters together.
pub(crate) fn merge_sorters(
    left: ExternalDeduplicatingStringSorter,
    right: ExternalDeduplicatingStringSorter,
    Ghost(buffer_size): Ghost<nat>,
) -> (res: Result<ExternalDeduplicatingStringSorter, TermsError>)
    requires
        sorts(left, left.strings(), buffer_size),
        sorts(right, right.strings(), buffer_size),
    ensures
        res matches Ok(merged) && sorts(merged, left.strings().union(right.strings()), buffer_size)
            && merged.max_buffer_size() == left.max_buffer_size(),
{
    proof {
        assert forall|s: Seq<u8>| #[trigger]
            left.buffered().union(right.buffered()).contains(s) implies sortable(
            s,
            buffer_size,
        ) by {
            assert(left.strings().contains(s) || right.strings().contains(s));
        }
        assert forall|s: Seq<u8>| #[trigger]
            left.strings().union(right.strings()).contains(s) implies sortable(s, buffer_size) by {
            assert(left.strings().contains(s) || right.strings().contains(s));
        }
    }
    match left.merge(right) {
        Err(_) => Err(TermsError::TermTooLong),
        Ok(merged) => Ok(merged),
    }
}

/// Adds the terms of a quad.
fn push_quad(sorter: &mut ExternalDeduplicatingStringSorter, quad: &Quad) -> (res: Result<
    (),
    TermsError,
>)
    requires
        old(sorter).max_buffer_size() == TERM_BUFFER_SIZE,
        sorts(*old(sorter), old(sorter).strings(), TERM_BUFFER_SIZE as nat),
    ensures
        match quad_error(quad@) {
            Some(e) => res is Err && res->Err_0 == e,
            None => res is Ok && final(sorter).max_buffer_size() == TERM_BUFFER_SIZE && sorts(
                *final(sorter),
                old(sorter).strings().union(quad_strings(quad@).to_set()),
                TERM_BUFFER_SIZE as nat,
            ),
        },
{
    let ghost before = sorter.strings();
    let ghost strings = quad_strings(quad@);
    push_string(sorter, serialize_named_or_blank_node(&quad.subject))?;
    push_string(sorter, serialize_named_node(quad.predicate.as_str()))?;
    let object: Vec<u8> = match serialize_term(&quad.object, None) {
        Err(e) => {
            return Err(TermsError::Term(e));
        },
        Ok(object) => object,
    };
    push_string(sorter, object)?;
    let graph_name: Vec<u8> = match serialize_graph_name(&quad.graph_name) {
        Err(e) => {
            return Err(TermsError::Term(e));
        },
        Ok(graph_name) => graph_name,
    };
    push_string(sorter, graph_name)?;
    proof {
        assert(strings[0] == serialized_term(quad.subject@, None)->Ok_0);
        assert(strings.to_set() =~= set![strings[0], strings[1], strings[2], strings[3]]) by {
            assert forall|s: Seq<u8>| #[trigger] strings.to_set().contains(s) implies s
                == strings[0] || s == strings[1] || s == strings[2] || s == strings[3] by {
                let i = choose|i: int| 0 <= i < strings.len() && strings[i] == s;
            }
            assert(strings.contains(strings[0]));
            assert(strings.contains(strings[1]));
            assert(strings.contains(strings[2]));
            assert(strings.contains(strings[3]));
        }
        assert(before.insert(strings[0]).insert(strings[1]).insert(strings[2]).insert(strings[3])
            =~= before.union(strings.to_set()));
    }
    Ok(())
}

proof fn lemma_quads_strings_push(quads: Seq<QuadView>, quad: QuadView)
    ensures
        quads_strings(quads.push(quad)) == quads_strings(quads).union(
            quad_strings(quad).to_set(),
        ),
{
    let more = quads.push(quad);
    assert forall|s: Seq<u8>| #[trigger] quads_strings(more).contains(s) <==> quads_strings(
        quads,
    ).union(quad_strings(quad).to_set()).contains(s) by {
        if quads_strings(quads).contains(s) {
            let i = choose|i: int|
                0 <= i < quads.len() && quad_strings(#[trigger] quads[i]).contains(s);
            assert(quad_strings(more[i]).contains(s));
        }
        if quad_strings(quad).to_set().contains(s) {
            assert(quad_strings(more[quads.len() as int]).contains(s));
        }
        if quads_strings(more).contains(s) {
            let i = choose|i: int|
                0 <= i < more.len() && quad_strings(#[trigger] more[i]).contains(s);
            if i < quads.len() {
                assert(quad_strings(quads[i]).contains(s));
            }
        }
    }
    assert(quads_strings(more) =~= quads_strings(quads).union(quad_strings(quad).to_set()));
}

proof fn lemma_quads_strings_concat(left: Seq<QuadView>, right: Seq<QuadView>)
    ensures
        quads_strings(left + right) == quads_strings(left).union(quads_strings(right)),
    decreases right.len(),
{
    if right.len() == 0 {
        assert(left + right =~= left);
        assert(quads_strings(right) =~= Set::empty());
        assert(quads_strings(left).union(quads_strings(right)) =~= quads_strings(left));
    } else {
        let rest = right.drop_last();
        lemma_quads_strings_concat(left, rest);
        lemma_quads_strings_push(left + rest, right.last());
        lemma_quads_strings_push(rest, right.last());
        assert((left + rest).push(right.last()) =~= left + right);
        assert(rest.push(right.last()) =~= right);
        assert(quads_strings(left + right) =~= quads_strings(left).union(quads_strings(right)));
    }
}

/// Adds the terms of quads to a sorter.
fn deduplicate_chunk(quads: &Vec<Quad>) -> (res: Result<
    ExternalDeduplicatingStringSorter,
    TermsError,
>)
    ensures
        match quads_error(quad_views(quads@)) {
            Some(e) => res is Err && res->Err_0 == e,
            None => res matches Ok(sorter) && sorts(
                sorter,
                quads_strings(quad_views(quads@)),
                TERM_BUFFER_SIZE as nat,
            ),
        },
{
    let mut sorter = ExternalDeduplicatingStringSorter::new(TERM_BUFFER_SIZE, 16);
    let ghost all = quad_views(quads@);
    let mut i: usize = 0;
    proof {
        assert(quads_strings(all.take(0)) =~= Set::empty());
    }
    while i < quads.len()
        invariant
            all == quad_views(quads@),
            i <= quads@.len(),
            sorter.max_buffer_size() == TERM_BUFFER_SIZE,
            sorts(sorter, quads_strings(all.take(i as int)), TERM_BUFFER_SIZE as nat),
            quads_error(all.take(i as int)) is None,
        decreases quads@.len() - i,
    {
        proof {
            let next = all.take(i + 1);
            assert(next.drop_last() =~= all.take(i as int));
            assert(next.last() == quads@[i as int]@);
            lemma_quads_strings_push(all.take(i as int), quads@[i as int]@);
            assert(all.take(i as int).push(quads@[i as int]@) =~= next);
            lemma_quads_error_prefix(next, all.skip(i + 1));
            assert(next + all.skip(i + 1) =~= all);
        }
        push_quad(&mut sorter, &quads[i])?;
        i = i + 1;
    }
    assert(all.take(i as int) =~= all);
    Ok(sorter)
}

/// The terms of quads, as byte strings. Each list of quads is handled by itself, and the results
/// are merged.
pub fn deduplicate_terms(chunks: &Vec<Vec<Quad>>) -> (res: Result<
    ExternalDeduplicatingStringSorter,
    TermsError,
>)
    ensures
        match quads_error(chunk_views(chunks@)) {
            Some(e) => res is Err && res->Err_0 == e,
            None => res matches Ok(sorter) && sorter.well_formed() && sorter.strings()
                == quads_strings(chunk_views(chunks@)) && forall|s: Seq<u8>| #[trigger]
                sorter.strings().contains(s) ==> sortable(s, TERM_BUFFER_SIZE as nat),
        },
{
    let mut sorter = ExternalDeduplicatingStringSorter::new(TERM_BUFFER_SIZE, 10);
    let mut i: usize = 0;
    proof {
        assert(chunks@.take(0) =~= Seq::empty());
        assert(quads_strings(chunk_views(chunks@.take(0))) =~= Set::empty());
    }
    while i < chunks.len()
        invariant
            i <= chunks@.len(),
            sorts(
                sorter,
                quads_strings(chunk_views(chunks@.take(i as int))),
                TERM_BUFFER_SIZE as nat,
            ),
            quads_error(chunk_views(chunks@.take(i as int))) is None,
        decreases chunks@.len() - i,
    {
        let ghost before = chunk_views(chunks@.take(i as int));
        let ghost here = quad_views(chunks@[i as int]@);
        proof {
            let next = chunks@.take(i + 1);
            assert(next.drop_last() =~= chunks@.take(i as int));
            assert(chunk_views(next) == before + here);
            lemma_quads_error_concat(before, here);
            lemma_chunk_error(chunks@, i + 1);
            lemma_quads_strings_concat(before, here);
        }
        let part = deduplicate_chunk(&chunks[i])?;
        sorter = merge_sorters(sorter, part, Ghost(TERM_BUFFER_SIZE as nat))?;
        i = i + 1;
    }
    assert(chunks@.take(i as int) =~= chunks@);
    Ok(sorter)
}

proof fn lemma_quads_error_concat(left: Seq<QuadView>, right: Seq<QuadView>)
    requires
        quads_error(left) is None,
    ensures
        quads_error(left + right) == quads_error(right),
    decreases right.len(),
{
    if right.len() == 0 {
        assert(left + right =~= left);
    } else {
        lemma_quads_error_concat(left, right.drop_last());
        assert((left + right).drop_last() =~= left + right.drop_last());
    }
}

proof fn lemma_chunk_error(chunks: Seq<Vec<Quad>>, n: int)
    requires
        0 <= n <= chunks.len(),
    ensures
        quads_error(chunk_views(chunks.take(n))) is Some ==> quads_error(chunk_views(chunks))
            == quads_error(chunk_views(chunks.take(n))),
    decreases chunks.len() - n,
{
    if n == chunks.len() {
        assert(chunks.take(n) =~= chunks);
    } else {
        lemma_chunk_error(chunks, n + 1);
        let next = chunks.take(n + 1);
        assert(next.drop_last() =~= chunks.take(n));
        lemma_quads_error_prefix(chunk_views(chunks.take(n)), quad_views(next.last()@));
    }
}

/// Writes consecutive strings in frames of `max` ones.
pub(crate) fn write_frames(strings: &Vec<Vec<u8>>, start: usize, end: usize, max: usize) -> (res:
    Result<Vec<u8>, FrameError>)
    requires
        start <= end <= strings@.len(),
        max > 0,
    ensures
        match frames_code(
            max as nat,
            string_views(strings@).subrange(start as int, end as int),
        ) {
            Err(e) => res is Err && res->Err_0 == e,
            Ok(code) => res matches Ok(bytes) && bytes@ == code,
        },
{
    let ghost views = string_views(strings@);
    let ghost whole = frames_code(max as nat, views.subrange(start as int, end as int));
    let mut out: Vec<u8> = Vec::new();
    let mut pos: usize = start;
    proof {
        match whole {
            Ok(code) => {
                assert(out@ + code =~= code);
            },
            Err(e) => {},
        }
    }
    while pos < end
        invariant
            start <= pos <= end <= strings@.len(),
            max > 0,
            views == string_views(strings@),
            whole == frames_code(max as nat, views.subrange(start as int, end as int)),
            whole == (match frames_code(max as nat, views.subrange(pos as int, end as int)) {
                Err(e) => Err::<Seq<u8>, FrameError>(e),
                Ok(rest) => Ok(out@ + rest),
            }),
        decreases end - pos,
    {
        let stop: usize = if end - pos < max {
            end
        } else {
            pos + max
        };
        let ghost rest = views.subrange(pos as int, end as int);
        let ghost before = out@;
        let frame = vstd::slice::slice_subrange(strings.as_slice(), pos, stop);
        proof {
            assert(string_views(frame@) =~= rest.take(stop - pos));
            assert(rest.skip(stop - pos) =~= views.subrange(stop as int, end as int));
        }
        write_frame(&mut out, frame)?;
        proof {
            let code = frame_code(Seq::empty(), rest.take(stop - pos))->Ok_0;
            match frames_code(max as nat, rest.skip(stop - pos)) {
                Ok(more) => {
                    assert(before + (code + more) =~= before + code + more);
                },
                Err(e) => {},
            }
        }
        pos = stop;
    }
    assert(views.subrange(pos as int, end as int) =~= Seq::empty());
    assert(out@ + Seq::<u8>::empty() =~= out@);
    Ok(out)
}

/// Writes strings to the files of a store.
#[verifier::rlimit(50)]
pub fn write_files(config: &TermStoreConfiguration, strings: &Vec<Vec<u8>>) -> (res: Result<
    Vec<Vec<u8>>,
    FrameError,
>)
    requires
        config.well_formed(),
        config.num_terms == strings@.len(),
    ensures
        match res {
            Ok(files) => files@.len() == num_files(*config) && forall|i: int|
                0 <= i < files@.len() ==> frames_code(
                    config.terms_per_frame as nat,
                    file_strings(string_views(strings@), config.terms_per_file(), i),
                ) == Ok::<Seq<u8>, FrameError>((#[trigger] files@[i])@),
            Err(e) => exists|i: int|
                0 <= i < num_files(*config) && #[trigger] frames_code(
                    config.terms_per_frame as nat,
                    file_strings(string_views(strings@), config.terms_per_file(), i),
                ) == Err::<Seq<u8>, FrameError>(e) && forall|j: int|
                    0 <= j < i ==> #[trigger] frames_code(
                        config.terms_per_frame as nat,
                        file_strings(string_views(strings@), config.terms_per_file(), j),
                    ) is Ok,
        },
{
    let ghost views = string_views(strings@);
    let terms_per_file: usize = config.terms_per_frame * config.frames_per_file;
    assert(terms_per_file > 0) by (nonlinear_arith)
        requires
            terms_per_file == config.terms_per_frame * config.frames_per_file,
            config.terms_per_frame > 0,
            config.frames_per_file > 0,
    ;
    let mut files: Vec<Vec<u8>> = Vec::new();
    let mut pos: usize = 0;
    proof {
        lemma_ceil_div(strings@.len(), terms_per_file as nat);
        assert(0 * terms_per_file == 0);
    }
    while pos < strings.len()
        invariant
            config.well_formed(),
            views == string_views(strings@),
            terms_per_file == config.terms_per_file(),
            terms_per_file > 0,
            config.num_terms == strings@.len(),
            num_files(*config) * terms_per_file >= strings@.len(),
            num_files(*config) > 0 ==> (num_files(*config) - 1) * terms_per_file < strings@.len(),
            pos <= strings@.len(),
            files@.len() <= num_files(*config),
            pos == (if files@.len() * terms_per_file < strings@.len() {
                files@.len() * terms_per_file
            } else {
                strings@.len() as int
            }),
            files@.len() == 0 || (files@.len() - 1) * terms_per_file < strings@.len(),
            forall|i: int|
                0 <= i < files@.len() ==> frames_code(
                    config.terms_per_frame as nat,
                    file_strings(views, config.terms_per_file(), i),
                ) == Ok::<Seq<u8>, FrameError>((#[trigger] files@[i])@),
        decreases strings@.len() - pos,
    {
        let stop: usize = if strings.len() - pos < terms_per_file {
            strings.len()
        } else {
            pos + terms_per_file
        };
        let ghost i = files@.len() as int;
        proof {
            assert((i + 1) * terms_per_file == i * terms_per_file + terms_per_file)
                by (nonlinear_arith);
            assert(file_strings(views, terms_per_file as nat, i) =~= views.subrange(
                pos as int,
                stop as int,
            ));
            let c = num_files(*config);
            assert(i < c) by (nonlinear_arith)
                requires
                    i * terms_per_file < strings@.len() <= c * terms_per_file,
                    terms_per_file > 0,
            ;
        }
        let file: Vec<u8> = match write_frames(strings, pos, stop, config.terms_per_frame) {
            Err(e) => {
                assert forall|j: int| 0 <= j < i implies #[trigger] frames_code(
                    config.terms_per_frame as nat,
                    file_strings(views, config.terms_per_file(), j),
                ) is Ok by {
                    assert(frames_code(
                        config.terms_per_frame as nat,
                        file_strings(views, config.terms_per_file(), j),
                    ) == Ok::<Seq<u8>, FrameError>(files@[j]@));
                }
                return Err(e);
            },
            Ok(file) => file,
        };
        files.push(file);
        pos = stop;
    }
    proof {
        let c = num_files(*config) as int;
        let k = files@.len() as int;
        assert(k * terms_per_file >= strings@.len());
        assert(k >= c) by (nonlinear_arith)
            requires
                k * terms_per_file >= strings@.len(),
                c > 0 ==> (c - 1) * terms_per_file < strings@.len(),
                terms_per_file > 0,
                k >= 0,
        ;
    }
    Ok(files)
}

/// Files that were written hold the strings that were written to them.
pub proof fn lemma_written_files_store(
    config: TermStoreConfiguration,
    files: Seq<Seq<u8>>,
    strings: Seq<Seq<u8>>,
)
    requires
        config.well_formed(),
        config.num_terms == strings.len(),
        files.len() == num_files(config),
        forall|i: int|
            0 <= i < files.len() ==> frames_code(
                config.terms_per_frame as nat,
                file_strings(strings, config.terms_per_file(), i),
            ) == Ok::<Seq<u8>, FrameError>(#[trigger] files[i]),
    ensures
        stores(config, files, strings),
{
    assert forall|i: int| 0 <= i < files.len() implies lender_strings(
        #[trigger] files[i],
        config.terms_per_frame as nat,
        lender_start(config.terms_per_frame as nat),
    ) == (file_strings(strings, config.terms_per_file(), i), None::<FrameError>) by {
        let held = file_strings(strings, config.terms_per_file(), i);
        assert(frames_code(config.terms_per_frame as nat, held) == Ok::<Seq<u8>, FrameError>(
            files[i],
        ));
        lemma_frames_round_trip(config.terms_per_frame as nat, held);
    }
}

proof fn lemma_short_strings_frame(prev: Seq<u8>, strings: Seq<Seq<u8>>)
    requires
        prev.len() <= u32::MAX,
        forall|i: int| 0 <= i < strings.len() ==> (#[trigger] strings[i]).len() <= u32::MAX,
    ensures
        frame_code(prev, strings) is Ok,
    decreases strings.len(),
{
    if strings.len() > 0 {
        assert forall|i: int| 0 <= i < strings.drop_first().len() implies (
        #[trigger] strings.drop_first()[i]).len() <= u32::MAX by {
            assert(strings.drop_first()[i] == strings[i + 1]);
        }
        lemma_short_strings_frame(strings[0], strings.drop_first());
    }
}

/// Strings of less than 2^32 bytes can be written in frames.
pub proof fn lemma_short_strings_frames(max: nat, strings: Seq<Seq<u8>>)
    requires
        forall|i: int| 0 <= i < strings.len() ==> (#[trigger] strings[i]).len() <= u32::MAX,
    ensures
        frames_code(max, strings) is Ok,
    decreases strings.len(),
{
    if strings.len() > 0 && max > 0 {
        let n = if strings.len() < max {
            strings.len() as int
        } else {
            max as int
        };
        assert forall|i: int| 0 <= i < strings.skip(n).len() implies (
        #[trigger] strings.skip(n)[i]).len() <= u32::MAX by {
            assert(strings.skip(n)[i] == strings[n + i]);
        }
        lemma_short_strings_frame(Seq::empty(), strings.take(n));
        lemma_short_strings_frames(max, strings.skip(n));
    }
}

/// The layout of new stores, of which the number of terms is not known yet.
pub fn default_configuration() -> (config: TermStoreConfiguration)
    ensures
        config.well_formed(),
        config.terms_per_frame == 16,
        config.frames_per_file == 1_048_576,
        config.num_terms == 0,
        config.dictionary_filename is None,
{
    TermStoreConfiguration {
        terms_per_frame: 16,
        frames_per_file: 1_048_576,
        num_terms: 0,
        dictionary_filename: None,
    }
}

/// Whether files are made of the codes of the strings of a store, and of nothing else.
pub open spec fn are_written(
    config: TermStoreConfiguration,
    files: Seq<Seq<u8>>,
    strings: Seq<Seq<u8>>,
) -> bool {
    forall|i: int|
        0 <= i < files.len() ==> frames_code(
            config.terms_per_frame as nat,
            file_strings(strings, config.terms_per_file(), i),
        ) == Ok::<Seq<u8>, FrameError>(#[trigger] files[i])
}

/// Whether files hold a set of strings, in increasing order.
pub open spec fn holds_strings(
    config: TermStoreConfiguration,
    files: Seq<Seq<u8>>,
    set: Set<Seq<u8>>,
) -> bool {
    exists|strings: Seq<Seq<u8>>|
        {
            &&& strings_increasing(strings)
            &&& strings.to_set() == set
            &&& #[trigger] stores(config, files, strings)
            &&& are_written(config, files, strings)
        }
}

/// Writes the terms of quads, sorted and without duplicates, to the files of a new store.
pub fn write_unique_terms(chunks: &Vec<Vec<Quad>>) -> (res: Result<
    (TermStoreConfiguration, Vec<Vec<u8>>),
    TermsError,
>)
    ensures
        match quads_error(chunk_views(chunks@)) {
            Some(e) => res is Err && res->Err_0 == e,
            None => res matches Ok((config, files)) && {
                &&& config.well_formed()
                &&& config.terms_per_frame == 16
                &&& config.frames_per_file == 1_048_576
                &&& config.dictionary_filename is None
                &&& holds_strings(config, string_views(files@), quads_strings(chunk_views(chunks@)))
            },
        },
{
    let mut sorter = deduplicate_terms(chunks)?;
    let strings: Vec<Vec<u8>> = sorter.drain_boxed_bytes();
    let ghost views = string_views(strings@);
    let mut config = default_configuration();
    config.num_terms = strings.len();
    proof {
        assert forall|i: int| 0 <= i < num_files(config) implies #[trigger] frames_code(
            config.terms_per_frame as nat,
            file_strings(views, config.terms_per_file(), i),
        ) is Ok by {
            crate::terms_store::lemma_file_num_terms(config, i);
            let held = file_strings(views, config.terms_per_file(), i);
            assert forall|j: int| 0 <= j < held.len() implies (#[trigger] held[j]).len()
                <= u32::MAX by {
                assert(held[j] == views[i * config.terms_per_file() + j]);
                assert(views.to_set().contains(held[j]));
                assert(sortable(held[j], TERM_BUFFER_SIZE as nat));
            }
            lemma_short_strings_frames(config.terms_per_frame as nat, held);
        }
    }
    match write_files(&config, &strings) {
        Err(e) => {
            Err(TermsError::Frame(e))
        },
        Ok(files) => {
            proof {
                assert forall|i: int| 0 <= i < string_views(files@).len() implies frames_code(
                    config.terms_per_frame as nat,
                    file_strings(views, config.terms_per_file(), i),
                ) == Ok::<Seq<u8>, FrameError>(#[trigger] string_views(files@)[i]) by {
                    assert(string_views(files@)[i] == files@[i]@);
                }
                lemma_written_files_store(config, string_views(files@), views);
                assert(views.to_set() == quads_strings(chunk_views(chunks@)));
            }
            Ok((config, files))
        },
    }
}

/// The number of bytes that a term takes: one for its kind, those of its texts, and those of the
/// length of one of them if there are two.
pub open spec fn stored_len(term: TermView) -> nat {
    match term {
        TermView::NamedNode(iri) => 1 + encode_utf8(iri).len(),
        TermView::BlankNode(id) => 1 + encode_utf8(id).len(),
        TermView::Literal(value, None, datatype) => if datatype
            == "http://www.w3.org/2001/XMLSchema#string"@ {
            1 + encode_utf8(value).len()
        } else {
            1 + encode_utf8(value).len() + encode_utf8(datatype).len() + usize::BITS as nat / 8
        },
        TermView::Literal(value, Some(language), _) => 1 + encode_utf8(language).len()
            + encode_utf8(value).len() + 2,
    }
}

/// Whether a term is short enough to be sorted.
pub open spec fn is_short(term: TermView) -> bool {
    stored_len(term) + usize::BITS as nat / 8 < 104_857_600
}

proof fn lemma_stored_len(term: TermView)
    ensures
        serialized_term(term, None) matches Ok(bytes) ==> bytes.len() == stored_len(term),
{
    if serialized_term(term, None) is Ok {
        match term {
            TermView::NamedNode(iri) => {},
            TermView::BlankNode(id) => {},
            TermView::Literal(value, None, datatype) => {
                crate::bytes::lemma_le_bytes_len(
                    encode_utf8(datatype).len(),
                    usize::BITS as nat / 8,
                );
            },
            TermView::Literal(value, Some(language), datatype) => {
                crate::bytes::lemma_le_bytes_len(encode_utf8(language).len(), 2);
            },
        }
    }
}

/// Whether the terms of a quad can be stored: they are short, and if the object has a language tag,
/// it has the datatype of such literals, and the tag has less than 2^16 bytes.
pub open spec fn is_storable_quad(quad: QuadView) -> bool {
    &&& is_short(quad.subject)
    &&& is_short(TermView::NamedNode(quad.predicate))
    &&& is_short(quad.object)
    &&& match quad.graph_name {
        GraphNameView::DefaultGraph => true,
        GraphNameView::NamedNode(iri) => is_short(TermView::NamedNode(iri)),
        GraphNameView::BlankNode(id) => is_short(TermView::BlankNode(id)),
    }
    &&& quad.object matches TermView::Literal(_, Some(language), datatype) ==> datatype
        == "http://www.w3.org/1999/02/22-rdf-syntax-ns#langString"@ && encode_utf8(language).len()
        < 65536
}

/// Which quads can be stored: those whose terms all can.
pub proof fn lemma_storable_quads(quads: Seq<QuadView>)
    requires
        forall|i: int| 0 <= i < quads.len() ==> (#[trigger] quads[i]).subject !is Literal,
    ensures
        quads_error(quads) is None <==> forall|i: int|
            0 <= i < quads.len() ==> is_storable_quad(#[trigger] quads[i]),
    decreases quads.len(),
{
    if quads.len() > 0 {
        let before = quads.drop_last();
        assert forall|i: int| 0 <= i < before.len() implies (
        #[trigger] before[i]).subject !is Literal by {
            assert(before[i] == quads[i]);
        }
        lemma_storable_quads(before);
        let n = quads.len() - 1;
        let last = quads[n];
        assert(last.subject !is Literal);
        lemma_stored_len(last.subject);
        lemma_stored_len(TermView::NamedNode(last.predicate));
        lemma_stored_len(last.object);
        match last.graph_name {
            GraphNameView::DefaultGraph => {},
            GraphNameView::NamedNode(iri) => {
                lemma_stored_len(TermView::NamedNode(iri));
            },
            GraphNameView::BlankNode(id) => {
                lemma_stored_len(TermView::BlankNode(id));
            },
        }
        assert(quad_error(last) is None <==> is_storable_quad(last));
        if quads_error(quads) is None {
            assert forall|i: int| 0 <= i < quads.len() implies is_storable_quad(
                #[trigger] quads[i],
            ) by {
                if i < n {
                    assert(before[i] == quads[i]);
                }
            }
        }
        if forall|i: int| 0 <= i < quads.len() ==> is_storable_quad(#[trigger] quads[i]) {
            assert forall|i: int| 0 <= i < before.len() implies is_storable_quad(
                #[trigger] before[i],
            ) by {
                assert(before[i] == quads[i]);
            }
            assert(is_storable_quad(quads[n]));
        }
    }
}

proof fn lemma_quads_error_first(quads: Seq<QuadView>) -> (i: int)
    requires
        quads_error(quads) is Some,
    ensures
        0 <= i < quads.len(),
        quad_error(quads[i]) == quads_error(quads),
        quads_error(quads.take(i)) is None,
    decreases quads.len(),
{
    if quads_error(quads.drop_last()) is Some {
        let i = lemma_quads_error_first(quads.drop_last());
        assert(quads.drop_last()[i] == quads[i]);
        assert(quads.drop_last().take(i) =~= quads.take(i));
        i
    } else {
        assert(quads.take(quads.len() - 1) =~= quads.drop_last());
        quads.len() - 1
    }
}

/// Why quads cannot be stored: the first quad whose terms cannot all be stored has a term that is
/// too long, or an object with a language tag that is too long, or with another datatype than that
/// of such literals.
pub proof fn lemma_unstorable_quads(quads: Seq<QuadView>) -> (i: int)
    requires
        quads_error(quads) is Some,
        forall|i: int| 0 <= i < quads.len() ==> (#[trigger] quads[i]).subject !is Literal,
    ensures
        0 <= i < quads.len(),
        forall|j: int| 0 <= j < i ==> is_storable_quad(#[trigger] quads[j]),
        match quads_error(quads)->Some_0 {
            TermsError::TermTooLong => {
                let quad = quads[i];
                ||| !is_short(quad.subject)
                ||| !is_short(TermView::NamedNode(quad.predicate))
                ||| !is_short(quad.object)
                ||| quad.graph_name matches GraphNameView::NamedNode(iri) && !is_short(
                    TermView::NamedNode(iri),
                )
                ||| quad.graph_name matches GraphNameView::BlankNode(id) && !is_short(
                    TermView::BlankNode(id),
                )
            },
            TermsError::Term(TermError::LanguageAndDatatype) => quads[i].object
                matches TermView::Literal(_, Some(_), datatype) && datatype
                != "http://www.w3.org/1999/02/22-rdf-syntax-ns#langString"@,
            TermsError::Term(TermError::LanguageTooLong) => quads[i].object
                matches TermView::Literal(_, Some(language), _) && encode_utf8(language).len()
                >= 65536,
            _ => false,
        },
{
    let i = lemma_quads_error_first(quads);
    let before = quads.take(i);
    assert forall|j: int| 0 <= j < before.len() implies (#[trigger] before[j]).subject !is Literal by {
        assert(before[j] == quads[j]);
    }
    lemma_storable_quads(before);
    assert forall|j: int| 0 <= j < i implies is_storable_quad(#[trigger] quads[j]) by {
        assert(before[j] == quads[j]);
    }
    let quad = quads[i];
    assert(quad.subject !is Literal);
    lemma_stored_len(quad.subject);
    lemma_stored_len(TermView::NamedNode(quad.predicate));
    lemma_stored_len(quad.object);
    match quad.graph_name {
        GraphNameView::DefaultGraph => {},
        GraphNameView::NamedNode(iri) => {
            lemma_stored_len(TermView::NamedNode(iri));
        },
        GraphNameView::BlankNode(id) => {
            lemma_stored_len(TermView::BlankNode(id));
        },
    }
    i
}

proof fn lemma_quad_strings(quad: QuadView, string: Seq<u8>)
    ensures
        quad_strings(quad).contains(string) <==> string == quad_strings(quad)[0] || string
            == quad_strings(quad)[1] || string == quad_strings(quad)[2] || string == quad_strings(
            quad,
        )[3],
{
    let all = quad_strings(quad);
    assert(all[0] == all[0] && all[1] == all[1] && all[2] == all[2] && all[3] == all[3]);
    if all.contains(string) {
        let k = choose|k: int| 0 <= k < all.len() && all[k] == string;
    }
}

/// The strings that are stored for quads are those of the subject, of the predicate and of the
/// object of each quad, and of the node that names its graph, or the empty one if that is the
/// default one. Each of them is there, and nothing else is.
pub proof fn lemma_strings(quads: Seq<QuadView>, string: Seq<u8>)
    requires
        quads_error(quads) is None,
        forall|i: int| 0 <= i < quads.len() ==> (#[trigger] quads[i]).subject !is Literal,
    ensures
        quads_strings(quads).contains(string) <==> exists|i: int|
            0 <= i < quads.len() && {
                let quad = #[trigger] quads[i];
                let stored = Ok::<Seq<u8>, TermError>(string);
                ||| stored == serialized_term(quad.subject, None)
                ||| stored == serialized_term(TermView::NamedNode(quad.predicate), None)
                ||| stored == serialized_term(quad.object, None)
                ||| quad.graph_name matches GraphNameView::NamedNode(iri) && stored
                    == serialized_term(TermView::NamedNode(iri), None)
                ||| quad.graph_name matches GraphNameView::BlankNode(id) && stored
                    == serialized_term(TermView::BlankNode(id), None)
                ||| quad.graph_name is DefaultGraph && string.len() == 0
            },
{
    lemma_storable_quads(quads);
    assert forall|i: int| 0 <= i < quads.len() implies (quad_strings(#[trigger] quads[i]).contains(
        string,
    ) <==> {
        let quad = quads[i];
        let stored = Ok::<Seq<u8>, TermError>(string);
        ||| stored == serialized_term(quad.subject, None)
        ||| stored == serialized_term(TermView::NamedNode(quad.predicate), None)
        ||| stored == serialized_term(quad.object, None)
        ||| quad.graph_name matches GraphNameView::NamedNode(iri) && stored == serialized_term(
            TermView::NamedNode(iri),
            None,
        )
        ||| quad.graph_name matches GraphNameView::BlankNode(id) && stored == serialized_term(
            TermView::BlankNode(id),
            None,
        )
        ||| quad.graph_name is DefaultGraph && string.len() == 0
    }) by {
        let quad = quads[i];
        assert(quad.subject !is Literal);
        assert(is_storable_quad(quad));
        crate::terms::lemma_storable_terms(quad.object);
        lemma_quad_strings(quad, string);
        if string.len() == 0 {
            assert(string =~= Seq::empty());
        }
    }
}

/// The quads of lists are those of the first lists and then those of the others, wherever they are
/// cut; those of a single list are its own, one by one.
pub proof fn lemma_chunks(a: Seq<Vec<Quad>>, b: Seq<Vec<Quad>>, chunk: Vec<Quad>)
    ensures
        chunk_views(a + b) == chunk_views(a) + chunk_views(b),
        chunk_views(seq![chunk]).len() == chunk@.len(),
        forall|i: int|
            0 <= i < chunk@.len() ==> (#[trigger] chunk@[i])@ == chunk_views(seq![chunk])[i],
    decreases b.len(),
{
    let one = seq![chunk];
    assert(one.drop_last() =~= Seq::empty());
    assert(chunk_views(one.drop_last()) =~= Seq::empty());
    assert(one.last() == chunk);
    assert(chunk_views(one) =~= quad_views(chunk@));
    if b.len() == 0 {
        assert(a + b =~= a);
        assert(chunk_views(a) + chunk_views(b) =~= chunk_views(a));
    } else {
        lemma_chunks(a, b.drop_last(), chunk);
        assert((a + b).drop_last() =~= a + b.drop_last());
        assert((a + b).last() == b.last());
        assert(chunk_views(a + b) =~= chunk_views(a) + chunk_views(b));
    }
}

} // verus!
