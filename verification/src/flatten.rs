//! Readers of several files of frames, one after the other.

use crate::front_coding::{
    lemma_lender_step_advances, lender_start, lender_strings, FrameError, FrameLender, LenderState,
};
use vstd::prelude::*;

verus! {

/// A reader of frames: its bytes, the number of strings of its frames, and its state.
pub struct LenderView {
    /// The bytes.
    pub data: Seq<u8>,
    /// The number of strings of each frame.
    pub max: nat,
    /// The state.
    pub state: LenderState,
}

/// The strings that several readers still have to read, from one of them on, and the error that
/// ends them, if one does.
pub open spec fn flat_strings(lenders: Seq<LenderView>, from: nat) -> (
    Seq<Seq<u8>>,
    Option<FrameError>,
)
    decreases lenders.len() - from,
{
    if from >= lenders.len() {
        (Seq::empty(), None)
    } else {
        let lender = lenders[from as int];
        let (strings, error) = lender_strings(lender.data, lender.max, lender.state);
        match error {
            Some(e) => (strings, Some(e)),
            None => {
                let (more, error) = flat_strings(lenders, from + 1);
                (strings + more, error)
            },
        }
    }
}

/// Reads several files of frames, one after the other.
pub struct FallibleRewindableFlattenLender<'frame> {
    lenders: Vec<FrameLender<'frame>>,
    current_index: usize,
}

/// What a reader of frames is.
pub open spec fn lender_view(lender: FrameLender<'_>) -> LenderView {
    LenderView { data: lender.data(), max: lender.max(), state: lender.state() }
}

/// What readers of frames are.
pub open spec fn lender_views(lenders: Seq<FrameLender<'_>>) -> Seq<LenderView> {
    Seq::new(lenders.len(), |i: int| lender_view(lenders[i]))
}

proof fn lemma_flat_strings_tail(a: Seq<LenderView>, b: Seq<LenderView>, from: nat)
    requires
        a.len() == b.len(),
        forall|i: int| from <= i < a.len() ==> a[i] == b[i],
    ensures
        flat_strings(a, from) == flat_strings(b, from),
    decreases a.len() - from,
{
    if from < a.len() {
        lemma_flat_strings_tail(a, b, from + 1);
    }
}

/// Whether readers are before their first strings.
pub open spec fn at_start(lenders: Seq<LenderView>) -> bool {
    forall|i: int|
        0 <= i < lenders.len() ==> (#[trigger] lenders[i]).state == lender_start(lenders[i].max)
}

/// Whether readers are ones that were before their first strings, after some strings were read of
/// those up to the current one.
pub open spec fn partly_read(
    initial: Seq<LenderView>,
    lenders: Seq<LenderView>,
    current: nat,
) -> bool {
    &&& at_start(initial)
    &&& lenders.len() == initial.len()
    &&& forall|i: int|
        0 <= i < lenders.len() ==> (#[trigger] lenders[i]).data == initial[i].data
            && lenders[i].max == initial[i].max && (i > current ==> lenders[i] == initial[i])
}

/// Readers, those up to the current one before their first strings again.
pub open spec fn rewound(lenders: Seq<LenderView>, current: nat) -> Seq<LenderView> {
    Seq::new(
        lenders.len(),
        |i: int|
            if i <= current {
                LenderView {
                    data: lenders[i].data,
                    max: lenders[i].max,
                    state: lender_start(lenders[i].max),
                }
            } else {
                lenders[i]
            },
    )
}

/// After a reader starts over, it reads again all the strings that it had to read at first, in the
/// same order, whatever it has read since.
pub proof fn lemma_rewind(initial: Seq<LenderView>, lenders: Seq<LenderView>, current: nat)
    requires
        partly_read(initial, lenders, current),
    ensures
        rewound(lenders, current) == initial,
        flat_strings(rewound(lenders, current), 0) == flat_strings(initial, 0),
{
    let again = rewound(lenders, current);
    assert forall|i: int| 0 <= i < again.len() implies again[i] == #[trigger] initial[i] by {
        assert(lenders[i].max == initial[i].max);
    }
    assert(again =~= initial);
}

impl<'frame> FallibleRewindableFlattenLender<'frame> {
    /// The readers.
    pub closed spec fn lenders(self) -> Seq<LenderView> {
        lender_views(self.lenders@)
    }

    /// The index of the reader that is being read.
    pub closed spec fn current(self) -> nat {
        self.current_index as nat
    }

    /// The readers can be read.
    pub closed spec fn well_formed(self) -> bool {
        &&& self.current_index <= self.lenders@.len()
        &&& forall|i: int| 0 <= i < self.lenders@.len() ==> (#[trigger] self.lenders@[i]).well_formed()
    }

    /// Reads what the given readers have to read.
    pub fn new(lenders: Vec<FrameLender<'frame>>) -> (lender: Self)
        requires
            forall|i: int| 0 <= i < lenders@.len() ==> (#[trigger] lenders@[i]).well_formed(),
        ensures
            lender.well_formed(),
            lender.lenders() == lender_views(lenders@),
            lender.current() == 0,
            at_start(lender.lenders()) ==> partly_read(lender.lenders(), lender.lenders(), 0),
    {
        FallibleRewindableFlattenLender { lenders, current_index: 0 }
    }

    /// Reads the next string.
    #[verifier::rlimit(50)]
    pub fn next(&mut self) -> (res: Result<Option<Vec<u8>>, FrameError>)
        requires
            old(self).well_formed(),
        ensures
            final(self).well_formed(),
            final(self).lenders().len() == old(self).lenders().len(),
            final(self).current() >= old(self).current(),
            forall|i: int|
                0 <= i < old(self).lenders().len() && i != final(self).current()
                    ==> #[trigger] final(self).lenders()[i] == old(self).lenders()[i],
            forall|i: int|
                0 <= i < old(self).lenders().len() ==> (#[trigger] final(self).lenders()[i]).data
                    == old(self).lenders()[i].data && final(self).lenders()[i].max == old(
                    self,
                ).lenders()[i].max,
            forall|initial: Seq<LenderView>| #[trigger]
                partly_read(initial, old(self).lenders(), old(self).current()) ==> partly_read(
                    initial,
                    final(self).lenders(),
                    final(self).current(),
                ),
            match res {
                Ok(Some(string)) => {
                    let (rest, error) = flat_strings(final(self).lenders(), final(self).current());
                    flat_strings(old(self).lenders(), old(self).current()) == (
                        seq![string@] + rest,
                        error,
                    )
                },
                Ok(None) => final(self).current() == old(self).lenders().len() && flat_strings(
                    old(self).lenders(),
                    old(self).current(),
                ) == (Seq::<Seq<u8>>::empty(), None::<FrameError>),
                Err(e) => flat_strings(old(self).lenders(), old(self).current()) == (
                    Seq::<Seq<u8>>::empty(),
                    Some(e),
                ),
            },
    {
        let ghost start = *self;
        while self.current_index < self.lenders.len()
            invariant
                start == *old(self),
                self.well_formed(),
                start.well_formed(),
                self.lenders@.len() == start.lenders@.len(),
                self.lenders() == start.lenders(),
                self.current() >= start.current(),
                flat_strings(start.lenders(), start.current()) == flat_strings(
                    self.lenders(),
                    self.current(),
                ),
            decreases self.lenders@.len() - self.current_index,
        {
            let ghost before = self.lenders();
            let i: usize = self.current_index;
            let ghost lender = before[i as int];
            proof {
                lemma_lender_step_advances(lender.data, lender.max, lender.state);
            }
            let next = self.lenders[i].next();
            proof {
                assert(self.lenders().len() == before.len());
                assert forall|k: int| 0 <= k < before.len() && k != i implies self.lenders()[k]
                    == before[k] by {}
                lemma_flat_strings_tail(before, self.lenders(), (i + 1) as nat);
                let after = self.lenders();
                assert forall|initial: Seq<LenderView>| #[trigger]
                    partly_read(initial, start.lenders(), start.current()) implies partly_read(
                    initial,
                    after,
                    i as nat,
                ) by {
                    assert forall|k: int| 0 <= k < after.len() implies (#[trigger] after[k]).data
                        == initial[k].data && after[k].max == initial[k].max && (k > i
                        ==> after[k] == initial[k]) by {
                        assert(before[k] == start.lenders()[k]);
                    }
                }
            }
            match next {
                Err(e) => {
                    return Err(e);
                },
                Ok(Some(string)) => {
                    proof {
                        let after = self.lenders()[i as int];
                        let strings = lender_strings(after.data, after.max, after.state).0;
                        let more = flat_strings(before, (i + 1) as nat).0;
                        assert((seq![string@] + strings) + more =~= seq![string@] + (strings
                            + more));
                    }
                    return Ok(Some(string));
                },
                Ok(None) => {},
            }
            proof {
                assert(self.lenders() =~= before);
                let more = flat_strings(before, (i + 1) as nat).0;
                assert(Seq::<Seq<u8>>::empty() + more =~= more);
            }
            self.current_index = self.current_index + 1;
        }
        Ok(None)
    }

    /// Starts over.
    pub fn rewind(&mut self)
        requires
            old(self).well_formed(),
        ensures
            final(self).well_formed(),
            final(self).current() == 0,
            final(self).lenders() == rewound(old(self).lenders(), old(self).current()),
    {
        let ghost start = self.lenders();
        let mut i: usize = 0;
        while i < self.lenders.len() && i <= self.current_index
            invariant
                self.well_formed(),
                self.lenders@.len() == start.len(),
                start == old(self).lenders(),
                self.current_index == old(self).current_index,
                i <= self.lenders@.len(),
                i <= self.current_index + 1,
                forall|k: int|
                    0 <= k < start.len() ==> #[trigger] self.lenders()[k] == (if k < i {
                        LenderView {
                            data: start[k].data,
                            max: start[k].max,
                            state: lender_start(start[k].max),
                        }
                    } else {
                        start[k]
                    }),
            decreases self.lenders@.len() - i,
        {
            let ghost before = self.lenders();
            self.lenders[i].rewind();
            proof {
                assert(self.lenders().len() == before.len());
                assert forall|k: int| 0 <= k < before.len() && k != i implies
                    #[trigger] self.lenders()[k] == before[k] by {}
                assert(before[i as int] == start[i as int]);
                assert(self.lenders()[i as int] == LenderView {
                    data: start[i as int].data,
                    max: start[i as int].max,
                    state: lender_start(start[i as int].max),
                });
            }
            i = i + 1;
        }
        let ghost again = self.lenders();
        self.current_index = 0;
        assert(self.lenders() == again);
        assert(again =~= rewound(start, old(self).current()));
    }
}

} // verus!
