//! A fixed-size ring of the spans of recently emitted words.
use vstd::prelude::*;

verus! {

/// The number of slots of a [`RefRing`].
pub const BUFFER_SIZE: usize = 256;

/// The model of a ring: its slots, and its cursor (the slot that the next push writes).
pub type RingView = (Seq<Option<(usize, usize)>>, int);

/// A ring with every slot empty.
pub open spec fn ring_empty() -> RingView {
    (Seq::new(BUFFER_SIZE as nat, |i: int| None), 0)
}

/// The slot before the cursor.
pub open spec fn ring_prev(v: RingView) -> int {
    if v.1 == 0 {
        BUFFER_SIZE - 1
    } else {
        v.1 - 1
    }
}

/// The ring after writing `e` at the cursor and moving the cursor forward.
pub open spec fn ring_push(v: RingView, e: (usize, usize)) -> RingView {
    (v.0.update(v.1, Some(e)), (v.1 + 1) % (BUFFER_SIZE as int))
}

/// What a pop takes out: the slot before the cursor.
pub open spec fn ring_top(v: RingView) -> Option<(usize, usize)> {
    v.0[ring_prev(v)]
}

/// The ring after moving the cursor back and emptying that slot.
pub open spec fn ring_pop(v: RingView) -> RingView {
    (v.0.update(ring_prev(v), None), ring_prev(v))
}

/// A ring of `BUFFER_SIZE` slots holding byte spans `(start, end)`.
///
/// `push` writes the slot at the cursor and moves the cursor forward; `pop`
/// moves it back and takes the slot out. Once all slots are written, new spans
/// overwrite the oldest ones.
pub struct RefRing {
    buffer: Vec<Option<(usize, usize)>>,
    index: usize,
}

impl View for RefRing {
    type V = RingView;

    closed spec fn view(&self) -> RingView {
        (self.buffer@, self.index as int)
    }
}

impl RefRing {
    pub closed spec fn wf(&self) -> bool {
        &&& self.buffer@.len() == BUFFER_SIZE
        &&& self.index < BUFFER_SIZE
    }

    /// An empty ring.
    pub fn new() -> (r: RefRing)
        ensures
            r.wf(),
            r@ == ring_empty(),
    {
        let mut buffer: Vec<Option<(usize, usize)>> = Vec::new();
        let mut i: usize = 0;
        while i < BUFFER_SIZE
            invariant
                i <= BUFFER_SIZE,
                buffer@.len() == i,
                forall|j: int| 0 <= j < i ==> buffer@[j] is None,
            decreases BUFFER_SIZE - i,
        {
            buffer.push(None);
            i = i + 1;
        }
        let r = RefRing { buffer, index: 0 };
        assert(r@.0 =~= ring_empty().0);
        r
    }

    /// Writes `e` at the cursor and moves the cursor forward, wrapping around.
    pub fn push(&mut self, e: (usize, usize))
        requires
            old(self).wf(),
        ensures
            final(self).wf(),
            final(self)@ == ring_push(old(self)@, e),
    {
        let i = self.index;
        self.buffer.set(i, Some(e));
        self.index = if i + 1 == BUFFER_SIZE {
            0
        } else {
            i + 1
        };
    }

    /// What `pop` would take out, left in place.
    pub fn last(&self) -> (r: Option<(usize, usize)>)
        requires
            self.wf(),
        ensures
            r == ring_top(self@),
    {
        let i = if self.index == 0 {
            BUFFER_SIZE - 1
        } else {
            self.index - 1
        };
        self.buffer[i]
    }

    /// Moves the cursor back, wrapping around, and takes out what that slot held.
    pub fn pop(&mut self) -> (r: Option<(usize, usize)>)
        requires
            old(self).wf(),
        ensures
            final(self).wf(),
            r == ring_top(old(self)@),
            final(self)@ == ring_pop(old(self)@),
    {
        let i = if self.index == 0 {
            BUFFER_SIZE - 1
        } else {
            self.index - 1
        };
        self.index = i;
        let r = self.buffer[i];
        self.buffer.set(i, None);
        r
    }
}

} // verus!
