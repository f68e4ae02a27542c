//! The pool: for each device a fixed set of slots, the routing of byte ranges
//! to them, and the choice of a slot to reuse.
use vstd::prelude::*;
use vstd::arithmetic::div_mod::lemma_mod_add_multiples_vanish;

use crate::buffer::{
    align_down, bumped, lemma_align_down, lemma_window_of, lemma_windows_apart, local_of, Buffer,
    CopyResult, Flush,
};

verus! {

/// What became of an access to the pool.
#[derive(PartialEq, Eq, Structural, Debug, Clone, Copy)]
pub enum Access {
    /// Every byte was copied.
    Done,
    /// The first `done` bytes were copied; no slot holds the window at
    /// `window`, which must be brought in before the rest can follow.
    Miss { done: usize, window: usize },
}

/// Whether an access from `st` that has copied `n` bytes has met the window
/// at `w`. Once the access has `finished` it has met the window of `st`,
/// even when it copied nothing.
pub open spec fn met(w: int, size: usize, st: usize, n: int, finished: bool) -> bool {
    (finished && w == align_down(st, size)) || (n > 0 && align_down(st, size) <= w && w < st + n)
}

/// `new` is the slot `old` once the first `n` bytes of `src` have been
/// written at device offset `st`.
pub open spec fn wrote(old: Buffer, new: Buffer, src: Seq<u8>, st: usize, n: int, finished: bool) -> bool {
    let w = old.offset as int;
    let touched = met(w, old.size, st, n, finished);
    &&& new.wf()
    &&& new.offset == old.offset
    &&& new.size == old.size
    &&& new.use_cnt == (if touched { bumped(old.use_cnt) } else { old.use_cnt })
    &&& new.dirty == (old.dirty || touched)
    &&& forall|k: int|
        0 <= k < old.size ==> #[trigger] new.data@[k] == (if st <= w + k < st + n {
            src[w + k - st]
        } else {
            old.data@[k]
        })
}

/// The slot that holds the window of `st + pos` receives the next `step`
/// bytes of `src`.
proof fn lemma_write_hit(
    o: Buffer,
    prev: Buffer,
    next: Buffer,
    src: Seq<u8>,
    st: usize,
    pos: usize,
    step: usize,
    finished: bool,
)
    requires
        o.wf(),
        prev.wf(),
        wrote(o, prev, src, st, pos as int, false),
        st + pos <= usize::MAX,
        prev.offset == align_down((st + pos) as usize, prev.size),
        pos == 0 || (st + pos) % prev.size as int == 0,
        (finished && pos == 0) || step > 0,
        step <= prev.size - local_of((st + pos) as usize, prev.size),
        pos + step <= src.len(),
        next.wf(),
        next.offset == prev.offset,
        next.size == prev.size,
        next.use_cnt == bumped(prev.use_cnt),
        next.dirty,
        next.data@ == prev.data@.take(local_of((st + pos) as usize, prev.size)) + src.subrange(
            pos as int,
            src.len() as int,
        ).take(step as int) + prev.data@.skip(local_of((st + pos) as usize, prev.size) + step),
    ensures
        wrote(o, next, src, st, pos + step, finished),
{
    let size = prev.size;
    let cur = (st + pos) as usize;
    let w = prev.offset as int;
    lemma_align_down(cur, size);
    lemma_align_down(st, size);
    if pos > 0 {
        lemma_window_of(cur as int, cur as int, size);
    }
    assert(!met(w, size, st, pos as int, false));
    assert(met(w, size, st, pos + step, finished));
    let lo = local_of(cur, size);
    assert forall|k: int| 0 <= k < size implies #[trigger] next.data@[k] == (if st <= w + k < st + (
    pos + step) {
        src[w + k - st]
    } else {
        o.data@[k]
    }) by {
        assert(prev.data@[k] == (if st <= w + k < st + pos {
            src[w + k - st]
        } else {
            o.data@[k]
        }));
        if lo <= k < lo + step {
            assert(next.data@[k] == src[pos + k - lo]);
        } else {
            assert(next.data@[k] == prev.data@[k]);
        }
    }
}

/// A slot that does not hold the window of `st + pos` is left as it was.
proof fn lemma_write_other(
    o: Buffer,
    prev: Buffer,
    src: Seq<u8>,
    st: usize,
    pos: usize,
    step: usize,
    finished: bool,
)
    requires
        o.wf(),
        prev.wf(),
        wrote(o, prev, src, st, pos as int, false),
        st + pos <= usize::MAX,
        prev.offset != align_down((st + pos) as usize, prev.size),
        pos == 0 || (st + pos) % prev.size as int == 0,
        step <= prev.size - local_of((st + pos) as usize, prev.size),
    ensures
        wrote(o, prev, src, st, pos + step, finished),
{
    let size = prev.size;
    let cur = (st + pos) as usize;
    let w = align_down(cur, size);
    let wi = prev.offset as int;
    lemma_align_down(cur, size);
    lemma_align_down(st, size);
    if pos > 0 {
        lemma_window_of(cur as int, cur as int, size);
    }
    if wi < w {
        lemma_windows_apart(wi, w, size);
    } else {
        lemma_windows_apart(w, wi, size);
    }
    assert(met(wi, size, st, pos as int, false) == met(wi, size, st, pos + step, finished));
    assert forall|k: int| 0 <= k < size implies #[trigger] prev.data@[k] == (if st <= wi + k < st + (
    pos + step) {
        src[wi + k - st]
    } else {
        o.data@[k]
    }) by {
        assert((st <= wi + k < st + pos) == (st <= wi + k < st + (pos + step)));
    }
}

/// `new` is the slot `old` once an access from `st` has read `n` bytes
/// through the slots: only its rank counter may move.
pub open spec fn read_through(old: Buffer, new: Buffer, st: usize, n: int, finished: bool) -> bool {
    &&& new.wf()
    &&& new.offset == old.offset
    &&& new.size == old.size
    &&& new.data@ == old.data@
    &&& new.dirty == old.dirty
    &&& new.use_cnt == (if met(old.offset as int, old.size, st, n, finished) {
        bumped(old.use_cnt)
    } else {
        old.use_cnt
    })
}

/// How one step of an access from `st`, at `st + pos` and `step` bytes long,
/// meets the aligned window at `wi`.
proof fn lemma_met_step(wi: int, size: usize, st: usize, pos: usize, step: usize, finished: bool)
    requires
        size > 0,
        0 <= wi,
        wi % size as int == 0,
        st + pos <= usize::MAX,
        pos == 0 || (st + pos) % size as int == 0,
        (finished && pos == 0) || step > 0,
        step <= size - local_of((st + pos) as usize, size),
    ensures
        wi == align_down((st + pos) as usize, size) ==> !met(wi, size, st, pos as int, false) && met(
            wi,
            size,
            st,
            pos + step,
            finished,
        ),
        wi != align_down((st + pos) as usize, size) ==> met(wi, size, st, pos as int, false) == met(
            wi,
            size,
            st,
            pos + step,
            finished,
        ),
{
    let cur = (st + pos) as usize;
    let w = align_down(cur, size);
    lemma_align_down(cur, size);
    lemma_align_down(st, size);
    if pos > 0 {
        lemma_window_of(cur as int, cur as int, size);
    }
    if wi < w {
        lemma_windows_apart(wi, w, size);
    } else if wi > w {
        lemma_windows_apart(w, wi, size);
    }
}

/// Whether slot `i` comes before slot `j` when the slots are sorted by rank
/// counter, equal counters keeping their order.
pub open spec fn precedes(s: Seq<Buffer>, i: int, j: int) -> bool {
    s[i].use_cnt < s[j].use_cnt || (s[i].use_cnt == s[j].use_cnt && i < j)
}

/// Whether one of the first `hi` entries of `p` is `j`.
pub open spec fn reaches(p: Seq<int>, j: int, hi: int) -> bool {
    exists|k: int| 0 <= k < hi && #[trigger] p[k] == j
}

/// `t` is `s` stably sorted by rank counter: `t[k]` is `s[p[k]]` with its
/// counter renumbered to `k`, `p` reaches every slot of `s`, and the order
/// of `p` follows `precedes`.
pub open spec fn sorted_as(s: Seq<Buffer>, t: Seq<Buffer>, p: Seq<int>) -> bool {
    &&& p.len() == s.len()
    &&& t.len() == s.len()
    &&& forall|k: int|
        0 <= k < s.len() ==> {
            &&& 0 <= #[trigger] p[k] < s.len()
            &&& t[k].offset == s[p[k]].offset
            &&& t[k].size == s[p[k]].size
            &&& t[k].data@ == s[p[k]].data@
            &&& t[k].dirty == s[p[k]].dirty
            &&& t[k].use_cnt == k
        }
    &&& forall|j: int| 0 <= j < s.len() ==> #[trigger] reaches(p, j, s.len() as int)
    &&& forall|a: int, b: int| 0 <= a < b < s.len() ==> precedes(s, #[trigger] p[a], #[trigger] p[b])
}

/// Whether `s[p[0]]` has the smallest counter of `s`, and is the earliest
/// slot of `s` with that counter.
pub open spec fn first_is_min(s: Seq<Buffer>, p: Seq<int>) -> bool {
    &&& forall|i: int| 0 <= i < s.len() ==> s[p[0]].use_cnt <= #[trigger] s[i].use_cnt
    &&& forall|i: int| 0 <= i < p[0] ==> s[p[0]].use_cnt < #[trigger] s[i].use_cnt
}

/// After a stable sort the first slot is the one with the smallest counter,
/// the earliest of equals.
pub proof fn lemma_sorted_first(s: Seq<Buffer>, t: Seq<Buffer>, p: Seq<int>)
    requires
        sorted_as(s, t, p),
        s.len() > 0,
    ensures
        first_is_min(s, p),
{
    assert forall|i: int| 0 <= i < s.len() implies s[p[0]].use_cnt <= #[trigger] s[i].use_cnt && (i < p[0] ==> s[p[0]].use_cnt < s[i].use_cnt) by {
        assert(reaches(p, i, s.len() as int));
        let k = choose|k: int| 0 <= k < s.len() && #[trigger] p[k] == i;
        if k > 0 {
            assert(precedes(s, p[0], p[k]));
        }
    }
}

/// The slots to reuse, and the write the device must receive first.
pub struct Refill {
    pub slot: usize,
    pub flush: Option<Flush>,
}

/// One transfer between the cache and a device.
pub enum Transfer {
    /// Write the bytes back to the device at their offset.
    Store(Flush),
    /// Load the window at `offset` from the device into slot `slot`.
    Load { slot: usize, offset: usize },
}

impl Refill {
    /// The transfers that bring the window of `window` into the chosen slot,
    /// in the order they must run: the write-back of the slot's old window
    /// first, when there is one, and the load after it.
    pub fn transfers(self, window: usize, size: usize) -> (t: Vec<Transfer>)
        requires
            size > 0,
        ensures
            self.flush is None ==> t@ == seq![
                Transfer::Load { slot: self.slot, offset: align_down(window, size) as usize },
            ],
            self.flush matches Some(f) ==> t@ == seq![
                Transfer::Store(f),
                Transfer::Load { slot: self.slot, offset: align_down(window, size) as usize },
            ],
    {
        proof {
            lemma_align_down(window, size);
        }
        let load = Transfer::Load { slot: self.slot, offset: window - window % size };
        let mut t: Vec<Transfer> = Vec::new();
        match self.flush {
            Some(f) => {
                t.push(Transfer::Store(f));
            },
            None => {},
        }
        t.push(load);
        assert(t@ =~= match self.flush {
            Some(f) => seq![Transfer::Store(f), Transfer::Load { slot: self.slot, offset: align_down(window, size) as usize }],
            None => seq![Transfer::Load { slot: self.slot, offset: align_down(window, size) as usize }],
        });
        t
    }
}

/// The slots of one device.
pub struct Device {
    pub id: usize,
    pub size: usize,
    pub slots: Vec<Buffer>,
}

impl Device {
    /// Every slot is well formed with the device's window size, and no two
    /// slots hold the same window.
    pub open spec fn wf(&self) -> bool {
        &&& self.size > 0
        &&& forall|i: int|
            0 <= i < self.slots@.len() ==> (#[trigger] self.slots@[i]).wf() && self.slots@[i].size
                == self.size
        &&& forall|i: int, j: int|
            0 <= i < self.slots@.len() && 0 <= j < self.slots@.len() && i != j
                ==> #[trigger] self.slots@[i].offset != #[trigger] self.slots@[j].offset
    }

    /// Whether some slot holds the window at `w`.
    pub open spec fn holds(&self, w: int) -> bool {
        exists|j: int| 0 <= j < self.slots@.len() && #[trigger] self.slots@[j].offset == w
    }

    /// What a write of `src` at `st` that answered `r` leaves: on `Done`
    /// every window of the span was held and received its bytes; on a miss
    /// the bytes before the missing window were written and no more.
    pub open spec fn write_post(&self, new: Device, src: Seq<u8>, st: usize, r: Access) -> bool {
        &&& r == Access::Done ==> {
            &&& forall|j: int|
                0 <= j < self.slots@.len() ==> #[trigger] wrote(
                    self.slots@[j],
                    new.slots@[j],
                    src,
                    st,
                    src.len() as int,
                    true,
                )
            &&& self.holds(align_down(st, self.size))
            &&& forall|a: usize|
                st <= a < st + src.len() ==> self.holds(
                    #[trigger] align_down(a, self.size),
                )
        }
        &&& r matches Access::Miss { done, window } ==> {
            &&& forall|j: int|
                0 <= j < self.slots@.len() ==> #[trigger] wrote(
                    self.slots@[j],
                    new.slots@[j],
                    src,
                    st,
                    done as int,
                    false,
                )
            &&& done == 0 || (done < src.len() && (st + done) % self.size as int == 0)
            &&& window == align_down((st + done) as usize, self.size)
            &&& !self.holds(window as int)
            &&& forall|a: usize|
                st <= a < st + done ==> self.holds(
                    #[trigger] align_down(a, self.size),
                )
        }
    }

    /// What a read into `dst` (which becomes `dst2`) at `st` that answered
    /// `r` leaves: on `Done` every window of the span was held and `dst2`
    /// shows its bytes; on a miss the bytes before the missing window were
    /// read and the rest of `dst` is as it was.
    pub open spec fn read_post(&self, new: Device, dst: Seq<u8>, dst2: Seq<u8>, st: usize, r: Access) -> bool {
        &&& dst2.len() == dst.len()
        &&& r == Access::Done ==> {
            &&& forall|j: int|
                0 <= j < self.slots@.len() ==> #[trigger] read_through(
                    self.slots@[j],
                    new.slots@[j],
                    st,
                    dst.len() as int,
                    true,
                )
            &&& self.holds(align_down(st, self.size))
            &&& forall|a: usize|
                st <= a < st + dst.len() ==> self.holds(
                    #[trigger] align_down(a, self.size),
                )
            &&& forall|k: int|
                0 <= k < dst.len() ==> self.shows(st + k, #[trigger] dst2[k])
        }
        &&& r matches Access::Miss { done, window } ==> {
            &&& forall|j: int|
                0 <= j < self.slots@.len() ==> #[trigger] read_through(
                    self.slots@[j],
                    new.slots@[j],
                    st,
                    done as int,
                    false,
                )
            &&& done == 0 || (done < dst.len() && (st + done) % self.size as int == 0)
            &&& window == align_down((st + done) as usize, self.size)
            &&& !self.holds(window as int)
            &&& forall|a: usize|
                st <= a < st + done ==> self.holds(
                    #[trigger] align_down(a, self.size),
                )
            &&& forall|k: int|
                0 <= k < done ==> self.shows(st + k, #[trigger] dst2[k])
            &&& forall|k: int|
                done <= k < dst.len() ==> #[trigger] dst2[k] == dst[k]
        }
    }

    /// What picking a slot to reuse leaves: the slots stably sorted by rank
    /// counter and renumbered `0, 1, 2, ...`, nothing else changed; the slot
    /// that now comes first (the one with the smallest counter, the earliest
    /// of equals) is the one to reuse, with its bytes to write back when it
    /// is dirty.
    pub open spec fn evict_post(&self, new: Device, r: Refill) -> bool {
        &&& new.wf()
        &&& new.id == self.id
        &&& new.size == self.size
        &&& exists|p: Seq<int>| #[trigger] sorted_as(self.slots@, new.slots@, p) && first_is_min(self.slots@, p)
        &&& r.slot == 0
        &&& r.slot < new.slots@.len()
        &&& new.slots@[0].dirty ==> (r.flush matches Some(f) && f.offset == new.slots@[0].offset
            && f.data@ == new.slots@[0].data@)
        &&& !new.slots@[0].dirty ==> r.flush is None
    }

    /// What loading `fresh` into `slot` for the window holding `window`
    /// leaves: the slot now mirrors that window, clean, unless another slot
    /// held it already.
    pub open spec fn refill_post(&self, new: Device, slot: usize, window: usize, fresh: Seq<u8>, ok: bool) -> bool {
        &&& new.wf()
        &&& new.id == self.id
        &&& new.size == self.size
        &&& new.slots@.len() == self.slots@.len()
        &&& ok == !exists|i: int|
            0 <= i < self.slots@.len() && i != slot && #[trigger] self.slots@[i].offset
                == align_down(window, self.size)
        &&& !ok ==> new.slots@ == self.slots@
        &&& ok ==> {
            &&& new.slots@[slot as int].offset == align_down(window, self.size)
            &&& new.slots@[slot as int].data@ == fresh
            &&& !new.slots@[slot as int].dirty
            &&& new.slots@[slot as int].use_cnt == self.slots@[slot as int].use_cnt
            &&& forall|i: int|
                0 <= i < self.slots@.len() && i != slot ==> #[trigger] new.slots@[i]
                    == self.slots@[i]
        }
    }

    /// The slot that holds the window at `w`, if any.
    pub fn find(&self, w: usize) -> (r: Option<usize>)
        ensures
            r matches Some(j) ==> j < self.slots@.len() && self.slots@[j as int].offset == w,
            r is None ==> !self.holds(w as int),
    {
        let mut j: usize = 0;
        while j < self.slots.len()
            invariant
                j <= self.slots@.len(),
                forall|i: int| 0 <= i < j ==> #[trigger] self.slots@[i].offset != w,
            decreases self.slots@.len() - j,
        {
            if self.slots[j].offset == w {
                return Some(j);
            }
            j = j + 1;
        }
        None
    }

    /// Writes `src` to the device at `st` through the slots, window after
    /// window, until it is all written or a window is missing.
    pub fn write(&mut self, src: &[u8], st: usize) -> (r: Access)
        requires
            old(self).wf(),
            st + src@.len() <= usize::MAX,
        ensures
            final(self).wf(),
            final(self).id == old(self).id,
            final(self).size == old(self).size,
            final(self).slots@.len() == old(self).slots@.len(),
            old(self).write_post(*final(self), src@, st, r),
    {
        let size = self.size;
        let mut pos: usize = 0;
        loop
            invariant
                old(self).wf(),
                self.wf(),
                self.id == old(self).id,
                self.size == size,
                size == old(self).size,
                self.slots@.len() == old(self).slots@.len(),
                forall|j: int| 0 <= j < self.slots@.len() ==> #[trigger] self.slots@[j].offset == old(self).slots@[j].offset,
                st + src@.len() <= usize::MAX,
                pos <= src@.len(),
                pos == 0 || (pos < src@.len() && (st + pos) % size as int == 0),
                forall|j: int|
                    0 <= j < old(self).slots@.len() ==> #[trigger] wrote(
                        old(self).slots@[j],
                        self.slots@[j],
                        src@,
                        st,
                        pos as int,
                        false,
                    ),
                forall|a: usize|
                    st <= a < st + pos ==> old(self).holds(#[trigger] align_down(a, size)),
            decreases src@.len() - pos,
        {
            let cur = st + pos;
            proof {
                lemma_align_down(cur, size);
                lemma_align_down(st, size);
            }
            let w = cur - cur % size;
            match self.find(w) {
                None => {
                    proof {
                        assert forall|j: int| #![auto] 0 <= j < old(self).slots@.len() && old(self).slots@[j].offset == w implies false by {
                            assert(self.slots@[j].offset == w);
                        }
                    }
                    return Access::Miss { done: pos, window: w };
                },
                Some(j) => {
                    let (_, tail) = src.split_at(pos);
                    let ghost prev = self.slots@;
                    let r = self.slots[j].write(tail, cur);
                    let ghost next = self.slots@;
                    let step = if tail.len() <= size - cur % size {
                        tail.len()
                    } else {
                        size - cur % size
                    };
                    proof {
                        let finished = r == CopyResult::Finish;
                        assert(tail@ == src@.subrange(pos as int, src@.len() as int));
                        assert forall|i: int| 0 <= i < old(self).slots@.len() implies #[trigger] wrote(
                            old(self).slots@[i],
                            next[i],
                            src@,
                            st,
                            pos + step,
                            finished,
                        ) by {
                            assert(wrote(old(self).slots@[i], prev[i], src@, st, pos as int, false));
                            if i == j {
                                lemma_write_hit(old(self).slots@[i], prev[i], next[i], src@, st, pos, step, finished);
                            } else {
                                assert(prev[i] == next[i]);
                                assert(prev[i].offset != prev[j as int].offset);
                                lemma_write_other(old(self).slots@[i], prev[i], src@, st, pos, step, finished);
                            }
                        }
                        assert forall|a: usize| st <= a < st + (pos + step) implies old(self).holds(#[trigger] align_down(a, size)) by {
                            if a >= st + pos {
                                lemma_window_of(a as int, w as int, size);
                                assert(old(self).slots@[j as int].offset == w);
                            }
                        }
                        if pos > 0 {
                            assert(st <= st < st + pos);
                            assert(old(self).holds(align_down(st, size)));
                        } else {
                            assert(old(self).slots@[j as int].offset == w);
                        }
                    }
                    match r {
                        CopyResult::Finish => {
                            return Access::Done;
                        },
                        CopyResult::TooLong => {
                            proof {
                                lemma_mod_add_multiples_vanish(w as int, size as int);
                            }
                            pos = pos + step;
                        },
                    }
                },
            }
        }
    }

    /// Whether byte `b` is what the device's slots show at device offset `a`.
    pub open spec fn shows(&self, a: int, b: u8) -> bool {
        forall|j: int|
            0 <= j < self.slots@.len() && #[trigger] self.slots@[j].offset == a - a % self.size as int
                ==> self.slots@[j].data@[a - self.slots@[j].offset] == b
    }

    /// Reads into `dst` what the device holds from `st` on, through the
    /// slots, window after window, until `dst` is full or a window is missing.
    pub fn read(&mut self, dst: &mut [u8], st: usize) -> (r: Access)
        requires
            old(self).wf(),
            st + old(dst)@.len() <= usize::MAX,
        ensures
            final(self).wf(),
            final(self).id == old(self).id,
            final(self).size == old(self).size,
            final(self).slots@.len() == old(self).slots@.len(),
            final(dst)@.len() == old(dst)@.len(),
            old(self).read_post(*final(self), old(dst)@, final(dst)@, st, r),
    {
        let size = self.size;
        let len = dst.len();
        let mut pos: usize = 0;
        loop
            invariant
                old(self).wf(),
                self.wf(),
                self.id == old(self).id,
                self.size == size,
                size == old(self).size,
                len == old(dst)@.len(),
                dst@.len() == len,
                self.slots@.len() == old(self).slots@.len(),
                forall|j: int| 0 <= j < self.slots@.len() ==> #[trigger] self.slots@[j].offset == old(self).slots@[j].offset,
                st + len <= usize::MAX,
                pos <= len,
                pos == 0 || (pos < len && (st + pos) % size as int == 0),
                forall|j: int|
                    0 <= j < old(self).slots@.len() ==> #[trigger] read_through(
                        old(self).slots@[j],
                        self.slots@[j],
                        st,
                        pos as int,
                        false,
                    ),
                forall|a: usize|
                    st <= a < st + pos ==> old(self).holds(#[trigger] align_down(a, size)),
                forall|k: int| 0 <= k < pos ==> old(self).shows(st + k, #[trigger] dst@[k]),
                forall|k: int| pos <= k < len ==> #[trigger] dst@[k] == old(dst)@[k],
            decreases len - pos,
        {
            let cur = st + pos;
            proof {
                lemma_align_down(cur, size);
                lemma_align_down(st, size);
            }
            let w = cur - cur % size;
            match self.find(w) {
                None => {
                    proof {
                        assert forall|j: int| #![auto] 0 <= j < old(self).slots@.len() && old(self).slots@[j].offset == w implies false by {
                            assert(self.slots@[j].offset == w);
                        }
                    }
                    return Access::Miss { done: pos, window: w };
                },
                Some(j) => {
                    let ghost prev = self.slots@;
                    let ghost before = dst@;
                    let (head, tail) = dst.split_at_mut(pos);
                    let r = self.slots[j].read(tail, cur);
                    let ghost next = self.slots@;
                    let step = if len - pos <= size - cur % size {
                        len - pos
                    } else {
                        size - cur % size
                    };
                    proof {
                        let finished = r == CopyResult::Finish;
                        let lo = cur as int % size as int;
                        assert forall|i: int| 0 <= i < old(self).slots@.len() implies #[trigger] read_through(
                            old(self).slots@[i],
                            next[i],
                            st,
                            pos + step,
                            finished,
                        ) by {
                            assert(read_through(old(self).slots@[i], prev[i], st, pos as int, false));
                            lemma_met_step(prev[i].offset as int, size, st, pos, step, finished);
                            if i != j {
                                assert(prev[i] == next[i]);
                                assert(prev[i].offset != prev[j as int].offset);
                            }
                        }
                        assert forall|a: usize| st <= a < st + (pos + step) implies old(self).holds(#[trigger] align_down(a, size)) by {
                            if a >= st + pos {
                                lemma_window_of(a as int, w as int, size);
                                assert(old(self).slots@[j as int].offset == w);
                            }
                        }
                        assert forall|k: int| 0 <= k < pos + step implies old(self).shows(st + k, #[trigger] dst@[k]) by {
                            if k >= pos {
                                let a = st + k;
                                lemma_window_of(a, w as int, size);
                                assert(dst@[k] == prev[j as int].data@[lo + k - pos]);
                                assert forall|i: int| 0 <= i < old(self).slots@.len() && #[trigger] old(self).slots@[i].offset == a - a % size as int implies old(self).slots@[i].data@[a - old(self).slots@[i].offset] == dst@[k] by {
                                    if i != j {
                                        assert(old(self).slots@[i].offset != old(self).slots@[j as int].offset);
                                    } else {
                                        assert(read_through(old(self).slots@[i], prev[i], st, pos as int, false));
                                        assert(a - w == lo + k - pos);
                                    }
                                }
                            } else {
                                assert(dst@[k] == before[k]);
                            }
                        }
                        assert forall|k: int| pos + step <= k < len implies #[trigger] dst@[k] == old(dst)@[k] by {
                            assert(dst@[k] == before[k]);
                        }
                        if pos > 0 {
                            assert(st <= st < st + pos);
                            assert(old(self).holds(align_down(st, size)));
                        } else {
                            assert(old(self).slots@[j as int].offset == w);
                        }
                    }
                    match r {
                        CopyResult::Finish => {
                            return Access::Done;
                        },
                        CopyResult::TooLong => {
                            proof {
                                lemma_mod_add_multiples_vanish(w as int, size as int);
                            }
                            pos = pos + step;
                        },
                    }
                },
            }
        }
    }
    /// Sorts the slots by rank counter, keeping the order of equal counters,
    /// and renumbers the counters to their places `0, 1, 2, ...`.
    pub fn rerank(&mut self)
        requires
            old(self).wf(),
        ensures
            final(self).wf(),
            final(self).id == old(self).id,
            final(self).size == old(self).size,
            exists|p: Seq<int>| #[trigger] sorted_as(old(self).slots@, final(self).slots@, p),
    {
        let n = self.slots.len();
        let ghost s = self.slots@;
        let ghost mut p: Seq<int> = Seq::new(n as nat, |k: int| k);
        let mut i: usize = 0;
        while i < n
            invariant
                old(self).wf(),
                s == old(self).slots@,
                n == s.len(),
                self.id == old(self).id,
                self.size == old(self).size,
                self.slots@.len() == n,
                p.len() == n,
                i <= n,
                forall|k: int| 0 <= k < n ==> #[trigger] self.slots@[k] == s[p[k]],
                forall|k: int| i <= k < n ==> #[trigger] p[k] == k,
                forall|k: int| 0 <= k < i ==> 0 <= #[trigger] p[k] < i,
                forall|j: int| 0 <= j < i ==> #[trigger] reaches(p, j, i as int),
                forall|a: int, b: int| 0 <= a < b < i ==> precedes(s, #[trigger] p[a], #[trigger] p[b]),
            decreases n - i,
        {
            let mut q: usize = i;
            proof {
                assert forall|j: int| 0 <= j <= i implies #[trigger] reaches(p, j, i + 1) by {
                    if j < i {
                        assert(reaches(p, j, i as int));
                    } else {
                        assert(p[i as int] == i);
                    }
                }
            }
            while q > 0 && self.slots[q - 1].use_cnt > self.slots[q].use_cnt
                invariant
                    n == s.len(),
                    self.id == old(self).id,
                    self.size == old(self).size,
                    self.slots@.len() == n,
                    p.len() == n,
                    i < n,
                    q <= i,
                    forall|k: int| 0 <= k < n ==> #[trigger] self.slots@[k] == s[p[k]],
                    forall|k: int| i < k < n ==> #[trigger] p[k] == k,
                    p[q as int] == i,
                    forall|k: int| 0 <= k <= i && k != q ==> 0 <= #[trigger] p[k] < i,
                    forall|j: int| 0 <= j <= i ==> #[trigger] reaches(p, j, i + 1),
                    forall|a: int, b: int|
                        0 <= a < b <= i && a != q && b != q ==> precedes(s, #[trigger] p[a], #[trigger] p[b]),
                    forall|b: int| q < b <= i ==> precedes(s, p[q as int], #[trigger] p[b]),
                decreases q,
            {
                let ghost p0 = p;
                let moving = self.slots.remove(q);
                self.slots.insert(q - 1, moving);
                proof {
                    p = p0.update(q - 1, p0[q as int]).update(q as int, p0[q - 1]);
                    assert forall|k: int| 0 <= k < n implies #[trigger] self.slots@[k] == s[p[k]] by {}
                    assert forall|j: int| 0 <= j <= i implies #[trigger] reaches(p, j, i + 1) by {
                        assert(reaches(p0, j, i + 1));
                        let k0 = choose|k: int| 0 <= k <= i && #[trigger] p0[k] == j;
                        if k0 == q {
                            assert(p[q - 1] == j);
                        } else if k0 == q - 1 {
                            assert(p[q as int] == j);
                        } else {
                            assert(p[k0] == j);
                        }
                    }
                    assert forall|a: int, b: int|
                        0 <= a < b <= i && a != q - 1 && b != q - 1 implies precedes(s, #[trigger] p[a], #[trigger] p[b]) by {
                        if a == q {
                            assert(precedes(s, p0[q - 1], p0[b]));
                        } else if b == q {
                            assert(precedes(s, p0[a], p0[q - 1]));
                        } else {
                            assert(precedes(s, p0[a], p0[b]));
                        }
                    }
                    assert forall|b: int| q - 1 < b <= i implies precedes(s, p[q - 1], #[trigger] p[b]) by {
                        if b == q {
                            assert(precedes(s, p0[q as int], p0[q - 1]));
                        } else {
                            assert(precedes(s, p0[q as int], p0[b]));
                        }
                    }
                }
                q = q - 1;
            }
            proof {
                assert forall|a: int, b: int| 0 <= a < b <= i implies precedes(s, #[trigger] p[a], #[trigger] p[b]) by {
                    if b == q {
                        assert(precedes(s, p[a], p[q - 1]) || a == q - 1);
                        assert(precedes(s, p[q - 1], p[q as int]));
                    }
                }
            }
            i = i + 1;
        }
        let mut k: usize = 0;
        while k < n
            invariant
                old(self).wf(),
                s == old(self).slots@,
                n == s.len(),
                self.id == old(self).id,
                self.size == old(self).size,
                self.slots@.len() == n,
                p.len() == n,
                k <= n,
                forall|j: int| 0 <= j < n ==> 0 <= #[trigger] p[j] < n,
                forall|j: int| 0 <= j < n ==> #[trigger] reaches(p, j, n as int),
                forall|a: int, b: int| 0 <= a < b < n ==> precedes(s, #[trigger] p[a], #[trigger] p[b]),
                forall|j: int|
                    0 <= j < n ==> {
                        &&& (#[trigger] self.slots@[j]).offset == s[p[j]].offset
                        &&& self.slots@[j].size == s[p[j]].size
                        &&& self.slots@[j].data@ == s[p[j]].data@
                        &&& self.slots@[j].dirty == s[p[j]].dirty
                        &&& self.slots@[j].wf()
                        &&& self.slots@[j].use_cnt == if j < k { j } else { s[p[j]].use_cnt as int }
                    },
            decreases n - k,
        {
            self.slots[k].use_cnt = k;
            k = k + 1;
        }
        proof {
            assert forall|a: int, b: int|
                0 <= a < n && 0 <= b < n && a != b implies #[trigger] self.slots@[a].offset != #[trigger] self.slots@[b].offset by {
                let (x, y) = if a < b { (a, b) } else { (b, a) };
                assert(precedes(s, p[x], p[y]));
                assert(s[p[a]].offset != s[p[b]].offset);
            }
            assert(sorted_as(s, self.slots@, p));
        }
    }

    /// Picks the slot to reuse for a missing window: the one that comes
    /// first once the ranks are renumbered. When it holds writes the device
    /// has not received, the answer carries them, to be written back before
    /// the missing window is loaded.
    pub fn evict(&mut self) -> (r: Refill)
        requires
            old(self).wf(),
            old(self).slots@.len() > 0,
        ensures
            old(self).evict_post(*final(self), r),
    {
        self.rerank();
        proof {
            let p = choose|p: Seq<int>| #[trigger] sorted_as(old(self).slots@, self.slots@, p);
            lemma_sorted_first(old(self).slots@, self.slots@, p);
        }
        let flush = self.slots[0].swap();
        Refill { slot: 0, flush }
    }

    /// Loads `fresh`, the device's bytes of the window holding `window`,
    /// into slot `slot`, unless another slot holds that window already (then
    /// nothing changes and the answer is `false`).
    pub fn refill(&mut self, slot: usize, window: usize, fresh: Vec<u8>) -> (ok: bool)
        requires
            old(self).wf(),
            slot < old(self).slots@.len(),
            fresh@.len() == old(self).size,
        ensures
            old(self).refill_post(*final(self), slot, window, fresh@, ok),
    {
        proof {
            lemma_align_down(window, self.size);
        }
        let w = window - window % self.size;
        let n = self.slots.len();
        let mut i: usize = 0;
        while i < n
            invariant
                old(self).wf(),
                self.slots@ == old(self).slots@,
                self.id == old(self).id,
                self.size == old(self).size,
                w == align_down(window, old(self).size),
                slot < n,
                n == self.slots@.len(),
                i <= n,
                forall|k: int| 0 <= k < i && k != slot ==> #[trigger] self.slots@[k].offset != w,
            decreases n - i,
        {
            if i != slot && self.slots[i].offset == w {
                return false;
            }
            i = i + 1;
        }
        let ghost s = self.slots@;
        self.slots[slot].refresh(window, fresh);
        proof {
            assert forall|a: int, b: int|
                0 <= a < n && 0 <= b < n && a != b implies #[trigger] self.slots@[a].offset != #[trigger] self.slots@[b].offset by {
                if a != slot && b != slot {
                    assert(s[a].offset != s[b].offset);
                }
            }
        }
        true
    }
}

/// Whether `dev` is the device `id` as registered with windows of `size`
/// bytes and `images[i]` the device's bytes of window `i`: slot `i` mirrors
/// `[i * size, i * size + size)`, clean and with a zero rank counter.
pub open spec fn registered(dev: Device, id: usize, size: usize, images: Seq<Vec<u8>>) -> bool {
    &&& dev.id == id
    &&& dev.size == size
    &&& dev.slots@.len() == images.len()
    &&& forall|i: int|
        0 <= i < images.len() ==> {
            &&& (#[trigger] dev.slots@[i]).offset == i * size
            &&& dev.slots@[i].size == size
            &&& dev.slots@[i].data@ == images[i]@
            &&& dev.slots@[i].use_cnt == 0
            &&& !dev.slots@[i].dirty
        }
}

/// The pool: `cache_size` slots of `buffer_size` bytes for each registered
/// device.
pub struct Cache {
    pub cache_size: usize,
    pub buffer_size: usize,
    pub devices: Vec<Device>,
}

impl Cache {
    /// Every device is well formed with `cache_size` slots of `buffer_size`
    /// bytes, and no device is registered twice.
    pub open spec fn wf(&self) -> bool {
        &&& self.buffer_size > 0
        &&& forall|d: int|
            0 <= d < self.devices@.len() ==> {
                &&& (#[trigger] self.devices@[d]).wf()
                &&& self.devices@[d].size == self.buffer_size
                &&& self.devices@[d].slots@.len() == self.cache_size
            }
        &&& forall|d: int, e: int|
            0 <= d < self.devices@.len() && 0 <= e < self.devices@.len() && d != e
                ==> #[trigger] self.devices@[d].id != #[trigger] self.devices@[e].id
    }

    /// Whether device `id` is registered.
    pub open spec fn has(&self, id: usize) -> bool {
        exists|d: int| 0 <= d < self.devices@.len() && #[trigger] self.devices@[d].id == id
    }

    /// `new` is this pool with device `id` changed as `step` says and every
    /// other device left as it was.
    pub open spec fn only(&self, new: Cache, id: usize, step: spec_fn(Device, Device) -> bool) -> bool {
        &&& new.wf()
        &&& new.cache_size == self.cache_size
        &&& new.buffer_size == self.buffer_size
        &&& new.devices@.len() == self.devices@.len()
        &&& forall|d: int|
            0 <= d < self.devices@.len() ==> (#[trigger] new.devices@[d]).id == self.devices@[d].id
        &&& forall|d: int|
            0 <= d < self.devices@.len() ==> if (#[trigger] self.devices@[d]).id == id {
                step(self.devices@[d], new.devices@[d])
            } else {
                new.devices@[d] == self.devices@[d]
            }
    }

    /// An empty pool.
    pub fn new(cache_size: usize, buffer_size: usize) -> (r: Cache)
        requires
            buffer_size > 0,
        ensures
            r.wf(),
            r.cache_size == cache_size,
            r.buffer_size == buffer_size,
            r.devices@.len() == 0,
    {
        Cache { cache_size, buffer_size, devices: Vec::new() }
    }

    /// Where device `id` stands among the devices.
    fn position(&self, id: usize) -> (r: Option<usize>)
        ensures
            r matches Some(d) ==> d < self.devices@.len() && self.devices@[d as int].id == id,
            r is None ==> !self.has(id),
    {
        let mut d: usize = 0;
        while d < self.devices.len()
            invariant
                d <= self.devices@.len(),
                forall|e: int| 0 <= e < d ==> #[trigger] self.devices@[e].id != id,
            decreases self.devices@.len() - d,
        {
            if self.devices[d].id == id {
                return Some(d);
            }
            d = d + 1;
        }
        None
    }

    /// The device offset of the window that slot `i` mirrors when a device
    /// is registered.
    pub fn initial_window(&self, i: usize) -> (r: usize)
        requires
            i < self.cache_size,
            self.cache_size * self.buffer_size <= usize::MAX,
        ensures
            r == i * self.buffer_size,
    {
        proof {
            vstd::arithmetic::mul::lemma_mul_inequality(i as int, self.cache_size as int, self.buffer_size as int);
        }
        i * self.buffer_size
    }

    /// Registers device `device_id`, replacing an earlier registration of it.
    /// `images[i]` is what the device holds in window `i`, the window that
    /// slot `i` mirrors from now on.
    pub fn add_buffer(&mut self, device_id: usize, images: Vec<Vec<u8>>)
        requires
            old(self).wf(),
            images@.len() == old(self).cache_size,
            old(self).cache_size * old(self).buffer_size <= usize::MAX,
            forall|i: int| 0 <= i < images@.len() ==> (#[trigger] images@[i])@.len() == old(self).buffer_size,
        ensures
            final(self).wf(),
            final(self).cache_size == old(self).cache_size,
            final(self).buffer_size == old(self).buffer_size,
            final(self).has(device_id),
            final(self).devices@.len() == old(self).devices@.len() + if old(self).has(device_id) {
                0int
            } else {
                1int
            },
            forall|d: int|
                0 <= d < old(self).devices@.len() && (#[trigger] old(self).devices@[d]).id != device_id
                    ==> final(self).devices@[d] == old(self).devices@[d],
            forall|d: int|
                0 <= d < final(self).devices@.len() && (#[trigger] final(self).devices@[d]).id == device_id
                    ==> registered(final(self).devices@[d], device_id, old(self).buffer_size, images@),
    {
        let size = self.buffer_size;
        let n = self.cache_size;
        let ghost all = images@;
        let mut images = images;
        let mut slots: Vec<Buffer> = Vec::new();
        let mut i: usize = 0;
        while i < n
            invariant
                size > 0,
                n * size <= usize::MAX,
                all.len() == n,
                forall|k: int| 0 <= k < n ==> (#[trigger] all[k])@.len() == size,
                i <= n,
                images@ == all.subrange(i as int, n as int),
                slots@.len() == i,
                forall|k: int|
                    0 <= k < i ==> {
                        &&& (#[trigger] slots@[k]).wf()
                        &&& slots@[k].offset == k * size
                        &&& slots@[k].size == size
                        &&& slots@[k].data@ == all[k]@
                        &&& slots@[k].use_cnt == 0
                        &&& !slots@[k].dirty
                    },
            decreases n - i,
        {
            let image = images.remove(0);
            proof {
                assert(image == all[i as int]);
                vstd::arithmetic::mul::lemma_mul_inequality(i as int, n as int, size as int);
                vstd::arithmetic::div_mod::lemma_mod_multiples_basic(i as int, size as int);
            }
            slots.push(Buffer::new(i * size, size, image));
            proof {
                assert(images@ =~= all.subrange(i + 1, n as int));
            }
            i = i + 1;
        }
        let dev = Device { id: device_id, size, slots };
        proof {
            assert forall|a: int, b: int|
                0 <= a < n && 0 <= b < n && a != b implies #[trigger] dev.slots@[a].offset != #[trigger] dev.slots@[b].offset by {
                if a < b {
                    vstd::arithmetic::mul::lemma_mul_strict_inequality(a, b, size as int);
                } else {
                    vstd::arithmetic::mul::lemma_mul_strict_inequality(b, a, size as int);
                }
            }
        }
        match self.position(device_id) {
            Some(d) => {
                self.devices.set(d, dev);
                assert(self.devices@[d as int].id == device_id);
            },
            None => {
                self.devices.push(dev);
                assert(self.devices@[self.devices@.len() - 1].id == device_id);
            },
        }
    }
    /// Writes `data` to device `device_id` at `st` through its slots, until
    /// all of it is written or a window is missing (see `Device::write_post`).
    pub fn write(&mut self, device_id: usize, data: &[u8], st: usize) -> (r: Access)
        requires
            old(self).wf(),
            old(self).has(device_id),
            st + data@.len() <= usize::MAX,
        ensures
            old(self).only(*final(self), device_id, |o: Device, n: Device| o.write_post(n, data@, st, r)),
    {
        let d = self.position(device_id).unwrap();
        let r = self.devices[d].write(data, st);
        proof {
            self.lemma_only_at(*old(self), device_id, d as int);
        }
        r
    }

    /// Reads what device `device_id` holds from `st` on into `data` through
    /// its slots, until `data` is full or a window is missing (see
    /// `Device::read_post`).
    pub fn read(&mut self, device_id: usize, data: &mut [u8], st: usize) -> (r: Access)
        requires
            old(self).wf(),
            old(self).has(device_id),
            st + old(data)@.len() <= usize::MAX,
        ensures
            old(self).only(
                *final(self),
                device_id,
                |o: Device, n: Device| o.read_post(n, old(data)@, final(data)@, st, r),
            ),
    {
        let d = self.position(device_id).unwrap();
        let r = self.devices[d].read(data, st);
        proof {
            self.lemma_only_at(*old(self), device_id, d as int);
        }
        r
    }

    /// Picks the slot of device `device_id` to reuse for a missing window
    /// (see `Device::evict_post`).
    pub fn evict(&mut self, device_id: usize) -> (r: Refill)
        requires
            old(self).wf(),
            old(self).has(device_id),
            old(self).cache_size > 0,
        ensures
            old(self).only(*final(self), device_id, |o: Device, n: Device| o.evict_post(n, r)),
    {
        let d = self.position(device_id).unwrap();
        let r = self.devices[d].evict();
        proof {
            self.lemma_only_at(*old(self), device_id, d as int);
        }
        r
    }

    /// Loads `fresh`, what device `device_id` holds in the window of
    /// `window`, into slot `slot` (see `Device::refill_post`).
    pub fn refill(&mut self, device_id: usize, slot: usize, window: usize, fresh: Vec<u8>) -> (ok: bool)
        requires
            old(self).wf(),
            old(self).has(device_id),
            slot < old(self).cache_size,
            fresh@.len() == old(self).buffer_size,
        ensures
            old(self).only(
                *final(self),
                device_id,
                |o: Device, n: Device| o.refill_post(n, slot, window, fresh@, ok),
            ),
    {
        let d = self.position(device_id).unwrap();
        let ok = self.devices[d].refill(slot, window, fresh);
        proof {
            self.lemma_only_at(*old(self), device_id, d as int);
        }
        ok
    }

    /// A pool that differs from `old` only at the device in place `d`, whose
    /// id it keeps, is well formed when that device is.
    proof fn lemma_only_at(&self, old: Cache, id: usize, d: int)
        requires
            old.wf(),
            0 <= d < old.devices@.len(),
            old.devices@[d].id == id,
            self.cache_size == old.cache_size,
            self.buffer_size == old.buffer_size,
            self.devices@.len() == old.devices@.len(),
            self.devices@[d].wf(),
            self.devices@[d].id == id,
            self.devices@[d].size == old.devices@[d].size,
            self.devices@[d].slots@.len() == old.devices@[d].slots@.len(),
            forall|e: int| 0 <= e < old.devices@.len() && e != d ==> self.devices@[e] == old.devices@[e],
        ensures
            self.wf(),
            forall|e: int| 0 <= e < old.devices@.len() && (#[trigger] old.devices@[e]).id == id ==> e == d,
    {
        assert forall|e: int, f: int|
            0 <= e < self.devices@.len() && 0 <= f < self.devices@.len() && e != f implies #[trigger] self.devices@[e].id != #[trigger] self.devices@[f].id by {
            assert(old.devices@[e].id != old.devices@[f].id);
        }
        assert forall|e: int| 0 <= e < old.devices@.len() && (#[trigger] old.devices@[e]).id == id implies e == d by {
            if e != d {
                assert(old.devices@[e].id != old.devices@[d].id);
            }
        }
    }
}

} // verus!
