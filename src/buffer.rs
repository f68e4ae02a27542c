//! One cache slot: an aligned, fixed-size window over a device.
use vstd::prelude::*;
use vstd::arithmetic::div_mod::*;
use vstd::arithmetic::mul::*;

verus! {

/// How a copy between a caller's span and a slot ended.
#[derive(PartialEq, Eq, Structural, Debug, Clone, Copy)]
pub enum CopyResult {
    /// The whole span fit inside the slot's window.
    Finish,
    /// Only a prefix fit; the rest belongs to the next window.
    TooLong,
}

/// A write that the device must receive before a slot is reused.
pub struct Flush {
    pub offset: usize,
    pub data: Vec<u8>,
}

/// Offset of `st` inside its own aligned window.
pub open spec fn local_of(st: usize, size: usize) -> int
    recommends
        size > 0,
{
    st as int % size as int
}

/// Number of bytes of a span of `len` bytes starting at `st` that fall inside
/// the window holding `st`.
pub open spec fn fit_len(st: usize, len: int, size: usize) -> int
    recommends
        size > 0,
{
    if len <= size - local_of(st, size) {
        len
    } else {
        size - local_of(st, size)
    }
}

/// Whether a span of `len` bytes at `st` runs past the end of its window.
pub open spec fn overruns(st: usize, len: int, size: usize) -> bool
    recommends
        size > 0,
{
    local_of(st, size) + len > size
}

/// The start of the aligned window holding `st`.
pub open spec fn align_down(st: usize, size: usize) -> int
    recommends
        size > 0,
{
    st as int - st as int % size as int
}

/// The rank counter after one more access.
pub open spec fn bumped(c: usize) -> usize {
    if c == usize::MAX {
        0
    } else {
        (c + 1) as usize
    }
}

/// `s` with `src` laid over it from position `at`.
pub open spec fn overlay(s: Seq<u8>, at: int, src: Seq<u8>) -> Seq<u8> {
    s.take(at) + src + s.skip(at + src.len())
}

/// The start of the window holding `st` is a multiple of `size` no greater
/// than `st`, and `st` lies less than one window past it.
pub proof fn lemma_align_down(st: usize, size: usize)
    requires
        size > 0,
    ensures
        0 <= align_down(st, size) <= st,
        st < align_down(st, size) + size,
        align_down(st, size) % size as int == 0,
        local_of(st, size) == st - align_down(st, size),
{
    lemma_fundamental_div_mod(st as int, size as int);
    lemma_mod_bound(st as int, size as int);
    lemma_mod_multiples_basic(st as int / size as int, size as int);
    assert(align_down(st, size) == size * (st as int / size as int));
    lemma_mul_is_commutative(size as int, st as int / size as int);
}

/// A position inside an aligned window lies in that window.
pub proof fn lemma_window_of(a: int, w: int, size: usize)
    requires
        size > 0,
        0 <= w,
        w % size as int == 0,
        w <= a < w + size,
    ensures
        a % size as int == a - w,
        a - a % size as int == w,
{
    lemma_fundamental_div_mod(w, size as int);
    lemma_mul_is_commutative(size as int, w / size as int);
    lemma_fundamental_div_mod_converse(a, size as int, w / size as int, a - w);
}

/// Two different aligned windows do not overlap.
pub proof fn lemma_windows_apart(w1: int, w2: int, size: usize)
    requires
        size > 0,
        0 <= w1 < w2,
        w1 % size as int == 0,
        w2 % size as int == 0,
    ensures
        w1 + size <= w2,
{
    if w2 < w1 + size {
        lemma_window_of(w2, w1, size);
    }
}

/// A slot: `size` bytes that mirror the device bytes `[offset, offset + size)`.
pub struct Buffer {
    /// Rank counter: bumped on every access, renumbered when a slot is reused.
    pub use_cnt: usize,
    /// Device offset where the window starts.
    pub offset: usize,
    /// Window length in bytes.
    pub size: usize,
    /// Whether `data` holds writes that the device has not received.
    pub dirty: bool,
    /// The window's bytes.
    pub data: Vec<u8>,
}

impl Buffer {
    /// The slot's window is non-empty and aligned, and it holds exactly
    /// one window of bytes.
    pub open spec fn wf(&self) -> bool {
        &&& self.size > 0
        &&& self.offset % self.size == 0
        &&& self.data@.len() == self.size
    }

    /// A clean slot over the window at `offset`, holding `data`, the device's
    /// bytes there.
    pub fn new(offset: usize, size: usize, data: Vec<u8>) -> (r: Buffer)
        requires
            size > 0,
            offset % size == 0,
            data@.len() == size,
        ensures
            r.wf(),
            r.offset == offset,
            r.size == size,
            r.use_cnt == 0,
            r.data@ == data@,
            !r.dirty,
    {
        Buffer { use_cnt: 0, offset, size, dirty: false, data }
    }

    /// Copies `data` into the slot's window at the position of `st` inside
    /// its window, as far as the window reaches.
    pub fn write(&mut self, data: &[u8], st: usize) -> (r: CopyResult)
        requires
            old(self).wf(),
        ensures
            final(self).wf(),
            final(self).offset == old(self).offset,
            final(self).size == old(self).size,
            final(self).use_cnt == bumped(old(self).use_cnt),
            final(self).dirty,
            final(self).data@ == overlay(
                old(self).data@,
                local_of(st, old(self).size),
                data@.take(fit_len(st, data@.len() as int, old(self).size)),
            ),
            r == (if overruns(st, data@.len() as int, old(self).size) {
                CopyResult::TooLong
            } else {
                CopyResult::Finish
            }),
    {
        self.use_cnt = self.use_cnt.wrapping_add(1);
        let lo = st % self.size;
        let room = self.size - lo;
        let n = if data.len() <= room { data.len() } else { room };
        let ghost before = self.data@;
        let mut i: usize = 0;
        while i < n
            invariant
                lo + n <= self.size,
                n <= data@.len(),
                i <= n,
                self.data@.len() == before.len(),
                self.size == before.len(),
                self.size == old(self).size,
                self.offset == old(self).offset,
                self.use_cnt == bumped(old(self).use_cnt),
                forall|k: int| 0 <= k < lo ==> self.data@[k] == before[k],
                forall|k: int| lo <= k < lo + i ==> self.data@[k] == data@[k - lo],
                forall|k: int| lo + i <= k < before.len() ==> self.data@[k] == before[k],
            decreases n - i,
        {
            self.data[lo + i] = data[i];
            i = i + 1;
        }
        self.dirty = true;
        assert(self.data@ =~= overlay(before, lo as int, data@.take(n as int)));
        if data.len() > room {
            CopyResult::TooLong
        } else {
            CopyResult::Finish
        }
    }

    /// Copies the slot's bytes from the position of `st` inside its window
    /// into the front of `data`, as far as the window reaches.
    pub fn read(&mut self, data: &mut [u8], st: usize) -> (r: CopyResult)
        requires
            old(self).wf(),
        ensures
            final(self).wf(),
            final(self).offset == old(self).offset,
            final(self).size == old(self).size,
            final(self).use_cnt == bumped(old(self).use_cnt),
            final(self).dirty == old(self).dirty,
            final(self).data@ == old(self).data@,
            final(data)@ == overlay(
                old(data)@,
                0,
                old(self).data@.subrange(
                    local_of(st, old(self).size),
                    local_of(st, old(self).size) + fit_len(st, old(data)@.len() as int, old(self).size),
                ),
            ),
            r == (if overruns(st, old(data)@.len() as int, old(self).size) {
                CopyResult::TooLong
            } else {
                CopyResult::Finish
            }),
    {
        self.use_cnt = self.use_cnt.wrapping_add(1);
        let lo = st % self.size;
        let room = self.size - lo;
        let n = if data.len() <= room { data.len() } else { room };
        let ghost before = data@;
        let mut i: usize = 0;
        while i < n
            invariant
                lo + n <= self.size,
                self.data@.len() == self.size,
                n <= before.len(),
                i <= n,
                data@.len() == before.len(),
                forall|k: int| 0 <= k < i ==> data@[k] == self.data@[lo + k],
                forall|k: int| i <= k < before.len() ==> data@[k] == before[k],
            decreases n - i,
        {
            data[i] = self.data[lo + i];
            i = i + 1;
        }
        assert(data@ =~= overlay(before, 0, self.data@.subrange(lo as int, lo + n)));
        if data.len() > room {
            CopyResult::TooLong
        } else {
            CopyResult::Finish
        }
    }

    /// The write the device must receive before this slot is reused: its
    /// window and bytes when it is dirty, nothing when it is clean.
    pub fn swap(&self) -> (r: Option<Flush>)
        ensures
            self.dirty ==> (r matches Some(f) && f.offset == self.offset && f.data@ == self.data@),
            !self.dirty ==> r is None,
    {
        if self.dirty {
            let data = self.data.clone();
            assert(data@ =~= self.data@);
            Some(Flush { offset: self.offset, data })
        } else {
            None
        }
    }

    /// Reuses the slot for the window holding `offset`; `fresh` is what the
    /// device holds there. Whatever `swap` asked to be written must have been
    /// written before.
    pub fn refresh(&mut self, offset: usize, fresh: Vec<u8>)
        requires
            old(self).wf(),
            fresh@.len() == old(self).size,
        ensures
            final(self).wf(),
            final(self).offset == align_down(offset, old(self).size),
            final(self).size == old(self).size,
            final(self).use_cnt == old(self).use_cnt,
            final(self).data@ == fresh@,
            !final(self).dirty,
    {
        proof {
            lemma_align_down(offset, self.size);
        }
        let start = offset - offset % self.size;
        self.offset = start;
        self.data = fresh;
        self.dirty = false;
    }
}

} // verus!
