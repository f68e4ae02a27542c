//! What holds across the pool's operations.
use vstd::prelude::*;
use vstd::arithmetic::div_mod::{lemma_fundamental_div_mod, lemma_mod_bound, lemma_mod_multiples_basic};
use vstd::arithmetic::mul::{lemma_mul_inequality, lemma_mul_is_commutative, lemma_mul_is_distributive_add_other_way};

use crate::buffer::{align_down, lemma_align_down, lemma_window_of, lemma_windows_apart, Flush};
use crate::cache::{
    met, reaches, read_through, registered, sorted_as, wrote, Access, Cache, Device, Refill,
};

verus! {

/// Every slot of every device in a well-formed pool starts on a multiple of
/// the window size.
pub proof fn lemma_slots_aligned(c: Cache)
    requires
        c.wf(),
    ensures
        forall|d: int, j: int|
            0 <= d < c.devices@.len() && 0 <= j < c.devices@[d].slots@.len()
                ==> #[trigger] c.devices@[d].slots@[j].offset % c.buffer_size == 0,
{
    assert forall|d: int, j: int|
        0 <= d < c.devices@.len() && 0 <= j < c.devices@[d].slots@.len()
            implies #[trigger] c.devices@[d].slots@[j].offset % c.buffer_size == 0 by {
        assert(c.devices@[d].wf());
        assert(c.devices@[d].slots@[j].wf());
    }
}

/// Reading back at `st` right after writing `src` there, both of which
/// completed, gives `src`.
pub proof fn lemma_round_trip(
    d0: Device,
    d1: Device,
    d2: Device,
    src: Seq<u8>,
    st: usize,
    dst: Seq<u8>,
    dst2: Seq<u8>,
)
    requires
        d0.wf(),
        d1.wf(),
        d1.size == d0.size,
        d1.slots@.len() == d0.slots@.len(),
        d0.write_post(d1, src, st, Access::Done),
        d1.read_post(d2, dst, dst2, st, Access::Done),
        dst.len() == src.len(),
        st + src.len() <= usize::MAX,
    ensures
        dst2 == src,
{
    let size = d0.size;
    assert forall|k: int| 0 <= k < src.len() implies dst2[k] == src[k] by {
        let a = (st + k) as usize;
        assert(d0.holds(align_down(a, size)));
        let j = choose|j: int| 0 <= j < d0.slots@.len() && #[trigger] d0.slots@[j].offset == align_down(a, size);
        assert(wrote(d0.slots@[j], d1.slots@[j], src, st, src.len() as int, true));
        lemma_align_down(a, size);
        let w = d0.slots@[j].offset as int;
        assert(d1.slots@[j].data@[a - w] == src[k]);
        assert(d1.shows(st + k, dst2[k]));
        assert(d1.slots@[j].offset == a as int - a as int % size as int);
    }
    assert(dst2 =~= src);
}

/// Writing `src` at `st` in one access leaves the slots as writing its
/// first `m` bytes and then the rest does, when `st + m` starts a window.
pub proof fn lemma_split_write(
    d0: Device,
    d1: Device,
    e1: Device,
    e2: Device,
    src: Seq<u8>,
    st: usize,
    m: usize,
)
    requires
        d0.wf(),
        e1.wf(),
        e1.size == d0.size,
        e1.slots@.len() == d0.slots@.len(),
        0 < m < src.len(),
        st + src.len() <= usize::MAX,
        (st + m) % d0.size as int == 0,
        d0.write_post(d1, src, st, Access::Done),
        d0.write_post(e1, src.take(m as int), st, Access::Done),
        e1.write_post(e2, src.skip(m as int), (st + m) as usize, Access::Done),
    ensures
        forall|j: int|
            0 <= j < d0.slots@.len() ==> {
                &&& (#[trigger] e2.slots@[j]).data@ == d1.slots@[j].data@
                &&& e2.slots@[j].dirty == d1.slots@[j].dirty
                &&& e2.slots@[j].use_cnt == d1.slots@[j].use_cnt
                &&& e2.slots@[j].offset == d1.slots@[j].offset
            },
{
    let size = d0.size;
    let mid = (st + m) as usize;
    lemma_align_down(st, size);
    lemma_window_of(mid as int, mid as int, size);
    assert forall|j: int| 0 <= j < d0.slots@.len() implies {
        &&& (#[trigger] e2.slots@[j]).data@ == d1.slots@[j].data@
        &&& e2.slots@[j].dirty == d1.slots@[j].dirty
        &&& e2.slots@[j].use_cnt == d1.slots@[j].use_cnt
        &&& e2.slots@[j].offset == d1.slots@[j].offset
    } by {
        let o = d0.slots@[j];
        assert(o.wf());
        assert(wrote(o, d1.slots@[j], src, st, src.len() as int, true));
        assert(wrote(o, e1.slots@[j], src.take(m as int), st, src.take(m as int).len() as int, true));
        assert(wrote(
            e1.slots@[j],
            e2.slots@[j],
            src.skip(m as int),
            (st + m) as usize,
            src.skip(m as int).len() as int,
            true,
        ));
        let w = o.offset as int;
        assert(met(w, size, st, src.len() as int, true) == (met(w, size, st, m as int, true) || met(
            w,
            size,
            mid,
            src.len() - m,
            true,
        )));
        assert(!(met(w, size, st, m as int, true) && met(w, size, mid, src.len() - m, true)));
        assert forall|k: int| 0 <= k < size implies #[trigger] e2.slots@[j].data@[k] == d1.slots@[j].data@[k] by {
            if mid <= w + k < st + src.len() {
                assert(src.skip(m as int)[w + k - mid] == src[w + k - st]);
            } else if st <= w + k < mid {
                assert(src.take(m as int)[w + k - st] == src[w + k - st]);
            }
        }
        assert(e2.slots@[j].data@ =~= d1.slots@[j].data@);
    }
}

/// Reading at `st` in one access fills `dst` as reading its first `m` bytes
/// and then the rest does, when `st + m` starts a window.
pub proof fn lemma_split_read(
    d0: Device,
    d1: Device,
    e1: Device,
    e2: Device,
    dst: Seq<u8>,
    whole: Seq<u8>,
    head: Seq<u8>,
    head2: Seq<u8>,
    tail: Seq<u8>,
    tail2: Seq<u8>,
    st: usize,
    m: usize,
)
    requires
        d0.wf(),
        e1.wf(),
        e1.size == d0.size,
        e1.slots@.len() == d0.slots@.len(),
        0 < m < dst.len(),
        st + dst.len() <= usize::MAX,
        (st + m) % d0.size as int == 0,
        head == dst.take(m as int),
        tail == dst.skip(m as int),
        d0.read_post(d1, dst, whole, st, Access::Done),
        d0.read_post(e1, head, head2, st, Access::Done),
        e1.read_post(e2, tail, tail2, (st + m) as usize, Access::Done),
    ensures
        whole == head2 + tail2,
{
    let size = d0.size;
    let mid = (st + m) as usize;
    assert forall|k: int| 0 <= k < dst.len() implies whole[k] == (head2 + tail2)[k] by {
        let a = (st + k) as usize;
        assert(d0.holds(align_down(a, size)));
        let j = choose|j: int| 0 <= j < d0.slots@.len() && #[trigger] d0.slots@[j].offset == align_down(a, size);
        assert(d0.shows(st + k, whole[k]));
        assert(read_through(d0.slots@[j], e1.slots@[j], st, head.len() as int, true));
        if k < m {
            assert(d0.shows(st + k, head2[k]));
        } else {
            assert(e1.shows(mid + (k - m), tail2[k - m]));
            assert(e1.slots@[j].offset == align_down(a, size));
        }
    }
    assert(whole =~= head2 + tail2);
}

/// The byte a reader finds at device offset `a` of `disk`: the slot's copy
/// when a slot holds the window of `a`, the device's own byte otherwise.
pub open spec fn seen(dev: Device, disk: Seq<u8>, a: int) -> u8 {
    let w = a - a % dev.size as int;
    if dev.holds(w) {
        let j = choose|j: int| 0 <= j < dev.slots@.len() && #[trigger] dev.slots@[j].offset == w;
        dev.slots@[j].data@[a - w]
    } else {
        disk[a]
    }
}

/// Every slot's window lies on `disk`, and every clean slot holds what
/// `disk` holds there.
pub open spec fn coherent(dev: Device, disk: Seq<u8>) -> bool {
    forall|j: int|
        0 <= j < dev.slots@.len() ==> {
            &&& (#[trigger] dev.slots@[j]).offset + dev.size <= disk.len()
            &&& !dev.slots@[j].dirty ==> dev.slots@[j].data@ == disk.subrange(
                dev.slots@[j].offset as int,
                dev.slots@[j].offset + dev.size,
            )
        }
}

/// `disk` once the write-back `flush` (if any) of `size` bytes has reached it.
pub open spec fn flushed(disk: Seq<u8>, flush: Option<Flush>, size: usize) -> Seq<u8> {
    match flush {
        Some(f) => disk.take(f.offset as int) + f.data@ + disk.skip(f.offset + size),
        None => disk,
    }
}

/// How many bytes an access that answered `r` handled, of `len` asked for.
pub open spec fn handled(r: Access, len: int) -> int {
    match r {
        Access::Done => len,
        Access::Miss { done, .. } => done as int,
    }
}

proof fn lemma_window_start(a: int, size: usize)
    requires
        0 <= a,
        size > 0,
    ensures
        0 <= a % (size as int) < size,
        (a - a % size as int) % size as int == 0,
        0 <= a - a % size as int,
{
    lemma_mod_bound(a, size as int);
    lemma_fundamental_div_mod(a, size as int);
    lemma_mod_multiples_basic(a / size as int, size as int);
    lemma_mul_is_commutative(size as int, a / size as int);
}

proof fn lemma_seen_slot(dev: Device, disk: Seq<u8>, a: int, j: int)
    requires
        dev.wf(),
        0 <= a,
        0 <= j < dev.slots@.len(),
        dev.slots@[j].offset == a - a % dev.size as int,
    ensures
        seen(dev, disk, a) == dev.slots@[j].data@[a - dev.slots@[j].offset],
{
    let w = a - a % dev.size as int;
    let i = choose|i: int| 0 <= i < dev.slots@.len() && #[trigger] dev.slots@[i].offset == w;
    if i != j {
        assert(dev.slots@[i].offset != dev.slots@[j].offset);
    }
}

/// After a write of `src` at `st`, a reader sees `src` over the bytes the
/// write handled and what it saw before everywhere else; clean slots still
/// mirror the device.
pub proof fn lemma_write_seen(d0: Device, d1: Device, src: Seq<u8>, st: usize, r: Access, disk: Seq<u8>)
    requires
        d0.wf(),
        d1.wf(),
        d1.size == d0.size,
        d1.slots@.len() == d0.slots@.len(),
        st + src.len() <= usize::MAX,
        d0.write_post(d1, src, st, r),
    ensures
        forall|a: int|
            0 <= a ==> #[trigger] seen(d1, disk, a) == if st <= a < st + handled(r, src.len() as int) {
                src[a - st]
            } else {
                seen(d0, disk, a)
            },
        coherent(d0, disk) ==> coherent(d1, disk),
{
    let size = d0.size;
    let n = handled(r, src.len() as int);
    let fin = r == Access::Done;
    assert forall|j: int| 0 <= j < d0.slots@.len() implies #[trigger] wrote(d0.slots@[j], d1.slots@[j], src, st, n, fin) by {
        if fin {
            assert(wrote(d0.slots@[j], d1.slots@[j], src, st, src.len() as int, true));
        } else {
            let done = handled(r, src.len() as int);
            assert(wrote(d0.slots@[j], d1.slots@[j], src, st, done, false));
        }
    }
    assert forall|a: int| 0 <= a implies #[trigger] seen(d1, disk, a) == if st <= a < st + n {
        src[a - st]
    } else {
        seen(d0, disk, a)
    } by {
        let w = a - a % size as int;
        if d0.holds(w) {
            let j = choose|j: int| 0 <= j < d0.slots@.len() && #[trigger] d0.slots@[j].offset == w;
            assert(d0.slots@[j].wf());
            assert(wrote(d0.slots@[j], d1.slots@[j], src, st, n, fin));
            lemma_seen_slot(d0, disk, a, j);
            lemma_seen_slot(d1, disk, a, j);
            lemma_window_start(a, size);
            assert(d1.slots@[j].data@[a - w] == if st <= w + (a - w) < st + n {
                src[w + (a - w) - st]
            } else {
                d0.slots@[j].data@[a - w]
            });
        } else {
            if st <= a < st + n {
                assert(d0.holds(align_down(a as usize, size)));
            }
            if d1.holds(w) {
                let j = choose|j: int| 0 <= j < d1.slots@.len() && #[trigger] d1.slots@[j].offset == w;
                assert(wrote(d0.slots@[j], d1.slots@[j], src, st, n, fin));
                assert(d0.slots@[j].offset == w);
            }
        }
    }
    if coherent(d0, disk) {
        assert forall|j: int| 0 <= j < d1.slots@.len() implies {
            &&& (#[trigger] d1.slots@[j]).offset + d1.size <= disk.len()
            &&& !d1.slots@[j].dirty ==> d1.slots@[j].data@ == disk.subrange(
                d1.slots@[j].offset as int,
                d1.slots@[j].offset + d1.size,
            )
        } by {
            let o = d0.slots@[j];
            assert(o.wf());
            assert(wrote(o, d1.slots@[j], src, st, n, fin));
            if !d1.slots@[j].dirty {
                let w = o.offset as int;
                lemma_align_down(st, size);
                assert forall|k: int| 0 <= k < size implies #[trigger] d1.slots@[j].data@[k] == o.data@[k] by {
                    if st <= w + k < st + n {
                        let aw = align_down(st, size);
                        if w < aw {
                            lemma_windows_apart(w, aw, size);
                        }
                        assert(met(w, size, st, n, fin));
                    }
                }
                assert(d1.slots@[j].data@ =~= o.data@);
            }
        }
    }
}

/// Sorting the slots changes nothing a reader sees, and clean slots still
/// mirror the device.
proof fn lemma_sorted_seen(d0: Device, d1: Device, p: Seq<int>, disk: Seq<u8>)
    requires
        d0.wf(),
        d1.wf(),
        d1.size == d0.size,
        sorted_as(d0.slots@, d1.slots@, p),
    ensures
        coherent(d0, disk) ==> coherent(d1, disk),
        forall|a: int| 0 <= a ==> #[trigger] seen(d1, disk, a) == seen(d0, disk, a),
{
    let size = d0.size;
    let n = d0.slots@.len() as int;
    if coherent(d0, disk) {
        assert forall|j: int| 0 <= j < d1.slots@.len() implies {
            &&& (#[trigger] d1.slots@[j]).offset + d1.size <= disk.len()
            &&& !d1.slots@[j].dirty ==> d1.slots@[j].data@ == disk.subrange(
                d1.slots@[j].offset as int,
                d1.slots@[j].offset + d1.size,
            )
        } by {
            assert(0 <= p[j] < n);
            let o = d0.slots@[p[j]];
            assert(o.offset + d0.size <= disk.len());
        }
    }
    assert forall|a: int| 0 <= a implies #[trigger] seen(d1, disk, a) == seen(d0, disk, a) by {
        let w = a - a % size as int;
        lemma_window_start(a, size);
        if d0.holds(w) {
            let j0 = choose|j: int| 0 <= j < d0.slots@.len() && #[trigger] d0.slots@[j].offset == w;
            assert(reaches(p, j0, n));
            let k = choose|k: int| 0 <= k < n && #[trigger] p[k] == j0;
            assert(d1.slots@[k].offset == w);
            lemma_seen_slot(d0, disk, a, j0);
            lemma_seen_slot(d1, disk, a, k);
        } else if d1.holds(w) {
            let k = choose|k: int| 0 <= k < d1.slots@.len() && #[trigger] d1.slots@[k].offset == w;
            assert(0 <= p[k] < n);
            assert(d0.slots@[p[k]].offset == w);
        }
    }
}

/// After reusing a slot (sorting and renumbering ranks, writing back the victim when it
/// was dirty, loading the window into it), a reader sees what it saw before,
/// and clean slots still mirror the device.
pub proof fn lemma_reuse_seen(
    d0: Device,
    d1: Device,
    d2: Device,
    r: Refill,
    window: usize,
    disk: Seq<u8>,
)
    requires
        d0.wf(),
        coherent(d0, disk),
        d0.evict_post(d1, r),
        align_down(window, d0.size) + d0.size <= disk.len(),
        d1.refill_post(
            d2,
            r.slot,
            window,
            flushed(disk, r.flush, d0.size).subrange(
                align_down(window, d0.size),
                align_down(window, d0.size) + d0.size,
            ),
            true,
        ),
    ensures
        flushed(disk, r.flush, d0.size).len() == disk.len(),
        coherent(d2, flushed(disk, r.flush, d0.size)),
        forall|a: int|
            0 <= a < disk.len() ==> #[trigger] seen(d2, flushed(disk, r.flush, d0.size), a) == seen(
                d0,
                disk,
                a,
            ),
{
    let size = d0.size;
    let p = choose|p: Seq<int>| #[trigger] sorted_as(d0.slots@, d1.slots@, p);
    lemma_sorted_seen(d0, d1, p, disk);
    let v = r.slot as int;
    let old_v = d1.slots@[v];
    let wv = old_v.offset as int;
    let wn = align_down(window, size);
    let disk2 = flushed(disk, r.flush, size);
    assert(old_v.wf());
    lemma_align_down(window, size);
    // the victim's window on the device now holds what the victim held
    assert(disk2.len() == disk.len());
    assert(disk2.subrange(wv, wv + size) =~= old_v.data@);
    assert forall|a: int| 0 <= a < disk.len() && !(wv <= a < wv + size) implies disk2[a] == disk[a] by {}
    assert forall|j: int| 0 <= j < d2.slots@.len() implies {
        &&& (#[trigger] d2.slots@[j]).offset + d2.size <= disk2.len()
        &&& !d2.slots@[j].dirty ==> d2.slots@[j].data@ == disk2.subrange(
            d2.slots@[j].offset as int,
            d2.slots@[j].offset + d2.size,
        )
    } by {
        if j != v {
            assert(d2.slots@[j] == d1.slots@[j]);
            let o = d1.slots@[j];
            assert(o.offset != old_v.offset);
            assert(o.wf());
            if (o.offset as int) < wv {
                lemma_windows_apart(o.offset as int, wv, size);
            } else {
                lemma_windows_apart(wv, o.offset as int, size);
            }
            if !o.dirty {
                assert(d2.slots@[j].data@ =~= disk2.subrange(o.offset as int, o.offset + size));
            }
        }
    }
    assert forall|a: int| 0 <= a < disk.len() implies #[trigger] seen(d2, disk2, a) == seen(d0, disk, a) by {
        assert(seen(d1, disk, a) == seen(d0, disk, a));
        let w = a - a % size as int;
        lemma_window_start(a, size);
        if w != wv {
            if w < wv {
                lemma_windows_apart(w, wv, size);
            } else {
                lemma_windows_apart(wv, w, size);
            }
            assert(disk2[a] == disk[a]);
        } else {
            assert(disk2.subrange(wv, wv + size)[a - wv] == disk2[a]);
            lemma_seen_slot(d1, disk, a, v);
        }
        if w == wn {
            lemma_seen_slot(d2, disk2, a, v);
            assert(d2.slots@[v].data@[a - wn] == disk2[a]);
            if w != wv && d1.holds(w) {
                let j = choose|j: int| 0 <= j < d1.slots@.len() && #[trigger] d1.slots@[j].offset == w;
                assert(d1.slots@[j].offset == w);
            }
        } else if w == wv {
            if d2.holds(w) {
                let j = choose|j: int| 0 <= j < d2.slots@.len() && #[trigger] d2.slots@[j].offset == w;
                assert(d2.slots@[j] == d1.slots@[j]);
                assert(d1.slots@[j].offset == w);
            }
        } else {
            if d1.holds(w) {
                let j = choose|j: int| 0 <= j < d1.slots@.len() && #[trigger] d1.slots@[j].offset == w;
                assert(d2.slots@[j] == d1.slots@[j]);
                lemma_seen_slot(d1, disk, a, j);
                lemma_seen_slot(d2, disk2, a, j);
            } else if d2.holds(w) {
                let j = choose|j: int| 0 <= j < d2.slots@.len() && #[trigger] d2.slots@[j].offset == w;
                assert(d2.slots@[j] == d1.slots@[j]);
                assert(d1.slots@[j].offset == w);
            }
        }
    }
}

/// A read fills the bytes it handled with what a reader sees from `st` on,
/// leaves the rest of `dst` as it was, and changes nothing a reader sees;
/// clean slots still mirror the device.
pub proof fn lemma_read_seen(
    d0: Device,
    d1: Device,
    dst: Seq<u8>,
    dst2: Seq<u8>,
    st: usize,
    r: Access,
    disk: Seq<u8>,
)
    requires
        d0.wf(),
        d1.wf(),
        d1.size == d0.size,
        d1.slots@.len() == d0.slots@.len(),
        st + dst.len() <= usize::MAX,
        d0.read_post(d1, dst, dst2, st, r),
    ensures
        dst2.len() == dst.len(),
        forall|k: int|
            0 <= k < dst.len() ==> #[trigger] dst2[k] == if k < handled(r, dst.len() as int) {
                seen(d0, disk, st + k)
            } else {
                dst[k]
            },
        forall|a: int| 0 <= a ==> #[trigger] seen(d1, disk, a) == seen(d0, disk, a),
        coherent(d0, disk) ==> coherent(d1, disk),
{
    let size = d0.size;
    let n = handled(r, dst.len() as int);
    let fin = r == Access::Done;
    assert forall|j: int| 0 <= j < d0.slots@.len() implies #[trigger] read_through(d0.slots@[j], d1.slots@[j], st, n, fin) by {
        if fin {
            assert(read_through(d0.slots@[j], d1.slots@[j], st, dst.len() as int, true));
        } else {
            assert(read_through(d0.slots@[j], d1.slots@[j], st, n, false));
        }
    }
    assert forall|k: int| 0 <= k < dst.len() implies #[trigger] dst2[k] == if k < n {
        seen(d0, disk, st + k)
    } else {
        dst[k]
    } by {
        if k < n {
            let a = (st + k) as usize;
            assert(d0.holds(align_down(a, size)));
            let j = choose|j: int| 0 <= j < d0.slots@.len() && #[trigger] d0.slots@[j].offset == align_down(a, size);
            lemma_seen_slot(d0, disk, st + k, j);
            assert(d0.shows(st + k, dst2[k]));
        }
    }
    assert forall|a: int| 0 <= a implies #[trigger] seen(d1, disk, a) == seen(d0, disk, a) by {
        let w = a - a % size as int;
        lemma_window_start(a, size);
        if d0.holds(w) {
            let j = choose|j: int| 0 <= j < d0.slots@.len() && #[trigger] d0.slots@[j].offset == w;
            assert(read_through(d0.slots@[j], d1.slots@[j], st, n, fin));
            lemma_seen_slot(d0, disk, a, j);
            lemma_seen_slot(d1, disk, a, j);
        } else if d1.holds(w) {
            let j = choose|j: int| 0 <= j < d1.slots@.len() && #[trigger] d1.slots@[j].offset == w;
            assert(read_through(d0.slots@[j], d1.slots@[j], st, n, fin));
        }
    }
    if coherent(d0, disk) {
        assert forall|j: int| 0 <= j < d1.slots@.len() implies {
            &&& (#[trigger] d1.slots@[j]).offset + d1.size <= disk.len()
            &&& !d1.slots@[j].dirty ==> d1.slots@[j].data@ == disk.subrange(
                d1.slots@[j].offset as int,
                d1.slots@[j].offset + d1.size,
            )
        } by {
            assert(read_through(d0.slots@[j], d1.slots@[j], st, n, fin));
        }
    }
}

/// A device registered from `disk` shows `disk` to readers, and its slots
/// mirror it.
pub proof fn lemma_registered_seen(dev: Device, id: usize, size: usize, images: Seq<Vec<u8>>, disk: Seq<u8>)
    requires
        dev.wf(),
        registered(dev, id, size, images),
        images.len() * size <= disk.len(),
        forall|i: int|
            0 <= i < images.len() ==> (#[trigger] images[i])@ == disk.subrange(i * size, i * size + size),
    ensures
        coherent(dev, disk),
        forall|a: int| 0 <= a < disk.len() ==> #[trigger] seen(dev, disk, a) == disk[a],
{
    assert forall|j: int| 0 <= j < dev.slots@.len() implies (#[trigger] dev.slots@[j]).offset + dev.size <= disk.len() by {
        lemma_mul_inequality(j + 1, images.len() as int, size as int);
        lemma_mul_is_distributive_add_other_way(size as int, j, 1);
    }
    assert forall|a: int| 0 <= a < disk.len() implies #[trigger] seen(dev, disk, a) == disk[a] by {
        let w = a - a % size as int;
        lemma_window_start(a, size);
        if dev.holds(w) {
            let j = choose|j: int| 0 <= j < dev.slots@.len() && #[trigger] dev.slots@[j].offset == w;
            lemma_seen_slot(dev, disk, a, j);
            assert(images[j]@ == disk.subrange(j * size, j * size + size));
        }
    }
}

/// Reading back at `st` what was written there gives what was written, with
/// a slot reused (its ranks renumbered, the victim written back when dirty,
/// another window loaded) between the write and the read.
pub proof fn lemma_round_trip_across_reuse(
    d0: Device,
    d1: Device,
    d2: Device,
    d3: Device,
    d4: Device,
    src: Seq<u8>,
    st: usize,
    r: Refill,
    window: usize,
    disk: Seq<u8>,
    dst: Seq<u8>,
    dst2: Seq<u8>,
)
    requires
        d0.wf(),
        coherent(d0, disk),
        st + src.len() <= disk.len(),
        st + src.len() <= usize::MAX,
        d0.write_post(d1, src, st, Access::Done),
        d1.wf(),
        d1.size == d0.size,
        d1.slots@.len() == d0.slots@.len(),
        d1.evict_post(d2, r),
        align_down(window, d0.size) + d0.size <= disk.len(),
        d2.refill_post(
            d3,
            r.slot,
            window,
            flushed(disk, r.flush, d0.size).subrange(
                align_down(window, d0.size),
                align_down(window, d0.size) + d0.size,
            ),
            true,
        ),
        dst.len() == src.len(),
        d3.read_post(d4, dst, dst2, st, Access::Done),
        d4.wf(),
        d4.size == d0.size,
        d4.slots@.len() == d0.slots@.len(),
    ensures
        dst2 == src,
{
    lemma_write_seen(d0, d1, src, st, Access::Done, disk);
    lemma_reuse_seen(d1, d2, d3, r, window, disk);
    let disk2 = flushed(disk, r.flush, d0.size);
    lemma_read_seen(d3, d4, dst, dst2, st, Access::Done, disk2);
    assert forall|k: int| 0 <= k < src.len() implies dst2[k] == src[k] by {
        assert(seen(d3, disk2, st + k) == seen(d1, disk, st + k));
        assert(seen(d1, disk, st + k) == src[k]);
    }
    assert(dst2 =~= src);
}

} // verus!
