//! The interface a cache offers to its users.
use vstd::prelude::*;

use crate::cache::{Access, Cache, Device};

verus! {

/// A block cache over byte ranges of devices.
pub trait CacheBuffer: Sized {
    /// Whether the cache can serve device `device_id`.
    spec fn ready(&self, device_id: usize) -> bool;

    /// What a read of device `device_id` into `dst` (which becomes `dst2`)
    /// from `st` that answered `r` leaves of the cache (now `new`) and of
    /// the bytes read.
    spec fn read_done(&self, new: Self, device_id: usize, dst: Seq<u8>, dst2: Seq<u8>, st: usize, r: Access) -> bool;

    /// What a write of `src` to device `device_id` at `st` that answered `r`
    /// leaves of the cache (now `new`).
    spec fn write_done(&self, new: Self, device_id: usize, src: Seq<u8>, st: usize, r: Access) -> bool;

    /// Reads what device `device_id` holds from `st` on into `data`, as far as
    /// the cache holds it.
    fn read(&mut self, device_id: usize, data: &mut [u8], st: usize) -> (r: Access)
        requires
            old(self).ready(device_id),
            st + old(data)@.len() <= usize::MAX,
        ensures
            final(self).ready(device_id),
            final(data)@.len() == old(data)@.len(),
            old(self).read_done(*final(self), device_id, old(data)@, final(data)@, st, r),
    ;

    /// Writes `data` to device `device_id` at `st`, as far as the cache holds
    /// the windows it covers.
    fn write(&mut self, device_id: usize, data: &[u8], st: usize) -> (r: Access)
        requires
            old(self).ready(device_id),
            st + data@.len() <= usize::MAX,
        ensures
            final(self).ready(device_id),
            old(self).write_done(*final(self), device_id, data@, st, r),
    ;
}

impl CacheBuffer for Cache {
    open spec fn ready(&self, device_id: usize) -> bool {
        self.wf() && self.has(device_id)
    }

    open spec fn read_done(&self, new: Self, device_id: usize, dst: Seq<u8>, dst2: Seq<u8>, st: usize, r: Access) -> bool {
        self.only(new, device_id, |o: Device, n: Device| o.read_post(n, dst, dst2, st, r))
    }

    open spec fn write_done(&self, new: Self, device_id: usize, src: Seq<u8>, st: usize, r: Access) -> bool {
        self.only(new, device_id, |o: Device, n: Device| o.write_post(n, src, st, r))
    }

    fn read(&mut self, device_id: usize, data: &mut [u8], st: usize) -> (r: Access) {
        let r = Cache::read(self, device_id, data, st);
        proof {
            let d = choose|d: int| 0 <= d < old(self).devices@.len() && #[trigger] old(self).devices@[d].id == device_id;
            assert(self.devices@[d].id == device_id);
        }
        r
    }

    fn write(&mut self, device_id: usize, data: &[u8], st: usize) -> (r: Access) {
        let r = Cache::write(self, device_id, data, st);
        proof {
            let d = choose|d: int| 0 <= d < old(self).devices@.len() && #[trigger] old(self).devices@[d].id == device_id;
            assert(self.devices@[d].id == device_id);
        }
        r
    }
}

} // verus!
