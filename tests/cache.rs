use block_cache::{Access, Buffer, Cache, CacheBuffer, CopyResult, Transfer};

fn device(len: usize) -> Vec<u8> {
    (0..len).map(|i| i as u8).collect()
}

fn register(cache: &mut Cache, id: usize, dev: &[u8]) {
    let size = cache.buffer_size;
    let images: Vec<Vec<u8>> = (0..cache.cache_size)
        .map(|i| {
            let w = cache.initial_window(i);
            dev[w..w + size].to_vec()
        })
        .collect();
    cache.add_buffer(id, images);
}

fn bring_in(cache: &mut Cache, id: usize, dev: &mut Vec<u8>, window: usize, flushes: &mut Vec<(usize, Vec<u8>)>) {
    let size = cache.buffer_size;
    let r = cache.evict(id);
    for t in r.transfers(window, size) {
        match t {
            Transfer::Store(f) => {
                dev[f.offset..f.offset + f.data.len()].copy_from_slice(&f.data);
                flushes.push((f.offset, f.data));
            }
            Transfer::Load { slot, offset } => {
                let fresh = dev[offset..offset + size].to_vec();
                assert!(cache.refill(id, slot, offset, fresh));
            }
        }
    }
}

fn write_through(cache: &mut Cache, id: usize, dev: &mut Vec<u8>, data: &[u8], st: usize) -> Vec<(usize, Vec<u8>)> {
    let mut flushes = Vec::new();
    let mut pos = 0;
    loop {
        match cache.write(id, &data[pos..], st + pos) {
            Access::Done => return flushes,
            Access::Miss { done, window } => {
                pos += done;
                bring_in(cache, id, dev, window, &mut flushes);
            }
        }
    }
}

fn read_through(cache: &mut Cache, id: usize, dev: &mut Vec<u8>, data: &mut [u8], st: usize) {
    let mut flushes = Vec::new();
    let mut pos = 0;
    loop {
        match cache.read(id, &mut data[pos..], st + pos) {
            Access::Done => return,
            Access::Miss { done, window } => {
                pos += done;
                bring_in(cache, id, dev, window, &mut flushes);
            }
        }
    }
}

fn flush_all(cache: &Cache, dev: &mut Vec<u8>) {
    for d in cache.devices.iter() {
        for s in d.slots.iter() {
            if let Some(f) = s.swap() {
                dev[f.offset..f.offset + f.data.len()].copy_from_slice(&f.data);
            }
        }
    }
}

#[test]
fn slot_write_inside_window() {
    let mut b = Buffer::new(8, 4, vec![8, 9, 10, 11]);
    assert_eq!(b.write(&[1, 2], 9), CopyResult::Finish);
    assert_eq!(b.data, vec![8, 1, 2, 11]);
    assert!(b.dirty);
    assert_eq!(b.use_cnt, 1);
    assert_eq!(b.offset, 8);
}

#[test]
fn slot_write_past_window() {
    let mut b = Buffer::new(0, 4, vec![0, 1, 2, 3]);
    assert_eq!(b.write(&[7, 7, 7], 2), CopyResult::TooLong);
    assert_eq!(b.data, vec![0, 1, 7, 7]);
}

#[test]
fn slot_write_to_window_end_finishes() {
    let mut b = Buffer::new(0, 4, vec![0, 1, 2, 3]);
    assert_eq!(b.write(&[5, 6], 2), CopyResult::Finish);
    assert_eq!(b.data, vec![0, 1, 5, 6]);
}

#[test]
fn slot_read_past_window() {
    let mut b = Buffer::new(4, 4, vec![4, 5, 6, 7]);
    let mut out = [0u8; 5];
    assert_eq!(b.read(&mut out, 6), CopyResult::TooLong);
    assert_eq!(out, [6, 7, 0, 0, 0]);
    assert!(!b.dirty);
    assert_eq!(b.use_cnt, 1);
}

#[test]
fn slot_rank_counter_wraps() {
    let mut b = Buffer::new(0, 2, vec![0, 0]);
    b.use_cnt = usize::MAX;
    let mut out = [0u8; 1];
    b.read(&mut out, 0);
    assert_eq!(b.use_cnt, 0);
}

#[test]
fn slot_swap_and_refresh() {
    let mut b = Buffer::new(0, 4, vec![0, 1, 2, 3]);
    assert!(b.swap().is_none());
    b.write(&[9], 1);
    let f = b.swap().unwrap();
    assert_eq!(f.offset, 0);
    assert_eq!(f.data, vec![0, 9, 2, 3]);
    b.refresh(13, vec![12, 13, 14, 15]);
    assert_eq!(b.offset, 12);
    assert_eq!(b.data, vec![12, 13, 14, 15]);
    assert!(!b.dirty);
    assert!(b.swap().is_none());
}

#[test]
fn register_covers_initial_windows() {
    let dev = device(16);
    let mut cache = Cache::new(3, 4);
    register(&mut cache, 5, &dev);
    let d = &cache.devices[0];
    assert_eq!(d.id, 5);
    assert_eq!(d.slots.len(), 3);
    for (i, s) in d.slots.iter().enumerate() {
        assert_eq!(s.offset, i * 4);
        assert_eq!(s.offset % s.size, 0);
        assert_eq!(s.data, dev[i * 4..i * 4 + 4].to_vec());
        assert_eq!(s.use_cnt, 0);
        assert!(!s.dirty);
    }
}

#[test]
fn register_again_replaces_device() {
    let dev = device(16);
    let mut cache = Cache::new(2, 4);
    register(&mut cache, 1, &dev);
    register(&mut cache, 2, &dev);
    let other = vec![7u8; 16];
    register(&mut cache, 1, &other);
    assert_eq!(cache.devices.len(), 2);
    assert_eq!(cache.devices[0].id, 1);
    assert_eq!(cache.devices[0].slots[0].data, vec![7, 7, 7, 7]);
    assert_eq!(cache.devices[1].slots[0].data, vec![0, 1, 2, 3]);
}

#[test]
fn two_slot_write_then_flush() {
    let mut dev = device(16);
    let mut cache = Cache::new(2, 4);
    register(&mut cache, 0, &dev);
    let flushes = write_through(&mut cache, 0, &mut dev, &[9, 9, 9, 9, 9, 9], 2);
    assert!(flushes.is_empty());
    flush_all(&cache, &mut dev);
    assert_eq!(dev[..11].to_vec(), vec![0, 1, 9, 9, 9, 9, 9, 9, 8, 9, 10]);
}

#[test]
fn write_stops_at_missing_window() {
    let dev = device(32);
    let mut cache = Cache::new(2, 4);
    register(&mut cache, 0, &dev);
    assert_eq!(cache.write(0, &[1, 2, 3, 4, 5, 6, 7], 6), Access::Miss { done: 2, window: 8 });
    assert_eq!(cache.devices[0].slots[1].data, vec![4, 5, 1, 2]);
    assert_eq!(cache.devices[0].slots[0].data, vec![0, 1, 2, 3]);
}

#[test]
fn empty_access_to_missing_window_misses() {
    let dev = device(32);
    let mut cache = Cache::new(2, 4);
    register(&mut cache, 0, &dev);
    let mut out: [u8; 0] = [];
    assert_eq!(cache.read(0, &mut out, 21), Access::Miss { done: 0, window: 20 });
    assert_eq!(cache.read(0, &mut out, 5), Access::Done);
}

#[test]
fn round_trip_across_evictions() {
    let mut dev = device(64);
    let mut cache = Cache::new(2, 4);
    register(&mut cache, 3, &dev);
    let data: Vec<u8> = (100..113).collect();
    write_through(&mut cache, 3, &mut dev, &data, 5);
    let mut out = vec![0u8; data.len()];
    read_through(&mut cache, 3, &mut dev, &mut out, 5);
    assert_eq!(out, data);
    flush_all(&cache, &mut dev);
    assert_eq!(dev[5..18].to_vec(), data);
    assert_eq!(dev[4], 4);
    assert_eq!(dev[18], 18);
}

#[test]
fn split_write_matches_whole_write() {
    let data: Vec<u8> = (50..61).collect();
    let mut dev_a = device(32);
    let mut a = Cache::new(3, 4);
    register(&mut a, 0, &dev_a);
    write_through(&mut a, 0, &mut dev_a, &data, 1);
    let mut dev_b = device(32);
    let mut b = Cache::new(3, 4);
    register(&mut b, 0, &dev_b);
    write_through(&mut b, 0, &mut dev_b, &data[..3], 1);
    write_through(&mut b, 0, &mut dev_b, &data[3..7], 4);
    write_through(&mut b, 0, &mut dev_b, &data[7..], 8);
    for j in 0..3 {
        assert_eq!(a.devices[0].slots[j].data, b.devices[0].slots[j].data);
        assert_eq!(a.devices[0].slots[j].use_cnt, b.devices[0].slots[j].use_cnt);
        assert_eq!(a.devices[0].slots[j].dirty, b.devices[0].slots[j].dirty);
    }
    flush_all(&a, &mut dev_a);
    flush_all(&b, &mut dev_b);
    assert_eq!(dev_a, dev_b);
}

#[test]
fn split_read_matches_whole_read() {
    let dev = device(32);
    let mut a = Cache::new(3, 4);
    register(&mut a, 0, &dev);
    let mut whole = vec![0u8; 9];
    assert_eq!(a.read(0, &mut whole, 2), Access::Done);
    let mut first = vec![0u8; 2];
    let mut second = vec![0u8; 7];
    assert_eq!(a.read(0, &mut first, 2), Access::Done);
    assert_eq!(a.read(0, &mut second, 4), Access::Done);
    first.extend_from_slice(&second);
    assert_eq!(whole, first);
    assert_eq!(whole, (2..11).collect::<Vec<u8>>());
}

#[test]
fn eviction_picks_smallest_rank() {
    let dev = device(64);
    let mut cache = Cache::new(3, 4);
    register(&mut cache, 0, &dev);
    let mut out = [0u8; 1];
    cache.read(0, &mut out, 0);
    cache.read(0, &mut out, 0);
    cache.read(0, &mut out, 8);
    cache.read(0, &mut out, 5);
    cache.read(0, &mut out, 5);
    cache.read(0, &mut out, 5);
    // counters: window 0 -> 2, window 4 -> 3, window 8 -> 1
    let r = cache.evict(0);
    assert_eq!(r.slot, 0);
    assert!(r.flush.is_none());
    let offsets: Vec<usize> = cache.devices[0].slots.iter().map(|s| s.offset).collect();
    assert_eq!(offsets, vec![8, 0, 4]);
    let ranks: Vec<usize> = cache.devices[0].slots.iter().map(|s| s.use_cnt).collect();
    assert_eq!(ranks, vec![0, 1, 2]);
}

#[test]
fn eviction_tie_takes_earliest() {
    let dev = device(64);
    let mut cache = Cache::new(3, 4);
    register(&mut cache, 0, &dev);
    let mut out = [0u8; 1];
    cache.read(0, &mut out, 0);
    let r = cache.evict(0);
    assert_eq!(r.slot, 0);
    let offsets: Vec<usize> = cache.devices[0].slots.iter().map(|s| s.offset).collect();
    assert_eq!(offsets, vec![4, 8, 0]);
    let ranks: Vec<usize> = cache.devices[0].slots.iter().map(|s| s.use_cnt).collect();
    assert_eq!(ranks, vec![0, 1, 2]);
}

#[test]
fn dirty_victim_is_flushed_once_before_reload() {
    let mut dev = device(32);
    let mut cache = Cache::new(2, 4);
    register(&mut cache, 0, &dev);
    cache.write(0, &[42], 1);
    let mut out = [0u8; 1];
    cache.read(0, &mut out, 4);
    cache.read(0, &mut out, 4);
    let flushes = write_through(&mut cache, 0, &mut dev, &[7], 20);
    assert_eq!(flushes, vec![(0, vec![0, 42, 2, 3])]);
    assert_eq!(dev[1], 42);
    assert_eq!(dev[20], 20);
    flush_all(&cache, &mut dev);
    assert_eq!(dev[20], 7);
}

#[test]
fn refill_refuses_window_held_elsewhere() {
    let dev = device(16);
    let mut cache = Cache::new(2, 4);
    register(&mut cache, 0, &dev);
    assert!(!cache.refill(0, 0, 6, vec![1, 1, 1, 1]));
    assert_eq!(cache.devices[0].slots[0].data, vec![0, 1, 2, 3]);
    assert!(cache.refill(0, 1, 9, vec![8, 9, 10, 11]));
    assert_eq!(cache.devices[0].slots[1].offset, 8);
}

#[test]
fn devices_are_kept_apart() {
    let dev_a = device(16);
    let dev_b = vec![200u8; 16];
    let mut cache = Cache::new(2, 4);
    register(&mut cache, 1, &dev_a);
    register(&mut cache, 2, &dev_b);
    cache.write(2, &[5, 5], 3);
    let mut out = [0u8; 3];
    cache.read(1, &mut out, 2);
    assert_eq!(out, [2, 3, 4]);
    cache.read(2, &mut out, 2);
    assert_eq!(out, [200, 5, 5]);
}

#[test]
fn trait_calls_reach_the_pool() {
    let dev = device(16);
    let mut cache = Cache::new(2, 4);
    register(&mut cache, 0, &dev);
    let mut out = [0u8; 2];
    assert_eq!(CacheBuffer::write(&mut cache, 0, &[9, 8], 3), Access::Done);
    assert_eq!(CacheBuffer::read(&mut cache, 0, &mut out, 3), Access::Done);
    assert_eq!(out, [9, 8]);
}

#[test]
fn transfers_store_before_load() {
    let dev = device(32);
    let mut cache = Cache::new(2, 4);
    register(&mut cache, 0, &dev);
    cache.write(0, &[1], 5);
    let mut out = [0u8; 1];
    cache.read(0, &mut out, 0);
    cache.read(0, &mut out, 0);
    let t = cache.evict(0).transfers(13, 4);
    assert_eq!(t.len(), 2);
    match &t[0] {
        Transfer::Store(f) => {
            assert_eq!(f.offset, 4);
            assert_eq!(f.data, vec![4, 1, 6, 7]);
        }
        _ => panic!("write-back must come first"),
    }
    assert!(matches!(t[1], Transfer::Load { slot: 0, offset: 12 }));
}

#[test]
fn transfers_clean_victim_only_loads() {
    let dev = device(32);
    let mut cache = Cache::new(2, 4);
    register(&mut cache, 0, &dev);
    let t = cache.evict(0).transfers(9, 4);
    assert_eq!(t.len(), 1);
    assert!(matches!(t[0], Transfer::Load { slot: 0, offset: 8 }));
}

#[test]
fn later_ties_follow_the_last_sort() {
    let dev = device(64);
    let mut cache = Cache::new(3, 4);
    register(&mut cache, 0, &dev);
    let mut out = [0u8; 1];
    cache.read(0, &mut out, 0);
    cache.read(0, &mut out, 0);
    cache.read(0, &mut out, 8);
    let r = cache.evict(0);
    assert_eq!(cache.devices[0].slots[r.slot].offset, 4);
    assert!(cache.refill(0, r.slot, 12, dev[12..16].to_vec()));
    cache.read(0, &mut out, 12);
    cache.read(0, &mut out, 12);
    let r = cache.evict(0);
    assert_eq!(cache.devices[0].slots[r.slot].offset, 8);
    assert!(cache.refill(0, r.slot, 16, dev[16..20].to_vec()));
    cache.read(0, &mut out, 16);
    let r = cache.evict(0);
    assert_eq!(cache.devices[0].slots[r.slot].offset, 16);
    let offsets: Vec<usize> = cache.devices[0].slots.iter().map(|s| s.offset).collect();
    assert_eq!(offsets, vec![16, 12, 0]);
}
