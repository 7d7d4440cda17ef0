use fat32_fs::{BlockCache, BlockDevice, CacheMode, FsError, RamDisk};

fn disk(blocks: usize) -> RamDisk {
    let mut image = vec![0u8; blocks * 512];
    for b in 0..blocks {
        for i in 0..512 {
            image[b * 512 + i] = (b as u8).wrapping_mul(16).wrapping_add(i as u8);
        }
    }
    RamDisk::from_image(&image)
}

#[test]
fn get_brings_in_what_the_device_holds() {
    let mut cache = BlockCache::new(disk(8), 4);
    let h = cache.get(3, CacheMode::Read).unwrap();
    assert_eq!(h.block_id(), 3);
    assert_eq!(cache.load(&h, 0, 4), vec![48, 49, 50, 51]);
    assert_eq!(cache.load(&h, 510, 2), vec![46, 47]);
    cache.release(h);
    assert_eq!(cache.len(), 1);
    assert_eq!(cache.probe(3), Some(false));
    assert_eq!(cache.probe(2), None);
}

#[test]
fn get_outside_the_device_fails() {
    let mut cache = BlockCache::new(disk(8), 4);
    assert!(matches!(cache.get(8, CacheMode::Read), Err(FsError::DeviceIoError)));
    assert!(matches!(cache.get(8, CacheMode::Overwrite), Err(FsError::DeviceIoError)));
    assert!(matches!(cache.read_bytes(9, 0, 1), Err(FsError::DeviceIoError)));
    assert_eq!(cache.len(), 0);
}

#[test]
fn overwrite_starts_from_zeros_and_is_dirty() {
    let mut cache = BlockCache::new(disk(8), 4);
    let h = cache.get(5, CacheMode::Overwrite).unwrap();
    assert_eq!(cache.load(&h, 0, 512), vec![0u8; 512]);
    cache.release(h);
    assert_eq!(cache.probe(5), Some(true));
    // the device is untouched until the slot is written back
    assert_eq!(cache.device_ref().read_block(5).unwrap()[0], 80);
    cache.sync_all();
    assert_eq!(cache.device_ref().read_block(5).unwrap(), vec![0u8; 512]);
}

#[test]
fn one_more_block_than_slots_evicts_the_least_recently_used() {
    let m = 4usize;
    let mut cache = BlockCache::new(disk(16), m);
    for b in 0..m {
        assert_eq!(cache.read_bytes(b, 0, 1), Ok(vec![(b as u8) * 16]));
    }
    // block 0 is used again, so block 1 is now the least recently used
    assert!(cache.read_bytes(0, 0, 1).is_ok());
    assert!(cache.read_bytes(m, 0, 1).is_ok());
    assert_eq!(cache.len(), m);
    assert_eq!(cache.probe(1), None);
    for b in [0, 2, 3, 4] {
        assert!(cache.probe(b).is_some());
    }
}

#[test]
fn dirty_victim_is_on_the_device_before_its_slot_is_reused() {
    let mut cache = BlockCache::new(disk(16), 2);
    assert_eq!(cache.write_bytes(7, 10, &[1, 2, 3]), Ok(()));
    assert!(cache.read_bytes(8, 0, 1).is_ok());
    assert_eq!(cache.device_ref().writes().len(), 0);
    assert_eq!(cache.device_ref().read_block(7).unwrap()[10], 122);
    // block 7 is the least recently used and has to leave
    assert!(cache.read_bytes(9, 0, 1).is_ok());
    assert_eq!(cache.probe(7), None);
    assert_eq!(cache.device_ref().writes(), &vec![7usize]);
    assert_eq!(&cache.device_ref().read_block(7).unwrap()[9..14], &[121, 1, 2, 3, 125]);
    // and comes back as it was written
    assert_eq!(cache.read_bytes(7, 10, 3), Ok(vec![1, 2, 3]));
}

#[test]
fn pinned_slots_are_not_evicted() {
    let mut cache = BlockCache::new(disk(16), 2);
    let h0 = cache.get(0, CacheMode::Read).unwrap();
    assert!(cache.read_bytes(1, 0, 1).is_ok());
    // block 0 is older but pinned: block 1 leaves
    assert!(cache.read_bytes(2, 0, 1).is_ok());
    assert!(cache.probe(0).is_some());
    assert_eq!(cache.probe(1), None);
    let h2 = cache.get(2, CacheMode::Read).unwrap();
    assert!(matches!(cache.get(3, CacheMode::Read), Err(FsError::CacheExhausted)));
    assert!(matches!(cache.read_bytes(3, 0, 1), Err(FsError::CacheExhausted)));
    // a block that is held is still served
    assert!(cache.get(0, CacheMode::Read).is_ok());
    cache.release(h2);
    assert!(cache.read_bytes(3, 0, 1).is_ok());
    assert_eq!(cache.probe(2), None);
    cache.release(h0);
}

#[test]
fn a_cache_without_slots_serves_nothing() {
    let mut cache = BlockCache::new(disk(4), 0);
    assert!(matches!(cache.get(0, CacheMode::Read), Err(FsError::CacheExhausted)));
}

#[test]
fn sync_writes_dirty_slots_in_ascending_order() {
    let mut cache = BlockCache::new(disk(16), 8);
    for b in [9usize, 3, 12, 5] {
        assert_eq!(cache.write_bytes(b, 0, &[0xAA]), Ok(()));
    }
    assert!(cache.read_bytes(1, 0, 1).is_ok());
    cache.sync_all();
    assert_eq!(cache.device_ref().writes(), &vec![3usize, 5, 9, 12]);
    for b in [1usize, 3, 5, 9, 12] {
        assert_eq!(cache.probe(b), Some(false));
        let on_device = cache.device_ref().read_block(b).unwrap();
        assert_eq!(cache.read_bytes(b, 0, 512), Ok(on_device));
    }
    assert_eq!(cache.device_ref().read_block(9).unwrap()[0], 0xAA);
    // nothing is dirty, so a second sync writes nothing
    cache.sync_all();
    assert_eq!(cache.device_ref().writes().len(), 4);
}

#[test]
fn store_changes_the_bytes_it_covers() {
    let mut cache = BlockCache::new(disk(4), 2);
    let h = cache.get(2, CacheMode::Read).unwrap();
    cache.store(&h, 508, &[7, 8, 9, 10]);
    assert_eq!(cache.load(&h, 506, 6), vec![26, 27, 7, 8, 9, 10]);
    cache.release(h);
    let dev = {
        cache.sync_all();
        cache.into_device()
    };
    assert_eq!(&dev.read_block(2).unwrap()[506..], &[26, 27, 7, 8, 9, 10]);
    assert_eq!(dev.num_blocks(), 4);
    assert_eq!(dev.to_image().len(), 4 * 512);
}

#[test]
fn ram_disk_pads_a_partial_block() {
    let d = RamDisk::from_image(&[1u8; 700]);
    assert_eq!(d.num_blocks(), 2);
    let last = d.read_block(1).unwrap();
    assert_eq!(&last[..188], &[1u8; 188][..]);
    assert_eq!(&last[188..], &[0u8; 324][..]);
    assert!(matches!(d.read_block(2), Err(FsError::DeviceIoError)));
    let mut d = d;
    assert!(matches!(d.write_block(2, &[0u8; 512]), Err(FsError::DeviceIoError)));
    assert_eq!(d.write_block(0, &[5u8; 512]), Ok(()));
    assert_eq!(d.read_block(0).unwrap(), vec![5u8; 512]);
    assert_eq!(d.writes(), &vec![0usize]);
}
