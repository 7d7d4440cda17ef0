use fat32_fs::{BlockCache, BlockDevice, ClusterChain, FsError, RamDisk, FAT};
use fat32_fs::parse_boot_params;

fn put32(image: &mut [u8], at: usize, v: u32) {
    image[at..at + 4].copy_from_slice(&v.to_le_bytes());
}

fn image(total_sectors: u32, sectors_per_cluster: u8) -> Vec<u8> {
    let mut image = vec![0u8; total_sectors as usize * 512];
    image[11] = 0;
    image[12] = 2;
    image[13] = sectors_per_cluster;
    image[14] = 4;
    image[16] = 2;
    put32(&mut image, 32, total_sectors);
    put32(&mut image, 36, 2);
    put32(&mut image, 44, 2);
    image[510] = 0x55;
    image[511] = 0xAA;
    for copy in 0..2usize {
        let base = (4 + copy * 2) * 512;
        put32(&mut image, base, 0x0FFF_FFF8);
        put32(&mut image, base + 4, 0x0FFF_FFFF);
        put32(&mut image, base + 8, 0x0FFF_FFFF);
    }
    image
}

fn open(total_sectors: u32) -> (FAT, BlockCache<RamDisk>) {
    let img = image(total_sectors, 1);
    let params = parse_boot_params(&img[..512]).unwrap();
    assert!(params.check_geometry());
    (FAT::new(params), BlockCache::new(RamDisk::from_image(&img), 8))
}

#[test]
fn entries_are_read_masked() {
    let (fat, mut cache) = open(64);
    assert_eq!(fat.entry_count(), 64 - 8 + 2);
    assert_eq!(fat.read_entry(&mut cache, 0), Ok(0x0FFF_FFF8));
    assert_eq!(fat.read_entry(&mut cache, 2), Ok(0x0FFF_FFFF));
    assert_eq!(fat.read_entry(&mut cache, 3), Ok(0));
    assert_eq!(fat.read_entry(&mut cache, 58), Err(FsError::InvalidFilesystem));
    assert_eq!(fat.write_entry(&mut cache, 58, 1), Err(FsError::InvalidFilesystem));
}

#[test]
fn write_keeps_the_top_bits_and_reaches_every_copy() {
    let (fat, mut cache) = open(64);
    // give entry 5 reserved top bits on the device, in both copies
    assert_eq!(cache.write_bytes(4, 20, &[0, 0, 0, 0xA0]), Ok(()));
    assert_eq!(cache.write_bytes(6, 20, &[0, 0, 0, 0xA0]), Ok(()));
    assert_eq!(fat.read_entry(&mut cache, 5), Ok(0));
    assert_eq!(fat.write_entry(&mut cache, 5, 0xF123_4567), Ok(()));
    assert_eq!(fat.read_entry(&mut cache, 5), Ok(0x0123_4567));
    assert_eq!(fat.read_entry(&mut cache, 4), Ok(0));
    assert_eq!(fat.read_entry(&mut cache, 6), Ok(0));
    cache.sync_all();
    let dev = cache.into_device();
    assert_eq!(&dev.read_block(4).unwrap()[20..24], &[0x67, 0x45, 0x23, 0xA1]);
    assert_eq!(&dev.read_block(6).unwrap()[20..24], &[0x67, 0x45, 0x23, 0xA1]);
}

#[test]
fn allocation_goes_round_from_the_cursor() {
    let (mut fat, mut cache) = open(16);
    // clusters 2..=9, cluster 2 is the root's
    assert_eq!(fat.count_free(&mut cache), 7);
    assert_eq!(fat.alloc_free_cluster(&mut cache), Ok(3));
    assert_eq!(fat.read_entry(&mut cache, 3), Ok(0x0FFF_FFFF));
    assert_eq!(fat.alloc_free_cluster(&mut cache), Ok(4));
    assert_eq!(fat.alloc_free_cluster(&mut cache), Ok(5));
    fat.free_chain(&mut cache, 3);
    // the cursor stands behind 5: 3 is found only after the end was reached
    for expected in [6u32, 7, 8, 9, 3] {
        assert_eq!(fat.alloc_free_cluster(&mut cache), Ok(expected));
    }
    assert_eq!(fat.count_free(&mut cache), 0);
    assert_eq!(fat.alloc_free_cluster(&mut cache), Err(FsError::OutOfSpace));
    assert_eq!(fat.count_free(&mut cache), 0);
}

#[test]
fn free_chain_follows_the_pointers() {
    let (fat, mut cache) = open(32);
    // 5 -> 9 -> 7 -> end, and 11 -> end apart from it
    fat.write_entry(&mut cache, 5, 9).unwrap();
    fat.write_entry(&mut cache, 9, 7).unwrap();
    fat.write_entry(&mut cache, 7, 0x0FFF_FFFF).unwrap();
    fat.write_entry(&mut cache, 11, 0x0FFF_FFF8).unwrap();
    let before = fat.count_free(&mut cache);
    let chain = ClusterChain { first_cluster: 5, size: 0, is_dir: false };
    assert_eq!(chain.measure(&fat, &mut cache), Some((3, 7)));
    assert_eq!(chain.cluster_at(&fat, &mut cache, 0), Some(5));
    assert_eq!(chain.cluster_at(&fat, &mut cache, 1), Some(9));
    assert_eq!(chain.cluster_at(&fat, &mut cache, 2), Some(7));
    assert_eq!(chain.cluster_at(&fat, &mut cache, 3), None);
    assert!(chain.meets(&fat, &mut cache, 9));
    assert!(!chain.meets(&fat, &mut cache, 11));
    fat.free_chain(&mut cache, 5);
    for c in [5u32, 9, 7] {
        assert_eq!(fat.read_entry(&mut cache, c), Ok(0));
    }
    assert_eq!(fat.read_entry(&mut cache, 11), Ok(0x0FFF_FFF8));
    assert_eq!(fat.count_free(&mut cache), before + 3);
    // a start that numbers no cluster releases nothing
    fat.free_chain(&mut cache, 0);
    fat.free_chain(&mut cache, 0x0FFF_FFFF);
    assert_eq!(fat.count_free(&mut cache), before + 3);
}

#[test]
fn broken_chains_are_told() {
    let (fat, mut cache) = open(32);
    // a cycle: 5 -> 6 -> 5
    fat.write_entry(&mut cache, 5, 6).unwrap();
    fat.write_entry(&mut cache, 6, 5).unwrap();
    let cycle = ClusterChain { first_cluster: 5, size: 0, is_dir: false };
    assert_eq!(cycle.measure(&fat, &mut cache), None);
    // a chain that runs into a free entry
    fat.write_entry(&mut cache, 8, 9).unwrap();
    let open_end = ClusterChain { first_cluster: 8, size: 0, is_dir: false };
    assert_eq!(open_end.measure(&fat, &mut cache), None);
    // a first cluster that is none
    let nowhere = ClusterChain { first_cluster: 1, size: 0, is_dir: false };
    assert_eq!(nowhere.measure(&fat, &mut cache), None);
    let mut cycle = cycle;
    let mut other = FAT::new(fat.boot_params());
    assert_eq!(cycle.write_at(&mut other, &mut cache, 0, &[1]), Err(FsError::InvalidFilesystem));
    // releasing a cycle ends where it comes round
    fat.free_chain(&mut cache, 5);
    assert_eq!(fat.read_entry(&mut cache, 5), Ok(0));
    assert_eq!(fat.read_entry(&mut cache, 6), Ok(0));
    // the empty chain is sound
    assert_eq!(ClusterChain::new(false).measure(&fat, &mut cache), Some((0, 0)));
}

#[test]
fn chain_reads_stop_at_its_end() {
    let (mut fat, mut cache) = open(32);
    let mut chain = ClusterChain::new(false);
    let data: Vec<u8> = (0..1000u32).map(|i| (i % 251) as u8).collect();
    assert_eq!(chain.write_at(&mut fat, &mut cache, 0, &data), Ok(1000));
    assert_eq!(chain.size, 1000);
    assert_eq!(chain.measure(&fat, &mut cache).unwrap().0, 2);
    assert_eq!(chain.read_at(&fat, &mut cache, 0, 1000), data);
    assert_eq!(chain.read_at(&fat, &mut cache, 990, 100), data[990..].to_vec());
    assert_eq!(chain.read_at(&fat, &mut cache, 1000, 10), Vec::<u8>::new());
    assert_eq!(chain.read_at(&fat, &mut cache, 5000, 10), Vec::<u8>::new());
    assert_eq!(chain.read_at(&fat, &mut cache, 510, 4), data[510..514].to_vec());
    assert_eq!(chain.read_at(&fat, &mut cache, 3, 0), Vec::<u8>::new());
    // a recorded size beyond the chain does not lead past its end
    let liar = ClusterChain { size: 5000, ..chain };
    assert_eq!(liar.read_at(&fat, &mut cache, 0, 5000).len(), 1024);
    // a directory's body is all of its chain
    let dir = ClusterChain { size: 0, is_dir: true, ..chain };
    assert_eq!(dir.read_at(&fat, &mut cache, 0, 5000).len(), 1024);
    chain.clear(&fat, &mut cache);
    assert_eq!(chain, ClusterChain::new(false));
    assert_eq!(chain.read_at(&fat, &mut cache, 0, 10), Vec::<u8>::new());
}

#[test]
fn write_in_the_middle_keeps_the_rest() {
    let (mut fat, mut cache) = open(32);
    let mut chain = ClusterChain::new(false);
    assert_eq!(chain.write_at(&mut fat, &mut cache, 0, &[7u8; 1500]), Ok(1500));
    assert_eq!(chain.write_at(&mut fat, &mut cache, 500, &[9u8; 30]), Ok(30));
    assert_eq!(chain.size, 1500);
    let all = chain.read_at(&fat, &mut cache, 0, 2000);
    assert_eq!(all.len(), 1500);
    assert!(all[..500].iter().all(|&b| b == 7));
    assert!(all[500..530].iter().all(|&b| b == 9));
    assert!(all[530..].iter().all(|&b| b == 7));
    // a write of nothing changes nothing, wherever it is
    let before = chain;
    assert_eq!(chain.write_at(&mut fat, &mut cache, 100_000, &[]), Ok(0));
    assert_eq!(chain, before);
    // a write that cannot be recorded in 32 bits is refused
    assert_eq!(
        chain.write_at(&mut fat, &mut cache, u32::MAX as usize, &[1]),
        Err(FsError::OutOfSpace)
    );
    let dev = {
        cache.sync_all();
        cache.into_device()
    };
    assert_eq!(dev.num_blocks(), 32);
}
