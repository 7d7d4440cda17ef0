use fat32_fs::{
    BlockDevice, FAT32Manager, FsError, RamDisk, VFile, ATTRIBUTE_ARCHIVE, ATTRIBUTE_DIRECTORY,
};

fn put16(image: &mut [u8], at: usize, v: u16) {
    image[at] = (v & 0xff) as u8;
    image[at + 1] = (v >> 8) as u8;
}

fn put32(image: &mut [u8], at: usize, v: u32) {
    put16(image, at, (v & 0xffff) as u16);
    put16(image, at + 2, (v >> 16) as u16);
}

/// A fresh volume: boot sector, two tables, an empty root directory in
/// cluster 2.
fn image(total_sectors: u32, sectors_per_cluster: u8, sectors_per_fat: u32) -> Vec<u8> {
    let reserved: u16 = 4;
    let fat_count: u8 = 2;
    let mut image = vec![0u8; total_sectors as usize * 512];
    put16(&mut image, 11, 512);
    image[13] = sectors_per_cluster;
    put16(&mut image, 14, reserved);
    image[16] = fat_count;
    put32(&mut image, 32, total_sectors);
    put32(&mut image, 36, sectors_per_fat);
    put32(&mut image, 44, 2);
    image[510] = 0x55;
    image[511] = 0xAA;
    for copy in 0..fat_count as usize {
        let base = (reserved as usize + copy * sectors_per_fat as usize) * 512;
        put32(&mut image, base, 0x0FFF_FFF8);
        put32(&mut image, base + 4, 0x0FFF_FFFF);
        put32(&mut image, base + 8, 0x0FFF_FFFF);
    }
    image
}

fn mount(total_sectors: u32, sectors_per_cluster: u8) -> FAT32Manager<RamDisk> {
    let disk = RamDisk::from_image(&image(total_sectors, sectors_per_cluster, 2));
    FAT32Manager::open(disk).unwrap()
}

#[test]
fn mounts_a_fresh_volume() {
    let mut fs = mount(128, 1);
    let p = fs.boot_params();
    assert_eq!(p.bytes_per_sector, 512);
    assert_eq!(p.root_cluster, 2);
    assert_eq!(p.total_sectors, 128);
    // 128 - 4 - 2 * 2 = 120 clusters, one of them the root's
    assert_eq!(fs.free_clusters(), 119);
    let root = fs.get_root_vfile();
    assert!(root.is_dir());
    assert_eq!(root.first_cluster(), 2);
}

#[test]
fn rejects_a_bad_signature() {
    let mut img = image(128, 1, 2);
    img[511] = 0;
    let r = FAT32Manager::open(RamDisk::from_image(&img));
    assert!(matches!(r, Err(FsError::InvalidFilesystem)));
}

#[test]
fn rejects_a_volume_larger_than_the_device() {
    let mut img = image(128, 1, 2);
    img.truncate(64 * 512);
    let r = FAT32Manager::open(RamDisk::from_image(&img));
    assert!(matches!(r, Err(FsError::InvalidFilesystem)));
}

#[test]
fn rejects_an_empty_device() {
    let r = FAT32Manager::open(RamDisk::new(0));
    assert!(matches!(r, Err(FsError::DeviceIoError)));
}

#[test]
fn write_then_read_gives_the_data_back() {
    for spc in [1u8, 2, 4] {
        let cb = spc as usize * 512;
        for len in [1usize, 2, 511, 512, 513, cb - 1, cb, cb + 1, 3 * cb - 1, 3 * cb, 3 * cb + 1] {
            let mut fs = mount(256, spc);
            let mut root = fs.get_root_vfile();
            let mut file = root.create(&mut fs, b"data.bin", ATTRIBUTE_ARCHIVE).unwrap();
            let data: Vec<u8> = (0..len).map(|i| (i * 7 + 3) as u8).collect();
            assert_eq!(file.write_at(&mut fs, 0, &data), Ok(len));
            assert_eq!(file.size() as usize, len);
            let mut buf = vec![0xEEu8; len];
            assert_eq!(file.read_at(&mut fs, 0, &mut buf), len);
            assert_eq!(buf, data);
            // a longer buffer gets no more than the file holds
            let mut long = vec![0xEEu8; len + 10];
            assert_eq!(file.read_at(&mut fs, 0, &mut long), len);
            assert_eq!(&long[..len], &data[..]);
            assert_eq!(&long[len..], &[0xEEu8; 10][..]);
        }
    }
}

#[test]
fn chain_spans_the_clusters_written() {
    let mut fs = mount(256, 2);
    let mut root = fs.get_root_vfile();
    let mut file = root.create(&mut fs, b"five", ATTRIBUTE_ARCHIVE).unwrap();
    let k = 5usize;
    let data = vec![0xABu8; k * 1024];
    assert_eq!(file.write_at(&mut fs, 0, &data), Ok(k * 1024));
    let mut seen = Vec::new();
    let mut c = file.first_cluster();
    for _ in 0..k - 1 {
        seen.push(c);
        c = fs.read_entry(c).unwrap();
        assert!(c >= 2 && c < 0x0FFF_FFF7);
        assert!(!seen.contains(&c));
    }
    assert!(fs.read_entry(c).unwrap() >= 0x0FFF_FFF8);
    assert_eq!(fs.measure_chain(&file.chain), Some((k as u32, c)));
}

#[test]
fn freeing_a_chain_restores_the_free_count() {
    let mut fs = mount(256, 1);
    let mut root = fs.get_root_vfile();
    let mut file = root.create(&mut fs, b"f", ATTRIBUTE_ARCHIVE).unwrap();
    let before = fs.free_clusters();
    assert_eq!(file.write_at(&mut fs, 0, &vec![1u8; 7 * 512]), Ok(7 * 512));
    assert_eq!(fs.free_clusters(), before - 7);
    assert_eq!(file.clear(&mut fs), Ok(()));
    assert_eq!(fs.free_clusters(), before);
    assert_eq!(file.size(), 0);
    assert_eq!(file.first_cluster(), 0);
    let found = root.find_by_name(&mut fs, b"f").unwrap();
    assert_eq!(found.size(), 0);
    assert_eq!(found.first_cluster(), 0);
}

#[test]
fn deleted_entry_is_passed_over() {
    let mut fs = mount(128, 1);
    let mut root = fs.get_root_vfile();
    root.create(&mut fs, b"A", ATTRIBUTE_ARCHIVE).unwrap();
    let mut b = root.create(&mut fs, b"B", ATTRIBUTE_ARCHIVE).unwrap();
    root.create(&mut fs, b"C", ATTRIBUTE_ARCHIVE).unwrap();
    assert_eq!(b.delete(&mut fs), Ok(()));
    assert!(root.find_by_name(&mut fs, b"A").is_ok());
    assert!(root.find_by_name(&mut fs, b"C").is_ok());
    assert!(matches!(root.find_by_name(&mut fs, b"B"), Err(FsError::NotFound)));
    let (cluster, offset) = b.dirent.unwrap();
    let record = fs.load_record(cluster, offset).unwrap();
    assert_eq!(record[0], 0xE5);
    assert_eq!(offset, 32);
    // the slot is used again
    let d = root.create(&mut fs, b"D", ATTRIBUTE_ARCHIVE).unwrap();
    assert_eq!(d.dirent, Some((cluster, 32)));
}

#[test]
fn create_refuses_a_duplicate_and_a_file_as_parent() {
    let mut fs = mount(128, 1);
    let mut root = fs.get_root_vfile();
    let mut f = root.create(&mut fs, b"hello.txt", ATTRIBUTE_ARCHIVE).unwrap();
    assert!(matches!(
        root.create(&mut fs, b"HELLO.TXT", ATTRIBUTE_ARCHIVE),
        Err(FsError::AlreadyExists)
    ));
    assert!(matches!(f.create(&mut fs, b"x", ATTRIBUTE_ARCHIVE), Err(FsError::NotADirectory)));
    assert!(matches!(f.find_by_name(&mut fs, b"x"), Err(FsError::NotADirectory)));
    assert!(root.find_by_name(&mut fs, b"Hello.Txt").is_ok());
}

#[test]
fn directory_grows_by_a_zeroed_cluster() {
    let mut fs = mount(128, 1);
    let mut root = fs.get_root_vfile();
    // one cluster of one sector holds 16 records
    for i in 0..16u8 {
        let name = [b'a' + i];
        root.create(&mut fs, &name, ATTRIBUTE_ARCHIVE).unwrap();
    }
    assert_eq!(fs.measure_chain(&root.chain).unwrap().0, 1);
    let extra = root.create(&mut fs, b"q", ATTRIBUTE_ARCHIVE).unwrap();
    let (count, tail) = fs.measure_chain(&root.chain).unwrap();
    assert_eq!(count, 2);
    assert_eq!(extra.dirent, Some((tail, 0)));
    let second = fs.load_record(tail, 32).unwrap();
    assert_eq!(second, vec![0u8; 32]);
    assert!(root.find_by_name(&mut fs, b"q").is_ok());
    assert!(matches!(root.find_by_name(&mut fs, b"zz"), Err(FsError::NotFound)));
}

#[test]
fn subdirectory_holds_files() {
    let mut fs = mount(128, 1);
    let mut root = fs.get_root_vfile();
    let mut dir = root.create(&mut fs, b"dir", ATTRIBUTE_DIRECTORY).unwrap();
    assert!(dir.is_dir());
    assert_eq!(dir.first_cluster(), 0);
    let mut f = dir.create(&mut fs, b"a.txt", ATTRIBUTE_ARCHIVE).unwrap();
    assert_ne!(dir.first_cluster(), 0);
    assert_eq!(f.write_at(&mut fs, 0, b"hello"), Ok(5));
    let dir2 = root.find_by_name(&mut fs, b"dir").unwrap();
    assert_eq!(dir2.first_cluster(), dir.first_cluster());
    let f2 = dir2.find_by_name(&mut fs, b"a.txt").unwrap();
    assert_eq!(f2.size(), 5);
    let mut buf = vec![0u8; 16];
    assert_eq!(f2.read_at(&mut fs, 0, &mut buf), 5);
    assert_eq!(&buf[..5], b"hello");
}

#[test]
fn out_of_space_changes_nothing() {
    let mut fs = mount(16, 1);
    // 16 - 4 - 4 = 8 clusters, one of them the root's
    assert_eq!(fs.free_clusters(), 7);
    let mut root = fs.get_root_vfile();
    let mut f = root.create(&mut fs, b"big", ATTRIBUTE_ARCHIVE).unwrap();
    assert_eq!(f.write_at(&mut fs, 0, &vec![9u8; 8 * 512]), Err(FsError::OutOfSpace));
    assert_eq!(fs.free_clusters(), 7);
    assert_eq!(f.size(), 0);
    assert_eq!(f.write_at(&mut fs, 0, &vec![9u8; 7 * 512]), Ok(7 * 512));
    assert_eq!(fs.free_clusters(), 0);
    assert_eq!(f.write_at(&mut fs, 7 * 512, &[1u8]), Err(FsError::OutOfSpace));
    assert_eq!(f.write_at(&mut fs, 10, &[1u8, 2, 3]), Ok(3));
    let mut buf = vec![0u8; 5];
    assert_eq!(f.read_at(&mut fs, 9, &mut buf), 5);
    assert_eq!(buf, vec![9, 1, 2, 3, 9]);
}

#[test]
fn sync_makes_the_device_hold_the_volume() {
    let mut fs = mount(128, 1);
    let mut root = fs.get_root_vfile();
    let mut f = root.create(&mut fs, b"keep", ATTRIBUTE_ARCHIVE).unwrap();
    assert_eq!(f.write_at(&mut fs, 0, b"durable"), Ok(7));
    let disk = fs.into_device();
    let writes = disk.writes().clone();
    assert!(!writes.is_empty());
    assert!(writes.windows(2).all(|w| w[0] < w[1]));
    let mut again = FAT32Manager::open(disk).unwrap();
    let root = again.get_root_vfile();
    let f = root.find_by_name(&mut again, b"keep").unwrap();
    let mut buf = vec![0u8; 7];
    assert_eq!(f.read_at(&mut again, 0, &mut buf), 7);
    assert_eq!(&buf, b"durable");
    let _ = VFile::is_dir(&root);
    assert_eq!(again.into_device().num_blocks(), 128);
}

#[test]
fn table_copies_stay_the_same() {
    let mut fs = mount(64, 1);
    let mut root = fs.get_root_vfile();
    let mut a = root.create(&mut fs, b"a", ATTRIBUTE_ARCHIVE).unwrap();
    let mut b = root.create(&mut fs, b"b", ATTRIBUTE_ARCHIVE).unwrap();
    assert_eq!(a.write_at(&mut fs, 0, &vec![1u8; 3000]), Ok(3000));
    assert_eq!(b.write_at(&mut fs, 100, &vec![2u8; 700]), Ok(700));
    assert_eq!(a.clear(&mut fs), Ok(()));
    assert_eq!(b.write_at(&mut fs, 800, &vec![3u8; 2000]), Ok(2000));
    let dev = fs.into_device();
    for s in 0..2 {
        assert_eq!(dev.read_block(4 + s).unwrap(), dev.read_block(6 + s).unwrap());
    }
    // b holds clusters, a holds none
    let first = dev.read_block(4).unwrap();
    assert!(first[12..].iter().any(|&x| x != 0));
}

#[test]
fn stale_handle_is_not_trusted() {
    let mut fs = mount(64, 1);
    let mut root = fs.get_root_vfile();
    let mut f = root.create(&mut fs, b"f", ATTRIBUTE_ARCHIVE).unwrap();
    assert_eq!(f.write_at(&mut fs, 0, b"abc"), Ok(3));
    let mut twin = root.find_by_name(&mut fs, b"f").unwrap();
    assert!(twin.check(&mut fs));
    assert_eq!(f.clear(&mut fs), Ok(()));
    // the twin still names the released cluster as its first
    assert!(!twin.check(&mut fs));
    assert_eq!(twin.write_at(&mut fs, 0, b"x"), Err(FsError::InvalidFilesystem));
    assert_eq!(twin.clear(&mut fs), Err(FsError::InvalidFilesystem));
    assert_eq!(twin.delete(&mut fs), Err(FsError::InvalidFilesystem));
    assert!(matches!(root.delete(&mut fs), Err(FsError::NotFound)));
    // reading needs no trust: it follows the pointers as far as they lead
    let mut buf = vec![0u8; 3];
    assert_eq!(twin.read_at(&mut fs, 0, &mut buf), 3);
    assert_eq!(&buf, b"abc");
}

#[test]
fn zero_capacity_cache_cannot_mount() {
    let disk = RamDisk::from_image(&image(64, 1, 2));
    assert!(matches!(FAT32Manager::open_with_capacity(disk, 0), Err(FsError::CacheExhausted)));
    let disk = RamDisk::from_image(&image(64, 1, 2));
    let mut fs = FAT32Manager::open_with_capacity(disk, 1).unwrap();
    let mut root = fs.get_root_vfile();
    let mut f = root.create(&mut fs, b"tiny", ATTRIBUTE_ARCHIVE).unwrap();
    assert_eq!(f.write_at(&mut fs, 0, &vec![5u8; 2000]), Ok(2000));
    assert!(!fs.is_clean());
    let mut buf = vec![0u8; 2000];
    assert_eq!(f.read_at(&mut fs, 0, &mut buf), 2000);
    assert_eq!(buf, vec![5u8; 2000]);
    fs.sync_all();
    assert!(fs.is_clean());
}
