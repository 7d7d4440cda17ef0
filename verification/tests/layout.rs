use fat32_fs::layout::{make_short_name, names_match};
use fat32_fs::{parse_boot_params, BootParams, DirectoryEntry, FsError, ATTRIBUTE_DIRECTORY};

fn boot_sector() -> Vec<u8> {
    let mut raw = vec![0u8; 512];
    raw[11] = 0x00;
    raw[12] = 0x02; // 512 bytes per sector
    raw[13] = 8; // sectors per cluster
    raw[14] = 32;
    raw[15] = 0; // reserved sectors
    raw[16] = 2; // tables
    raw[32..36].copy_from_slice(&[0x00, 0x00, 0x10, 0x00]); // 0x100000 sectors
    raw[36..40].copy_from_slice(&[0x00, 0x04, 0x00, 0x00]); // 1024 sectors per table
    raw[44..48].copy_from_slice(&[2, 0, 0, 0]);
    raw[510] = 0x55;
    raw[511] = 0xAA;
    raw
}

#[test]
fn boot_params_are_read_at_their_offsets() {
    let p = parse_boot_params(&boot_sector()).unwrap();
    assert_eq!(
        p,
        BootParams {
            bytes_per_sector: 512,
            sectors_per_cluster: 8,
            reserved_sectors: 32,
            fat_count: 2,
            sectors_per_fat: 1024,
            root_cluster: 2,
            total_sectors: 0x100000,
        }
    );
    assert!(p.check_geometry());
    assert_eq!(p.data_start_sector(), 32 + 2 * 1024);
    assert_eq!(p.cluster_size(), 4096);
    assert_eq!(p.entry_count(), (0x100000 - 2080) / 8 + 2);
}

#[test]
fn cluster_to_sector_follows_the_formula() {
    let p = parse_boot_params(&boot_sector()).unwrap();
    assert_eq!(p.cluster_to_sector(2), Some(2080));
    assert_eq!(p.cluster_to_sector(3), Some(2088));
    assert_eq!(p.cluster_to_sector(100), Some(2080 + 98 * 8));
    assert_eq!(p.cluster_to_sector(0), None);
    assert_eq!(p.cluster_to_sector(1), None);
    let last = p.entry_count() - 1;
    assert!(p.cluster_to_sector(last).is_some());
    assert_eq!(p.cluster_to_sector(last + 1), None);
}

#[test]
fn boot_sector_checks() {
    let good = boot_sector();
    let mut raw = good.clone();
    raw[510] = 0;
    assert_eq!(parse_boot_params(&raw), Err(FsError::InvalidFilesystem));
    let mut raw = good.clone();
    raw[11] = 0;
    raw[12] = 0;
    assert_eq!(parse_boot_params(&raw), Err(FsError::InvalidFilesystem));
    for spc in [0u8, 3, 6, 96, 255] {
        let mut raw = good.clone();
        raw[13] = spc;
        assert_eq!(parse_boot_params(&raw), Err(FsError::InvalidFilesystem));
    }
    for spc in [1u8, 2, 4, 8, 16, 32, 64, 128] {
        let mut raw = good.clone();
        raw[13] = spc;
        assert_eq!(parse_boot_params(&raw).unwrap().sectors_per_cluster, spc);
    }
    assert_eq!(parse_boot_params(&good[..511]), Err(FsError::InvalidFilesystem));
    // a sector size other than 512 passes the parser and fails the geometry
    let mut raw = good.clone();
    raw[12] = 0x04;
    let p = parse_boot_params(&raw).unwrap();
    assert_eq!(p.bytes_per_sector, 1024);
    assert!(!p.check_geometry());
}

#[test]
fn geometry_checks() {
    let good = parse_boot_params(&boot_sector()).unwrap();
    assert!(!BootParams { fat_count: 0, ..good }.check_geometry());
    assert!(!BootParams { reserved_sectors: 0, ..good }.check_geometry());
    assert!(!BootParams { sectors_per_fat: 0, ..good }.check_geometry());
    assert!(!BootParams { total_sectors: 2080, ..good }.check_geometry());
    assert!(!BootParams { root_cluster: 1, ..good }.check_geometry());
    assert!(!BootParams { root_cluster: good.entry_count(), ..good }.check_geometry());
    // tables too small for the clusters
    assert!(!BootParams { sectors_per_fat: 1, ..good }.check_geometry());
}

fn sample() -> DirectoryEntry {
    DirectoryEntry {
        name: b"README  TXT".to_vec(),
        attribute: 0x21,
        nt_reserved: 0x18,
        create_tenth: 99,
        create_time: 0xBEEF,
        create_date: 0x1234,
        access_date: 0x4321,
        first_cluster: 0x0ABC_DEF1,
        write_time: 0x0102,
        write_date: 0x0304,
        size: 0xDEAD_BEEF,
    }
}

#[test]
fn entry_is_laid_out_as_on_disk() {
    let bytes = sample().encode();
    assert_eq!(bytes.len(), 32);
    assert_eq!(&bytes[0..11], b"README  TXT");
    assert_eq!(bytes[11], 0x21);
    assert_eq!(bytes[12], 0x18);
    assert_eq!(bytes[13], 99);
    assert_eq!(&bytes[14..16], &[0xEF, 0xBE]);
    assert_eq!(&bytes[16..18], &[0x34, 0x12]);
    assert_eq!(&bytes[18..20], &[0x21, 0x43]);
    assert_eq!(&bytes[20..22], &[0xBC, 0x0A]); // high half of the first cluster
    assert_eq!(&bytes[22..24], &[0x02, 0x01]);
    assert_eq!(&bytes[24..26], &[0x04, 0x03]);
    assert_eq!(&bytes[26..28], &[0xF1, 0xDE]); // low half of the first cluster
    assert_eq!(&bytes[28..32], &[0xEF, 0xBE, 0xAD, 0xDE]);
}

#[test]
fn decode_undoes_encode() {
    let e = sample();
    let d = DirectoryEntry::decode(&e.encode()).unwrap();
    assert_eq!(d.name, e.name);
    assert_eq!(d.attribute, e.attribute);
    assert_eq!(d.nt_reserved, e.nt_reserved);
    assert_eq!(d.create_tenth, e.create_tenth);
    assert_eq!(d.create_time, e.create_time);
    assert_eq!(d.create_date, e.create_date);
    assert_eq!(d.access_date, e.access_date);
    assert_eq!(d.first_cluster, e.first_cluster);
    assert_eq!(d.write_time, e.write_time);
    assert_eq!(d.write_date, e.write_date);
    assert_eq!(d.size, e.size);
    assert!(DirectoryEntry::decode(&[0u8; 31]).is_none());
    assert!(DirectoryEntry::decode(&[0u8; 33]).is_none());
}

#[test]
fn markers_are_told_by_the_first_byte() {
    let end = DirectoryEntry::decode(&[0u8; 32]).unwrap();
    assert!(end.is_end());
    assert!(!end.is_deleted());
    let mut raw = sample().encode();
    raw[0] = 0xE5;
    let gone = DirectoryEntry::decode(&raw).unwrap();
    assert!(gone.is_deleted());
    assert!(!gone.is_end());
    let live = sample();
    assert!(!live.is_end() && !live.is_deleted() && !live.is_dir());
    let fresh = DirectoryEntry::new(b"DIR        ".to_vec(), ATTRIBUTE_DIRECTORY);
    assert!(fresh.is_dir());
    assert_eq!(fresh.size, 0);
    assert_eq!(fresh.first_cluster, 0);
}

#[test]
fn short_names_are_padded_and_upper_case() {
    assert_eq!(make_short_name(b"a.txt"), b"A       TXT".to_vec());
    assert_eq!(make_short_name(b"README"), b"README     ".to_vec());
    assert_eq!(make_short_name(b"kernel.bin"), b"KERNEL  BIN".to_vec());
    assert_eq!(make_short_name(b"a.b.c"), b"A.B     C  ".to_vec());
    assert_eq!(make_short_name(b"longfilename.text"), b"LONGFILETEX".to_vec());
    assert_eq!(make_short_name(b""), b"           ".to_vec());
    assert_eq!(make_short_name(b"a b"), b"A_B        ".to_vec());
    assert_eq!(make_short_name(b"x."), b"X          ".to_vec());
    // a leading E5 is stored as 05, so the record does not read as deleted
    assert_eq!(make_short_name(&[0xE5, b'a']), vec![0x05, b'A', 32, 32, 32, 32, 32, 32, 32, 32, 32]);
    assert_eq!(make_short_name(&[0x00, 0x7F]), b"__         ".to_vec());
}

#[test]
fn names_match_without_regard_to_case() {
    assert!(names_match(b"README  TXT", b"readme  txt"));
    assert!(names_match(b"ReadMe  Txt", b"README  TXT"));
    assert!(!names_match(b"README  TXT", b"README  TXS"));
    assert!(!names_match(b"README  TXT", b"README  TX"));
    assert!(!names_match(b"A[         ", b"A{         "));
}

#[test]
fn boot_sector_is_written_as_it_is_read() {
    let p = parse_boot_params(&boot_sector()).unwrap();
    let raw = p.encode();
    assert_eq!(raw, boot_sector());
    assert_eq!(parse_boot_params(&raw), Ok(p));
    let odd = BootParams { sectors_per_cluster: 3, ..p };
    assert_eq!(parse_boot_params(&odd.encode()), Err(FsError::InvalidFilesystem));
}
