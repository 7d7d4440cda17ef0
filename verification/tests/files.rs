use fat32_fs::file::{CREATE, RDONLY, RDWR, TRUNC, WRONLY};
use fat32_fs::syscall::{AT_ROOT, SYSCALL_CLOSE, SYSCALL_EXIT, SYSCALL_GETCWD, SYSCALL_OPEN, SYSCALL_WAITPID, SYSCALL_WRITE};
use fat32_fs::{
    find_osinode_by_path, open_file, sys_chdir, sys_close, sys_mkdir, sys_open, sys_read,
    sys_write, syscall, FAT32Manager, Kernel, OSInode, OpenFlags, RamDisk, Syscall, TaskFiles,
    UserBuffer, ATTRIBUTE_ARCHIVE, ATTRIBUTE_DIRECTORY,
};

fn put32(image: &mut [u8], at: usize, v: u32) {
    image[at..at + 4].copy_from_slice(&v.to_le_bytes());
}

fn mount() -> FAT32Manager<RamDisk> {
    let total: u32 = 128;
    let mut image = vec![0u8; total as usize * 512];
    image[12] = 2;
    image[13] = 1;
    image[14] = 4;
    image[16] = 2;
    put32(&mut image, 32, total);
    put32(&mut image, 36, 2);
    put32(&mut image, 44, 2);
    image[510] = 0x55;
    image[511] = 0xAA;
    for copy in 0..2usize {
        let base = (4 + copy * 2) * 512;
        put32(&mut image, base, 0x0FFF_FFF8);
        put32(&mut image, base + 4, 0x0FFF_FFFF);
        put32(&mut image, base + 8, 0x0FFF_FFFF);
    }
    FAT32Manager::open(RamDisk::from_image(&image)).unwrap()
}

#[test]
fn flags_tell_reading_and_writing() {
    assert_eq!(OpenFlags::from_bits(RDONLY).unwrap().read_write(), (true, false));
    assert_eq!(OpenFlags::from_bits(WRONLY).unwrap().read_write(), (false, true));
    assert_eq!(OpenFlags::from_bits(RDWR).unwrap().read_write(), (true, true));
    assert_eq!(OpenFlags::from_bits(CREATE).unwrap().read_write(), (true, true));
    assert_eq!(OpenFlags::from_bits(WRONLY | CREATE | TRUNC).unwrap().read_write(), (false, true));
    assert_eq!(OpenFlags::from_bits(WRONLY | RDWR).unwrap().read_write(), (false, true));
}

#[test]
fn flags_keep_their_numbers() {
    assert_eq!((RDONLY, WRONLY, RDWR, CREATE, TRUNC), (0, 1, 2, 1 << 9, 1 << 10));
    let f = OpenFlags::from_bits(0x603).unwrap();
    assert_eq!(f.bits(), 0x603);
    assert!(f.contains(CREATE) && f.contains(TRUNC) && f.contains(WRONLY | RDWR));
    assert!(!f.is_empty());
    assert!(OpenFlags::from_bits(0).unwrap().is_empty());
    assert!(OpenFlags::from_bits(0).unwrap().contains(RDONLY));
    assert!(!OpenFlags::from_bits(RDWR).unwrap().contains(CREATE));
    assert!(OpenFlags::from_bits(4).is_none());
    assert!(OpenFlags::from_bits(0x800).is_none());
    assert!(OpenFlags::from_bits(u32::MAX).is_none());
}

#[test]
fn open_file_looks_up_or_creates() {
    let mut fs = mount();
    let mut root = OSInode::new(true, true, fs.get_root_vfile());
    let plain = OpenFlags::from_bits(RDONLY).unwrap();
    let create = OpenFlags::from_bits(CREATE | WRONLY).unwrap();
    assert!(open_file(&mut root, &mut fs, "a.txt", plain).is_none());
    let made = open_file(&mut root, &mut fs, "a.txt", create).unwrap();
    assert!(made.readable());
    assert!(!made.writable());
    assert_eq!(made.get_vfile().attribute, ATTRIBUTE_ARCHIVE);
    assert_eq!(made.get_vfile().size(), 0);
    // give it a body, then open it again with CREATE: it is emptied
    let mut vfile = made.get_vfile().duplicate();
    assert_eq!(vfile.write_at(&mut fs, 0, b"some text"), Ok(9));
    let free = fs.free_clusters();
    let found = open_file(&mut root, &mut fs, "A.TXT", plain).unwrap();
    assert_eq!(found.get_vfile().size(), 9);
    let again = open_file(&mut root, &mut fs, "a.txt", create).unwrap();
    assert_eq!(again.get_vfile().size(), 0);
    assert_eq!(again.get_vfile().first_cluster(), 0);
    assert_eq!(fs.free_clusters(), free + 1);
    let found = open_file(&mut root, &mut fs, "a.txt", plain).unwrap();
    assert_eq!(found.get_vfile().size(), 0);
    // the handle from before knows a chain that was released: it is not trusted
    assert_eq!(vfile.write_at(&mut fs, 0, b"x"), Err(fat32_fs::FsError::InvalidFilesystem));
}

#[test]
fn inode_reads_into_the_ranges_in_order() {
    let mut fs = mount();
    let mut root = fs.get_root_vfile();
    let mut f = root.create(&mut fs, b"f", ATTRIBUTE_ARCHIVE).unwrap();
    let data: Vec<u8> = (0..100u8).collect();
    assert_eq!(f.write_at(&mut fs, 0, &data), Ok(100));
    let mut inode = OSInode::new(true, false, f);
    let mut buf = UserBuffer::new(vec![vec![0xFF; 30], vec![0xFF; 50], vec![0xFF; 40], vec![0xFF; 5]]);
    assert_eq!(inode.read(&mut fs, &mut buf), 100);
    assert_eq!(buf.buffers[0], data[0..30].to_vec());
    assert_eq!(buf.buffers[1], data[30..80].to_vec());
    assert_eq!(&buf.buffers[2][..20], &data[80..100]);
    assert_eq!(&buf.buffers[2][20..], &[0xFFu8; 20][..]);
    assert_eq!(buf.buffers[3], vec![0xFF; 5]);
    assert_eq!(inode.inner.offset, 100);
    // at the end of the file nothing more is read
    assert_eq!(inode.read(&mut fs, &mut buf), 0);
    // an empty range ends the read
    let mut inode = OSInode::new(true, false, inode.get_vfile().duplicate());
    let mut buf = UserBuffer::new(vec![vec![0; 10], vec![], vec![0; 10]]);
    assert_eq!(inode.read(&mut fs, &mut buf), 10);
    assert_eq!(buf.buffers[2], vec![0; 10]);
    assert_eq!(buf.gather().len(), 20);
}

#[test]
fn inode_writes_the_ranges_one_after_the_other() {
    let mut fs = mount();
    let mut root = fs.get_root_vfile();
    let f = root.create(&mut fs, b"f", ATTRIBUTE_ARCHIVE).unwrap();
    let mut inode = OSInode::new(true, true, f);
    let buf = UserBuffer::new(vec![b"hello ".to_vec(), b"wor".to_vec(), vec![], b"ld".to_vec()]);
    assert_eq!(inode.write(&mut fs, &buf), 11);
    assert_eq!(inode.inner.offset, 11);
    assert_eq!(inode.write(&mut fs, &UserBuffer::new(vec![b"!".to_vec()])), 1);
    assert_eq!(inode.write(&mut fs, &UserBuffer::new(vec![])), 0);
    let found = root.find_by_name(&mut fs, b"f").unwrap();
    assert_eq!(found.size(), 12);
    let mut out = vec![0u8; 12];
    assert_eq!(found.read_at(&mut fs, 0, &mut out), 12);
    assert_eq!(&out, b"hello world!");
    // a write that does not fit writes nothing
    let free = fs.free_clusters() as usize;
    let big = UserBuffer::new(vec![vec![1u8; (free + 1) * 512]]);
    assert_eq!(inode.write(&mut fs, &big), 0);
    assert_eq!(inode.inner.offset, 12);
    assert_eq!(fs.free_clusters() as usize, free);
    inode.clear(&mut fs);
    assert_eq!(inode.get_vfile().size(), 0);
    assert_eq!(fs.free_clusters() as usize, free + 1);
}

#[test]
fn inode_finds_and_creates_in_its_directory() {
    let mut fs = mount();
    let mut root = OSInode::new(true, true, fs.get_root_vfile());
    assert!(root.find_inode(&mut fs, "x").is_none());
    let x = root.create(&mut fs, "x", ATTRIBUTE_ARCHIVE).unwrap();
    assert!(x.readable() && !x.writable());
    assert!(root.create(&mut fs, "X", ATTRIBUTE_ARCHIVE).is_none());
    let found = root.find_inode(&mut fs, "x").unwrap();
    assert!(found.readable() && !found.writable());
    assert_eq!(found.get_vfile().dirent, x.get_vfile().dirent);
    assert_eq!(found.get_vfile().name, b"X          ".to_vec());
    // a file is no directory
    let mut x = x;
    assert!(x.find_inode(&mut fs, "y").is_none());
    assert!(x.create(&mut fs, "y", ATTRIBUTE_ARCHIVE).is_none());
}

#[test]
fn paths_are_followed_name_by_name() {
    let mut fs = mount();
    let mut root_v = fs.get_root_vfile();
    let mut dir = root_v.create(&mut fs, b"dir", ATTRIBUTE_DIRECTORY).unwrap();
    let mut sub = dir.create(&mut fs, b"sub", ATTRIBUTE_DIRECTORY).unwrap();
    let mut a = sub.create(&mut fs, b"a.txt", ATTRIBUTE_ARCHIVE).unwrap();
    assert_eq!(a.write_at(&mut fs, 0, b"deep"), Ok(4));
    root_v.create(&mut fs, b"top", ATTRIBUTE_ARCHIVE).unwrap();
    let root = OSInode::new(true, true, root_v);

    let f = find_osinode_by_path(&root, &mut fs, "dir/sub/a.txt").unwrap();
    assert_eq!(f.get_vfile().size(), 4);
    assert!(f.readable() && !f.writable());
    assert!(find_osinode_by_path(&root, &mut fs, "top").is_some());
    assert!(find_osinode_by_path(&root, &mut fs, "dir").unwrap().get_vfile().is_dir());
    // a slash at the end is passed over
    assert!(find_osinode_by_path(&root, &mut fs, "dir/").unwrap().get_vfile().is_dir());
    assert!(find_osinode_by_path(&root, &mut fs, "dir/sub/").is_some());
    assert!(find_osinode_by_path(&root, &mut fs, "DIR/Sub/A.TXT").is_some());
    assert!(find_osinode_by_path(&root, &mut fs, "dir/a.txt").is_none());
    assert!(find_osinode_by_path(&root, &mut fs, "nope/sub/a.txt").is_none());
    assert!(find_osinode_by_path(&root, &mut fs, "top/a.txt").is_none());
    assert!(find_osinode_by_path(&root, &mut fs, "").is_none());
    assert!(find_osinode_by_path(&root, &mut fs, "/dir").is_none());
    assert!(find_osinode_by_path(&root, &mut fs, "dir//sub").is_none());
}

#[test]
fn descriptors_are_given_lowest_first() {
    let mut files = TaskFiles::new("/");
    assert_eq!(files.vacant(), 0);
    assert_eq!(files.alloc_fd(), 0);
    assert_eq!(files.fd_table.len(), 1);
    assert_eq!(files.alloc_fd(), 0);
    let mut fs = mount();
    files.fd_table[0] = Some(OSInode::new(true, true, fs.get_root_vfile()));
    assert_eq!(files.alloc_fd(), 1);
    files.fd_table[1] = Some(OSInode::new(true, true, fs.get_root_vfile()));
    assert_eq!(files.alloc_fd(), 2);
    files.fd_table[0] = None;
    assert_eq!(files.vacant(), 0);
    assert_eq!(files.fd_table.len(), 3);
    let _ = fs.free_clusters();
}

#[test]
fn system_calls_open_read_and_close() {
    let mut k = Kernel::new(mount());
    assert_eq!(k.files.cwd, "/");
    assert_eq!(sys_open(&mut k, "log", RDONLY), -1);
    assert_eq!(sys_open(&mut k, "log", 4), -1);
    assert_eq!(sys_open(&mut k, "log", CREATE), 0);
    assert_eq!(sys_open(&mut k, "log", RDONLY), 1);
    assert_eq!(sys_open(&mut k, "other", CREATE | RDWR), 2);
    assert!(k.fs.is_clean());

    // files are opened for reading only
    let text = UserBuffer::new(vec![b"abc".to_vec()]);
    assert_eq!(sys_write(&mut k, 0, &text), -1);
    assert_eq!(sys_write(&mut k, 7, &text), -1);

    // make descriptor 0 writable, as the root directory is
    k.files.fd_table[0].as_mut().unwrap().writable = true;
    assert_eq!(sys_write(&mut k, 0, &text), 3);
    assert_eq!(sys_write(&mut k, 0, &UserBuffer::new(vec![b"de".to_vec(), b"f".to_vec()])), 3);

    // descriptor 1 was opened before the write: its handle knows no body
    let mut buf = UserBuffer::new(vec![vec![0u8; 4], vec![0u8; 4]]);
    assert_eq!(sys_read(&mut k, 1, &mut buf), 0);
    assert_eq!(sys_close(&mut k, 1), 0);
    assert_eq!(sys_close(&mut k, 1), -1);
    assert_eq!(sys_close(&mut k, 9), -1);
    assert_eq!(sys_open(&mut k, "log", RDONLY), 1);
    assert_eq!(sys_read(&mut k, 1, &mut buf), 6);
    assert_eq!(buf.buffers, vec![b"abcd".to_vec(), vec![b'e', b'f', 0, 0]]);
    assert_eq!(sys_read(&mut k, 1, &mut buf), 0);
    assert_eq!(sys_read(&mut k, 5, &mut buf), -1);
    k.files.fd_table[1].as_mut().unwrap().readable = false;
    assert_eq!(sys_read(&mut k, 1, &mut buf), -1);
}

#[test]
fn mkdir_makes_a_file_in_the_root_only() {
    let mut k = Kernel::new(mount());
    assert_eq!(sys_mkdir(&mut k, 3, "d", 0), 0);
    assert!(find_osinode_by_path(&k.root, &mut k.fs, "d").is_none());
    assert_eq!(sys_mkdir(&mut k, AT_ROOT, "d", 0), 0);
    let d = find_osinode_by_path(&k.root, &mut k.fs, "d").unwrap();
    assert_eq!(d.get_vfile().attribute, ATTRIBUTE_ARCHIVE);
    assert_eq!(sys_mkdir(&mut k, AT_ROOT, "d", 0), 0);
    assert_eq!(AT_ROOT, -100);
}

#[test]
fn chdir_follows_the_path() {
    let mut k = Kernel::new(mount());
    let mut dir = k.root.inner.inode.create(&mut k.fs, b"home", ATTRIBUTE_DIRECTORY).unwrap();
    dir.create(&mut k.fs, b"me", ATTRIBUTE_DIRECTORY).unwrap();
    assert_eq!(sys_chdir(&mut k, "home/me"), 0);
    assert_eq!(k.files.cwd, "home/me");
    assert_eq!(sys_chdir(&mut k, "home/you"), 1);
    assert_eq!(k.files.cwd, "home/me");
    assert_eq!(sys_chdir(&mut k, "home"), 0);
    assert_eq!(k.files.cwd, "home");
}

#[test]
fn system_calls_are_told_by_number() {
    assert_eq!(syscall(64, [1, 0x1000, 12]), Syscall::Write { fd: 1, buf: 0x1000, len: 12 });
    assert_eq!(syscall(63, [0, 0x2000, 1]), Syscall::Read { fd: 0, buf: 0x2000, len: 1 });
    assert_eq!(syscall(SYSCALL_EXIT, [usize::MAX, 0, 0]), Syscall::Exit { code: -1 });
    assert_eq!(syscall(93, [3, 0, 0]), Syscall::Exit { code: 3 });
    assert_eq!(syscall(220, [0, 0, 0]), Syscall::Fork);
    assert_eq!(syscall(124, [0, 0, 0]), Syscall::Yield);
    assert_eq!(syscall(221, [0x3000, 0, 0]), Syscall::Exec { path: 0x3000 });
    assert_eq!(
        syscall(SYSCALL_WAITPID, [usize::MAX, 0x4000, 0]),
        Syscall::Waitpid { pid: -1, exit_code: 0x4000 }
    );
    assert_eq!(syscall(172, [0, 0, 0]), Syscall::Getpid);
    assert_eq!(syscall(SYSCALL_OPEN, [0x5000, 0x201, 0]), Syscall::Open { path: 0x5000, flags: 0x201 });
    assert_eq!(syscall(SYSCALL_CLOSE, [4, 0, 0]), Syscall::Close { fd: 4 });
    assert_eq!(syscall(59, [0x6000, 0, 0]), Syscall::Pipe { pipe: 0x6000 });
    assert_eq!(syscall(SYSCALL_GETCWD, [0x7000, 64, 0]), Syscall::Getcwd { buf: 0x7000, len: 64 });
    assert_eq!(SYSCALL_WRITE, 64);
}
