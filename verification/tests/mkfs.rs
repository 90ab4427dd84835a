use rustos::mkfs::{
    build_fs, deserialize_dinode, iblock, make_dirent, serialize_dinode, serialize_dirent, serialize_superblock,
    xint, xshort, Dinode, Dirent, HostFile, Mkfs, MkfsError, Superblock, BSIZE, FSMAGIC, FSSIZE, NDIRECT, NINODES,
    T_DIR, T_FILE,
};

fn fs_sb() -> Superblock {
    Superblock {
        magic: FSMAGIC,
        size: FSSIZE,
        nblocks: 1953,
        ninodes: NINODES,
        nlog: 31,
        logstart: 2,
        inodestart: 33,
        bmapstart: 46,
    }
}

fn block(m: &Mkfs, b: u32) -> Vec<u8> {
    let mut buf = vec![0u8; BSIZE];
    m.rsect(b, &mut buf).unwrap();
    buf
}

fn host(path: &str, data: Vec<u8>) -> HostFile {
    HostFile { path: path.as_bytes().to_vec(), data }
}

fn empty_fs() -> Mkfs {
    Mkfs { image: vec![0u8; FSSIZE as usize * BSIZE], sb: fs_sb(), freeinode: 1, freeblock: 47 }
}

#[test]
fn byte_order_helpers_keep_values() {
    assert_eq!(xshort(0x1234), 0x1234);
    assert_eq!(xint(0x1024_0390), 0x1024_0390);
}

#[test]
fn superblock_bytes() {
    let b = serialize_superblock(&fs_sb());
    assert_eq!(b.len(), BSIZE);
    assert_eq!(&b[0..4], &[0x90, 0x03, 0x24, 0x10]);
    assert_eq!(&b[4..8], &2000u32.to_le_bytes());
    assert_eq!(&b[8..12], &1953u32.to_le_bytes());
    assert_eq!(&b[12..16], &200u32.to_le_bytes());
    assert_eq!(&b[16..20], &31u32.to_le_bytes());
    assert_eq!(&b[20..24], &2u32.to_le_bytes());
    assert_eq!(&b[24..28], &33u32.to_le_bytes());
    assert_eq!(&b[28..32], &46u32.to_le_bytes());
    assert!(b[32..].iter().all(|&x| x == 0));
}

#[test]
fn dinode_bytes_and_back() {
    let mut addrs = [0u32; 13];
    for (i, a) in addrs.iter_mut().enumerate() {
        *a = 100 + i as u32;
    }
    let d = Dinode { typ: T_FILE, major: 3, minor: 4, nlink: 1, size: 0x0102_0304, addrs };
    let b = serialize_dinode(&d);
    assert_eq!(b.len(), 64);
    assert_eq!(&b[0..12], &[2, 0, 3, 0, 4, 0, 1, 0, 4, 3, 2, 1]);
    assert_eq!(&b[12..16], &100u32.to_le_bytes());
    assert_eq!(&b[60..64], &112u32.to_le_bytes());
    let e = deserialize_dinode(&b);
    assert_eq!((e.typ, e.major, e.minor, e.nlink, e.size), (2, 3, 4, 1, 0x0102_0304));
    assert_eq!(e.addrs, addrs);
}

#[test]
fn dinode_read_ignores_trailing_bytes() {
    let mut b = vec![0xFFu8; 80];
    b[0] = 1;
    b[1] = 0;
    let d = deserialize_dinode(&b);
    assert_eq!(d.typ, 1);
    assert_eq!(d.size, u32::MAX);
    assert_eq!(d.addrs[12], u32::MAX);
    assert_eq!(serialize_dinode(&d), b[..64].to_vec());
}

#[test]
fn inode_blocks() {
    let sb = fs_sb();
    assert_eq!(iblock(0, &sb), 33);
    assert_eq!(iblock(15, &sb), 33);
    assert_eq!(iblock(16, &sb), 34);
    assert_eq!(iblock(199, &sb), 45);
}

#[test]
fn dirents() {
    let d = Dirent::default();
    assert_eq!(d.inum, 0);
    assert_eq!(d.name, [0u8; 14]);
    let de = make_dirent(5, "help");
    assert_eq!(de.inum, 5);
    assert_eq!(&de.name[..4], b"help");
    assert!(de.name[4..].iter().all(|&c| c == 0));
    let b = serialize_dirent(&de);
    assert_eq!(b.len(), 16);
    assert_eq!(&b[..6], &[5, 0, b'h', b'e', b'l', b'p']);
    let full = make_dirent(0x0102, "abcdefghijklmn");
    assert_eq!(serialize_dirent(&full)[..2], [2, 1]);
    assert_eq!(&serialize_dirent(&full)[2..], b"abcdefghijklmn");
}

#[test]
fn short_reads_fail() {
    let m = Mkfs { image: vec![0u8; 3 * BSIZE], sb: fs_sb(), freeinode: 1, freeblock: 47 };
    let mut buf = vec![7u8; BSIZE];
    assert_eq!(m.rsect(2, &mut buf), Ok(()));
    assert!(buf.iter().all(|&c| c == 0));
    let mut buf = vec![7u8; BSIZE];
    assert_eq!(m.rsect(3, &mut buf), Err(MkfsError::ShortRead));
    assert!(buf.iter().all(|&c| c == 7));
    assert!(matches!(m.rinode(1), Err(MkfsError::ShortRead)));
}

#[test]
fn write_then_read_block() {
    let mut m = empty_fs();
    let data: Vec<u8> = (0..BSIZE).map(|i| (i % 251) as u8).collect();
    m.wsect(100, &data);
    assert_eq!(block(&m, 100), data);
    assert!(block(&m, 99).iter().all(|&c| c == 0));
    assert!(block(&m, 101).iter().all(|&c| c == 0));
}

#[test]
fn inode_write_then_read() {
    let mut m = empty_fs();
    let d = Dinode { typ: T_DIR, major: 0, minor: 0, nlink: 1, size: 77, addrs: [9; 13] };
    m.winode(17, &d).unwrap();
    let e = m.rinode(17).unwrap();
    assert_eq!((e.typ, e.nlink, e.size, e.addrs), (T_DIR, 1, 77, [9; 13]));
    assert_eq!(m.rinode(16).unwrap().typ, 0);
    assert_eq!(block(&m, 34)[64..66], [1, 0]);
}

#[test]
fn ialloc_hands_out_in_order() {
    let mut m = empty_fs();
    assert_eq!(m.ialloc(T_DIR).unwrap(), 1);
    assert_eq!(m.ialloc(T_FILE).unwrap(), 2);
    assert_eq!(m.freeinode, 3);
    let d = m.rinode(2).unwrap();
    assert_eq!((d.typ, d.nlink, d.size, d.addrs), (T_FILE, 1, 0, [0; 13]));
}

#[test]
fn append_across_blocks() {
    let mut m = empty_fs();
    let inum = m.ialloc(T_FILE).unwrap();
    let data: Vec<u8> = (0..1500u32).map(|i| (i % 256) as u8).collect();
    m.iappend(inum, &data[..1000]).unwrap();
    m.iappend(inum, &data[1000..]).unwrap();
    let d = m.rinode(inum).unwrap();
    assert_eq!(d.size, 1500);
    assert_eq!(d.addrs[0], 47);
    assert_eq!(d.addrs[1], 48);
    assert_eq!(d.addrs[2], 0);
    assert_eq!(m.freeblock, 49);
    assert_eq!(block(&m, 47), data[..1024].to_vec());
    assert_eq!(block(&m, 48)[..476], data[1024..]);
    assert!(block(&m, 48)[476..].iter().all(|&c| c == 0));
}

#[test]
fn append_uses_the_indirect_block() {
    let mut m = empty_fs();
    let inum = m.ialloc(T_FILE).unwrap();
    let data = vec![0x5Au8; NDIRECT * BSIZE + 10];
    m.iappend(inum, &data).unwrap();
    let d = m.rinode(inum).unwrap();
    assert_eq!(d.size as usize, data.len());
    assert_eq!(d.addrs[11], 58);
    let ind = d.addrs[12];
    assert_eq!(ind, 59);
    let ib = block(&m, ind);
    assert_eq!(&ib[0..4], &60u32.to_le_bytes());
    assert!(ib[4..].iter().all(|&c| c == 0));
    assert_eq!(block(&m, 60)[..10], [0x5A; 10]);
    assert_eq!(m.freeblock, 61);
}

#[test]
fn bitmap_marks_used_blocks() {
    let mut m = empty_fs();
    m.balloc(51);
    let b = block(&m, 46);
    assert_eq!(&b[..7], &[0xFF, 0xFF, 0xFF, 0xFF, 0xFF, 0xFF, 0x07]);
    assert!(b[7..].iter().all(|&c| c == 0));
}

#[test]
fn build_image_with_two_files() {
    let sh: Vec<u8> = (0..1500u32).map(|i| (i * 7 % 256) as u8).collect();
    let files = vec![host("user/_sh", sh.clone()), host("help", b"0123456789".to_vec())];
    let m = build_fs(&files).ok().unwrap();
    assert_eq!(m.image.len(), 2000 * BSIZE);
    assert_eq!(block(&m, 1), serialize_superblock(&fs_sb()));
    assert_eq!(m.freeinode, 4);
    assert_eq!(m.freeblock, 51);

    let root = m.rinode(1).unwrap();
    assert_eq!((root.typ, root.nlink, root.size, root.addrs[0]), (T_DIR, 1, 1024, 47));
    let dir = block(&m, 47);
    assert_eq!(&dir[0..16], &serialize_dirent(&make_dirent(1, ".")));
    assert_eq!(&dir[16..32], &serialize_dirent(&make_dirent(1, "..")));
    assert_eq!(&dir[32..48], &serialize_dirent(&make_dirent(2, "sh")));
    assert_eq!(&dir[48..64], &serialize_dirent(&make_dirent(3, "help")));
    assert!(dir[64..].iter().all(|&c| c == 0));

    let f = m.rinode(2).unwrap();
    assert_eq!((f.typ, f.size, f.addrs[0], f.addrs[1], f.addrs[2]), (T_FILE, 1500, 48, 49, 0));
    assert_eq!(block(&m, 48), sh[..1024].to_vec());
    assert_eq!(block(&m, 49)[..476], sh[1024..]);
    let h = m.rinode(3).unwrap();
    assert_eq!((h.typ, h.size, h.addrs[0]), (T_FILE, 10, 50));
    assert_eq!(&block(&m, 50)[..10], b"0123456789");

    let bm = block(&m, 46);
    assert_eq!(&bm[..7], &[0xFF, 0xFF, 0xFF, 0xFF, 0xFF, 0xFF, 0x07]);
}

#[test]
fn build_empty_image() {
    let m = build_fs(&Vec::new()).ok().unwrap();
    let root = m.rinode(1).unwrap();
    assert_eq!(root.size, 1024);
    assert_eq!(m.freeinode, 2);
    assert_eq!(m.freeblock, 48);
    assert_eq!(m.rinode(2).unwrap().typ, 0);
}

#[test]
fn build_fails_when_files_do_not_fit() {
    let big = vec![1u8; 268 * BSIZE];
    let files: Vec<HostFile> = (0..8).map(|i| host(&format!("f{}", i), big.clone())).collect();
    assert!(matches!(build_fs(&files), Err(MkfsError::ShortRead)));
}

#[test]
fn build_fills_most_of_the_image() {
    let big = vec![3u8; 268 * BSIZE];
    let files: Vec<HostFile> = (0..7).map(|i| host(&format!("f{}", i), big.clone())).collect();
    let m = build_fs(&files).ok().unwrap();
    assert_eq!(m.freeblock, 47 + 1 + 7 * 269);
    let d = m.rinode(8).unwrap();
    assert_eq!(d.size as usize, 268 * BSIZE);
    assert_ne!(d.addrs[12], 0);
}

#[test]
fn build_fills_every_inode_slot() {
    let files: Vec<HostFile> = (0..206).map(|i| host(&format!("f{}", i), vec![i as u8; 3])).collect();
    let m = build_fs(&files).ok().unwrap();
    assert_eq!(m.freeinode, 208);
    let last = m.rinode(207).unwrap();
    assert_eq!((last.typ, last.size), (T_FILE, 3));
    assert_eq!(&block(&m, last.addrs[0])[..3], &[205u8, 205, 205]);
    let bm = block(&m, 46);
    assert_eq!(bm[0], 0xFF);
}

#[test]
fn file_blocks_are_numbered_in_order() {
    let big = vec![3u8; 20 * BSIZE];
    let files = vec![host("a", big.clone()), host("b", big)];
    let m = build_fs(&files).ok().unwrap();
    for (inum, first) in [(2u32, 48u32), (3, 48 + 21)] {
        let d = m.rinode(inum).unwrap();
        for k in 0..12 {
            assert_eq!(d.addrs[k], first + k as u32);
        }
        assert_eq!(d.addrs[12], first + 12);
        let ind = block(&m, d.addrs[12]);
        for k in 0..8 {
            let e = u32::from_le_bytes([ind[4 * k], ind[4 * k + 1], ind[4 * k + 2], ind[4 * k + 3]]);
            assert_eq!(e, first + 13 + k as u32);
        }
    }
    assert_eq!(m.freeblock, 48 + 42);
}
