use vstd::prelude::*;
use vstd::string::StringSliceAdditionalSpecFns;
use crate::elf::{le16, le32};

verus! {

/// Size in bytes of a file-system block.
pub const BSIZE: usize = 1024;
/// Size of the file system in blocks.
pub const FSSIZE: u32 = 2000;
/// Number of inodes.
pub const NINODES: u32 = 200;
/// Inodes the inode blocks have room for: `NINODES / IPB + 1` blocks of
/// `IPB` inodes each.
pub const INODE_SLOTS: u32 = 208;
/// Magic number that identifies the file-system format.
pub const FSMAGIC: u32 = 0x10240390;
/// Blocks reserved for the log.
pub const LOGBLOCKS: u32 = 30;
/// Direct block addresses in an inode.
pub const NDIRECT: usize = 12;
/// Bytes of a name in a directory entry.
pub const DIRSIZ: usize = 14;
/// Inode number of the root directory.
pub const ROOTINO: u32 = 1;
/// Inode type of a directory.
pub const T_DIR: u16 = 1;
/// Inode type of a regular file.
pub const T_FILE: u16 = 2;
/// Block addresses in an indirect block.
pub const NINDIRECT: usize = 256;
/// Most data blocks one file can have.
pub const MAXFILE: usize = 268;
/// Bytes of an on-disk inode.
pub const DINODE_SIZE: usize = 64;
/// Inodes per block.
pub const IPB: u32 = 16;
/// Bits in a bitmap block.
pub const BPB: u32 = 8192;

/// The superblock: where each region of the file system starts.
#[derive(Clone, Copy)]
pub struct Superblock {
    pub magic: u32,
    pub size: u32,
    pub nblocks: u32,
    pub ninodes: u32,
    pub nlog: u32,
    pub logstart: u32,
    pub inodestart: u32,
    pub bmapstart: u32,
}

/// An on-disk inode.
#[derive(Clone, Copy)]
pub struct Dinode {
    /// File type (`T_DIR`, `T_FILE`, or 0 for a free inode).
    pub typ: u16,
    pub major: u16,
    pub minor: u16,
    pub nlink: u16,
    /// File size in bytes.
    pub size: u32,
    /// Direct block addresses, then the indirect block's address.
    pub addrs: [u32; 13],
}

/// A directory entry.
#[derive(Clone, Copy)]
pub struct Dirent {
    pub inum: u16,
    pub name: [u8; 14],
}

impl Default for Dirent {
    fn default() -> (r: Self)
        ensures
            r.inum == 0,
            r.name@ == Seq::new(14, |i: int| 0u8),
    {
        let r = Dirent { inum: 0, name: [0u8; 14] };
        assert(r.name@ =~= Seq::new(14, |i: int| 0u8));
        r
    }
}

/// Byte `j` (0 or 1) of `x` stored little-endian.
pub open spec fn u16_byte(x: u16, j: int) -> u8 {
    if j == 0 { (x % 256) as u8 } else { (x / 256) as u8 }
}

/// Byte `j` (0 to 3) of `x` stored little-endian.
pub open spec fn u32_byte(x: u32, j: int) -> u8 {
    if j == 0 {
        (x % 256) as u8
    } else if j == 1 {
        ((x / 256) % 256) as u8
    } else if j == 2 {
        ((x / 0x1_0000) % 256) as u8
    } else {
        (x / 0x100_0000) as u8
    }
}

/// Byte `k` of the on-disk form of `d`.
pub open spec fn dinode_byte(d: Dinode, k: int) -> u8 {
    if k < 2 {
        u16_byte(d.typ, k)
    } else if k < 4 {
        u16_byte(d.major, k - 2)
    } else if k < 6 {
        u16_byte(d.minor, k - 4)
    } else if k < 8 {
        u16_byte(d.nlink, k - 6)
    } else if k < 12 {
        u32_byte(d.size, k - 8)
    } else {
        u32_byte(d.addrs@[(k - 12) / 4], (k - 12) % 4)
    }
}

/// The 64 bytes that store `d`: type, major, minor, nlink, size, then the
/// 13 block addresses, each little-endian.
pub open spec fn dinode_bytes(d: Dinode) -> Seq<u8> {
    Seq::new(64, |k: int| dinode_byte(d, k))
}

/// `d` is the inode stored at `o` in `b`.
pub open spec fn dinode_at(b: Seq<u8>, o: int, d: Dinode) -> bool {
    &&& d.typ == le16(b, o)
    &&& d.major == le16(b, o + 2)
    &&& d.minor == le16(b, o + 4)
    &&& d.nlink == le16(b, o + 6)
    &&& d.size == le32(b, o + 8)
    &&& forall|k: int| 0 <= k < 13 ==> #[trigger] d.addrs@[k] == le32(b, o + 12 + 4 * k)
}

/// The superblock's fields, little-endian, then zeros to the end of a block.
pub open spec fn superblock_bytes(sb: Superblock) -> Seq<u8> {
    Seq::new(BSIZE as nat, |k: int|
        if k < 4 {
            u32_byte(sb.magic, k)
        } else if k < 8 {
            u32_byte(sb.size, k - 4)
        } else if k < 12 {
            u32_byte(sb.nblocks, k - 8)
        } else if k < 16 {
            u32_byte(sb.ninodes, k - 12)
        } else if k < 20 {
            u32_byte(sb.nlog, k - 16)
        } else if k < 24 {
            u32_byte(sb.logstart, k - 20)
        } else if k < 28 {
            u32_byte(sb.inodestart, k - 24)
        } else if k < 32 {
            u32_byte(sb.bmapstart, k - 28)
        } else {
            0u8
        })
}

/// The 16 bytes that store `de`: the inode number, little-endian, then the
/// name.
pub open spec fn dirent_bytes(de: Dirent) -> Seq<u8> {
    Seq::new(16, |k: int| if k < 2 { u16_byte(de.inum, k) } else { de.name@[k - 2] })
}

proof fn lemma_u16_bytes(x: u16)
    ensures
        u16_byte(x, 0) + 256 * u16_byte(x, 1) == x,
{
}

proof fn lemma_u32_bytes(x: u32)
    ensures
        u32_byte(x, 0) + 256 * u32_byte(x, 1) + 0x1_0000 * (u32_byte(x, 2) + 256 * u32_byte(x, 3)) == x,
{
    let a = x % 256;
    let b = (x / 256) % 256;
    let c = (x / 0x1_0000) % 256;
    let d = x / 0x100_0000;
    assert(a + 256 * b + 0x1_0000 * (c + 256 * d) == x) by (nonlinear_arith)
        requires a == x % 256, b == (x / 256) % 256, c == (x / 0x1_0000) % 256, d == x / 0x100_0000;
}

proof fn lemma_le16_of_bytes(b0: u8, b1: u8)
    ensures
        u16_byte((b0 + 256 * b1) as u16, 0) == b0,
        u16_byte((b0 + 256 * b1) as u16, 1) == b1,
{
    let x = b0 + 256 * b1;
    assert(x % 256 == b0 && x / 256 == b1) by (nonlinear_arith)
        requires x == b0 + 256 * b1, 0 <= b0 < 256, 0 <= b1 < 256;
}

proof fn lemma_le32_of_bytes(b0: u8, b1: u8, b2: u8, b3: u8)
    ensures
        u32_byte((b0 + 256 * b1 + 0x1_0000 * (b2 + 256 * b3)) as u32, 0) == b0,
        u32_byte((b0 + 256 * b1 + 0x1_0000 * (b2 + 256 * b3)) as u32, 1) == b1,
        u32_byte((b0 + 256 * b1 + 0x1_0000 * (b2 + 256 * b3)) as u32, 2) == b2,
        u32_byte((b0 + 256 * b1 + 0x1_0000 * (b2 + 256 * b3)) as u32, 3) == b3,
{
    let x = b0 + 256 * b1 + 0x1_0000 * (b2 + 256 * b3);
    assert(x % 256 == b0 && (x / 256) % 256 == b1 && (x / 0x1_0000) % 256 == b2 && x / 0x100_0000 == b3) by (nonlinear_arith)
        requires x == b0 + 256 * b1 + 0x1_0000 * (b2 + 256 * b3), 0 <= b0 < 256, 0 <= b1 < 256, 0 <= b2 < 256, 0 <= b3 < 256;
}

/// `x` as stored on disk: file-system numbers are kept in host order and
/// laid out little-endian when a structure is serialized.
pub fn xshort(x: u16) -> (r: u16)
    ensures
        r == x,
{
    x
}

/// `x` as stored on disk; see `xshort`.
pub fn xint(x: u32) -> (r: u32)
    ensures
        r == x,
{
    x
}

fn push_u16(out: &mut Vec<u8>, x: u16)
    ensures
        final(out)@ == old(out)@ + seq![u16_byte(x, 0), u16_byte(x, 1)],
{
    out.push((x % 256) as u8);
    out.push((x / 256) as u8);
    assert(final(out)@ =~= old(out)@ + seq![u16_byte(x, 0), u16_byte(x, 1)]);
}

fn push_u32(out: &mut Vec<u8>, x: u32)
    ensures
        final(out)@ == old(out)@ + seq![u32_byte(x, 0), u32_byte(x, 1), u32_byte(x, 2), u32_byte(x, 3)],
{
    out.push((x % 256) as u8);
    out.push(((x / 256) % 256) as u8);
    out.push(((x / 0x1_0000) % 256) as u8);
    out.push((x / 0x100_0000) as u8);
    assert(final(out)@ =~= old(out)@ + seq![u32_byte(x, 0), u32_byte(x, 1), u32_byte(x, 2), u32_byte(x, 3)]);
}

/// The block that stores `sb`.
pub fn serialize_superblock(sb: &Superblock) -> (r: Vec<u8>)
    ensures
        r@ == superblock_bytes(*sb),
{
    let mut buf: Vec<u8> = Vec::new();
    push_u32(&mut buf, sb.magic);
    push_u32(&mut buf, sb.size);
    push_u32(&mut buf, sb.nblocks);
    push_u32(&mut buf, sb.ninodes);
    push_u32(&mut buf, sb.nlog);
    push_u32(&mut buf, sb.logstart);
    push_u32(&mut buf, sb.inodestart);
    push_u32(&mut buf, sb.bmapstart);
    assert forall|k: int| 0 <= k < 32 implies #[trigger] buf@[k] == superblock_bytes(*sb)[k] by {}
    while buf.len() < BSIZE
        invariant
            32 <= buf@.len() <= BSIZE,
            forall|k: int| 0 <= k < buf@.len() ==> #[trigger] buf@[k] == superblock_bytes(*sb)[k],
        decreases BSIZE - buf@.len(),
    {
        buf.push(0);
    }
    assert(buf@ =~= superblock_bytes(*sb));
    buf
}

/// The 64 bytes that store `d`.
pub fn serialize_dinode(d: &Dinode) -> (r: Vec<u8>)
    ensures
        r@ == dinode_bytes(*d),
{
    let mut out: Vec<u8> = Vec::new();
    push_u16(&mut out, d.typ);
    push_u16(&mut out, d.major);
    push_u16(&mut out, d.minor);
    push_u16(&mut out, d.nlink);
    push_u32(&mut out, d.size);
    assert forall|k: int| 0 <= k < 12 implies #[trigger] out@[k] == dinode_byte(*d, k) by {}
    let mut i: usize = 0;
    while i < 13
        invariant
            i <= 13,
            out@.len() == 12 + 4 * i,
            forall|k: int| 0 <= k < out@.len() ==> #[trigger] out@[k] == dinode_byte(*d, k),
        decreases 13 - i,
    {
        push_u32(&mut out, d.addrs[i]);
        proof {
            assert forall|k: int| 0 <= k < out@.len() implies #[trigger] out@[k] == dinode_byte(*d, k) by {
                if k >= 12 + 4 * i {
                    assert((k - 12) / 4 == i && (k - 12) % 4 == k - 12 - 4 * i);
                }
            }
        }
        i = i + 1;
    }
    assert(out@ =~= dinode_bytes(*d));
    out
}

fn read_le16(b: &[u8], o: usize) -> (r: u16)
    requires
        o + 2 <= b@.len(),
        o + 2 <= usize::MAX,
    ensures
        r == le16(b@, o as int),
{
    b[o] as u16 + (b[o + 1] as u16) * 256
}

fn read_le32(b: &[u8], o: usize) -> (r: u32)
    requires
        o + 4 <= b@.len(),
        o + 4 <= usize::MAX,
    ensures
        r == le32(b@, o as int),
{
    read_le16(b, o) as u32 + (read_le16(b, o + 2) as u32) * 0x1_0000
}

/// The inode stored in the first 64 bytes of `buf`.
pub fn deserialize_dinode(buf: &[u8]) -> (r: Dinode)
    requires
        buf@.len() >= DINODE_SIZE,
    ensures
        dinode_at(buf@, 0, r),
{
    let typ = read_le16(buf, 0);
    let major = read_le16(buf, 2);
    let minor = read_le16(buf, 4);
    let nlink = read_le16(buf, 6);
    let size = read_le32(buf, 8);
    let mut addrs = [0u32; 13];
    let mut i: usize = 0;
    while i < 13
        invariant
            i <= 13,
            buf@.len() >= 64,
            forall|k: int| 0 <= k < i ==> #[trigger] addrs@[k] == le32(buf@, 12 + 4 * k),
        decreases 13 - i,
    {
        addrs[i] = read_le32(buf, 12 + 4 * i);
        i = i + 1;
    }
    Dinode { typ, major, minor, nlink, size, addrs }
}

/// Reading back what `serialize_dinode` stored gives the same inode.
pub proof fn lemma_dinode_roundtrip(d: Dinode, e: Dinode)
    requires
        dinode_at(dinode_bytes(d), 0, e),
    ensures
        e == d,
{
    let b = dinode_bytes(d);
    lemma_u16_bytes(d.typ);
    lemma_u16_bytes(d.major);
    lemma_u16_bytes(d.minor);
    lemma_u16_bytes(d.nlink);
    lemma_u32_bytes(d.size);
    assert forall|k: int| 0 <= k < 13 implies #[trigger] e.addrs@[k] == d.addrs@[k] by {
        lemma_u32_bytes(d.addrs@[k]);
        assert(b[12 + 4 * k] == u32_byte(d.addrs@[k], 0));
        assert(b[12 + 4 * k + 1] == u32_byte(d.addrs@[k], 1));
        assert(b[12 + 4 * k + 2] == u32_byte(d.addrs@[k], 2));
        assert(b[12 + 4 * k + 3] == u32_byte(d.addrs@[k], 3));
    }
    assert(e.addrs@ =~= d.addrs@);
    assert(e.typ == d.typ);
    assert(e.major == d.major);
    assert(e.minor == d.minor);
    assert(e.nlink == d.nlink);
    assert(e.size == d.size);
    assert(e.addrs == d.addrs);
}

/// Storing an inode read from `b` gives back `b`'s first 64 bytes.
pub proof fn lemma_dinode_bytes_roundtrip(b: Seq<u8>, e: Dinode)
    requires
        b.len() >= 64,
        dinode_at(b, 0, e),
    ensures
        dinode_bytes(e) == b.subrange(0, 64),
{
    assert forall|k: int| 0 <= k < 64 implies #[trigger] dinode_bytes(e)[k] == b[k] by {
        if k < 8 {
            let o = k - k % 2;
            lemma_le16_of_bytes(b[o], b[o + 1]);
        } else if k < 12 {
            lemma_le32_of_bytes(b[8], b[9], b[10], b[11]);
        } else {
            let a = (k - 12) / 4;
            let o = 12 + 4 * a;
            assert(e.addrs@[a] == le32(b, o));
            lemma_le32_of_bytes(b[o], b[o + 1], b[o + 2], b[o + 3]);
        }
    }
    assert(dinode_bytes(e) =~= b.subrange(0, 64));
}

/// The block that holds inode `inum`.
pub fn iblock(inum: u32, sb: &Superblock) -> (r: u32)
    requires
        inum / IPB + sb.inodestart <= u32::MAX,
    ensures
        r == inum / IPB + sb.inodestart,
{
    inum / IPB + sb.inodestart
}

/// The 16 bytes that store `de`.
pub fn serialize_dirent(de: &Dirent) -> (r: Vec<u8>)
    ensures
        r@ == dirent_bytes(*de),
{
    let mut buf: Vec<u8> = Vec::new();
    push_u16(&mut buf, de.inum);
    let mut i: usize = 0;
    while i < DIRSIZ
        invariant
            i <= DIRSIZ,
            buf@.len() == 2 + i,
            forall|k: int| 0 <= k < buf@.len() ==> #[trigger] buf@[k] == dirent_bytes(*de)[k],
        decreases DIRSIZ - i,
    {
        buf.push(de.name[i]);
        i = i + 1;
    }
    assert(buf@ =~= dirent_bytes(*de));
    buf
}

/// A directory entry for inode `inum` named `name`, the name padded with
/// zero bytes.
pub fn make_dirent(inum: u16, name: &str) -> (r: Dirent)
    requires
        name.spec_bytes().len() <= DIRSIZ,
    ensures
        r.inum == inum,
        r.name@ == name.spec_bytes() + Seq::new((DIRSIZ - name.spec_bytes().len()) as nat, |i: int| 0u8),
{
    let mut de = Dirent::default();
    de.inum = xshort(inum);
    let bytes = name.as_bytes();
    let mut i: usize = 0;
    while i < bytes.len()
        invariant
            i <= bytes@.len(),
            bytes@ == name.spec_bytes(),
            bytes@.len() <= DIRSIZ,
            de.inum == inum,
            forall|k: int| 0 <= k < i ==> #[trigger] de.name@[k] == bytes@[k],
            forall|k: int| i <= k < DIRSIZ ==> #[trigger] de.name@[k] == 0u8,
        decreases bytes@.len() - i,
    {
        de.name[i] = bytes[i];
        i = i + 1;
    }
    assert(de.name@ =~= name.spec_bytes() + Seq::new((DIRSIZ - name.spec_bytes().len()) as nat, |i: int| 0u8));
    de
}

/// Why building the image stopped: a block was read past the image's end.
#[derive(Debug, Clone, Copy, PartialEq, Eq)]
pub enum MkfsError {
    ShortRead,
}

/// The file-system image being built, with the allocation pointers.
pub struct Mkfs {
    /// The image's bytes, block after block.
    pub image: Vec<u8>,
    pub sb: Superblock,
    /// Next inode number to hand out.
    pub freeinode: u32,
    /// Next block number to hand out.
    pub freeblock: u32,
}

/// Block `b` lies wholly inside `img`.
pub open spec fn has_block(img: Seq<u8>, b: int) -> bool {
    0 <= b && (b + 1) * 1024 <= img.len()
}

/// The bytes of block `b`.
pub open spec fn block_of(img: Seq<u8>, b: int) -> Seq<u8> {
    img.subrange(b * 1024, b * 1024 + 1024)
}

/// `img` after writing `buf` as block `b`; writing past the end first pads
/// the image with zeros.
pub open spec fn write_block(img: Seq<u8>, b: int, buf: Seq<u8>) -> Seq<u8> {
    let n = if img.len() >= (b + 1) * 1024 { img.len() as int } else { (b + 1) * 1024 };
    Seq::new(n as nat, |k: int|
        if b * 1024 <= k < b * 1024 + 1024 { buf[k - b * 1024] } else if k < img.len() { img[k] } else { 0u8 })
}

/// `s` with `t` written over it from position `at` on.
pub open spec fn splice(s: Seq<u8>, at: int, t: Seq<u8>) -> Seq<u8> {
    Seq::new(s.len(), |k: int| if at <= k < at + t.len() { t[k - at] } else { s[k] })
}

/// Where inode `inum` is stored in the image.
pub open spec fn inode_pos(sb: Superblock, inum: u32) -> int {
    (inum / IPB + sb.inodestart) * 1024 + (inum % IPB) * 64
}

/// The block that holds inode `inum`.
pub open spec fn inode_block(sb: Superblock, inum: u32) -> int {
    inum / IPB + sb.inodestart
}

/// Byte `k` of the block-allocation bitmap when blocks `0..used` are in use.
pub open spec fn bitmap_byte(used: u32, k: int) -> u8 {
    if used >= 8 * k + 8 {
        0xFFu8
    } else if used <= 8 * k {
        0u8
    } else {
        (((1u32 << ((used - 8 * k) as u32)) - 1) as u8)
    }
}

/// A fresh inode of type `typ`: one link, empty.
pub open spec fn fresh_dinode(d: Dinode, typ: u16) -> bool {
    &&& d.typ == typ
    &&& d.major == 0
    &&& d.minor == 0
    &&& d.nlink == 1
    &&& d.size == 0
    &&& d.addrs@ == Seq::new(13, |i: int| 0u32)
}

proof fn lemma_bitmap_step(i: u32, k: int, b: u8)
    requires
        k == i / 8,
        b == bitmap_byte(i, k),
        i < BPB,
    ensures
        b | ((1u8 << ((i % 8) as u8)) as u8) == bitmap_byte((i + 1) as u32, k),
{
    let r: u32 = i % 8;
    let r8: u8 = r as u8;
    assert(i == 8 * k + r);
    assert((i % 8) as u8 == r8);
    let nb = bitmap_byte((i + 1) as u32, k);
    if r == 0 {
        assert(b == 0u8);
        assert(nb == ((1u32 << 1u32) - 1) as u8);
        assert(((1u32 << 1u32) - 1) as u8 == 1u8) by (bit_vector);
        assert(0u8 | ((1u8 << 0u8) as u8) == 1u8) by (bit_vector);
    } else if r == 7 {
        assert(b == ((1u32 << 7u32) - 1) as u8);
        assert(nb == 0xFFu8);
        assert((((1u32 << 7u32) - 1) as u8) | ((1u8 << 7u8) as u8) == 0xFFu8) by (bit_vector);
    } else {
        assert(b == ((1u32 << r) - 1) as u8);
        assert(nb == ((1u32 << ((r + 1) as u32)) - 1) as u8);
        assert(1 <= r < 7 ==> (((1u32 << r) - 1) as u8) | ((1u8 << (r as u8)) as u8)
            == ((1u32 << ((r + 1) as u32)) - 1) as u8) by (bit_vector);
    }
}

/// Data blocks a file of `size` bytes occupies.
pub open spec fn nblk(size: int) -> int {
    (size + 1023) / 1024
}

/// The block that holds data block `f` of the file with inode `d`; past the
/// direct blocks, its address is read from the indirect block in `img`.
pub open spec fn fblock(img: Seq<u8>, d: Dinode, f: int) -> int {
    if f < 12 { d.addrs@[f] as int } else { le32(img, d.addrs@[12] * 1024 + (f - 12) * 4) }
}

/// The contents of the file with inode `d`.
pub open spec fn file_bytes(img: Seq<u8>, d: Dinode) -> Seq<u8> {
    Seq::new(d.size as nat, |k: int| img[fblock(img, d, k / 1024) * 1024 + k % 1024])
}

/// Block `b` holds only zeros.
pub open spec fn block_zero(img: Seq<u8>, b: int) -> bool {
    forall|q: int| b * 1024 <= q < b * 1024 + 1024 ==> #[trigger] img[q] == 0u8
}

/// The file with inode `d` owns `n` data blocks, plus its indirect block once
/// it has more than the direct ones: distinct blocks inside the image,
/// above `lo` and below `fb`. Every later block address is zero, and the
/// blocks from `fb` on are zero-filled.
pub open spec fn file_ok(img: Seq<u8>, d: Dinode, lo: int, fb: int, n: int) -> bool {
    &&& 0 <= n <= MAXFILE
    &&& 0 <= lo < fb
    &&& forall|f: int| 0 <= f < n ==> lo < #[trigger] fblock(img, d, f) < fb && has_block(img, fblock(img, d, f))
    &&& forall|f1: int, f2: int| 0 <= f1 < n && 0 <= f2 < n && f1 != f2
            ==> #[trigger] fblock(img, d, f1) != #[trigger] fblock(img, d, f2)
    &&& forall|f: int| n <= f < 12 ==> #[trigger] d.addrs@[f] == 0
    &&& n > 12 ==> {
        &&& lo < d.addrs@[12] < fb
        &&& has_block(img, d.addrs@[12] as int)
        &&& forall|f: int| 0 <= f < n ==> #[trigger] fblock(img, d, f) != d.addrs@[12]
        &&& forall|f: int| n <= f < MAXFILE ==> #[trigger] fblock(img, d, f) == 0
    }
    &&& n <= 12 ==> d.addrs@[12] == 0
    &&& forall|b: int| fb <= b && has_block(img, b) ==> #[trigger] block_zero(img, b)
}

/// Blocks an append of `len` bytes to a file of `size` bytes allocates.
pub open spec fn alloc_count(size: int, len: int) -> int {
    nblk(size + len) - nblk(size) + if nblk(size) <= 12 && nblk(size + len) > 12 { 1int } else { 0int }
}

/// The blocks that appending `len` bytes to a file of `size` bytes takes,
/// handed out from `fb` on, lie in an image of `img_len` bytes.
#[verifier::opaque]
pub open spec fn append_fits(fb: int, size: int, len: int, img_len: int) -> bool {
    (fb + alloc_count(size, len)) * 1024 <= img_len
}

/// Appending `a` bytes and then `b` bytes allocates what appending `a + b`
/// bytes at once does, and appending more never allocates less.
proof fn lemma_alloc_count_add(size: int, a: int, b: int)
    requires
        0 <= size,
        0 <= a,
        0 <= b,
    ensures
        alloc_count(size, a) + alloc_count(size + a, b) == alloc_count(size, a + b),
        alloc_count(size, a) <= alloc_count(size, a + b),
        0 <= alloc_count(size, a),
{
    assert(nblk(size) <= nblk(size + a) <= nblk(size + a + b));
}

proof fn lemma_splice_inode(img: Seq<u8>, pos: int, d: Dinode, d1: Dinode)
    requires
        0 <= pos,
        pos + 64 <= img.len(),
        dinode_at(splice(img, pos, dinode_bytes(d)), pos, d1),
    ensures
        d1 == d,
{
    let s2 = splice(img, pos, dinode_bytes(d));
    let t = dinode_bytes(d);
    assert forall|o: int| 0 <= o < 64 implies #[trigger] s2[pos + o] == t[o] by {}
    assert(dinode_at(t, 0, d1)) by {
        assert forall|k: int| 0 <= k < 13 implies #[trigger] d1.addrs@[k] == le32(t, 12 + 4 * k) by {
            assert(s2[pos + 12 + 4 * k] == t[12 + 4 * k]);
            assert(s2[pos + 12 + 4 * k + 1] == t[12 + 4 * k + 1]);
            assert(s2[pos + 12 + 4 * k + 2] == t[12 + 4 * k + 2]);
            assert(s2[pos + 12 + 4 * k + 3] == t[12 + 4 * k + 3]);
        }
    }
    lemma_dinode_roundtrip(d, d1);
}

/// The first `off` bytes of the file with inode `d` in `img`, whatever its
/// recorded size, are `c`.
pub open spec fn holds(img: Seq<u8>, d: Dinode, off: int, c: Seq<u8>) -> bool {
    forall|k: int| 0 <= k < off ==> #[trigger] img[fblock(img, d, k / 1024) * 1024 + k % 1024] == c[k]
}

/// Where an append of `data` to the file with inode `d0` stands after its
/// first `p` bytes: the file's blocks in `img` with inode `din` hold the old
/// contents then those bytes, the blocks handed out since are new, and no
/// other block below `fb0` changed.
/// The number an append that starts with `nb0` data blocks and the free
/// block `fb0` hands out for file block `f` (from `nb0` on): numbers are
/// handed out in order, and the indirect block, when the file first needs
/// it, takes the number before that of file block 12.
pub open spec fn new_block_no(fb0: int, nb0: int, f: int) -> int {
    fb0 + (f - nb0) + if f >= 12 && nb0 <= 12 { 1int } else { 0int }
}

/// The file with inode `d` got its blocks from file block `nb0` on, and its
/// indirect block if it first needed one, numbered as `new_block_no` says.
#[verifier::opaque]
pub open spec fn blocks_in_order(img: Seq<u8>, d: Dinode, fb0: int, nb0: int) -> bool {
    &&& forall|f: int| nb0 <= f < nblk(d.size as int) ==> #[trigger] fblock(img, d, f) == new_block_no(fb0, nb0, f)
    &&& nb0 <= 12 && nblk(d.size as int) > 12 ==> d.addrs@[12] == fb0 + 12 - nb0
}

pub open spec fn append_inv(
    img0: Seq<u8>, d0: Dinode, fb0: int, ib: int, f0: Seq<u8>, data: Seq<u8>,
    img: Seq<u8>, din: Dinode, fb: int, off: int, p: int,
) -> bool {
    let s0 = d0.size as int;
    &&& file_ok(img, din, ib, fb, nblk(off))
    &&& img.len() == img0.len()
    &&& holds(img, din, off, f0 + data.subrange(0, p))
    &&& fb == fb0 + alloc_count(s0, p)
    &&& fb == fb0 || fb * 1024 <= img0.len()
    &&& forall|f: int| 0 <= f < nblk(s0) ==> #[trigger] fblock(img, din, f) == fblock(img0, d0, f)
    &&& forall|f: int| nblk(s0) <= f < nblk(off) ==> #[trigger] fblock(img, din, f) == new_block_no(fb0, nblk(s0), f)
    &&& nblk(s0) > 12 ==> din.addrs@[12] == d0.addrs@[12]
    &&& nblk(s0) <= 12 && nblk(off) > 12 ==> din.addrs@[12] == fb0 + 12 - nblk(s0)
    &&& forall|q: int| 0 <= q < img0.len() && q / 1024 < fb0
            && !(s0 % 1024 != 0 && q / 1024 == fblock(img0, d0, s0 / 1024))
            && !(nblk(s0) > 12 && q / 1024 == d0.addrs@[12])
            ==> #[trigger] img[q] == img0[q]
}

proof fn lemma_nblk(off: int, n1: int)
    requires
        0 <= off,
        0 < n1,
        off + n1 <= (off / 1024 + 1) * 1024,
    ensures
        off % 1024 == 0 ==> nblk(off) == off / 1024,
        off % 1024 != 0 ==> nblk(off) == off / 1024 + 1,
        nblk(off + n1) == off / 1024 + 1,
        off - (off / 1024) * 1024 == off % 1024,
{
    assert(off == (off / 1024) * 1024 + off % 1024);
}

#[verifier::rlimit(100)]
#[verifier::spinoff_prover]
proof fn lemma_append_step(
    img0: Seq<u8>, d0: Dinode, fb0: int, ib: int, f0: Seq<u8>, data: Seq<u8>,
    img1: Seq<u8>, din1: Dinode, fb1: int, off: int, p: int,
    img2: Seq<u8>, din2: Dinode, fb2: int, x: int, blk: Seq<u8>, buf3: Seq<u8>, img3: Seq<u8>, n1: int,
)
    requires
        append_inv(img0, d0, fb0, ib, f0, data, img1, din1, fb1, off, p),
        f0.len() == d0.size,
        off == d0.size + p,
        0 <= p,
        p + n1 <= data.len(),
        0 < n1,
        off + n1 <= (off / 1024 + 1) * 1024,
        off / 1024 < MAXFILE,
        din2.size == din1.size,
        fb2 == fb1 + (if off / 1024 == nblk(off) { 1int } else { 0int })
            + (if off / 1024 == nblk(off) && nblk(off) == 12 { 1int } else { 0int }),
        file_ok(img2, din2, ib, fb2, off / 1024 + 1),
        fblock(img2, din2, off / 1024) == x,
        off / 1024 == nblk(off) ==> x == fb2 - 1,
        blk == block_of(img2, x),
        has_block(img2, x),
        forall|f: int| 0 <= f < nblk(off) ==> #[trigger] fblock(img2, din2, f) == fblock(img1, din1, f),
        forall|q: int| 0 <= q < img1.len() && (off / 1024 < 12 || q / 1024 != din2.addrs@[12]) ==> #[trigger] img2[q] == img1[q],
        img2.len() == img1.len(),
        off / 1024 >= 12 && nblk(off) > 12 ==> din2.addrs@[12] == din1.addrs@[12],
        off / 1024 >= 12 && nblk(off) <= 12 ==> din2.addrs@[12] == fb1,
        off / 1024 < 12 ==> din2.addrs@[12] == din1.addrs@[12],
        buf3.len() == 1024,
        forall|k: int| 0 <= k < 1024 ==> #[trigger] buf3[k] ==
            if off % 1024 <= k < off % 1024 + n1 { data[p + k - off % 1024] } else { blk[k] },
        img3 == write_block(img2, x, buf3),
    ensures
        append_inv(img0, d0, fb0, ib, f0, data, img3, din2, fb2, off + n1, p + n1),
{
    let s0 = d0.size as int;
    let fbn = off / 1024;
    let n = nblk(off);
    lemma_nblk(off, n1);
    let start = off % 1024;
    assert(img3.len() == img2.len());
    assert forall|q: int| 0 <= q < img3.len() && q / 1024 != x implies #[trigger] img3[q] == img2[q] by {}
    // The tree of blocks is unchanged by a write to data block x.
    assert(fbn + 1 > 12 ==> din2.addrs@[12] != x);
    assert forall|f: int| 0 <= f < MAXFILE && (f < 12 || fbn + 1 > 12) implies #[trigger] fblock(img3, din2, f) == fblock(img2, din2, f) by {
        if f >= 12 {
            let o = din2.addrs@[12] * 1024 + (f - 12) * 4;
            assert(o / 1024 == din2.addrs@[12]);
            assert((o + 1) / 1024 == din2.addrs@[12]);
            assert((o + 2) / 1024 == din2.addrs@[12]);
            assert((o + 3) / 1024 == din2.addrs@[12]);
            assert(img3[o] == img2[o] && img3[o + 1] == img2[o + 1] && img3[o + 2] == img2[o + 2] && img3[o + 3] == img2[o + 3]);
        }
    }
    assert(file_ok(img3, din2, ib, fb2, fbn + 1)) by {
        assert forall|f: int| 0 <= f < fbn + 1 implies ib < #[trigger] fblock(img3, din2, f) < fb2 && has_block(img3, fblock(img3, din2, f)) by {
            assert(fblock(img3, din2, f) == fblock(img2, din2, f));
        }
        assert forall|f1: int, f2: int| 0 <= f1 < fbn + 1 && 0 <= f2 < fbn + 1 && f1 != f2
            implies #[trigger] fblock(img3, din2, f1) != #[trigger] fblock(img3, din2, f2) by {
            assert(fblock(img3, din2, f1) == fblock(img2, din2, f1));
            assert(fblock(img3, din2, f2) == fblock(img2, din2, f2));
        }
        if fbn + 1 > 12 {
            assert forall|f: int| 0 <= f < fbn + 1 implies #[trigger] fblock(img3, din2, f) != din2.addrs@[12] by {
                assert(fblock(img3, din2, f) == fblock(img2, din2, f));
            }
            assert forall|f: int| fbn + 1 <= f < MAXFILE implies #[trigger] fblock(img3, din2, f) == 0 by {
                assert(fblock(img3, din2, f) == fblock(img2, din2, f));
            }
        }
        assert forall|b: int| fb2 <= b && has_block(img3, b) implies #[trigger] block_zero(img3, b) by {
            assert(block_zero(img2, b));
            assert forall|q: int| b * 1024 <= q < b * 1024 + 1024 implies #[trigger] img3[q] == 0u8 by {
                assert(q / 1024 == b);
                assert(img3[q] == img2[q]);
            }
        }
    }
    let c1 = f0 + data.subrange(0, p);
    let c3 = f0 + data.subrange(0, p + n1);
    assert(holds(img3, din2, off + n1, c3)) by {
        assert forall|k: int| 0 <= k < off + n1 implies
            #[trigger] img3[fblock(img3, din2, k / 1024) * 1024 + k % 1024] == c3[k] by {
            let f = k / 1024;
            if k < off {
                assert(f < n);
                assert(f <= fbn);
                let bb = fblock(img2, din2, f);
                assert(fblock(img3, din2, f) == bb);
                assert(bb == fblock(img1, din1, f));
                let pos = bb * 1024 + k % 1024;
                assert(pos / 1024 == bb);
                assert(c3[k] == c1[k]);
                assert(img1[fblock(img1, din1, f) * 1024 + k % 1024] == c1[k]);
                if fbn >= 12 && fbn + 1 > 12 {
                    assert(bb != din2.addrs@[12]);
                }
                assert(img2[pos] == img1[pos]);
                if bb == x {
                    assert(f == fbn);
                    assert(k % 1024 < start);
                    assert(img3[pos] == buf3[k % 1024]);
                    assert(buf3[k % 1024] == blk[k % 1024]);
                } else {
                    assert(img3[pos] == img2[pos]);
                }
            } else {
                assert(f == fbn);
                assert(fblock(img3, din2, f) == x);
                assert(k % 1024 == start + (k - off));
                let pos = x * 1024 + k % 1024;
                assert(img3[pos] == buf3[k % 1024]);
                assert(buf3[k % 1024] == data[p + k - off]);
                assert(k - s0 >= p);
                assert(c3[k] == data[k - s0]);
            }
        }
    }
    assert(s0 <= off);
    assert(nblk(s0) <= n);
    assert(fb2 == fb0 + alloc_count(s0, p + n1));
    if fbn == n {
        assert(fblock(img2, din2, fbn) == x);
        assert(x == fb2 - 1);
        assert(fb2 * 1024 <= img0.len());
    }
    assert forall|f: int| 0 <= f < nblk(s0) implies #[trigger] fblock(img3, din2, f) == fblock(img0, d0, f) by {
        assert(fblock(img3, din2, f) == fblock(img2, din2, f));
        assert(fblock(img2, din2, f) == fblock(img1, din1, f));
    }
    assert forall|f: int| nblk(s0) <= f < nblk(off + n1) implies #[trigger] fblock(img3, din2, f) == new_block_no(fb0, nblk(s0), f) by {
        assert(fblock(img3, din2, f) == fblock(img2, din2, f));
        if f < n {
            assert(fblock(img2, din2, f) == fblock(img1, din1, f));
        } else {
            assert(f == fbn);
            assert(fbn == n);
            assert(nblk(off + n1) == n + 1);
        }
    }
    if nblk(s0) <= 12 && nblk(off + n1) > 12 {
        if n > 12 {
            assert(fbn >= 12);
            assert(din2.addrs@[12] == din1.addrs@[12]);
        } else {
            assert(n == 12 && fbn == 12);
            assert(din2.addrs@[12] == fb1);
        }
    }
    if nblk(s0) > 12 {
        assert(s0 > 12 * 1024);
        assert(fbn >= 12);
        assert(n > 12);
    }
    assert forall|q: int| 0 <= q < img0.len() && q / 1024 < fb0
        && !(s0 % 1024 != 0 && q / 1024 == fblock(img0, d0, s0 / 1024))
        && !(nblk(s0) > 12 && q / 1024 == d0.addrs@[12])
        implies #[trigger] img3[q] == img0[q] by {
        assert(img1[q] == img0[q]);
        if fbn >= 12 {
            if nblk(s0) > 12 {
                assert(din2.addrs@[12] == d0.addrs@[12]);
            } else if n > 12 {
                assert(din2.addrs@[12] == din1.addrs@[12]);
                assert(din1.addrs@[12] >= fb0);
            } else {
                assert(din2.addrs@[12] == fb1);
            }
            assert(q / 1024 != din2.addrs@[12]);
        }
        assert(img2[q] == img1[q]);
        if fbn == n {
            assert(x >= fb0);
        } else if fbn < nblk(s0) {
            assert(fbn == s0 / 1024);
            assert(s0 % 1024 != 0);
            assert(x == fblock(img0, d0, s0 / 1024));
        } else {
            assert(fblock(img1, din1, fbn) >= fb0);
        }
        assert(q / 1024 != x);
    }
}

proof fn lemma_dinode_unique(b: Seq<u8>, o: int, d1: Dinode, d2: Dinode)
    requires
        dinode_at(b, o, d1),
        dinode_at(b, o, d2),
    ensures
        d1 == d2,
{
    assert(d1.addrs@ =~= d2.addrs@);
    assert(d1.addrs == d2.addrs);
}

proof fn lemma_append_finish(img: Seq<u8>, img_f: Seq<u8>, dl: Dinode, din: Dinode, ib: int, fb: int, off: int, c: Seq<u8>)
    requires
        file_ok(img, dl, ib, fb, nblk(off)),
        holds(img, dl, off, c),
        din.addrs == dl.addrs,
        c.len() == off,
        din.size == off,
        img_f.len() == img.len(),
        forall|q: int| 0 <= q < img.len() && q / 1024 != ib ==> #[trigger] img_f[q] == img[q],
    ensures
        file_ok(img_f, din, ib, fb, nblk(off)),
        file_bytes(img_f, din) == c,
        forall|f: int| 0 <= f < nblk(off) ==> #[trigger] fblock(img_f, din, f) == fblock(img, din, f),
{
    let n = nblk(off);
    assert forall|f: int| #[trigger] fblock(img, din, f) == fblock(img, dl, f) by {}
    assert(file_ok(img, din, ib, fb, n));
    assert(holds(img, din, off, c)) by {
        assert forall|k: int| 0 <= k < off implies #[trigger] img[fblock(img, din, k / 1024) * 1024 + k % 1024] == c[k] by {
            assert(fblock(img, din, k / 1024) == fblock(img, dl, k / 1024));
        }
    }
    assert forall|f: int| 0 <= f < MAXFILE && (f < 12 || n > 12) implies #[trigger] fblock(img_f, din, f) == fblock(img, din, f) by {
        if f >= 12 {
            let o = din.addrs@[12] * 1024 + (f - 12) * 4;
            assert(o / 1024 == din.addrs@[12] && (o + 1) / 1024 == din.addrs@[12]);
            assert((o + 2) / 1024 == din.addrs@[12] && (o + 3) / 1024 == din.addrs@[12]);
            assert(img_f[o] == img[o] && img_f[o + 1] == img[o + 1] && img_f[o + 2] == img[o + 2] && img_f[o + 3] == img[o + 3]);
        }
    }
    assert forall|f: int| 0 <= f < n implies ib < #[trigger] fblock(img_f, din, f) < fb && has_block(img_f, fblock(img_f, din, f)) by {
        assert(fblock(img_f, din, f) == fblock(img, din, f));
    }
    assert forall|f1: int, f2: int| 0 <= f1 < n && 0 <= f2 < n && f1 != f2
        implies #[trigger] fblock(img_f, din, f1) != #[trigger] fblock(img_f, din, f2) by {
        assert(fblock(img_f, din, f1) == fblock(img, din, f1));
        assert(fblock(img_f, din, f2) == fblock(img, din, f2));
    }
    if n > 12 {
        assert forall|f: int| 0 <= f < n implies #[trigger] fblock(img_f, din, f) != din.addrs@[12] by {
            assert(fblock(img_f, din, f) == fblock(img, din, f));
        }
        assert forall|f: int| n <= f < MAXFILE implies #[trigger] fblock(img_f, din, f) == 0 by {
            assert(fblock(img_f, din, f) == fblock(img, din, f));
        }
    }
    assert forall|b: int| fb <= b && has_block(img_f, b) implies #[trigger] block_zero(img_f, b) by {
        assert(block_zero(img, b));
        assert forall|q: int| b * 1024 <= q < b * 1024 + 1024 implies #[trigger] img_f[q] == 0u8 by {
            assert(q / 1024 == b);
        }
    }
    assert forall|k: int| 0 <= k < off implies #[trigger] file_bytes(img_f, din)[k] == c[k] by {
        let f = k / 1024;
        assert(f < n);
        let bb = fblock(img, din, f);
        assert(fblock(img_f, din, f) == bb);
        let pos = bb * 1024 + k % 1024;
        assert(pos / 1024 == bb);
        assert(img_f[pos] == img[pos]);
    }
    assert(file_bytes(img_f, din) =~= c);
}

proof fn lemma_splice_inode_at(img: Seq<u8>, pos: int, d: Dinode)
    requires
        0 <= pos,
        pos + 64 <= img.len(),
    ensures
        dinode_at(splice(img, pos, dinode_bytes(d)), pos, d),
{
    let s2 = splice(img, pos, dinode_bytes(d));
    let t = dinode_bytes(d);
    assert forall|o: int| 0 <= o < 64 implies #[trigger] s2[pos + o] == t[o] by {}
    lemma_u16_bytes(d.typ);
    lemma_u16_bytes(d.major);
    lemma_u16_bytes(d.minor);
    lemma_u16_bytes(d.nlink);
    lemma_u32_bytes(d.size);
    assert(le16(s2, pos) == le16(t, 0));
    assert(le16(s2, pos + 2) == le16(t, 2));
    assert(le16(s2, pos + 4) == le16(t, 4));
    assert(le16(s2, pos + 6) == le16(t, 6));
    assert(le32(s2, pos + 8) == le32(t, 8));
    assert forall|k: int| 0 <= k < 13 implies #[trigger] d.addrs@[k] == le32(s2, pos + 12 + 4 * k) by {
        lemma_u32_bytes(d.addrs@[k]);
        assert(s2[pos + 12 + 4 * k] == t[12 + 4 * k]);
        assert(s2[pos + 12 + 4 * k + 1] == t[12 + 4 * k + 1]);
        assert(s2[pos + 12 + 4 * k + 2] == t[12 + 4 * k + 2]);
        assert(s2[pos + 12 + 4 * k + 3] == t[12 + 4 * k + 3]);
    }
}

/// Block `b` is one of the blocks the file with inode `d` owns: a data
/// block, or its indirect block.
pub open spec fn owns(img: Seq<u8>, d: Dinode, b: int) -> bool {
    ||| exists|f: int| 0 <= f < nblk(d.size as int) && #[trigger] fblock(img, d, f) == b
    ||| nblk(d.size as int) > 12 && b == d.addrs@[12]
}

/// A change that leaves an inode's slot and the blocks its file owns as
/// they were keeps the file: its inode, its blocks and its contents.
proof fn lemma_inode_kept(img: Seq<u8>, img2: Seq<u8>, d: Dinode, ib: int, pos: int, fb: int, fb2: int)
    requires
        dinode_at(img, pos, d),
        file_ok(img, d, ib, fb, nblk(d.size as int)),
        0 <= pos,
        fb <= fb2,
        img2.len() == img.len(),
        forall|b: int| fb2 <= b && has_block(img2, b) ==> #[trigger] block_zero(img2, b),
        forall|q: int| pos <= q < pos + 64 ==> #[trigger] img2[q] == img[q],
        forall|q: int| 0 <= q < img.len() && owns(img, d, q / 1024) ==> #[trigger] img2[q] == img[q],
    ensures
        dinode_at(img2, pos, d),
        file_ok(img2, d, ib, fb2, nblk(d.size as int)),
        file_bytes(img2, d) == file_bytes(img, d),
        forall|f: int| 0 <= f < nblk(d.size as int) ==> #[trigger] fblock(img2, d, f) == fblock(img, d, f),
        forall|b: int| #[trigger] owns(img2, d, b) == owns(img, d, b),
{
    let n = nblk(d.size as int);
    assert(img2[pos] == img[pos] && img2[pos + 1] == img[pos + 1]);
    assert(img2[pos + 2] == img[pos + 2] && img2[pos + 3] == img[pos + 3]);
    assert(img2[pos + 4] == img[pos + 4] && img2[pos + 5] == img[pos + 5]);
    assert(img2[pos + 6] == img[pos + 6] && img2[pos + 7] == img[pos + 7]);
    assert(img2[pos + 8] == img[pos + 8] && img2[pos + 9] == img[pos + 9]);
    assert(img2[pos + 10] == img[pos + 10] && img2[pos + 11] == img[pos + 11]);
    assert forall|k: int| 0 <= k < 13 implies #[trigger] d.addrs@[k] == le32(img2, pos + 12 + 4 * k) by {
        assert(img2[pos + 12 + 4 * k] == img[pos + 12 + 4 * k]);
        assert(img2[pos + 12 + 4 * k + 1] == img[pos + 12 + 4 * k + 1]);
        assert(img2[pos + 12 + 4 * k + 2] == img[pos + 12 + 4 * k + 2]);
        assert(img2[pos + 12 + 4 * k + 3] == img[pos + 12 + 4 * k + 3]);
    }
    assert forall|f: int| 0 <= f < MAXFILE && (f < 12 || n > 12) implies #[trigger] fblock(img2, d, f) == fblock(img, d, f) by {
        if f >= 12 {
            let o = d.addrs@[12] * 1024 + (f - 12) * 4;
            assert(owns(img, d, d.addrs@[12] as int));
            assert(o / 1024 == d.addrs@[12] && (o + 1) / 1024 == d.addrs@[12]);
            assert((o + 2) / 1024 == d.addrs@[12] && (o + 3) / 1024 == d.addrs@[12]);
            assert(has_block(img, d.addrs@[12] as int));
            assert(img2[o] == img[o] && img2[o + 1] == img[o + 1] && img2[o + 2] == img[o + 2] && img2[o + 3] == img[o + 3]);
        }
    }
    assert forall|f: int| 0 <= f < n implies ib < #[trigger] fblock(img2, d, f) < fb2 && has_block(img2, fblock(img2, d, f)) by {
        assert(fblock(img2, d, f) == fblock(img, d, f));
    }
    assert forall|f1: int, f2: int| 0 <= f1 < n && 0 <= f2 < n && f1 != f2
        implies #[trigger] fblock(img2, d, f1) != #[trigger] fblock(img2, d, f2) by {
        assert(fblock(img2, d, f1) == fblock(img, d, f1));
        assert(fblock(img2, d, f2) == fblock(img, d, f2));
    }
    if n > 12 {
        assert forall|f: int| 0 <= f < n implies #[trigger] fblock(img2, d, f) != d.addrs@[12] by {
            assert(fblock(img2, d, f) == fblock(img, d, f));
        }
        assert forall|f: int| n <= f < MAXFILE implies #[trigger] fblock(img2, d, f) == 0 by {
            assert(fblock(img2, d, f) == fblock(img, d, f));
        }
    }
    assert(file_ok(img2, d, ib, fb2, n));
    assert forall|k: int| 0 <= k < d.size implies #[trigger] file_bytes(img2, d)[k] == file_bytes(img, d)[k] by {
        let f = k / 1024;
        assert(f < n);
        let bb = fblock(img, d, f);
        assert(fblock(img2, d, f) == bb);
        assert(owns(img, d, bb));
        let q = bb * 1024 + k % 1024;
        assert(q / 1024 == bb);
    }
    assert(file_bytes(img2, d) =~= file_bytes(img, d));
    assert forall|b: int| #[trigger] owns(img2, d, b) == owns(img, d, b) by {
        if owns(img, d, b) {
            if exists|f: int| 0 <= f < n && #[trigger] fblock(img, d, f) == b {
                let f = choose|f: int| 0 <= f < n && #[trigger] fblock(img, d, f) == b;
                assert(fblock(img2, d, f) == b);
            }
        }
        if owns(img2, d, b) {
            if exists|f: int| 0 <= f < n && #[trigger] fblock(img2, d, f) == b {
                let f = choose|f: int| 0 <= f < n && #[trigger] fblock(img2, d, f) == b;
                assert(fblock(img, d, f) == b);
            }
        }
    }
}

proof fn lemma_kept_by_append(
    img0: Seq<u8>, img: Seq<u8>, dx: Dinode, posx: int, ibx: int, fb0: int, fb: int,
    d: Dinode, pos: int, ib: int,
)
    requires
        forall|q: int| 0 <= q < img0.len() && q / 1024 < fb0 && !(posx <= q < posx + 64)
            && !(dx.size % 1024 != 0 && q / 1024 == fblock(img0, dx, dx.size as int / 1024))
            && !(nblk(dx.size as int) > 12 && q / 1024 == dx.addrs@[12])
            ==> #[trigger] img[q] == img0[q],
        file_ok(img0, dx, ibx, fb0, nblk(dx.size as int)),
        img.len() == img0.len(),
        47 <= fb0 <= fb,
        forall|b: int| fb <= b && has_block(img, b) ==> #[trigger] block_zero(img, b),
        dinode_at(img0, pos, d),
        file_ok(img0, d, ib, fb0, nblk(d.size as int)),
        0 <= pos,
        pos + 64 <= img0.len(),
        pos / 1024 < 47,
        (pos + 63) / 1024 == pos / 1024,
        0 <= posx,
        posx / 1024 < 47,
        (posx + 63) / 1024 == posx / 1024,
        pos + 64 <= posx || posx + 64 <= pos,
        forall|b: int| #[trigger] owns(img0, d, b) ==> b >= 47 && !owns(img0, dx, b),
        forall|b: int| #[trigger] owns(img0, dx, b) ==> b >= 47,
    ensures
        dinode_at(img, pos, d),
        file_ok(img, d, ib, fb, nblk(d.size as int)),
        file_bytes(img, d) == file_bytes(img0, d),
        forall|b: int| #[trigger] owns(img, d, b) == owns(img0, d, b),
{
    let sx = dx.size as int;
    if sx % 1024 != 0 {
        let f = sx / 1024;
        assert(f < nblk(sx));
        assert(owns(img0, dx, fblock(img0, dx, f)));
    }
    if nblk(sx) > 12 {
        assert(owns(img0, dx, dx.addrs@[12] as int));
    }
    assert forall|q: int| pos <= q < pos + 64 implies #[trigger] img[q] == img0[q] by {
        assert(q / 1024 == pos / 1024);
    }
    assert forall|q: int| 0 <= q < img0.len() && owns(img0, d, q / 1024) implies #[trigger] img[q] == img0[q] by {
        let b = q / 1024;
        if exists|f: int| 0 <= f < nblk(d.size as int) && #[trigger] fblock(img0, d, f) == b {
            let f = choose|f: int| 0 <= f < nblk(d.size as int) && #[trigger] fblock(img0, d, f) == b;
            assert(b < fb0);
        }
        assert(b < fb0);
        assert(!(posx <= q < posx + 64));
    }
    lemma_inode_kept(img0, img, d, ib, pos, fb0, fb);
}

impl Mkfs {
    /// Writes `buf` as block `sec` of the image.
    pub fn wsect(&mut self, sec: u32, buf: &[u8])
        requires
            buf@.len() == BSIZE,
            (sec + 1) * BSIZE <= usize::MAX,
        ensures
            final(self).image@ == write_block(old(self).image@, sec as int, buf@),
            final(self).sb == old(self).sb,
            final(self).freeinode == old(self).freeinode,
            final(self).freeblock == old(self).freeblock,
    {
        let start = sec as usize * BSIZE;
        let ghost img0 = self.image@;
        while self.image.len() < start + BSIZE
            invariant
                start == sec * BSIZE,
                start + BSIZE <= usize::MAX,
                img0.len() <= self.image@.len(),
                self.image@.len() <= if img0.len() >= start + BSIZE { img0.len() as int } else { start + BSIZE },
                forall|k: int| 0 <= k < self.image@.len() ==> #[trigger] self.image@[k] == if k < img0.len() { img0[k] } else { 0u8 },
                self.sb == old(self).sb,
                self.freeinode == old(self).freeinode,
                self.freeblock == old(self).freeblock,
            decreases start + BSIZE - self.image@.len(),
        {
            self.image.push(0);
        }
        let mut i: usize = 0;
        while i < BSIZE
            invariant
                start == sec * BSIZE,
                start + BSIZE <= usize::MAX,
                buf@.len() == BSIZE,
                i <= BSIZE,
                self.image@.len() == if img0.len() >= start + BSIZE { img0.len() as int } else { start + BSIZE },
                forall|k: int| 0 <= k < self.image@.len() ==> #[trigger] self.image@[k] ==
                    if start <= k < start + i { buf@[k - start] } else if k < img0.len() { img0[k] } else { 0u8 },
                self.sb == old(self).sb,
                self.freeinode == old(self).freeinode,
                self.freeblock == old(self).freeblock,
            decreases BSIZE - i,
        {
            self.image.set(start + i, buf[i]);
            i = i + 1;
        }
        assert(self.image@ =~= write_block(img0, sec as int, buf@));
    }

    /// Reads block `sec` of the image into `buf`; fails when the block does
    /// not lie wholly inside the image, leaving `buf` as it was.
    pub fn rsect(&self, sec: u32, buf: &mut Vec<u8>) -> (r: Result<(), MkfsError>)
        requires
            old(buf)@.len() == BSIZE,
        ensures
            r is Ok <==> has_block(self.image@, sec as int),
            r is Ok ==> final(buf)@ == block_of(self.image@, sec as int),
            r is Err ==> r == Err::<(), MkfsError>(MkfsError::ShortRead) && final(buf)@ == old(buf)@,
    {
        assert((sec as u64 + 1) * 1024 <= 0x400_0000_0000) by (nonlinear_arith)
            requires sec <= 0xFFFF_FFFFu32;
        if (sec as u64 + 1) * (BSIZE as u64) > self.image.len() as u64 {
            return Err(MkfsError::ShortRead);
        }
        let start = sec as usize * BSIZE;
        let mut i: usize = 0;
        while i < BSIZE
            invariant
                start == sec * BSIZE,
                start + BSIZE <= self.image@.len(),
                i <= BSIZE,
                buf@.len() == BSIZE,
                forall|k: int| 0 <= k < i ==> #[trigger] buf@[k] == self.image@[start + k],
            decreases BSIZE - i,
        {
            buf.set(i, self.image[start + i]);
            i = i + 1;
        }
        assert(buf@ =~= block_of(self.image@, sec as int));
        Ok(())
    }

    /// Stores `inode` as inode `inum`.
    pub fn winode(&mut self, inum: u32, inode: &Dinode) -> (r: Result<(), MkfsError>)
        requires
            inum / IPB + old(self).sb.inodestart <= u32::MAX,
            (inum / IPB + old(self).sb.inodestart + 1) * BSIZE <= usize::MAX,
        ensures
            r is Ok <==> has_block(old(self).image@, inode_block(old(self).sb, inum)),
            r is Ok ==> final(self).image@ == splice(old(self).image@, inode_pos(old(self).sb, inum), dinode_bytes(*inode)),
            r is Err ==> r == Err::<(), MkfsError>(MkfsError::ShortRead) && final(self).image@ == old(self).image@,
            final(self).sb == old(self).sb,
            final(self).freeinode == old(self).freeinode,
            final(self).freeblock == old(self).freeblock,
    {
        let bn = iblock(inum, &self.sb);
        let mut buf: Vec<u8> = vec![0u8; BSIZE];
        self.rsect(bn, &mut buf)?;
        let offset = (inum % IPB) as usize * DINODE_SIZE;
        let raw = serialize_dinode(inode);
        let ghost blk = buf@;
        let mut i: usize = 0;
        while i < DINODE_SIZE
            invariant
                offset == (inum % IPB) * 64,
                offset + 64 <= BSIZE,
                raw@ == dinode_bytes(*inode),
                i <= DINODE_SIZE,
                buf@.len() == BSIZE,
                forall|k: int| 0 <= k < BSIZE ==> #[trigger] buf@[k] ==
                    if offset <= k < offset + i { raw@[k - offset] } else { blk[k] },
            decreases DINODE_SIZE - i,
        {
            buf.set(offset + i, raw[i]);
            i = i + 1;
        }
        let ghost img0 = self.image@;
        self.wsect(bn, &buf);
        assert(self.image@ =~= splice(img0, inode_pos(self.sb, inum), dinode_bytes(*inode)));
        Ok(())
    }

    /// Marks blocks `0..used` in use in the block-allocation bitmap.
    pub fn balloc(&mut self, used: u32)
        requires
            used <= BPB,
            (old(self).sb.bmapstart + 1) * BSIZE <= usize::MAX,
        ensures
            final(self).image@ == write_block(old(self).image@, old(self).sb.bmapstart as int,
                Seq::new(BSIZE as nat, |k: int| bitmap_byte(used, k))),
            final(self).sb == old(self).sb,
            final(self).freeinode == old(self).freeinode,
            final(self).freeblock == old(self).freeblock,
    {
        let mut buf: Vec<u8> = vec![0u8; BSIZE];
        let mut i: u32 = 0;
        while i < used
            invariant
                i <= used,
                used <= BPB,
                buf@.len() == BSIZE,
                forall|k: int| 0 <= k < BSIZE ==> #[trigger] buf@[k] == bitmap_byte(i, k),
            decreases used - i,
        {
            let k = (i / 8) as usize;
            let old_byte = buf[k];
            buf.set(k, old_byte | (1u8 << (i % 8) as u8));
            proof {
                lemma_bitmap_step(i, k as int, old_byte);
                assert forall|kk: int| 0 <= kk < BSIZE implies #[trigger] buf@[kk] == bitmap_byte((i + 1) as u32, kk) by {
                    if kk != k {
                        assert(bitmap_byte(i, kk) == bitmap_byte((i + 1) as u32, kk));
                    }
                }
            }
            i = i + 1;
        }
        assert(buf@ =~= Seq::new(BSIZE as nat, |k: int| bitmap_byte(used, k)));
        let bmap = self.sb.bmapstart;
        self.wsect(bmap, &buf);
    }

    /// Reads inode `inum`.
    pub fn rinode(&self, inum: u32) -> (r: Result<Dinode, MkfsError>)
        requires
            inum / IPB + self.sb.inodestart <= u32::MAX,
        ensures
            r is Ok <==> has_block(self.image@, inode_block(self.sb, inum)),
            r matches Ok(d) ==> dinode_at(self.image@, inode_pos(self.sb, inum), d),
            r is Err ==> r == Err::<Dinode, MkfsError>(MkfsError::ShortRead),
    {
        let bn = iblock(inum, &self.sb);
        let mut buf: Vec<u8> = vec![0u8; BSIZE];
        self.rsect(bn, &mut buf)?;
        let offset = (inum % IPB) as usize * DINODE_SIZE;
        let mut raw: Vec<u8> = Vec::new();
        let mut i: usize = 0;
        while i < DINODE_SIZE
            invariant
                offset == (inum % IPB) * 64,
                offset + 64 <= BSIZE,
                buf@.len() == BSIZE,
                i <= DINODE_SIZE,
                raw@.len() == i,
                forall|k: int| 0 <= k < i ==> #[trigger] raw@[k] == buf@[offset + k],
            decreases DINODE_SIZE - i,
        {
            raw.push(buf[offset + i]);
            i = i + 1;
        }
        let d = deserialize_dinode(raw.as_slice());
        proof {
            let pos = inode_pos(self.sb, inum);
            assert forall|o: int| 0 <= o < 64 implies #[trigger] raw@[o] == self.image@[pos + o] by {}
            assert forall|k: int| 0 <= k < 13 implies #[trigger] d.addrs@[k] == le32(self.image@, pos + 12 + 4 * k) by {
                assert(raw@[12 + 4 * k] == self.image@[pos + 12 + 4 * k]);
                assert(raw@[12 + 4 * k + 1] == self.image@[pos + 12 + 4 * k + 1]);
                assert(raw@[12 + 4 * k + 2] == self.image@[pos + 12 + 4 * k + 2]);
                assert(raw@[12 + 4 * k + 3] == self.image@[pos + 12 + 4 * k + 3]);
            }
        }
        Ok(d)
    }

    /// The block that holds data block `fbn` of the file with inode `din`,
    /// handing out a new block (and the indirect block, the first time it is
    /// needed) when the file has none there yet, and that block's contents.
    #[verifier::rlimit(100)]
    #[verifier::spinoff_prover]
    fn next_block(&mut self, din: &mut Dinode, fbn: usize, buf: &mut Vec<u8>, Ghost(lo): Ghost<int>, Ghost(n): Ghost<int>)
        -> (r: Result<u32, MkfsError>)
        requires
            fbn < MAXFILE,
            old(self).freeblock + 2 <= u32::MAX,
            old(buf)@.len() == BSIZE,
        ensures
            final(self).sb == old(self).sb,
            final(self).freeinode == old(self).freeinode,
            old(self).freeblock <= final(self).freeblock <= old(self).freeblock + 2,
            final(din).size == old(din).size,
            final(din).typ == old(din).typ && final(din).major == old(din).major,
            final(din).minor == old(din).minor && final(din).nlink == old(din).nlink,
            final(self).image@.len() == old(self).image@.len(),
            final(buf)@.len() == BSIZE,
            r matches Ok(x) ==> has_block(final(self).image@, x as int),
            ({
                let img = old(self).image@;
                let img2 = final(self).image@;
                let fb = old(self).freeblock as int;
                let fb2 = final(self).freeblock as int;
                file_ok(img, *old(din), lo, fb, n) && (fbn == n || fbn + 1 == n) ==> {
                    &&& r is Err ==> fb2 * 1024 > img.len()
                        && fb2 <= fb + (if fbn == n { 1int } else { 0int }) + (if fbn == n && n == 12 { 1int } else { 0int })
                    &&& r matches Ok(x) ==> {
                        &&& fb2 == fb + (if fbn == n { 1int } else { 0int }) + (if fbn == n && n == 12 { 1int } else { 0int })
                        &&& fbn == n ==> x == fb2 - 1
                        &&& file_ok(img2, *final(din), lo, fb2, if fbn == n { n + 1 } else { n })
                        &&& fblock(img2, *final(din), fbn as int) == x
                        &&& final(buf)@ == block_of(img2, x as int)
                        &&& forall|f: int| 0 <= f < n ==> #[trigger] fblock(img2, *final(din), f) == fblock(img, *old(din), f)
                        &&& forall|q: int| 0 <= q < img.len() && (fbn < 12 || q / 1024 != final(din).addrs@[12])
                                ==> #[trigger] img2[q] == img[q]
                        &&& fbn >= 12 && n > 12 ==> final(din).addrs@[12] == old(din).addrs@[12]
                        &&& fbn >= 12 && n <= 12 ==> final(din).addrs@[12] == fb
                    }
                }
            }),
    {
        let ghost img = self.image@;
        let ghost d0 = *din;
        let ghost fb = self.freeblock as int;
        let ghost good = file_ok(img, d0, lo, fb, n) && (fbn == n || fbn + 1 == n);
        let ilen = self.image.len();
        let x: u32;
        if fbn < NDIRECT {
            if din.addrs[fbn] == 0 {
                din.addrs[fbn] = xint(self.freeblock);
                self.freeblock = self.freeblock + 1;
            }
            x = din.addrs[fbn];
            proof {
                if good {
                    if fbn + 1 == n {
                        assert(fblock(img, d0, fbn as int) == d0.addrs@[fbn as int]);
                        assert(*din == d0);
                    } else {
                        assert(d0.addrs@[fbn as int] == 0);
                        assert(din.addrs@ == d0.addrs@.update(fbn as int, fb as u32));
                        assert forall|f: int| 0 <= f < n implies #[trigger] fblock(img, *din, f) == fblock(img, d0, f) by {}
                    }
                }
            }
        } else {
            if din.addrs[NDIRECT] == 0 {
                din.addrs[NDIRECT] = xint(self.freeblock);
                self.freeblock = self.freeblock + 1;
            }
            let indirect_block = din.addrs[NDIRECT];
            let mut indirect_buf: Vec<u8> = vec![0u8; BSIZE];
            match self.rsect(indirect_block, &mut indirect_buf) {
                Err(e) => {
                    proof {
                        if good {
                            assert(n == 12 && fbn == 12);
                            assert(indirect_block == fb);
                        }
                    }
                    return Err(e);
                },
                Ok(()) => {},
            }
            let idx = fbn - NDIRECT;
            let start = idx * 4;
            let mut entry: u32 = read_le32(indirect_buf.as_slice(), start);
            let ghost ind = indirect_block as int;
            proof {
                assert(entry == le32(img, ind * 1024 + start));
                if good {
                    if n <= 12 {
                        assert(fbn == 12 && n == 12);
                        assert(ind == fb);
                        assert(block_zero(img, fb));
                        assert(img[ind * 1024 + start] == 0 && img[ind * 1024 + start + 1] == 0);
                        assert(img[ind * 1024 + start + 2] == 0 && img[ind * 1024 + start + 3] == 0);
                        assert(entry == 0);
                    } else {
                        assert(ind == d0.addrs@[12]);
                        assert(entry == fblock(img, d0, fbn as int));
                    }
                }
            }
            if entry == 0 {
                entry = self.freeblock;
                self.freeblock = self.freeblock + 1;
                let ghost blk = indirect_buf@;
                indirect_buf.set(start, (entry % 256) as u8);
                indirect_buf.set(start + 1, ((entry / 256) % 256) as u8);
                indirect_buf.set(start + 2, ((entry / 0x1_0000) % 256) as u8);
                indirect_buf.set(start + 3, (entry / 0x100_0000) as u8);
                proof {
                    assert((indirect_block + 1) * 1024 <= ilen);
                }
                self.wsect(indirect_block, indirect_buf.as_slice());
                proof {
                    let img2 = self.image@;
                    assert(img2.len() == img.len());
                    assert forall|q: int| 0 <= q < img.len() && q / 1024 != ind implies #[trigger] img2[q] == img[q] by {}
                    lemma_u32_bytes(entry);
                    assert(le32(img2, ind * 1024 + start) == entry);
                    if good {
                        assert forall|f: int| 12 <= f < MAXFILE && f != fbn implies
                            #[trigger] fblock(img2, *din, f) == fblock(img, *din, f) by {
                            let o = ind * 1024 + (f - 12) * 4;
                            assert(img2[o] == img[o] && img2[o + 1] == img[o + 1] && img2[o + 2] == img[o + 2] && img2[o + 3] == img[o + 3]);
                        }
                    }
                }
            }
            x = entry;
        }
        let ghost img2 = self.image@;
        let ghost d2 = *din;
        let ghost fb2 = self.freeblock as int;
        match self.rsect(x, buf) {
            Err(e) => {
                proof {
                    if good {
                        assert(fbn == n);
                        assert(x == fb2 - 1);
                    }
                }
                return Err(e);
            },
            Ok(()) => {},
        }
        proof {
            if good {
                if fbn + 1 == n {
                    assert(d2 == d0);
                    assert(img2 == img);
                    assert(fb2 == fb);
                } else {
                    assert(has_block(img2, x as int));
                    assert(x == fb2 - 1);
                    assert forall|f: int| 0 <= f < n implies #[trigger] fblock(img2, d2, f) == fblock(img, d0, f) by {
                        if f >= 12 {
                            assert(d2.addrs@[12] == d0.addrs@[12]);
                        }
                    }
                    assert(fblock(img2, d2, n) == x);
                    assert forall|f: int| 0 <= f < n + 1 implies lo < #[trigger] fblock(img2, d2, f) < fb2 && has_block(img2, fblock(img2, d2, f)) by {
                        if f < n {
                            assert(fblock(img2, d2, f) == fblock(img, d0, f));
                        }
                    }
                    assert forall|f1: int, f2: int| 0 <= f1 < n + 1 && 0 <= f2 < n + 1 && f1 != f2
                        implies #[trigger] fblock(img2, d2, f1) != #[trigger] fblock(img2, d2, f2) by {
                        if f1 < n {
                            assert(fblock(img2, d2, f1) == fblock(img, d0, f1));
                        }
                        if f2 < n {
                            assert(fblock(img2, d2, f2) == fblock(img, d0, f2));
                        }
                    }
                    assert forall|f: int| n + 1 <= f < 12 implies #[trigger] d2.addrs@[f] == 0 by {}
                    if n + 1 > 12 {
                        assert(d2.addrs@[12] != fblock(img2, d2, n));
                        assert forall|f: int| 0 <= f < n + 1 implies #[trigger] fblock(img2, d2, f) != d2.addrs@[12] by {
                            if f < n {
                                assert(fblock(img2, d2, f) == fblock(img, d0, f));
                            }
                        }
                        assert forall|f: int| n + 1 <= f < MAXFILE implies #[trigger] fblock(img2, d2, f) == 0 by {
                            if n > 12 {
                                assert(fblock(img, d0, f) == 0);
                            } else {
                                let o = fb * 1024 + (f - 12) * 4;
                                assert(block_zero(img, fb));
                                assert(img[o] == 0 && img[o + 1] == 0 && img[o + 2] == 0 && img[o + 3] == 0);
                            }
                        }
                    }
                    assert forall|bb: int| fb2 <= bb && has_block(img2, bb) implies #[trigger] block_zero(img2, bb) by {
                        assert(block_zero(img, bb));
                        assert forall|q: int| bb * 1024 <= q < bb * 1024 + 1024 implies #[trigger] img2[q] == 0u8 by {
                            assert(q / 1024 == bb);
                        }
                    }
                }
            }
        }
        Ok(x)
    }

    /// Appends `data` to the file with inode `inum`, handing out blocks as
    /// the file grows, then stores the grown inode.
    #[verifier::rlimit(100)]
    #[verifier::spinoff_prover]
    pub fn iappend(&mut self, inum: u32, data: &[u8]) -> (r: Result<(), MkfsError>)
        requires
            inum / IPB + old(self).sb.inodestart <= u32::MAX,
            (inum / IPB + old(self).sb.inodestart + 1) * BSIZE <= usize::MAX,
            old(self).freeblock + 1024 <= u32::MAX,
            has_block(old(self).image@, inode_block(old(self).sb, inum))
                ==> le32(old(self).image@, inode_pos(old(self).sb, inum) + 8) + data@.len() <= MAXFILE * BSIZE,
        ensures
            final(self).sb == old(self).sb,
            final(self).freeinode == old(self).freeinode,
            old(self).freeblock <= final(self).freeblock <= old(self).freeblock + 540,
            final(self).image@.len() == old(self).image@.len(),
            !has_block(old(self).image@, inode_block(old(self).sb, inum)) ==> r == Err::<(), MkfsError>(MkfsError::ShortRead)
                && final(self).image@ == old(self).image@ && final(self).freeblock == old(self).freeblock,
            forall|d0: Dinode| #[trigger] dinode_at(old(self).image@, inode_pos(old(self).sb, inum), d0)
                && file_ok(old(self).image@, d0, inode_block(old(self).sb, inum), old(self).freeblock as int, nblk(d0.size as int)) ==> {
                let img0 = old(self).image@;
                let img = final(self).image@;
                let ib = inode_block(old(self).sb, inum);
                let fb0 = old(self).freeblock as int;
                &&& r is Err ==> final(self).freeblock * 1024 > img0.len()
                &&& r is Err ==> !append_fits(fb0, d0.size as int, data@.len() as int, img0.len() as int)
                &&& r is Ok ==> {
                    &&& final(self).freeblock == fb0 + alloc_count(d0.size as int, data@.len() as int)
                    &&& final(self).freeblock == fb0 || final(self).freeblock * 1024 <= img0.len()
                    &&& img.len() == img0.len()
                    &&& exists|d1: Dinode| #[trigger] dinode_at(img, inode_pos(old(self).sb, inum), d1)
                    &&& forall|d1: Dinode| #[trigger] dinode_at(img, inode_pos(old(self).sb, inum), d1) ==> {
                        &&& d1.size == d0.size + data@.len()
                        &&& d1.typ == d0.typ && d1.major == d0.major && d1.minor == d0.minor && d1.nlink == d0.nlink
                        &&& file_bytes(img, d1) == file_bytes(img0, d0) + data@
                        &&& file_ok(img, d1, ib, final(self).freeblock as int, nblk(d1.size as int))
                        &&& forall|b: int| #[trigger] owns(img, d1, b) ==> owns(img0, d0, b) || b >= fb0
                        &&& blocks_in_order(img, d1, fb0, nblk(d0.size as int))
                    }
                    &&& forall|q: int| 0 <= q < img0.len() && q / 1024 < fb0 && !(inode_pos(old(self).sb, inum) <= q < inode_pos(old(self).sb, inum) + 64)
                            && !(d0.size % 1024 != 0 && q / 1024 == fblock(img0, d0, d0.size as int / 1024))
                            && !(nblk(d0.size as int) > 12 && q / 1024 == d0.addrs@[12])
                            ==> #[trigger] img[q] == img0[q]
                }
            },
    {
        let ghost img0 = self.image@;
        let ghost fb0 = self.freeblock as int;
        let ghost ib = inode_block(self.sb, inum);
        let ghost pos = inode_pos(self.sb, inum);
        let mut din = match self.rinode(inum) {
            Ok(d) => d,
            Err(e) => {
                proof {
                    assert forall|dd: Dinode| #[trigger] dinode_at(img0, pos, dd)
                        && file_ok(img0, dd, ib, fb0, nblk(dd.size as int))
                        implies !append_fits(fb0, dd.size as int, data@.len() as int, img0.len() as int) by {
                        reveal(append_fits);
                        lemma_alloc_count_add(dd.size as int, data@.len() as int, 0);
                    }
                }
                return Err(e);
            },
        };
        let ghost d0 = din;
        let ghost s0 = d0.size as int;
        let ghost good = file_ok(img0, d0, ib, fb0, nblk(s0));
        let ghost f0 = file_bytes(img0, d0);
        let mut off: u32 = xint(din.size);
        let mut p: usize = 0;
        let ghost mut it: int = 0;
        let dlen = data.len();
        proof {
            assert(s0 + data@.len() <= MAXFILE * BSIZE);
            if good {
                assert(f0 + data@.subrange(0, 0) =~= f0);
                assert(holds(img0, d0, s0, f0 + data@.subrange(0, 0)));
                assert(alloc_count(s0, 0) == 0);
            }
        }
        while p < data.len()
            invariant
                self.sb == old(self).sb,
                self.freeinode == old(self).freeinode,
                img0 == old(self).image@,
                fb0 == old(self).freeblock,
                ib == inode_block(self.sb, inum),
                pos == inode_pos(self.sb, inum),
                dinode_at(img0, pos, d0),
                has_block(img0, ib),
                dlen == data@.len(),
                s0 == d0.size,
                good == file_ok(img0, d0, ib, fb0, nblk(s0)),
                f0 == file_bytes(img0, d0),
                f0.len() == s0,
                p <= data@.len(),
                off == s0 + p,
                s0 + data@.len() <= MAXFILE * BSIZE,
                self.image@.len() == img0.len(),
                0 <= it <= (off + 1023) / 1024 - s0 / 1024,
                it > 0 ==> off % 1024 == 0 || p == data@.len(),
                fb0 <= self.freeblock <= fb0 + 2 * it,
                fb0 + 1024 <= u32::MAX,
                din.size == d0.size,
                din.typ == d0.typ && din.major == d0.major && din.minor == d0.minor && din.nlink == d0.nlink,
                good ==> append_inv(img0, d0, fb0, ib, f0, data@, self.image@, din, self.freeblock as int, off as int, p as int),
            decreases data@.len() - p,
        {
            let fbn = (off as usize) / BSIZE;
            let mut buf: Vec<u8> = vec![0u8; BSIZE];
            let ghost img1 = self.image@;
            let ghost din1 = din;
            let ghost fb1 = self.freeblock as int;
            let ghost n = nblk(off as int);
            proof {
                assert(fbn < MAXFILE);
                assert(off % 1024 == 0 ==> n == fbn);
                assert(off % 1024 != 0 ==> n == fbn + 1);
                assert((off + 1023) / 1024 <= 269);
                assert(self.freeblock + 2 <= u32::MAX);
            }
            let x = match self.next_block(&mut din, fbn, &mut buf, Ghost(ib), Ghost(n)) {
                Err(e) => {
                    proof {
                        lemma_nblk(off as int, 1);
                        lemma_alloc_count_add(s0, p as int, 1);
                        lemma_alloc_count_add(s0, p as int + 1, dlen - p - 1);
                        assert forall|dd: Dinode| #[trigger] dinode_at(img0, pos, dd)
                            && file_ok(img0, dd, ib, fb0, nblk(dd.size as int)) implies self.freeblock * 1024 > img0.len()
                            && !append_fits(fb0, dd.size as int, data@.len() as int, img0.len() as int) by {
                            lemma_dinode_unique(img0, pos, dd, d0);
                            reveal(append_fits);
                        }
                    }
                    return Err(e);
                },
                Ok(x) => x,
            };
            let ghost img2 = self.image@;
            let ghost din2 = din;
            let ghost fb2 = self.freeblock as int;
            let rest = data.len() - p;
            let room = (fbn + 1) * BSIZE - off as usize;
            let n1 = if rest < room { rest } else { room };
            let start = off as usize - fbn * BSIZE;
            let ghost blk = buf@;
            let mut j: usize = 0;
            while j < n1
                invariant
                    j <= n1,
                    start + n1 <= BSIZE,
                    p + n1 <= data@.len(),
                    dlen == data@.len(),
                    buf@.len() == BSIZE,
                    forall|k: int| 0 <= k < BSIZE ==> #[trigger] buf@[k] ==
                        if start <= k < start + j { data@[p + k - start] } else { blk[k] },
                decreases n1 - j,
            {
                buf.set(start + j, data[p + j]);
                j = j + 1;
            }
            let ilen = self.image.len();
            proof {
                assert((x + 1) * 1024 <= ilen);
            }
            self.wsect(x, buf.as_slice());
            proof {
                lemma_nblk(off as int, n1 as int);
                assert(start == off % 1024);
                if good {
                    lemma_append_step(
                        img0, d0, fb0, ib, f0, data@, img1, din1, fb1, off as int, p as int,
                        img2, din2, fb2, x as int, blk, buf@, self.image@, n1 as int,
                    );
                }
                it = it + 1;
            }
            p = p + n1;
            off = off + n1 as u32;
        }
        let ghost dl = din;
        din.size = xint(off);
        let ghost img_l = self.image@;
        let ghost fb_l = self.freeblock as int;
        let res = self.winode(inum, &din);
        proof {
            assert(has_block(img_l, ib));
            assert forall|q: int| 0 <= q < img_l.len() && !(pos <= q < pos + 64) implies #[trigger] self.image@[q] == img_l[q] by {}
            assert forall|q: int| 0 <= q < img_l.len() && q / 1024 != ib implies #[trigger] self.image@[q] == img_l[q] by {
                assert(pos / 1024 == ib);
                assert(q < pos || q >= pos + 64);
            }
            assert forall|dd: Dinode| #[trigger] dinode_at(img0, pos, dd)
                && file_ok(img0, dd, ib, fb0, nblk(dd.size as int)) implies dd == d0 by {
                lemma_dinode_unique(img0, pos, dd, d0);
            }
            if good {
                assert(data@.subrange(0, data@.len() as int) =~= data@);
                lemma_append_finish(img_l, self.image@, dl, din, ib, fb_l, off as int, f0 + data@);
                assert forall|d1: Dinode| #[trigger] dinode_at(self.image@, pos, d1) implies d1 == din by {
                    lemma_splice_inode(img_l, pos, din, d1);
                }
                lemma_splice_inode_at(img_l, pos, din);
                assert forall|b: int| #[trigger] owns(self.image@, din, b) implies owns(img0, d0, b) || b >= fb0 by {
                    let n = nblk(off as int);
                    if exists|f: int| 0 <= f < n && #[trigger] fblock(self.image@, din, f) == b {
                        let f = choose|f: int| 0 <= f < n && #[trigger] fblock(self.image@, din, f) == b;
                        assert(fblock(img_l, dl, f) == b);
                        if f < nblk(s0) {
                            assert(fblock(img0, d0, f) == b);
                        }
                    }
                }
                assert forall|f: int| 0 <= f < nblk(s0) implies #[trigger] fblock(self.image@, din, f) == fblock(img0, d0, f) by {
                    assert(fblock(img_l, dl, f) == fblock(img0, d0, f));
                    assert(fblock(img_l, din, f) == fblock(img_l, dl, f));
                }
                assert forall|f: int| nblk(s0) <= f < nblk(off as int) implies #[trigger] fblock(self.image@, din, f) == new_block_no(fb0, nblk(s0), f) by {
                    assert(fblock(img_l, dl, f) == new_block_no(fb0, nblk(s0), f));
                    assert(fblock(img_l, din, f) == fblock(img_l, dl, f));
                }
                assert(blocks_in_order(self.image@, din, fb0, nblk(s0))) by {
                    reveal(blocks_in_order);
                }
            }
        }
        res
    }

    /// Hands out the next inode, stored as a fresh inode of type `typ`.
    pub fn ialloc(&mut self, typ: u16) -> (r: Result<u32, MkfsError>)
        requires
            old(self).freeinode < u32::MAX,
            old(self).freeinode / IPB + old(self).sb.inodestart <= u32::MAX,
            (old(self).freeinode / IPB + old(self).sb.inodestart + 1) * BSIZE <= usize::MAX,
        ensures
            final(self).freeinode == old(self).freeinode + 1,
            final(self).sb == old(self).sb,
            final(self).freeblock == old(self).freeblock,
            r is Ok <==> has_block(old(self).image@, inode_block(old(self).sb, old(self).freeinode)),
            r is Err ==> r == Err::<u32, MkfsError>(MkfsError::ShortRead) && final(self).image@ == old(self).image@,
            r matches Ok(inum) ==> inum == old(self).freeinode && exists|d: Dinode| fresh_dinode(d, typ)
                && final(self).image@ == splice(old(self).image@, inode_pos(old(self).sb, inum), #[trigger] dinode_bytes(d)),
    {
        let inum = self.freeinode;
        self.freeinode = self.freeinode + 1;
        let din = Dinode {
            typ: xshort(typ),
            major: 0,
            minor: 0,
            nlink: xshort(1),
            size: xint(0),
            addrs: [0u32; 13],
        };
        assert(din.addrs@ =~= Seq::new(13, |i: int| 0u32));
        self.winode(inum, &din)?;
        Ok(inum)
    }
}

/// Reading block `b` after `wsect(b, buf)` gives back `buf`, and every
/// other block of the image is as it was.
pub proof fn lemma_block_read_after_write(img: Seq<u8>, b: int, c: int, buf: Seq<u8>)
    requires
        0 <= b,
        0 <= c,
        buf.len() == 1024,
        (c + 1) * 1024 <= img.len(),
    ensures
        block_of(write_block(img, b, buf), b) == buf,
        c != b ==> block_of(write_block(img, b, buf), c) == block_of(img, c),
{
    let w = write_block(img, b, buf);
    assert(block_of(w, b) =~= buf);
    if c != b {
        assert forall|k: int| 0 <= k < 1024 implies #[trigger] block_of(w, c)[k] == block_of(img, c)[k] by {
            assert(c * 1024 + k < b * 1024 || c * 1024 + k >= b * 1024 + 1024) by (nonlinear_arith)
                requires c != b, 0 <= k < 1024;
        }
        assert(block_of(w, c) =~= block_of(img, c));
    }
}

/// The inode read back at a slot after `winode` stored `d` there is `d`.
pub proof fn lemma_inode_read_after_write(img: Seq<u8>, pos: int, d: Dinode, e: Dinode)
    requires
        0 <= pos,
        pos + 64 <= img.len(),
    ensures
        dinode_at(splice(img, pos, dinode_bytes(d)), pos, d),
        dinode_at(splice(img, pos, dinode_bytes(d)), pos, e) ==> e == d,
{
    lemma_splice_inode_at(img, pos, d);
    if dinode_at(splice(img, pos, dinode_bytes(d)), pos, e) {
        lemma_splice_inode(img, pos, d, e);
    }
}

/// A host file to copy into the image: its path as given and its bytes.
pub struct HostFile {
    pub path: Vec<u8>,
    pub data: Vec<u8>,
}

/// The UTF-8 bytes of `user/`.
pub open spec fn user_prefix() -> Seq<u8> {
    seq![0x75u8, 0x73u8, 0x65u8, 0x72u8, 0x2Fu8]
}

/// `path` without a leading `user/`.
pub open spec fn strip_user(path: Seq<u8>) -> Seq<u8> {
    if path.len() >= 5 && path.subrange(0, 5) == user_prefix() { path.subrange(5, path.len() as int) } else { path }
}

/// The name `path` gets in the root directory: `path` without a leading
/// `user/`, then without a leading `_`.
pub open spec fn short_name(path: Seq<u8>) -> Seq<u8> {
    let a = strip_user(path);
    if a.len() >= 1 && a[0] == 0x5Fu8 { a.subrange(1, a.len() as int) } else { a }
}

/// What the root directory's name for `path` leaves out of `path`: the
/// first `d` bytes, which are nothing, `_`, `user/` or `user/_`, the
/// longest of these that `path` starts with.
pub open spec fn drops_lead(path: Seq<u8>, d: int) -> bool {
    let u = seq![0x75u8, 0x73u8, 0x65u8, 0x72u8, 0x2Fu8];
    let us = seq![0x75u8, 0x73u8, 0x65u8, 0x72u8, 0x2Fu8, 0x5Fu8];
    let s = seq![0x5Fu8];
    &&& 0 <= d <= path.len()
    &&& path.subrange(0, d) == Seq::<u8>::empty() || path.subrange(0, d) == s
        || path.subrange(0, d) == u || path.subrange(0, d) == us
    &&& s.is_prefix_of(path) ==> d >= 1
    &&& u.is_prefix_of(path) ==> d >= 5
    &&& us.is_prefix_of(path) ==> d == 6
}

/// The name a file gets in the root directory is what is left of its path
/// once a leading `user/`, and then a leading `_`, are taken off; it holds
/// no `/` when the path holds none after a leading `user/`.
pub proof fn lemma_short_name_of_path(path: Seq<u8>)
    ensures
        short_name(path).len() <= path.len(),
        path.subrange(path.len() - short_name(path).len(), path.len() as int) == short_name(path),
        drops_lead(path, path.len() - short_name(path).len()),
        name_ok(path) ==> !short_name(path).contains(0x2Fu8),
{
    let u = seq![0x75u8, 0x73u8, 0x65u8, 0x72u8, 0x2Fu8];
    let us = seq![0x75u8, 0x73u8, 0x65u8, 0x72u8, 0x2Fu8, 0x5Fu8];
    let s = seq![0x5Fu8];
    let n = path.len() as int;
    let a = strip_user(path);
    let has_u = n >= 5 && path.subrange(0, 5) == user_prefix();
    assert(u == user_prefix());
    assert(u.is_prefix_of(path) <==> has_u) by {
        if u.is_prefix_of(path) {
            assert(path.subrange(0, 5) =~= u);
        }
    }
    let d0: int = if has_u { 5 } else { 0 };
    assert(a =~= path.subrange(d0, n));
    let d: int = if a.len() >= 1 && a[0] == 0x5Fu8 { d0 + 1 } else { d0 };
    assert(short_name(path) =~= path.subrange(d, n));
    assert(n - short_name(path).len() == d);
    if has_u {
        assert(path.subrange(0, 5) =~= u);
        if d == 6 {
            assert(path.subrange(0, 6) =~= us);
        } else {
            assert(!us.is_prefix_of(path)) by {
                if us.is_prefix_of(path) {
                    assert(path[5] == us[5]);
                    assert(a[0] == path[5]);
                }
            }
        }
        assert(!s.is_prefix_of(path)) by {
            if s.is_prefix_of(path) {
                assert(path[0] == s[0]);
                assert(path[0] == u[0]);
            }
        }
    } else {
        assert(!us.is_prefix_of(path)) by {
            if us.is_prefix_of(path) {
                assert(path.subrange(0, 5) =~= u);
            }
        }
        if d == 1 {
            assert(path.subrange(0, 1) =~= s);
        } else {
            assert(path.subrange(0, 0) =~= Seq::<u8>::empty());
            assert(!s.is_prefix_of(path)) by {
                if s.is_prefix_of(path) {
                    assert(path[0] == s[0]);
                }
            }
        }
    }
    if name_ok(path) {
        assert forall|j: int| 0 <= j < short_name(path).len() implies short_name(path)[j] != 0x2Fu8 by {
            assert(short_name(path)[j] == a[j + (d - d0)]);
        }
    }
}

/// `path` gives a name a directory entry can hold: no `/` once a leading
/// `user/` is gone, and at most `DIRSIZ` bytes.
pub open spec fn name_ok(path: Seq<u8>) -> bool {
    &&& !strip_user(path).contains(0x2Fu8)
    &&& short_name(path).len() <= DIRSIZ
}

/// Where the short name of `path` starts in `path`.
fn short_name_start(path: &[u8]) -> (r: usize)
    ensures
        r <= path@.len(),
        path@.subrange(r as int, path@.len() as int) == short_name(path@),
        drops_lead(path@, r as int),
{
    proof {
        lemma_short_name_of_path(path@);
    }
    let n = path.len();
    let mut start: usize = 0;
    if n >= 5 && path[0] == 0x75 && path[1] == 0x73 && path[2] == 0x65 && path[3] == 0x72 && path[4] == 0x2F {
        assert(path@.subrange(0, 5) =~= user_prefix());
        start = 5;
    } else {
        assert(n >= 5 ==> path@.subrange(0, 5) != user_prefix()) by {
            if n >= 5 && path@.subrange(0, 5) == user_prefix() {
                assert(path@.subrange(0, 5)[0] == path@[0]);
                assert(path@.subrange(0, 5)[1] == path@[1]);
                assert(path@.subrange(0, 5)[2] == path@[2]);
                assert(path@.subrange(0, 5)[3] == path@[3]);
                assert(path@.subrange(0, 5)[4] == path@[4]);
            }
        }
    }
    assert(path@.subrange(start as int, n as int) =~= strip_user(path@));
    if start < n && path[start] == 0x5F {
        start = start + 1;
    }
    assert(path@.subrange(start as int, n as int) =~= short_name(path@));
    start
}

/// A directory entry for inode `inum` named by the bytes of `name` from
/// `start` on, padded with zero bytes.
fn dirent_from(inum: u16, name: &[u8], start: usize) -> (r: Dirent)
    requires
        start <= name@.len(),
        name@.len() - start <= DIRSIZ,
    ensures
        r.inum == inum,
        r.name@ == name@.subrange(start as int, name@.len() as int)
            + Seq::new((DIRSIZ - (name@.len() - start)) as nat, |i: int| 0u8),
{
    let mut de = Dirent::default();
    de.inum = xshort(inum);
    let nlen = name.len();
    let len = nlen - start;
    let mut i: usize = 0;
    while i < len
        invariant
            i <= len,
            nlen == name@.len(),
            start <= nlen,
            len == name@.len() - start,
            len <= DIRSIZ,
            de.inum == inum,
            forall|k: int| 0 <= k < i ==> #[trigger] de.name@[k] == name@[start + k],
            forall|k: int| i <= k < DIRSIZ ==> #[trigger] de.name@[k] == 0u8,
        decreases len - i,
    {
        de.name[i] = name[start + i];
        i = i + 1;
    }
    assert(de.name@ =~= name@.subrange(start as int, name@.len() as int)
        + Seq::new((DIRSIZ - (name@.len() - start)) as nat, |i: int| 0u8));
    de
}

/// A directory entry as stored: inode number `inum`, little-endian, then
/// `name` padded with zero bytes to `DIRSIZ` bytes.
pub open spec fn entry_bytes(inum: u16, name: Seq<u8>) -> Seq<u8> {
    Seq::new(16, |i: int| if i < 2 { u16_byte(inum, i) } else if i - 2 < name.len() { name[i - 2] } else { 0u8 })
}

/// The directory entries of the first `k` files, in order; file `j` gets
/// inode `j + 2`.
pub open spec fn file_entries(files: Seq<HostFile>, k: int) -> Seq<u8>
    decreases k,
{
    if k <= 0 {
        Seq::empty()
    } else {
        file_entries(files, k - 1) + entry_bytes((k + 1) as u16, short_name(files[k - 1].path@))
    }
}

/// The root directory's entries once `k` files are in: `.`, `..`, then one
/// entry per file.
pub open spec fn root_entries(files: Seq<HostFile>, k: int) -> Seq<u8> {
    entry_bytes(1, seq![0x2Eu8]) + entry_bytes(1, seq![0x2Eu8, 0x2Eu8]) + file_entries(files, k)
}

/// Inode `inum` of `img` is of type `typ` and its file holds `content`.
pub open spec fn inode_holds(img: Seq<u8>, sb: Superblock, inum: u32, typ: u16, content: Seq<u8>) -> bool {
    exists|d: Dinode| #[trigger] dinode_at(img, inode_pos(sb, inum), d) && d.typ == typ && file_bytes(img, d) == content
}

proof fn lemma_entry_bytes(de: Dirent, name: Seq<u8>)
    requires
        name.len() <= DIRSIZ,
        de.name@ == name + Seq::new((DIRSIZ - name.len()) as nat, |i: int| 0u8),
    ensures
        dirent_bytes(de) == entry_bytes(de.inum, name),
{
    assert forall|i: int| 0 <= i < 16 implies #[trigger] dirent_bytes(de)[i] == entry_bytes(de.inum, name)[i] by {
        if i >= 2 {
            assert(de.name@[i - 2] == (name + Seq::new((DIRSIZ - name.len()) as nat, |i: int| 0u8))[i - 2]);
        }
    }
    assert(dirent_bytes(de) =~= entry_bytes(de.inum, name));
}

proof fn lemma_slots_apart(sb: Superblock, i1: u32, i2: u32, q: int)
    requires
        i1 != i2,
    ensures
        inode_pos(sb, i1) <= q < inode_pos(sb, i1) + 64 ==> !(inode_pos(sb, i2) <= q < inode_pos(sb, i2) + 64),
        inode_pos(sb, i1) + 64 <= inode_pos(sb, i2) || inode_pos(sb, i2) + 64 <= inode_pos(sb, i1),
{
    let b1 = i1 / 16 + sb.inodestart;
    let b2 = i2 / 16 + sb.inodestart;
    let o1 = (i1 % 16) * 64;
    let o2 = (i2 % 16) * 64;
    assert(inode_pos(sb, i1) == b1 * 1024 + o1);
    assert(inode_pos(sb, i2) == b2 * 1024 + o2);
    assert(0 <= o1 <= 960 && 0 <= o2 <= 960);
    if b1 == b2 {
        assert(i1 % 16 != i2 % 16);
    }
}

/// The superblock of the image `build_fs` makes: `FSSIZE` blocks, a boot
/// block, the superblock, the log, the inode blocks, one bitmap block,
/// then data.
pub open spec fn fs_superblock() -> Superblock {
    Superblock {
        magic: FSMAGIC,
        size: FSSIZE,
        nblocks: 1953,
        ninodes: NINODES,
        nlog: 31,
        logstart: 2,
        inodestart: 33,
        bmapstart: 46,
    }
}

/// Blocks the data of the first `k` of `files` take.
pub open spec fn data_blocks(files: Seq<HostFile>, k: int) -> int
    decreases k,
{
    if k <= 0 { 0 } else { data_blocks(files, k - 1) + alloc_count(0, files[k - 1].data@.len() as int) }
}

/// The blocks of an image of `files` that are in use: the 47 blocks before
/// the first data block (boot block, superblock, log, inodes and bitmap),
/// the root directory's blocks and each file's blocks, indirect blocks
/// included.
pub open spec fn fs_blocks(files: Seq<HostFile>) -> int {
    47 + alloc_count(0, root_entries(files, files.len() as int).len() as int) + data_blocks(files, files.len() as int)
}

/// The blocks in use once the first `k` files are in never exceed those of
/// the whole image.
proof fn lemma_blocks_grow(files: Seq<HostFile>, k: int)
    requires
        0 <= k <= files.len(),
    ensures
        47 + alloc_count(0, 32 + 16 * k) + data_blocks(files, k) <= fs_blocks(files),
    decreases files.len() - k,
{
    lemma_root_entries_len(files, files.len() as int);
    if k < files.len() {
        lemma_blocks_grow(files, k + 1);
        lemma_alloc_count_add(0, 32 + 16 * k, 16);
        lemma_alloc_count_add(0, files[k].data@.len() as int, 0);
    } else {
    }
}

/// The root directory in `img`: inode 1 is `dr`, a directory whose file
/// holds `rc`, its blocks at or above the first data block.
pub open spec fn root_at(img: Seq<u8>, fb: int, dr: Dinode, rc: Seq<u8>) -> bool {
    &&& dinode_at(img, inode_pos(fs_superblock(), 1), dr)
    &&& dr.typ == T_DIR
    &&& file_ok(img, dr, 33, fb, nblk(dr.size as int))
    &&& file_bytes(img, dr) == rc
    &&& forall|b: int| #[trigger] owns(img, dr, b) ==> b >= 47
}

/// Inode `inum` of `img` is `d`, a regular file holding `content`, whose
/// blocks lie in `[lo, hi)`.
pub open spec fn file_at(img: Seq<u8>, fb: int, inum: u32, d: Dinode, content: Seq<u8>, lo: int, hi: int) -> bool {
    &&& dinode_at(img, inode_pos(fs_superblock(), inum), d)
    &&& d.typ == T_FILE
    &&& file_ok(img, d, inode_block(fs_superblock(), inum), fb, nblk(d.size as int))
    &&& file_bytes(img, d) == content
    &&& 47 <= lo <= hi <= fb
    &&& forall|b: int| #[trigger] owns(img, d, b) ==> lo <= b < hi
}

/// The image once the root directory holds `rc` and the first `k` files
/// are in, file `j` with inode `ds[j]` and its blocks in `[wa[j], wb[j])`.
pub open spec fn built(
    img: Seq<u8>, fb: int, files: Seq<HostFile>, k: int, dr: Dinode, rc: Seq<u8>, ds: Seq<Dinode>, wa: Seq<int>, wb: Seq<int>,
) -> bool {
    &&& img.len() == 2000 * 1024
    &&& 47 <= fb <= 2000
    &&& block_of(img, 1) == superblock_bytes(fs_superblock())
    &&& root_at(img, fb, dr, rc)
    &&& 0 <= k
    &&& ds.len() == k && wa.len() == k && wb.len() == k
    &&& forall|j: int| 0 <= j < k ==> file_at(img, fb, (j + 2) as u32, #[trigger] ds[j], files[j].data@, wa[j], wb[j])
    &&& forall|j: int, b: int| 0 <= j < k && #[trigger] owns(img, ds[j], b) ==> !owns(img, dr, b)
    &&& forall|i: int, j: int| 0 <= i < j < k ==> #[trigger] wb[i] <= #[trigger] wa[j]
}

proof fn lemma_inode_geometry(inum: u32)
    requires
        1 <= inum < INODE_SLOTS,
    ensures
        33 <= inode_block(fs_superblock(), inum) <= 45,
        inode_pos(fs_superblock(), inum) / 1024 == inode_block(fs_superblock(), inum),
        (inode_pos(fs_superblock(), inum) + 63) / 1024 == inode_block(fs_superblock(), inum),
        0 <= inode_pos(fs_superblock(), inum),
        inode_pos(fs_superblock(), inum) + 64 <= 2000 * 1024,
{
    let b = inum / 16 + 33;
    let o = (inum % 16) * 64;
    assert(inode_pos(fs_superblock(), inum) == b * 1024 + o);
    assert(o <= 960);
}

/// A change only inside inode `x`'s slot keeps the root and every file.
proof fn lemma_slot_write(
    img0: Seq<u8>, img: Seq<u8>, fb: int, files: Seq<HostFile>, k: int, dr: Dinode, rc: Seq<u8>,
    ds: Seq<Dinode>, wa: Seq<int>, wb: Seq<int>, x: u32,
)
    requires
        built(img0, fb, files, k, dr, rc, ds, wa, wb),
        k + 2 <= x < INODE_SLOTS,
        img.len() == img0.len(),
        forall|q: int| 0 <= q < img0.len() && !(inode_pos(fs_superblock(), x) <= q < inode_pos(fs_superblock(), x) + 64)
            ==> #[trigger] img[q] == img0[q],
    ensures
        built(img, fb, files, k, dr, rc, ds, wa, wb),
        forall|b: int| fb <= b && has_block(img, b) ==> #[trigger] block_zero(img, b),
{
    let sb = fs_superblock();
    let px = inode_pos(sb, x);
    lemma_inode_geometry(x);
    assert forall|b: int| fb <= b && has_block(img, b) implies #[trigger] block_zero(img, b) by {
        assert(block_zero(img0, b));
        assert forall|q: int| b * 1024 <= q < b * 1024 + 1024 implies #[trigger] img[q] == 0u8 by {
            assert(q / 1024 == b);
        }
    }
    assert(block_of(img, 1) =~= block_of(img0, 1)) by {
        assert forall|q: int| 1024 <= q < 2048 implies #[trigger] img[q] == img0[q] by {
            assert(q / 1024 == 1);
        }
    }
    let pr = inode_pos(sb, 1);
    lemma_inode_geometry(1);
    assert forall|q: int| pr <= q < pr + 64 implies #[trigger] img[q] == img0[q] by {
        lemma_slots_apart(sb, 1, x, q);
    }
    assert forall|q: int| 0 <= q < img0.len() && owns(img0, dr, q / 1024) implies #[trigger] img[q] == img0[q] by {
        assert(q / 1024 >= 47);
        assert(q / 1024 != px / 1024);
    }
    lemma_inode_kept(img0, img, dr, 33, pr, fb, fb);
    assert forall|j: int| 0 <= j < k implies file_at(img, fb, (j + 2) as u32, #[trigger] ds[j], files[j].data@, wa[j], wb[j])
        && (forall|b: int| #[trigger] owns(img, ds[j], b) == owns(img0, ds[j], b)) by {
        let pj = inode_pos(sb, (j + 2) as u32);
        lemma_inode_geometry((j + 2) as u32);
        assert(file_at(img0, fb, (j + 2) as u32, ds[j], files[j].data@, wa[j], wb[j]));
        assert forall|q: int| pj <= q < pj + 64 implies #[trigger] img[q] == img0[q] by {
            lemma_slots_apart(sb, (j + 2) as u32, x, q);
        }
        assert forall|q: int| 0 <= q < img0.len() && owns(img0, ds[j], q / 1024) implies #[trigger] img[q] == img0[q] by {
            assert(q / 1024 >= 47);
            assert(q / 1024 != px / 1024);
        }
        lemma_inode_kept(img0, img, ds[j], inode_block(sb, (j + 2) as u32), pj, fb, fb);
    }
    assert forall|j: int, b: int| 0 <= j < k && #[trigger] owns(img, ds[j], b) implies !owns(img, dr, b) by {
        assert(owns(img0, ds[j], b));
    }
}

/// Appending `e` to the root directory keeps every file and the superblock.
proof fn lemma_root_append(
    img0: Seq<u8>, img: Seq<u8>, fb0: int, fb: int, files: Seq<HostFile>, k: int, dr: Dinode, rc: Seq<u8>,
    ds: Seq<Dinode>, wa: Seq<int>, wb: Seq<int>, d1: Dinode, e: Seq<u8>,
)
    requires
        built(img0, fb0, files, k, dr, rc, ds, wa, wb),
        k + 2 <= INODE_SLOTS,
        fb0 <= fb,
        fb == fb0 || fb * 1024 <= img0.len(),
        img.len() == img0.len(),
        dinode_at(img, inode_pos(fs_superblock(), 1), d1),
        d1.typ == dr.typ,
        file_bytes(img, d1) == file_bytes(img0, dr) + e,
        file_ok(img, d1, 33, fb, nblk(d1.size as int)),
        forall|b: int| #[trigger] owns(img, d1, b) ==> owns(img0, dr, b) || b >= fb0,
        forall|q: int| 0 <= q < img0.len() && q / 1024 < fb0
            && !(inode_pos(fs_superblock(), 1) <= q < inode_pos(fs_superblock(), 1) + 64)
            && !(dr.size % 1024 != 0 && q / 1024 == fblock(img0, dr, dr.size as int / 1024))
            && !(nblk(dr.size as int) > 12 && q / 1024 == dr.addrs@[12])
            ==> #[trigger] img[q] == img0[q],
    ensures
        built(img, fb, files, k, d1, rc + e, ds, wa, wb),
{
    let sb = fs_superblock();
    let pr = inode_pos(sb, 1);
    lemma_inode_geometry(1);
    assert(root_at(img0, fb0, dr, rc));
    assert forall|b: int| #[trigger] owns(img0, dr, b) implies b >= 47 by {}
    if dr.size % 1024 != 0 {
        let f = dr.size as int / 1024;
        assert(f < nblk(dr.size as int));
        assert(owns(img0, dr, fblock(img0, dr, f)));
    }
    if nblk(dr.size as int) > 12 {
        assert(owns(img0, dr, dr.addrs@[12] as int));
    }
    assert(block_of(img, 1) =~= block_of(img0, 1)) by {
        assert forall|q: int| 1024 <= q < 2048 implies #[trigger] img[q] == img0[q] by {
            assert(q / 1024 == 1);
        }
    }
    assert forall|b: int| #[trigger] owns(img, d1, b) implies b >= 47 by {}
    assert(root_at(img, fb, d1, rc + e));
    assert forall|j: int| 0 <= j < k implies file_at(img, fb, (j + 2) as u32, #[trigger] ds[j], files[j].data@, wa[j], wb[j])
        && (forall|b: int| #[trigger] owns(img, ds[j], b) == owns(img0, ds[j], b)) by {
        let x = (j + 2) as u32;
        let pj = inode_pos(sb, x);
        lemma_inode_geometry(x);
        assert(file_at(img0, fb0, x, ds[j], files[j].data@, wa[j], wb[j]));
        assert forall|b: int| #[trigger] owns(img0, ds[j], b) implies b >= 47 && !owns(img0, dr, b) by {}
        lemma_slots_apart(sb, x, 1, 0);
        lemma_kept_by_append(img0, img, dr, pr, 33, fb0, fb, ds[j], pj, inode_block(sb, x));
    }
    assert forall|j: int, b: int| 0 <= j < k && #[trigger] owns(img, ds[j], b) implies !owns(img, d1, b) by {
        assert(owns(img0, ds[j], b));
        assert(file_at(img0, fb0, (j + 2) as u32, ds[j], files[j].data@, wa[j], wb[j]));
        assert(b < wb[j]);
        assert(!owns(img0, dr, b));
    }
}

/// Appending `e` to file `k` keeps the root directory and the files before.
proof fn lemma_file_append(
    img0: Seq<u8>, img: Seq<u8>, fb0: int, fb: int, files: Seq<HostFile>, k: int, dr: Dinode, rc: Seq<u8>,
    ds: Seq<Dinode>, wa: Seq<int>, wb: Seq<int>, dk: Dinode, c: Seq<u8>, a: int, d1: Dinode, e: Seq<u8>,
)
    requires
        built(img0, fb0, files, k, dr, rc, ds, wa, wb),
        k + 2 < INODE_SLOTS,
        file_at(img0, fb0, (k + 2) as u32, dk, c, a, fb0),
        forall|b: int| #[trigger] owns(img0, dr, b) ==> b < a,
        forall|j: int| 0 <= j < k ==> #[trigger] wb[j] <= a,
        fb0 <= fb,
        fb == fb0 || fb * 1024 <= img0.len(),
        img.len() == img0.len(),
        dinode_at(img, inode_pos(fs_superblock(), (k + 2) as u32), d1),
        d1.typ == dk.typ,
        file_bytes(img, d1) == file_bytes(img0, dk) + e,
        file_ok(img, d1, inode_block(fs_superblock(), (k + 2) as u32), fb, nblk(d1.size as int)),
        forall|b: int| #[trigger] owns(img, d1, b) ==> owns(img0, dk, b) || b >= fb0,
        forall|q: int| 0 <= q < img0.len() && q / 1024 < fb0
            && !(inode_pos(fs_superblock(), (k + 2) as u32) <= q < inode_pos(fs_superblock(), (k + 2) as u32) + 64)
            && !(dk.size % 1024 != 0 && q / 1024 == fblock(img0, dk, dk.size as int / 1024))
            && !(nblk(dk.size as int) > 12 && q / 1024 == dk.addrs@[12])
            ==> #[trigger] img[q] == img0[q],
    ensures
        built(img, fb, files, k, dr, rc, ds, wa, wb),
        file_at(img, fb, (k + 2) as u32, d1, c + e, a, fb),
        forall|b: int| #[trigger] owns(img, dr, b) ==> b < a,
{
    let sb = fs_superblock();
    let x = (k + 2) as u32;
    let px = inode_pos(sb, x);
    let ibx = inode_block(sb, x);
    lemma_inode_geometry(x);
    assert forall|b: int| #[trigger] owns(img0, dk, b) implies b >= 47 by {}
    if dk.size % 1024 != 0 {
        let f = dk.size as int / 1024;
        assert(f < nblk(dk.size as int));
        assert(owns(img0, dk, fblock(img0, dk, f)));
    }
    if nblk(dk.size as int) > 12 {
        assert(owns(img0, dk, dk.addrs@[12] as int));
    }
    assert(block_of(img, 1) =~= block_of(img0, 1)) by {
        assert forall|q: int| 1024 <= q < 2048 implies #[trigger] img[q] == img0[q] by {
            assert(q / 1024 == 1);
            assert(q < px || q >= px + 64);
        }
    }
    let pr = inode_pos(sb, 1);
    lemma_inode_geometry(1);
    assert(root_at(img0, fb0, dr, rc));
    assert forall|b: int| #[trigger] owns(img0, dr, b) implies b >= 47 && !owns(img0, dk, b) by {}
    lemma_slots_apart(sb, 1, x, 0);
    lemma_kept_by_append(img0, img, dk, px, ibx, fb0, fb, dr, pr, 33);
    assert forall|j: int| 0 <= j < k implies file_at(img, fb, (j + 2) as u32, #[trigger] ds[j], files[j].data@, wa[j], wb[j])
        && (forall|b: int| #[trigger] owns(img, ds[j], b) == owns(img0, ds[j], b)) by {
        let y = (j + 2) as u32;
        let pj = inode_pos(sb, y);
        lemma_inode_geometry(y);
        assert(file_at(img0, fb0, y, ds[j], files[j].data@, wa[j], wb[j]));
        assert(wb[j] <= a);
        assert forall|b: int| #[trigger] owns(img0, ds[j], b) implies b >= 47 && !owns(img0, dk, b) by {}
        lemma_slots_apart(sb, y, x, 0);
        lemma_kept_by_append(img0, img, dk, px, ibx, fb0, fb, ds[j], pj, inode_block(sb, y));
    }
    assert forall|j: int, b: int| 0 <= j < k && #[trigger] owns(img, ds[j], b) implies !owns(img, dr, b) by {
        assert(owns(img0, ds[j], b));
    }
    assert forall|b: int| #[trigger] owns(img, d1, b) implies a <= b < fb by {
        assert(file_at(img0, fb0, x, dk, c, a, fb0));
        if owns(img0, dk, b) {
        } else {
            assert(b >= fb0);
            assert(file_ok(img, d1, ibx, fb, nblk(d1.size as int)));
            if exists|f: int| 0 <= f < nblk(d1.size as int) && #[trigger] fblock(img, d1, f) == b {
                let f = choose|f: int| 0 <= f < nblk(d1.size as int) && #[trigger] fblock(img, d1, f) == b;
            }
        }
    }
}

/// File `k`, holding its data, joins the files already in.
proof fn lemma_file_close(
    img: Seq<u8>, fb: int, files: Seq<HostFile>, k: int, dr: Dinode, rc: Seq<u8>,
    ds: Seq<Dinode>, wa: Seq<int>, wb: Seq<int>, dk: Dinode, a: int,
)
    requires
        built(img, fb, files, k, dr, rc, ds, wa, wb),
        k < files.len(),
        file_at(img, fb, (k + 2) as u32, dk, files[k].data@, a, fb),
        forall|b: int| #[trigger] owns(img, dr, b) ==> b < a,
        forall|j: int| 0 <= j < k ==> #[trigger] wb[j] <= a,
    ensures
        built(img, fb, files, k + 1, dr, rc, ds.push(dk), wa.push(a), wb.push(fb)),
{
    let ds2 = ds.push(dk);
    let wa2 = wa.push(a);
    let wb2 = wb.push(fb);
    assert forall|j: int| 0 <= j < k + 1 implies file_at(img, fb, (j + 2) as u32, #[trigger] ds2[j], files[j].data@, wa2[j], wb2[j]) by {
        if j < k {
            assert(ds2[j] == ds[j] && wa2[j] == wa[j] && wb2[j] == wb[j]);
        }
    }
    assert forall|j: int, b: int| 0 <= j < k + 1 && #[trigger] owns(img, ds2[j], b) implies !owns(img, dr, b) by {
        if j < k {
            assert(ds2[j] == ds[j]);
        } else {
            assert(ds2[j] == dk);
            assert(a <= b);
        }
    }
    assert forall|i: int, j: int| 0 <= i < j < k + 1 implies #[trigger] wb2[i] <= #[trigger] wa2[j] by {
        if j < k {
            assert(wb2[i] == wb[i] && wa2[j] == wa[j]);
        } else {
            assert(wb2[i] == wb[i]);
            assert(wb[i] <= a);
        }
    }
}

proof fn lemma_root_entries_len(files: Seq<HostFile>, k: int)
    requires
        0 <= k,
    ensures
        root_entries(files, k).len() == 32 + 16 * k,
    decreases k,
{
    if k > 0 {
        lemma_root_entries_len(files, k - 1);
    }
}

/// Adds file `k` of `files`: a fresh inode, its entry in the root
/// directory, then its data.
#[verifier::rlimit(100)]
#[verifier::spinoff_prover]
fn add_file(
    mkfs: &mut Mkfs, files: &Vec<HostFile>, k: usize, rootino: u32,
    Ghost(dr): Ghost<Dinode>, Ghost(ds): Ghost<Seq<Dinode>>, Ghost(wa): Ghost<Seq<int>>, Ghost(wb): Ghost<Seq<int>>,
) -> (r: Result<(), MkfsError>)
    requires
        k < files@.len(),
        files@.len() + 2 <= INODE_SLOTS,
        forall|i: int| 0 <= i < files@.len() ==> name_ok(#[trigger] files@[i].path@) && files@[i].data@.len() <= MAXFILE * BSIZE,
        rootino == 1,
        old(mkfs).sb == fs_superblock(),
        old(mkfs).freeinode == k + 2,
        built(old(mkfs).image@, old(mkfs).freeblock as int, files@, k as int, dr, root_entries(files@, k as int), ds, wa, wb),
    ensures
        final(mkfs).sb == fs_superblock(),
        final(mkfs).freeinode == k + 3,
        r is Ok ==> exists|dr2: Dinode, dk: Dinode, a: int| #[trigger] built(final(mkfs).image@, final(mkfs).freeblock as int, files@, k + 1,
            dr2, root_entries(files@, k + 1), ds.push(dk), wa.push(a), wb.push(final(mkfs).freeblock as int)),
        r is Ok ==> final(mkfs).freeblock == old(mkfs).freeblock + alloc_count(root_entries(files@, k as int).len() as int, 16)
            + alloc_count(0, files@[k as int].data@.len() as int),
        r is Err ==> (old(mkfs).freeblock + alloc_count(root_entries(files@, k as int).len() as int, 16)
            + alloc_count(0, files@[k as int].data@.len() as int)) * 1024 > 2000 * 1024,
{
    let ghost pos_r = inode_pos(fs_superblock(), 1);
    let path = files[k].path.as_slice();
    let start = short_name_start(path);
    let ghost img0 = mkfs.image@;
    let ghost fb0 = mkfs.freeblock as int;
    let inum = match mkfs.ialloc(T_FILE) {
        Ok(i) => i,
        Err(e) => {
            proof {
                lemma_inode_geometry((k + 2) as u32);
            }
            return Err(e);
        },
    };
    let ghost x = (k + 2) as u32;
    let ghost px = inode_pos(fs_superblock(), x);
    let ghost dk = choose|d: Dinode| fresh_dinode(d, T_FILE) && mkfs.image@ == splice(img0, px, #[trigger] dinode_bytes(d));
    proof {
        lemma_inode_geometry(x);
        lemma_splice_inode_at(img0, px, dk);
        assert forall|q: int| 0 <= q < img0.len() && !(px <= q < px + 64) implies #[trigger] mkfs.image@[q] == img0[q] by {}
        lemma_slot_write(img0, mkfs.image@, fb0, files@, k as int, dr, root_entries(files@, k as int), ds, wa, wb, x);
        assert(file_ok(mkfs.image@, dk, inode_block(fs_superblock(), x), fb0, 0));
    }
    let de_v = dirent_from(inum as u16, path, start);
    proof {
        lemma_entry_bytes(de_v, short_name(files@[k as int].path@));
    }
    let de = serialize_dirent(&de_v);
    let ghost img1 = mkfs.image@;
    let ghost rc = root_entries(files@, k as int);
    let ghost ent = entry_bytes((k + 2) as u16, short_name(files@[k as int].path@));
    proof {
        lemma_root_entries_len(files@, k as int);
        assert(root_at(img1, fb0, dr, rc));
        assert(dr.size == rc.len());
    }
    match mkfs.iappend(rootino, de.as_slice()) {
        Ok(()) => {},
        Err(e) => {
            proof {
                assert(dinode_at(img1, pos_r, dr) && file_ok(img1, dr, 33, fb0, nblk(dr.size as int)));
                assert(!append_fits(fb0, rc.len() as int, de@.len() as int, img1.len() as int));
                reveal(append_fits);
                lemma_alloc_count_add(0, files@[k as int].data@.len() as int, 0);
            }
            return Err(e);
        },
    }
    let ghost img2 = mkfs.image@;
    let ghost fb2 = mkfs.freeblock as int;
    let ghost d1 = choose|d: Dinode| #[trigger] dinode_at(img2, pos_r, d);
    proof {
        assert(dinode_at(img1, pos_r, dr) && file_ok(img1, dr, 33, fb0, nblk(dr.size as int)));
        assert(fb2 == fb0 + alloc_count(rc.len() as int, 16));
        lemma_root_append(img1, img2, fb0, fb2, files@, k as int, dr, rc, ds, wa, wb, d1, ent);
        lemma_inode_geometry(1);
        lemma_inode_geometry(x);
        let sb = fs_superblock();
        assert forall|b: int| #[trigger] owns(img1, dk, b) implies b >= 47 && !owns(img1, dr, b) by {
            assert(nblk(dk.size as int) == 0);
        }
        assert(root_at(img1, fb0, dr, rc));
        assert forall|b: int| #[trigger] owns(img1, dr, b) implies b >= 47 by {}
        lemma_slots_apart(sb, x, 1, 0);
        lemma_kept_by_append(img1, img2, dr, pos_r, 33, fb0, fb2, dk, px, inode_block(sb, x));
        assert(file_bytes(img2, dk) =~= Seq::<u8>::empty());
        assert forall|b: int| #[trigger] owns(img2, dk, b) implies fb2 <= b < fb2 by {
            assert(nblk(dk.size as int) == 0);
        }
        assert(files@[k as int].data@.subrange(0, 0) =~= Seq::<u8>::empty());
        assert(file_at(img2, fb2, x, dk, files@[k as int].data@.subrange(0, 0), fb2, fb2));
        assert forall|j: int| 0 <= j < k implies #[trigger] wb[j] <= fb2 by {
            assert(file_at(img2, fb2, (j + 2) as u32, ds[j], files@[j].data@, wa[j], wb[j]));
        }
        assert(root_at(img2, fb2, d1, rc + ent));
        assert forall|b: int| #[trigger] owns(img2, d1, b) implies b < fb2 by {
            if exists|f: int| 0 <= f < nblk(d1.size as int) && #[trigger] fblock(img2, d1, f) == b {
                let f = choose|f: int| 0 <= f < nblk(d1.size as int) && #[trigger] fblock(img2, d1, f) == b;
            }
        }
        assert(rc + ent =~= root_entries(files@, k + 1));
    }
    let ghost a = fb2;
    let ghost mut dkc = dk;

    let data = files[k].data.as_slice();
    let res = append_file_data(mkfs, inum, data, Ghost(files@), Ghost(k as int), Ghost(d1), Ghost(ds), Ghost(wa), Ghost(wb), Ghost(dk), Ghost(a));
    match res {
        Ok(()) => {},
        Err(e) => {
            proof {
                reveal(append_fits);
            }
            return Err(e);
        },
    }
    proof {
        assert forall|j: int| 0 <= j < k implies #[trigger] wb[j] <= a by {
            assert(file_at(img2, fb2, (j + 2) as u32, ds[j], files@[j].data@, wa[j], wb[j]));
        }
        let dkc = choose|d: Dinode| #[trigger] file_at(mkfs.image@, mkfs.freeblock as int, x, d, files@[k as int].data@, a, mkfs.freeblock as int)
            && built(mkfs.image@, mkfs.freeblock as int, files@, k as int, d1, root_entries(files@, k + 1), ds, wa, wb)
            && (forall|b: int| #[trigger] owns(mkfs.image@, d1, b) ==> b < a);
        lemma_file_close(mkfs.image@, mkfs.freeblock as int, files@, k as int, d1, root_entries(files@, k + 1), ds, wa, wb, dkc, a);
    }
    Ok(())
}

/// Appends `data`, the contents of file `k`, to inode `inum` a block at a
/// time.
#[verifier::rlimit(100)]
#[verifier::spinoff_prover]
fn append_file_data(
    mkfs: &mut Mkfs, inum: u32, data: &[u8],
    Ghost(files): Ghost<Seq<HostFile>>, Ghost(k): Ghost<int>, Ghost(d1): Ghost<Dinode>, Ghost(ds): Ghost<Seq<Dinode>>,
    Ghost(wa): Ghost<Seq<int>>, Ghost(wb): Ghost<Seq<int>>, Ghost(dk): Ghost<Dinode>, Ghost(a): Ghost<int>,
) -> (r: Result<(), MkfsError>)
    requires
        0 <= k < files.len(),
        files.len() + 2 <= INODE_SLOTS,
        inum == k + 2,
        data@ == files[k].data@,
        data@.len() <= MAXFILE * BSIZE,
        old(mkfs).sb == fs_superblock(),
        built(old(mkfs).image@, old(mkfs).freeblock as int, files, k, d1, root_entries(files, k + 1), ds, wa, wb),
        file_at(old(mkfs).image@, old(mkfs).freeblock as int, inum, dk, data@.subrange(0, 0), a, old(mkfs).freeblock as int),
        forall|b: int| #[trigger] owns(old(mkfs).image@, d1, b) ==> b < a,
        forall|j: int| 0 <= j < k ==> #[trigger] wb[j] <= a,
    ensures
        final(mkfs).sb == old(mkfs).sb,
        final(mkfs).freeinode == old(mkfs).freeinode,
        r is Ok ==> exists|d: Dinode| #[trigger] file_at(final(mkfs).image@, final(mkfs).freeblock as int, inum, d, data@, a, final(mkfs).freeblock as int)
            && built(final(mkfs).image@, final(mkfs).freeblock as int, files, k, d1, root_entries(files, k + 1), ds, wa, wb)
            && (forall|b: int| #[trigger] owns(final(mkfs).image@, d1, b) ==> b < a),
        r is Ok ==> final(mkfs).freeblock == old(mkfs).freeblock + alloc_count(0, data@.len() as int),
        r is Err ==> !append_fits(old(mkfs).freeblock as int, 0, data@.len() as int, old(mkfs).image@.len() as int),
{
    let ghost x = inum;
    let ghost px = inode_pos(fs_superblock(), x);
    let ghost mut dkc = dk;
    let dlen = data.len();
    let mut p: usize = 0;
    while p < data.len()
        invariant
            p <= dlen,
            dlen == data@.len(),
            data@ == files[k].data@,
            0 <= k < files.len(),
            files.len() + 2 <= INODE_SLOTS,
            data@.len() <= MAXFILE * BSIZE,
            inum == x,
            x == k + 2,
            px == inode_pos(fs_superblock(), x),
            mkfs.sb == fs_superblock(),
            old(mkfs).sb == fs_superblock(),
            mkfs.freeinode == old(mkfs).freeinode,
            built(mkfs.image@, mkfs.freeblock as int, files, k, d1, root_entries(files, k + 1), ds, wa, wb),
            file_at(mkfs.image@, mkfs.freeblock as int, x, dkc, data@.subrange(0, p as int), a, mkfs.freeblock as int),
            forall|b: int| #[trigger] owns(mkfs.image@, d1, b) ==> b < a,
            forall|j: int| 0 <= j < k ==> #[trigger] wb[j] <= a,
            mkfs.freeblock == old(mkfs).freeblock + alloc_count(0, p as int),
            mkfs.image@.len() == old(mkfs).image@.len(),
        decreases dlen - p,
    {
        let chunk_end = if dlen - p < BSIZE { dlen } else { p + BSIZE };
        let mut chunk: Vec<u8> = Vec::new();
        let mut q: usize = p;
        while q < chunk_end
            invariant
                p <= q <= chunk_end,
                chunk_end <= dlen,
                dlen == data@.len(),
                chunk@ == data@.subrange(p as int, q as int),
            decreases chunk_end - q,
        {
            chunk.push(data[q]);
            q = q + 1;
            assert(chunk@ =~= data@.subrange(p as int, q as int));
        }
        let ghost img3 = mkfs.image@;
        let ghost fb3 = mkfs.freeblock as int;
        proof {
            assert(file_at(img3, fb3, x, dkc, data@.subrange(0, p as int), a, fb3));
            assert(file_bytes(img3, dkc).len() == dkc.size);
            assert(dkc.size == p);
            lemma_inode_geometry(x);
        }
        match mkfs.iappend(inum, chunk.as_slice()) {
            Ok(()) => {},
            Err(e) => {
                proof {
                    assert(dinode_at(img3, px, dkc) && file_ok(img3, dkc, inode_block(fs_superblock(), x), fb3, nblk(dkc.size as int)));
                    assert(!append_fits(fb3, p as int, chunk@.len() as int, img3.len() as int));
                    reveal(append_fits);
                    lemma_alloc_count_add(0, p as int, chunk@.len() as int);
                    lemma_alloc_count_add(0, chunk_end as int, dlen - chunk_end);
                }
                return Err(e);
            },
        }
        let ghost d2 = choose|d: Dinode| #[trigger] dinode_at(mkfs.image@, px, d);
        proof {
            assert(dinode_at(img3, px, dkc) && file_ok(img3, dkc, inode_block(fs_superblock(), x), fb3, nblk(dkc.size as int)));
            lemma_alloc_count_add(0, p as int, chunk@.len() as int);
            assert(dinode_at(img3, px, dkc) && file_ok(img3, dkc, inode_block(fs_superblock(), x), fb3, nblk(dkc.size as int)));
            lemma_file_append(img3, mkfs.image@, fb3, mkfs.freeblock as int, files, k, d1, root_entries(files, k + 1),
                ds, wa, wb, dkc, data@.subrange(0, p as int), a, d2, chunk@);
            assert(data@.subrange(0, p as int) + chunk@ =~= data@.subrange(0, chunk_end as int));
            dkc = d2;
        }
        p = chunk_end;
    }
    proof {
        assert(data@.subrange(0, dlen as int) =~= data@);
    }
    Ok(())
}

/// Rounds the root directory's size up past its last block and writes the
/// block bitmap.
#[verifier::rlimit(100)]
#[verifier::spinoff_prover]
fn finish_fs(
    mkfs: &mut Mkfs, rootino: u32, Ghost(files): Ghost<Seq<HostFile>>, Ghost(dr): Ghost<Dinode>,
    Ghost(ds): Ghost<Seq<Dinode>>, Ghost(wa): Ghost<Seq<int>>, Ghost(wb): Ghost<Seq<int>>,
) -> (r: Result<(), MkfsError>)
    requires
        files.len() + 2 <= INODE_SLOTS,
        rootino == 1,
        old(mkfs).sb == fs_superblock(),
        built(old(mkfs).image@, old(mkfs).freeblock as int, files, files.len() as int, dr, root_entries(files, files.len() as int), ds, wa, wb),
    ensures
        final(mkfs).sb == old(mkfs).sb,
        final(mkfs).freeinode == old(mkfs).freeinode,
        final(mkfs).freeblock == old(mkfs).freeblock,
        r is Ok,
        r is Ok ==> {
            let m = *final(mkfs);
            &&& m.image@.len() == FSSIZE * BSIZE
            &&& block_of(m.image@, 1) == superblock_bytes(m.sb)
            &&& m.freeblock <= FSSIZE
            &&& block_of(m.image@, 46) == Seq::new(BSIZE as nat, |k: int| bitmap_byte(m.freeblock, k))
            &&& forall|j: int| 0 <= j < files.len() ==> #[trigger] inode_holds(m.image@, m.sb, (j + 2) as u32, T_FILE, files[j].data@)
            &&& exists|d: Dinode| #[trigger] dinode_at(m.image@, inode_pos(m.sb, 1), d) && d.typ == T_DIR
                && d.size == (root_entries(files, files.len() as int).len() / 1024 + 1) * 1024
                && file_bytes(m.image@, d).subrange(0, root_entries(files, files.len() as int).len() as int)
                    == root_entries(files, files.len() as int)
        },
{
    let ghost pos_r = inode_pos(fs_superblock(), 1);
    let ghost img_l = mkfs.image@;
    let ghost fb_l = mkfs.freeblock as int;
    let ghost rc = root_entries(files, files.len() as int);
    proof {
        lemma_inode_geometry(1);
        lemma_root_entries_len(files, files.len() as int);
        assert(root_at(img_l, fb_l, dr, rc));
        assert(has_block(img_l, 33));
    }
    let mut din = match mkfs.rinode(rootino) {
        Ok(d) => d,
        Err(e) => {
            return Err(e);
        },
    };
    proof {
        lemma_dinode_unique(img_l, pos_r, din, dr);
    }
    let mut off: u32 = din.size;
    off = ((off / BSIZE as u32) + 1) * BSIZE as u32;
    din.size = xint(off);
    match mkfs.winode(rootino, &din) {
        Ok(()) => {},
        Err(e) => {
            return Err(e);
        },
    }
    let ghost img_w = mkfs.image@;
    proof {
        lemma_splice_inode_at(img_l, pos_r, din);
    }
    let used = mkfs.freeblock;
    mkfs.balloc(used);
    proof {
        let img_f = mkfs.image@;
        let sb = fs_superblock();
        assert(img_w.len() == img_l.len());
        assert(img_f.len() == img_w.len());
        assert forall|q: int| 0 <= q < img_l.len() && q / 1024 != 46 && !(pos_r <= q < pos_r + 64)
            implies #[trigger] img_f[q] == img_l[q] by {}
        assert(block_of(img_f, 1) =~= block_of(img_l, 1)) by {
            assert forall|q: int| 1024 <= q < 2048 implies #[trigger] img_f[q] == img_l[q] by {
                assert(q / 1024 == 1);
            }
        }
        assert(block_of(img_f, 46) =~= Seq::new(BSIZE as nat, |k: int| bitmap_byte(used, k)));
        assert forall|b: int| fb_l <= b && has_block(img_f, b) implies #[trigger] block_zero(img_f, b) by {
            assert(block_zero(img_l, b));
            assert forall|q: int| b * 1024 <= q < b * 1024 + 1024 implies #[trigger] img_f[q] == 0u8 by {
                assert(q / 1024 == b);
            }
        }
        assert forall|j: int| 0 <= j < files.len() implies #[trigger] inode_holds(img_f, sb, (j + 2) as u32, T_FILE, files[j].data@) by {
            let y = (j + 2) as u32;
            let pj = inode_pos(sb, y);
            lemma_inode_geometry(y);
            assert(file_at(img_l, fb_l, y, ds[j], files[j].data@, wa[j], wb[j]));
            assert forall|q: int| pj <= q < pj + 64 implies #[trigger] img_f[q] == img_l[q] by {
                lemma_slots_apart(sb, y, 1, q);
            }
            assert forall|q: int| 0 <= q < img_l.len() && owns(img_l, ds[j], q / 1024) implies #[trigger] img_f[q] == img_l[q] by {
                assert(q / 1024 >= 47);
                assert(q / 1024 != pos_r / 1024);
            }
            lemma_inode_kept(img_l, img_f, ds[j], inode_block(sb, y), pj, fb_l, fb_l);
            assert(dinode_at(img_f, pj, ds[j]));
        }
        assert(dinode_at(img_f, pos_r, din)) by {
            assert forall|q: int| pos_r <= q < pos_r + 64 implies #[trigger] img_f[q] == img_w[q] by {
                assert(q / 1024 == 33);
            }
            let t = img_f;
            assert(t[pos_r] == img_w[pos_r] && t[pos_r + 1] == img_w[pos_r + 1]);
            assert(t[pos_r + 2] == img_w[pos_r + 2] && t[pos_r + 3] == img_w[pos_r + 3]);
            assert(t[pos_r + 4] == img_w[pos_r + 4] && t[pos_r + 5] == img_w[pos_r + 5]);
            assert(t[pos_r + 6] == img_w[pos_r + 6] && t[pos_r + 7] == img_w[pos_r + 7]);
            assert(t[pos_r + 8] == img_w[pos_r + 8] && t[pos_r + 9] == img_w[pos_r + 9]);
            assert(t[pos_r + 10] == img_w[pos_r + 10] && t[pos_r + 11] == img_w[pos_r + 11]);
            assert forall|kk: int| 0 <= kk < 13 implies #[trigger] din.addrs@[kk] == le32(t, pos_r + 12 + 4 * kk) by {
                assert(t[pos_r + 12 + 4 * kk] == img_w[pos_r + 12 + 4 * kk]);
                assert(t[pos_r + 12 + 4 * kk + 1] == img_w[pos_r + 12 + 4 * kk + 1]);
                assert(t[pos_r + 12 + 4 * kk + 2] == img_w[pos_r + 12 + 4 * kk + 2]);
                assert(t[pos_r + 12 + 4 * kk + 3] == img_w[pos_r + 12 + 4 * kk + 3]);
            }
        }
        assert(din.size == (rc.len() / 1024 + 1) * 1024);
        assert(file_bytes(img_f, din).subrange(0, rc.len() as int) =~= rc) by {
            assert forall|kk: int| 0 <= kk < rc.len() implies #[trigger] file_bytes(img_f, din)[kk] == rc[kk] by {
                let f = kk / 1024;
                assert(f < nblk(dr.size as int));
                assert(f < 12);
                assert(fblock(img_f, din, f) == fblock(img_l, dr, f));
                let bb = fblock(img_l, dr, f);
                assert(owns(img_l, dr, bb));
                let q = bb * 1024 + kk % 1024;
                assert(q / 1024 == bb);
                assert(bb >= 47);
                assert(img_f[q] == img_l[q]);
                assert(file_bytes(img_l, dr)[kk] == rc[kk]);
            }
        }
    }
    Ok(())
}

/// Builds a file-system image holding `files` in its root directory: the
/// superblock, a root directory with `.`, `..` and an entry per file, each
/// file's inode and data, and the block bitmap. Fails when the files do not
/// fit in the image.
#[verifier::rlimit(100)]
#[verifier::spinoff_prover]
pub fn build_fs(files: &Vec<HostFile>) -> (r: Result<Mkfs, MkfsError>)
    requires
        files@.len() + 2 <= INODE_SLOTS,
        forall|i: int| 0 <= i < files@.len() ==> name_ok(#[trigger] files@[i].path@) && files@[i].data@.len() <= MAXFILE * BSIZE,
    ensures
        r is Ok <==> fs_blocks(files@) <= FSSIZE,
        r matches Ok(m) ==> {
            &&& m.sb == fs_superblock()
            &&& m.freeblock == fs_blocks(files@)
            &&& m.image@.len() == FSSIZE * BSIZE
            &&& block_of(m.image@, 1) == superblock_bytes(m.sb)
            &&& m.freeinode == files@.len() + 2
            &&& m.freeblock <= FSSIZE
            &&& block_of(m.image@, 46) == Seq::new(BSIZE as nat, |k: int| bitmap_byte(m.freeblock, k))
            &&& forall|j: int| 0 <= j < files@.len() ==> #[trigger] inode_holds(m.image@, m.sb, (j + 2) as u32, T_FILE, files@[j].data@)
            &&& exists|d: Dinode| #[trigger] dinode_at(m.image@, inode_pos(m.sb, 1), d) && d.typ == T_DIR
                && d.size == (root_entries(files@, files@.len() as int).len() / 1024 + 1) * 1024
                && file_bytes(m.image@, d).subrange(0, root_entries(files@, files@.len() as int).len() as int)
                    == root_entries(files@, files@.len() as int)
        },
{
    let nbitmap: u32 = FSSIZE / BPB + 1;
    let ninodeblocks: u32 = NINODES / IPB + 1;
    let nlog: u32 = LOGBLOCKS + 1;
    let nmeta: u32 = 2 + nlog + ninodeblocks + nbitmap;
    let nblocks: u32 = FSSIZE - nmeta;

    let sb = Superblock {
        magic: xint(FSMAGIC),
        size: xint(FSSIZE),
        nblocks: xint(nblocks),
        ninodes: xint(NINODES),
        nlog: xint(nlog),
        logstart: xint(2),
        inodestart: xint(2 + nlog),
        bmapstart: xint(2 + nlog + ninodeblocks),
    };
    assert(sb == fs_superblock());

    let mut mkfs = Mkfs { image: Vec::new(), sb, freeinode: 1, freeblock: nmeta };

    let zeroes: Vec<u8> = vec![0u8; BSIZE];
    let mut i: u32 = 0;
    while i < FSSIZE
        invariant
            i <= FSSIZE,
            zeroes@ == Seq::new(BSIZE as nat, |k: int| 0u8),
            mkfs.image@ == Seq::new((i * BSIZE) as nat, |k: int| 0u8),
            mkfs.sb == fs_superblock(),
            mkfs.freeinode == 1,
            mkfs.freeblock == 47,
        decreases FSSIZE - i,
    {
        mkfs.wsect(i, zeroes.as_slice());
        assert(mkfs.image@ =~= Seq::new(((i + 1) * BSIZE) as nat, |k: int| 0u8));
        i = i + 1;
    }

    let sb_block = serialize_superblock(&mkfs.sb);
    mkfs.wsect(1, sb_block.as_slice());
    let ghost img_sb = mkfs.image@;
    let ghost sbv = fs_superblock();
    let ghost pos_r = inode_pos(sbv, 1);
    proof {
        assert(img_sb.len() == 2000 * 1024);
        assert(pos_r == 33 * 1024 + 64);
        assert forall|q: int| 0 <= q < img_sb.len() && q / 1024 != 1 implies #[trigger] img_sb[q] == 0u8 by {}
    }

    let rootino = match mkfs.ialloc(T_DIR) {
        Ok(i) => i,
        Err(e) => {
            proof {
                lemma_inode_geometry(1);
            }
            return Err(e);
        },
    };
    let ghost dr0 = choose|d: Dinode| fresh_dinode(d, T_DIR) && mkfs.image@ == splice(img_sb, pos_r, #[trigger] dinode_bytes(d));
    proof {
        assert(rootino == 1);
        lemma_splice_inode_at(img_sb, pos_r, dr0);
        let img = mkfs.image@;
        assert forall|q: int| 0 <= q < img.len() && q / 1024 != 1 && q / 1024 != 33 implies #[trigger] img[q] == 0u8 by {
            assert(!(pos_r <= q < pos_r + 64));
        }
        assert forall|b: int| 47 <= b && has_block(img, b) implies #[trigger] block_zero(img, b) by {
            assert forall|q: int| b * 1024 <= q < b * 1024 + 1024 implies #[trigger] img[q] == 0u8 by {
                assert(q / 1024 == b);
            }
        }
        assert(file_ok(img, dr0, 33, 47, 0));
        assert(block_of(img, 1) == superblock_bytes(sbv)) by {
            assert(block_of(img, 1) =~= block_of(img_sb, 1));
        }
        assert(file_bytes(img, dr0) =~= Seq::<u8>::empty());
    }

    proof {
        reveal_strlit(".");
        vstd::string::is_ascii_spec_bytes(".");
        assert(".".spec_bytes() =~= seq![0x2Eu8]);
    }
    let dot_de = make_dirent(rootino as u16, ".");
    proof {
        lemma_entry_bytes(dot_de, seq![0x2Eu8]);
    }
    let dot = serialize_dirent(&dot_de);
    let ghost e_dot = entry_bytes(1, seq![0x2Eu8]);
    let ghost e_dotdot = entry_bytes(1, seq![0x2Eu8, 0x2Eu8]);
    proof {
        assert(built(mkfs.image@, 47, files@, 0, dr0, Seq::empty(), Seq::empty(), Seq::empty(), Seq::empty()));
    }
    let ghost img_a = mkfs.image@;
    match mkfs.iappend(rootino, dot.as_slice()) {
        Ok(()) => {},
        Err(e) => {
            proof {
                assert(dinode_at(img_a, pos_r, dr0) && file_ok(img_a, dr0, 33, 47, nblk(dr0.size as int)));
                reveal(append_fits);
            }
            return Err(e);
        },
    }
    let ghost dr1 = choose|d: Dinode| #[trigger] dinode_at(mkfs.image@, pos_r, d);
    proof {
        assert(dinode_at(img_a, pos_r, dr0) && file_ok(img_a, dr0, 33, 47, nblk(dr0.size as int)));
        lemma_root_append(img_a, mkfs.image@, 47, mkfs.freeblock as int, files@, 0, dr0, Seq::empty(),
            Seq::empty(), Seq::empty(), Seq::empty(), dr1, e_dot);
    }

    proof {
        reveal_strlit("..");
        vstd::string::is_ascii_spec_bytes("..");
        assert("..".spec_bytes() =~= seq![0x2Eu8, 0x2Eu8]);
    }
    let dotdot_de = make_dirent(rootino as u16, "..");
    proof {
        lemma_entry_bytes(dotdot_de, seq![0x2Eu8, 0x2Eu8]);
    }
    let dotdot = serialize_dirent(&dotdot_de);
    let ghost img_b = mkfs.image@;
    let ghost fb_b = mkfs.freeblock as int;
    proof {
        assert(root_at(img_b, fb_b, dr1, Seq::<u8>::empty() + e_dot));
        assert(fb_b == 48);
    }
    match mkfs.iappend(rootino, dotdot.as_slice()) {
        Ok(()) => {},
        Err(e) => {
            proof {
                assert(dinode_at(img_b, pos_r, dr1) && file_ok(img_b, dr1, 33, fb_b, nblk(dr1.size as int)));
                reveal(append_fits);
            }
            return Err(e);
        },
    }
    let ghost dr2 = choose|d: Dinode| #[trigger] dinode_at(mkfs.image@, pos_r, d);
    proof {
        assert(root_at(img_b, fb_b, dr1, Seq::<u8>::empty() + e_dot));
        assert(dr1.size == 16);
        lemma_root_append(img_b, mkfs.image@, fb_b, mkfs.freeblock as int, files@, 0, dr1, Seq::<u8>::empty() + e_dot,
            Seq::empty(), Seq::empty(), Seq::empty(), dr2, e_dotdot);
        assert(Seq::<u8>::empty() + e_dot + e_dotdot =~= root_entries(files@, 0));
    }

    let ghost mut dr = dr2;
    let ghost mut ds: Seq<Dinode> = Seq::empty();
    let ghost mut wa: Seq<int> = Seq::empty();
    let ghost mut wb: Seq<int> = Seq::empty();
    let mut k: usize = 0;
    while k < files.len()
        invariant
            k <= files@.len(),
            files@.len() + 2 <= INODE_SLOTS,
            forall|i: int| 0 <= i < files@.len() ==> name_ok(#[trigger] files@[i].path@) && files@[i].data@.len() <= MAXFILE * BSIZE,
            rootino == 1,
            pos_r == inode_pos(fs_superblock(), 1),
            mkfs.sb == fs_superblock(),
            mkfs.freeinode == k + 2,
            built(mkfs.image@, mkfs.freeblock as int, files@, k as int, dr, root_entries(files@, k as int), ds, wa, wb),
            mkfs.freeblock == 47 + alloc_count(0, 32 + 16 * k) + data_blocks(files@, k as int),
        decreases files@.len() - k,
    {
        let ghost fb_k = mkfs.freeblock as int;
        let res = add_file(&mut mkfs, files, k, rootino, Ghost(dr), Ghost(ds), Ghost(wa), Ghost(wb));
        proof {
            lemma_root_entries_len(files@, k as int);
            lemma_alloc_count_add(0, 32 + 16 * k, 16);
        }
        match res {
            Ok(()) => {},
            Err(e) => {
                proof {
                    lemma_blocks_grow(files@, k + 1);
                }
                return Err(e);
            },
        }
        proof {
            let (dr2, dk, a) = choose|dr2: Dinode, dk: Dinode, a: int| #[trigger] built(mkfs.image@, mkfs.freeblock as int, files@, k + 1,
                dr2, root_entries(files@, k + 1), ds.push(dk), wa.push(a), wb.push(mkfs.freeblock as int));
            dr = dr2;
            ds = ds.push(dk);
            wa = wa.push(a);
            wb = wb.push(mkfs.freeblock as int);
        }
        k = k + 1;
    }
    proof {
        lemma_root_entries_len(files@, files@.len() as int);
    }
    let res = finish_fs(&mut mkfs, rootino, Ghost(files@), Ghost(dr), Ghost(ds), Ghost(wa), Ghost(wb));
    match res {
        Ok(()) => {},
        Err(e) => {
            return Err(e);
        },
    }
    Ok(mkfs)
}


} // verus!
