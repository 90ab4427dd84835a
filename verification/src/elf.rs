use vstd::prelude::*;

verus! {

/// The first four bytes of every ELF file: `\x7FELF`.
pub const ELF_MAGIC: [u8; 4] = [0x7F, 0x45, 0x4C, 0x46];
/// Program-header type of a loadable segment.
pub const PT_LOAD: u32 = 1;
/// Bytes in an ELF64 file header.
pub const ELF64_HEADER_SIZE: usize = 64;
/// Bytes in an ELF64 program header.
pub const ELF64_PHDR_SIZE: usize = 56;

/// The little-endian 16-bit number at `o` in `b`.
pub open spec fn le16(b: Seq<u8>, o: int) -> int {
    b[o] + 256 * b[o + 1]
}

/// The little-endian 32-bit number at `o` in `b`.
pub open spec fn le32(b: Seq<u8>, o: int) -> int {
    le16(b, o) + 0x1_0000 * le16(b, o + 2)
}

/// The little-endian 64-bit number at `o` in `b`.
pub open spec fn le64(b: Seq<u8>, o: int) -> int {
    le32(b, o) + 0x1_0000_0000 * le32(b, o + 4)
}

/// The ELF64 file header.
#[derive(Debug, Clone, Copy)]
pub struct Elf64Header {
    pub e_ident: [u8; 16],
    pub e_type: u16,
    pub e_machine: u16,
    pub e_version: u32,
    /// Entry point virtual address.
    pub e_entry: u64,
    /// Program header table file offset.
    pub e_phoff: u64,
    pub e_shoff: u64,
    pub e_flags: u32,
    pub e_ehsize: u16,
    /// Size of a program header table entry.
    pub e_phentsize: u16,
    /// Number of program header table entries.
    pub e_phnum: u16,
    pub e_shentsize: u16,
    pub e_shnum: u16,
    pub e_shstrndx: u16,
}

/// An ELF64 program header.
#[derive(Debug, Clone, Copy)]
pub struct Elf64Phdr {
    /// Segment type (e.g. `PT_LOAD`).
    pub p_type: u32,
    /// Segment flags (R, W, X).
    pub p_flags: u32,
    /// Segment file offset.
    pub p_offset: u64,
    /// Segment virtual address.
    pub p_vaddr: u64,
    /// Segment physical address.
    pub p_paddr: u64,
    /// Segment size in the file.
    pub p_filesz: u64,
    /// Segment size in memory (larger than `p_filesz` for `.bss`).
    pub p_memsz: u64,
    pub p_align: u64,
}

/// `h` holds the fields of the file header stored at the start of `b`.
pub open spec fn header_of(b: Seq<u8>, h: Elf64Header) -> bool {
    &&& h.e_ident@ == b.subrange(0, 16)
    &&& h.e_type == le16(b, 16)
    &&& h.e_machine == le16(b, 18)
    &&& h.e_version == le32(b, 20)
    &&& h.e_entry == le64(b, 24)
    &&& h.e_phoff == le64(b, 32)
    &&& h.e_shoff == le64(b, 40)
    &&& h.e_flags == le32(b, 48)
    &&& h.e_ehsize == le16(b, 52)
    &&& h.e_phentsize == le16(b, 54)
    &&& h.e_phnum == le16(b, 56)
    &&& h.e_shentsize == le16(b, 58)
    &&& h.e_shnum == le16(b, 60)
    &&& h.e_shstrndx == le16(b, 62)
}

/// `p` holds the fields of the program header stored at `o` in `b`.
pub open spec fn phdr_of(b: Seq<u8>, o: int, p: Elf64Phdr) -> bool {
    &&& p.p_type == le32(b, o)
    &&& p.p_flags == le32(b, o + 4)
    &&& p.p_offset == le64(b, o + 8)
    &&& p.p_vaddr == le64(b, o + 16)
    &&& p.p_paddr == le64(b, o + 24)
    &&& p.p_filesz == le64(b, o + 32)
    &&& p.p_memsz == le64(b, o + 40)
    &&& p.p_align == le64(b, o + 48)
}

fn read_u16(b: &[u8], o: usize) -> (r: u16)
    requires
        o + 2 <= b@.len(),
        o + 2 <= usize::MAX,
    ensures
        r == le16(b@, o as int),
{
    b[o] as u16 + (b[o + 1] as u16) * 256
}

fn read_u32(b: &[u8], o: usize) -> (r: u32)
    requires
        o + 4 <= b@.len(),
        o + 4 <= usize::MAX,
    ensures
        r == le32(b@, o as int),
{
    read_u16(b, o) as u32 + (read_u16(b, o + 2) as u32) * 0x1_0000
}

fn read_u64(b: &[u8], o: usize) -> (r: u64)
    requires
        o + 8 <= b@.len(),
        o + 8 <= usize::MAX,
    ensures
        r == le64(b@, o as int),
{
    read_u32(b, o) as u64 + (read_u32(b, o + 4) as u64) * 0x1_0000_0000
}

/// The file header at the start of `bytes`, or `None` when `bytes` is too
/// short to hold one.
pub fn get_elf_header(bytes: &[u8]) -> (r: Option<Elf64Header>)
    ensures
        r is None <==> bytes@.len() < ELF64_HEADER_SIZE,
        r matches Some(h) ==> header_of(bytes@, h),
{
    if bytes.len() < ELF64_HEADER_SIZE {
        return None;
    }
    let mut e_ident = [0u8; 16];
    let mut k: usize = 0;
    while k < 16
        invariant
            k <= 16,
            bytes@.len() >= 64,
            forall|j: int| 0 <= j < k ==> e_ident@[j] == bytes@[j],
        decreases 16 - k,
    {
        e_ident[k] = bytes[k];
        k = k + 1;
    }
    assert(e_ident@ =~= bytes@.subrange(0, 16));
    Some(Elf64Header {
        e_ident,
        e_type: read_u16(bytes, 16),
        e_machine: read_u16(bytes, 18),
        e_version: read_u32(bytes, 20),
        e_entry: read_u64(bytes, 24),
        e_phoff: read_u64(bytes, 32),
        e_shoff: read_u64(bytes, 40),
        e_flags: read_u32(bytes, 48),
        e_ehsize: read_u16(bytes, 52),
        e_phentsize: read_u16(bytes, 54),
        e_phnum: read_u16(bytes, 56),
        e_shentsize: read_u16(bytes, 58),
        e_shnum: read_u16(bytes, 60),
        e_shstrndx: read_u16(bytes, 62),
    })
}

/// The program header at `offset` in `bytes`, or `None` when it does not fit.
pub fn get_program_header(bytes: &[u8], offset: usize) -> (r: Option<Elf64Phdr>)
    requires
        offset + ELF64_PHDR_SIZE <= usize::MAX,
    ensures
        r is None <==> bytes@.len() < offset + ELF64_PHDR_SIZE,
        r matches Some(p) ==> phdr_of(bytes@, offset as int, p),
{
    if bytes.len() < offset + ELF64_PHDR_SIZE {
        return None;
    }
    Some(Elf64Phdr {
        p_type: read_u32(bytes, offset),
        p_flags: read_u32(bytes, offset + 4),
        p_offset: read_u64(bytes, offset + 8),
        p_vaddr: read_u64(bytes, offset + 16),
        p_paddr: read_u64(bytes, offset + 24),
        p_filesz: read_u64(bytes, offset + 32),
        p_memsz: read_u64(bytes, offset + 40),
        p_align: read_u64(bytes, offset + 48),
    })
}

} // verus!
