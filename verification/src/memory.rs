use vstd::prelude::*;

verus! {

/// Size in bytes of a physical page / frame.
pub const PAGE_SIZE: usize = 4096;
/// First byte of physical RAM on the QEMU `virt` board.
pub const RAM_START: usize = 0x4000_0000;
/// Bytes of RAM the kernel uses (QEMU is started with `-m 256M`).
pub const RAM_SIZE: usize = 0x1000_0000;
/// One past the last byte of RAM.
pub const RAM_END: usize = 0x5000_0000;
/// Number of page frames in RAM.
pub const NFRAMES: usize = 0x10000;
/// Number of 64-bit words in a page.
pub const WORDS_PER_PAGE: usize = 512;
/// Word written over a frame when it is handed out, to catch reads of
/// memory that was never initialised.
pub const ALLOC_JUNK: u64 = 0x0505_0505_0505_0505;

/// `sz` rounded up to the next multiple of the page size.
pub open spec fn round_up_spec(sz: int) -> int {
    ((sz + 4095) / 4096) * 4096
}

/// Rounds a byte count or address up to a page boundary.
pub fn pg_round_up(sz: usize) -> (r: usize)
    requires
        sz + 4095 <= usize::MAX,
    ensures
        r == round_up_spec(sz as int),
        r % 4096 == 0,
        sz <= r < sz + 4096,
{
    let t: usize = sz + (PAGE_SIZE - 1);
    let r = t & !(PAGE_SIZE - 1);
    assert(t & !4095usize == t - t % 4096) by (bit_vector);
    r
}

/// A page-aligned physical address inside RAM.
pub open spec fn is_frame_addr(pa: u64) -> bool {
    pa % 4096 == 0 && RAM_START <= pa < RAM_END
}

/// Index in the frame array of the frame at `pa`.
pub open spec fn frame_index(pa: u64) -> int {
    (pa - RAM_START) / 4096
}

/// Byte `k` (0 to 7, little-endian) of word `w`.
pub open spec fn byte_of(w: u64, k: u64) -> u8 {
    ((w >> (8 * k)) & 0xff) as u8
}

/// The page-aligned address of the frame that holds `pa`.
pub open spec fn frame_base(pa: u64) -> u64 {
    (pa - pa % 4096) as u64
}

/// The byte at physical address `pa`.
pub open spec fn phys_byte(c: Map<u64, Seq<u64>>, pa: u64) -> u8 {
    byte_of(c[frame_base(pa)][((pa % 4096) / 8) as int], pa % 8)
}

proof fn lemma_set_byte(w: u64, k: u64, b: u8)
    requires
        k < 8,
    ensures
        forall|j: u64| j < 8 ==> #[trigger] byte_of((w & !(0xffu64 << (8 * k))) | ((b as u64) << (8 * k)), j)
            == if j == k { b } else { byte_of(w, j) },
{
    let bb = b as u64;
    assert forall|j: u64| j < 8 implies #[trigger] byte_of((w & !(0xffu64 << (8 * k))) | ((b as u64) << (8 * k)), j)
        == if j == k { b } else { byte_of(w, j) } by {
        assert((((w & !(0xffu64 << (8 * k))) | (bb << (8 * k))) >> (8 * j)) & 0xff == if j == k { bb } else { (w >> (8 * j)) & 0xff }) by (bit_vector)
            requires k < 8, j < 8, bb < 256;
    }
}

/// A free page: the physical page the allocator hands out.
pub struct Run {
    pub addr: u64,
}

/// Physical RAM as the kernel sees it, together with the free-frame list.
///
/// Frames that hold data are kept word by word; a frame that is free, or was
/// never handed out since boot, holds junk and its contents are not kept.
/// `tables` names the frames that are in use as translation tables, and
/// `table_bits` records the same, frame by frame, for the running code.
pub struct PhysMem {
    frames: Vec<Option<Vec<u64>>>,
    freelist: Vec<u64>,
    kernel_end: u64,
    tables: Ghost<Set<u64>>,
    table_bits: Vec<bool>,
}

impl PhysMem {
    /// Contents of the frames that hold data, keyed by physical address.
    pub closed spec fn contents(&self) -> Map<u64, Seq<u64>> {
        Map::new(
            |pa: u64| is_frame_addr(pa) && self.frames@[frame_index(pa)] is Some,
            |pa: u64| self.frames@[frame_index(pa)].unwrap()@,
        )
    }

    /// The free list; the next frame handed out is the last one.
    pub closed spec fn free(&self) -> Seq<u64> {
        self.freelist@
    }

    /// Frames in use as translation tables.
    pub closed spec fn tables(&self) -> Set<u64> {
        self.tables@
    }

    /// First address after the kernel image.
    pub closed spec fn kernel_end(&self) -> u64 {
        self.kernel_end
    }

    pub closed spec fn wf(&self) -> bool {
        &&& self.frames@.len() == NFRAMES
        &&& forall|i: int| 0 <= i < NFRAMES && (#[trigger] self.frames@[i]) is Some
                ==> self.frames@[i].unwrap()@.len() == WORDS_PER_PAGE
        &&& self.freelist@.no_duplicates()
        &&& forall|k: int| 0 <= k < self.freelist@.len() ==> {
                let pa = #[trigger] self.freelist@[k];
                &&& is_frame_addr(pa)
                &&& self.frames@[frame_index(pa)] is None
            }
        &&& forall|pa: u64| #[trigger] self.tables@.contains(pa) ==> is_frame_addr(pa) && self.frames@[frame_index(pa)] is Some
        &&& self.table_bits@.len() == NFRAMES
        &&& forall|pa: u64| is_frame_addr(pa) ==> (#[trigger] self.table_bits@[frame_index(pa)] <==> self.tables@.contains(pa))
        &&& RAM_START <= self.kernel_end <= RAM_END
    }

    /// Facts about the model that every caller may rely on.
    pub proof fn lemma_wf(&self)
        requires
            self.wf(),
        ensures
            forall|pa: u64| #[trigger] self.contents().contains_key(pa) ==> is_frame_addr(pa) && self.contents()[pa].len() == WORDS_PER_PAGE,
            forall|k: int| 0 <= k < self.free().len() ==> is_frame_addr(#[trigger] self.free()[k]) && !self.contents().contains_key(self.free()[k]),
            forall|pa: u64| #[trigger] self.tables().contains(pa) ==> self.contents().contains_key(pa),
            self.free().no_duplicates(),
            RAM_START <= self.kernel_end() <= RAM_END,
    {
        assert forall|pa: u64| #[trigger] self.contents().contains_key(pa) implies is_frame_addr(pa) && self.contents()[pa].len() == WORDS_PER_PAGE by {
            let i = frame_index(pa);
            assert(0 <= i < NFRAMES);
            assert(self.frames@[i] is Some);
        }
    }

    /// The free frames hold no data and are no tables.
    pub proof fn lemma_wf_spec(&self)
        requires
            self.wf(),
        ensures
            forall|f: u64| #[trigger] self.free().contains(f) ==> !self.contents().contains_key(f) && !self.tables().contains(f),
    {
        self.lemma_wf();
        assert forall|f: u64| #[trigger] self.free().contains(f) implies !self.contents().contains_key(f) && !self.tables().contains(f) by {
            let k = choose|k: int| 0 <= k < self.free().len() && self.free()[k] == f;
        }
    }

    /// RAM with no frame handed out yet; `kernel_end` is the first address
    /// after the kernel image (the linker's `kernel_end` symbol).
    pub fn new(kernel_end: u64) -> (m: Self)
        requires
            RAM_START <= kernel_end <= RAM_END,
        ensures
            m.wf(),
            m.contents() == Map::<u64, Seq<u64>>::empty(),
            m.free() == Seq::<u64>::empty(),
            m.tables() == Set::<u64>::empty(),
            m.kernel_end() == kernel_end,
    {
        let mut frames: Vec<Option<Vec<u64>>> = Vec::new();
        let mut table_bits: Vec<bool> = Vec::new();
        let mut i: usize = 0;
        while i < NFRAMES
            invariant
                i <= NFRAMES,
                frames@.len() == i,
                table_bits@.len() == i,
                forall|j: int| 0 <= j < i ==> (#[trigger] frames@[j]) is None,
                forall|j: int| 0 <= j < i ==> !(#[trigger] table_bits@[j]),
            decreases NFRAMES - i,
        {
            frames.push(None);
            table_bits.push(false);
            i = i + 1;
        }
        let m = PhysMem { frames, freelist: Vec::new(), kernel_end, tables: Ghost(Set::empty()), table_bits };
        assert forall|pa: u64| is_frame_addr(pa) implies !(#[trigger] m.table_bits@[frame_index(pa)]) by {
            PhysMem::lemma_index(pa, pa);
        }
        assert(m.contents() =~= Map::<u64, Seq<u64>>::empty());
        m
    }

    proof fn lemma_index(pa: u64, qa: u64)
        requires
            is_frame_addr(pa),
            is_frame_addr(qa),
        ensures
            0 <= frame_index(pa) < NFRAMES,
            frame_index(pa) == frame_index(qa) <==> pa == qa,
    {
    }

    /// Whether the frame at `pa` serves as a translation table.
    pub fn is_table(&self, pa: u64) -> (r: bool)
        requires
            self.wf(),
        ensures
            r == self.tables().contains(pa),
    {
        if pa % 4096 == 0 && RAM_START as u64 <= pa && pa < RAM_END as u64 {
            proof { PhysMem::lemma_index(pa, pa); }
            self.table_bits[((pa - RAM_START as u64) / 4096) as usize]
        } else {
            false
        }
    }

    /// Whether the frame at `pa` holds data.
    pub fn is_present(&self, pa: u64) -> (r: bool)
        requires
            self.wf(),
        ensures
            r == self.contents().contains_key(pa),
    {
        if pa % 4096 == 0 && RAM_START as u64 <= pa && pa < RAM_END as u64 {
            let i = ((pa - RAM_START as u64) / 4096) as usize;
            self.frames[i].is_some()
        } else {
            false
        }
    }

    /// Word `i` of the frame at `pa`.
    pub fn read_word(&self, pa: u64, i: usize) -> (w: u64)
        requires
            self.wf(),
            self.contents().contains_key(pa),
            i < WORDS_PER_PAGE,
        ensures
            w == self.contents()[pa][i as int],
    {
        let k = ((pa - RAM_START as u64) / 4096) as usize;
        match &self.frames[k] {
            Some(f) => f[i],
            None => 0,
        }
    }

    /// Stores `w` as word `i` of the frame at `pa`.
    pub fn write_word(&mut self, pa: u64, i: usize, w: u64)
        requires
            old(self).wf(),
            old(self).contents().contains_key(pa),
            i < WORDS_PER_PAGE,
        ensures
            final(self).wf(),
            final(self).contents() == old(self).contents().insert(pa, old(self).contents()[pa].update(i as int, w)),
            final(self).free() == old(self).free(),
            final(self).tables() == old(self).tables(),
            final(self).kernel_end() == old(self).kernel_end(),
    {
        let k = ((pa - RAM_START as u64) / 4096) as usize;
        let taken = self.frames[k].take();
        match taken {
            Some(mut f) => {
                f.set(i, w);
                self.frames.set(k, Some(f));
            },
            None => {},
        }
        proof {
            assert forall|q: u64| #[trigger] self.tables@.contains(q) implies is_frame_addr(q) && self.frames@[frame_index(q)] is Some by {
                Self::lemma_index(q, pa);
            }
            assert forall|j: int| 0 <= j < self.freelist@.len() implies ({
                let qa = #[trigger] self.freelist@[j];
                &&& is_frame_addr(qa)
                &&& self.frames@[frame_index(qa)] is None
            }) by {
                Self::lemma_index(self.freelist@[j], pa);
            }
            assert(self.contents() =~= old(self).contents().insert(pa, old(self).contents()[pa].update(i as int, w))) by {
                assert forall|q: u64| #[trigger] self.contents().contains_key(q) <==> old(self).contents().insert(pa, old(self).contents()[pa].update(i as int, w)).contains_key(q) by {
                    if is_frame_addr(q) { Self::lemma_index(q, pa); }
                }
                assert forall|q: u64| #[trigger] self.contents().contains_key(q) implies self.contents()[q] == old(self).contents().insert(pa, old(self).contents()[pa].update(i as int, w))[q] by {
                    Self::lemma_index(q, pa);
                }
            }
        }
    }

    /// Stores byte `b` at physical address `pa`.
    pub fn write_byte(&mut self, pa: u64, b: u8)
        requires
            old(self).wf(),
            old(self).contents().contains_key(frame_base(pa)),
        ensures
            final(self).wf(),
            final(self).free() == old(self).free(),
            final(self).tables() == old(self).tables(),
            final(self).kernel_end() == old(self).kernel_end(),
            final(self).contents().dom() == old(self).contents().dom(),
            forall|g: u64| g != frame_base(pa) ==> #[trigger] final(self).contents()[g] == old(self).contents()[g],
            forall|q: u64| frame_base(q) == frame_base(pa) ==> #[trigger] phys_byte(final(self).contents(), q)
                == if q == pa { b } else { phys_byte(old(self).contents(), q) },
    {
        let f = pa - pa % 4096;
        let i = ((pa % 4096) / 8) as usize;
        let k = pa % 8;
        proof {
            self.lemma_wf();
        }
        let w = self.read_word(f, i);
        let w2 = (w & !(0xffu64 << (8 * k))) | ((b as u64) << (8 * k));
        self.write_word(f, i, w2);
        proof {
            lemma_set_byte(w, k, b);
            assert(self.contents().dom() =~= old(self).contents().dom());
            assert forall|q: u64| frame_base(q) == frame_base(pa) implies #[trigger] phys_byte(self.contents(), q)
                == if q == pa { b } else { phys_byte(old(self).contents(), q) } by {
                let qi = (q % 4096) / 8;
                if qi == i {
                    assert(q % 8 == k ==> q == pa);
                } else {
                    assert(self.contents()[f][qi as int] == old(self).contents()[f][qi as int]);
                }
            }
        }
    }

    /// Copies `src[start..start + len]` to physical memory from `dst` on,
    /// inside the frame that holds `dst`.
    pub fn copy_in(&mut self, dst: u64, src: &[u8], start: usize, len: usize)
        requires
            old(self).wf(),
            old(self).contents().contains_key(frame_base(dst)),
            dst % 4096 + len <= 4096,
            start + len <= src@.len(),
            start + len <= usize::MAX,
        ensures
            final(self).wf(),
            final(self).free() == old(self).free(),
            final(self).tables() == old(self).tables(),
            final(self).kernel_end() == old(self).kernel_end(),
            final(self).contents().dom() == old(self).contents().dom(),
            forall|g: u64| g != frame_base(dst) ==> #[trigger] final(self).contents()[g] == old(self).contents()[g],
            forall|q: u64| frame_base(q) == frame_base(dst) ==> #[trigger] phys_byte(final(self).contents(), q)
                == if dst <= q < dst + len { src@[start + q - dst] } else { phys_byte(old(self).contents(), q) },
    {
        let mut k: usize = 0;
        while k < len
            invariant
                self.wf(),
                k <= len,
                dst % 4096 + len <= 4096,
                start + len <= src@.len(),
                start + len <= usize::MAX,
                self.contents().contains_key(frame_base(dst)),
                self.free() == old(self).free(),
                self.tables() == old(self).tables(),
                self.kernel_end() == old(self).kernel_end(),
                self.contents().dom() == old(self).contents().dom(),
                forall|g: u64| g != frame_base(dst) ==> #[trigger] self.contents()[g] == old(self).contents()[g],
                forall|q: u64| frame_base(q) == frame_base(dst) ==> #[trigger] phys_byte(self.contents(), q)
                    == if dst <= q < dst + k { src@[start + q - dst] } else { phys_byte(old(self).contents(), q) },
            decreases len - k,
        {
            let pa = dst + k as u64;
            assert(frame_base(pa) == frame_base(dst));
            self.write_byte(pa, src[start + k]);
            k = k + 1;
        }
    }

    /// Replaces the whole frame at `pa` with `page`.
    fn put_frame(&mut self, pa: u64, page: Vec<u64>)
        requires
            old(self).wf(),
            is_frame_addr(pa),
            !old(self).free().contains(pa),
            page@.len() == WORDS_PER_PAGE,
        ensures
            final(self).wf(),
            final(self).contents() == old(self).contents().insert(pa, page@),
            final(self).free() == old(self).free(),
            final(self).tables() == old(self).tables(),
            final(self).kernel_end() == old(self).kernel_end(),
    {
        let k = ((pa - RAM_START as u64) / 4096) as usize;
        proof { Self::lemma_index(pa, pa); }
        self.frames.set(k, Some(page));
        proof {
            assert forall|q: u64| #[trigger] self.tables@.contains(q) implies is_frame_addr(q) && self.frames@[frame_index(q)] is Some by {
                Self::lemma_index(q, pa);
            }
            assert forall|j: int| 0 <= j < self.freelist@.len() implies ({
                let qa = #[trigger] self.freelist@[j];
                &&& is_frame_addr(qa)
                &&& self.frames@[frame_index(qa)] is None
            }) by {
                Self::lemma_index(self.freelist@[j], pa);
                assert(old(self).free()[j] != pa);
            }
            assert(self.contents() =~= old(self).contents().insert(pa, page@)) by {
                assert forall|q: u64| #[trigger] self.contents().contains_key(q) <==> old(self).contents().insert(pa, page@).contains_key(q) by {
                    if is_frame_addr(q) { Self::lemma_index(q, pa); }
                }
                assert forall|q: u64| #[trigger] self.contents().contains_key(q) implies self.contents()[q] == old(self).contents().insert(pa, page@)[q] by {
                    Self::lemma_index(q, pa);
                }
            }
        }
    }

    /// Overwrites every word of the frame at `pa` with zero.
    pub fn zero_frame(&mut self, pa: u64)
        requires
            old(self).wf(),
            old(self).contents().contains_key(pa),
        ensures
            final(self).wf(),
            final(self).contents() == old(self).contents().insert(pa, Seq::new(WORDS_PER_PAGE as nat, |i: int| 0u64)),
            final(self).free() == old(self).free(),
            final(self).tables() == old(self).tables(),
            final(self).kernel_end() == old(self).kernel_end(),
    {
        proof { self.lemma_wf(); }
        let page = filled_page(0);
        self.put_frame(pa, page);
    }

    /// Copies the frame at `src` over the frame at `dst`.
    pub fn copy_frame(&mut self, src: u64, dst: u64)
        requires
            old(self).wf(),
            old(self).contents().contains_key(src),
            old(self).contents().contains_key(dst),
        ensures
            final(self).wf(),
            final(self).contents() == old(self).contents().insert(dst, old(self).contents()[src]),
            final(self).free() == old(self).free(),
            final(self).tables() == old(self).tables(),
            final(self).kernel_end() == old(self).kernel_end(),
    {
        proof { self.lemma_wf(); }
        let k = ((src - RAM_START as u64) / 4096) as usize;
        let page = match &self.frames[k] {
            Some(f) => f.clone(),
            None => filled_page(0),
        };
        self.put_frame(dst, page);
    }

    /// Records that the frame at `pa` now serves as a translation table.
    pub fn mark_table(&mut self, pa: u64)
        requires
            old(self).wf(),
            old(self).contents().contains_key(pa),
        ensures
            final(self).wf(),
            final(self).contents() == old(self).contents(),
            final(self).free() == old(self).free(),
            final(self).tables() == old(self).tables().insert(pa),
            final(self).kernel_end() == old(self).kernel_end(),
    {
        proof {
            self.lemma_wf();
            PhysMem::lemma_index(pa, pa);
        }
        self.tables = Ghost(self.tables@.insert(pa));
        self.table_bits.set(((pa - RAM_START as u64) / 4096) as usize, true);
        proof {
            assert forall|q: u64| is_frame_addr(q) implies (#[trigger] self.table_bits@[frame_index(q)] <==> self.tables@.contains(q)) by {
                PhysMem::lemma_index(q, pa);
            }
        }
    }
}

/// A page-sized vector with every word equal to `w`.
fn filled_page(w: u64) -> (v: Vec<u64>)
    ensures
        v@ == Seq::new(WORDS_PER_PAGE as nat, |i: int| w),
{
    let mut v: Vec<u64> = Vec::new();
    let mut i: usize = 0;
    while i < WORDS_PER_PAGE
        invariant
            i <= WORDS_PER_PAGE,
            v@ == Seq::new(i as nat, |j: int| w),
        decreases WORDS_PER_PAGE - i,
    {
        v.push(w);
        i = i + 1;
        assert(v@ =~= Seq::new(i as nat, |j: int| w));
    }
    v
}

/// Address of the first byte after the kernel image.
pub fn kernel_end_addr(mem: &PhysMem) -> (r: u64)
    ensures
        r == mem.kernel_end(),
{
    mem.kernel_end
}

/// Hands out the most recently freed frame, filled with junk, or `None`
/// when no frame is free.
pub fn k_alloc(mem: &mut PhysMem) -> (r: Option<Run>)
    requires
        old(mem).wf(),
    ensures
        final(mem).wf(),
        final(mem).tables() == old(mem).tables(),
        final(mem).kernel_end() == old(mem).kernel_end(),
        old(mem).free().len() == 0 ==> {
            &&& r is None
            &&& final(mem).free() == old(mem).free()
            &&& final(mem).contents() == old(mem).contents()
        },
        old(mem).free().len() > 0 ==> {
            &&& r == Some(Run { addr: old(mem).free().last() })
            &&& final(mem).free() == old(mem).free().drop_last()
            &&& final(mem).contents() == old(mem).contents().insert(
                old(mem).free().last(),
                Seq::new(WORDS_PER_PAGE as nat, |i: int| ALLOC_JUNK),
            )
        },
{
    match mem.freelist.pop() {
        None => None,
        Some(pa) => {
            proof {
                let n = old(mem).freelist@.len();
                assert(old(mem).freelist@[n - 1] == pa);
                assert(mem.freelist@ =~= old(mem).freelist@.drop_last());
                assert forall|j: int, k: int| 0 <= j < k < mem.freelist@.len() implies mem.freelist@[j] != mem.freelist@[k] by {
                    assert(old(mem).freelist@[j] == mem.freelist@[j]);
                    assert(old(mem).freelist@[k] == mem.freelist@[k]);
                }
                assert forall|j: int| 0 <= j < mem.freelist@.len() implies mem.freelist@[j] != pa by {
                    assert(old(mem).freelist@[j] == mem.freelist@[j]);
                }
                assert(!mem.free().contains(pa));
            }
            let page = filled_page(ALLOC_JUNK);
            mem.put_frame(pa, page);
            Some(Run { addr: pa })
        },
    }
}

/// Returns the frame at `pa` to the free list; its contents become junk.
pub fn k_free(mem: &mut PhysMem, pa: u64)
    requires
        old(mem).wf(),
        pa % 4096 == 0,
        old(mem).kernel_end() <= pa < RAM_END,
        !old(mem).free().contains(pa),
    ensures
        final(mem).wf(),
        final(mem).free() == old(mem).free().push(pa),
        final(mem).contents() == old(mem).contents().remove(pa),
        final(mem).tables() == old(mem).tables().remove(pa),
        final(mem).kernel_end() == old(mem).kernel_end(),
{
    let k = ((pa - RAM_START as u64) / 4096) as usize;
    proof { PhysMem::lemma_index(pa, pa); }
    mem.frames.set(k, None);
    mem.freelist.push(pa);
    mem.tables = Ghost(mem.tables@.remove(pa));
    mem.table_bits.set(k, false);
    proof {
        assert forall|q: u64| is_frame_addr(q) implies (#[trigger] mem.table_bits@[frame_index(q)] <==> mem.tables@.contains(q)) by {
            PhysMem::lemma_index(q, pa);
        }
        assert forall|q: u64| #[trigger] mem.tables@.contains(q) implies is_frame_addr(q) && mem.frames@[frame_index(q)] is Some by {
            PhysMem::lemma_index(q, pa);
        }
        assert forall|j: int| 0 <= j < mem.freelist@.len() implies ({
            let qa = #[trigger] mem.freelist@[j];
            &&& is_frame_addr(qa)
            &&& mem.frames@[frame_index(qa)] is None
        }) by {
            if j < old(mem).freelist@.len() {
                PhysMem::lemma_index(mem.freelist@[j], pa);
            }
        }
        assert forall|j: int, l: int| 0 <= j < l < mem.freelist@.len() implies mem.freelist@[j] != mem.freelist@[l] by {
            if l == old(mem).freelist@.len() {
                assert(old(mem).free()[j] == mem.freelist@[j]);
            }
        }
        assert(mem.contents() =~= old(mem).contents().remove(pa)) by {
            assert forall|q: u64| #[trigger] mem.contents().contains_key(q) <==> old(mem).contents().remove(pa).contains_key(q) by {
                if is_frame_addr(q) { PhysMem::lemma_index(q, pa); }
            }
            assert forall|q: u64| #[trigger] mem.contents().contains_key(q) implies mem.contents()[q] == old(mem).contents().remove(pa)[q] by {
                PhysMem::lemma_index(q, pa);
            }
        }
    }
}

/// The page frames that `free_range(start, end)` releases, in order.
pub open spec fn range_pages(start: int, end: int) -> Seq<u64> {
    let r = round_up_spec(start);
    let n = if r + 4096 <= end { (end - r) / 4096 } else { 0 };
    Seq::new(n as nat, |k: int| (r + 4096 * k) as u64)
}

/// Whether `free_range(start, end)` may release its frames into `mem`:
/// each of them lies after the kernel in RAM and is neither free nor a table.
pub open spec fn can_free_range(mem: PhysMem, start: int, end: int) -> bool {
    &&& start + 4096 <= usize::MAX
    &&& round_up_spec(start) + 4096 <= usize::MAX
    &&& forall|k: int| 0 <= k < range_pages(start, end).len() ==> {
            let p = #[trigger] range_pages(start, end)[k];
            &&& mem.kernel_end() <= p < RAM_END
            &&& !mem.free().contains(p)
            &&& !mem.tables().contains(p)
        }
}

/// Puts every whole page of `[pa_start, pa_end)` on the free list, lowest first.
pub fn free_range(mem: &mut PhysMem, pa_start: usize, pa_end: usize)
    requires
        old(mem).wf(),
        can_free_range(*old(mem), pa_start as int, pa_end as int),
    ensures
        final(mem).wf(),
        final(mem).free() == old(mem).free() + range_pages(pa_start as int, pa_end as int),
        final(mem).contents() == old(mem).contents().remove_keys(range_pages(pa_start as int, pa_end as int).to_set()),
        final(mem).tables() == old(mem).tables(),
        final(mem).kernel_end() == old(mem).kernel_end(),
{
    let ghost pages = range_pages(pa_start as int, pa_end as int);
    let ghost r = round_up_spec(pa_start as int);
    let mut pa = pg_round_up(pa_start);
    let ghost mut k: int = 0;
    proof {
        assert(mem.contents() =~= old(mem).contents().remove_keys(pages.take(0).to_set()));
        assert(mem.free() =~= old(mem).free() + pages.take(0));
    }
    while pa + PAGE_SIZE <= pa_end
        invariant
            mem.wf(),
            pages == range_pages(pa_start as int, pa_end as int),
            r == round_up_spec(pa_start as int),
            can_free_range(*old(mem), pa_start as int, pa_end as int),
            0 <= k <= pages.len(),
            pa == r + 4096 * k,
            pa + 4096 <= usize::MAX,
            k < pages.len() <==> pa + 4096 <= pa_end,
            mem.free() == old(mem).free() + pages.take(k),
            mem.contents() == old(mem).contents().remove_keys(pages.take(k).to_set()),
            mem.tables() == old(mem).tables(),
            mem.kernel_end() == old(mem).kernel_end(),
        decreases pa_end - pa,
    {
        proof {
            assert(pages[k] == pa as u64);
            assert(!mem.free().contains(pa as u64)) by {
                if mem.free().contains(pa as u64) {
                    let j = choose|j: int| 0 <= j < mem.free().len() && mem.free()[j] == pa as u64;
                    if j >= old(mem).free().len() {
                        let i = j - old(mem).free().len();
                        assert(pages.take(k)[i] == pages[i]);
                        assert(pages[i] == (r + 4096 * i) as u64);
                    } else {
                        assert(old(mem).free().contains(pa as u64));
                    }
                }
            }
        }
        k_free(mem, pa as u64);
        pa = pa + PAGE_SIZE;
        proof {
            k = k + 1;
            assert(pages.take(k) =~= pages.take(k - 1).push(pages[k - 1]));
            assert(mem.free() =~= old(mem).free() + pages.take(k));
            assert(pages.take(k).to_set() =~= pages.take(k - 1).to_set().insert(pages[k - 1])) by {
                assert forall|x: u64| pages.take(k).to_set().contains(x) <==> pages.take(k - 1).to_set().insert(pages[k - 1]).contains(x) by {
                    if pages.take(k).contains(x) {
                        let j = choose|j: int| 0 <= j < k && #[trigger] pages.take(k)[j] == x;
                        if j < k - 1 { assert(pages.take(k - 1)[j] == x); }
                    }
                    if pages.take(k - 1).contains(x) {
                        let j = choose|j: int| 0 <= j < k - 1 && #[trigger] pages.take(k - 1)[j] == x;
                        assert(pages.take(k)[j] == x);
                    }
                    if x == pages[k - 1] { assert(pages.take(k)[k - 1] == x); }
                }
            }
            assert(mem.contents() =~= old(mem).contents().remove_keys(pages.take(k).to_set()));
            if k < pages.len() {
                assert(pa + 4096 <= pa_end);
            }
        }
    }
    proof {
        assert(pages.take(k) =~= pages);
    }
}

/// Reading word `j` of frame `qa` after `write_word(pa, i, w)` gives `w` at
/// the word written and what was there before anywhere else.
pub proof fn lemma_word_read_after_write(c: Map<u64, Seq<u64>>, pa: u64, i: int, w: u64, qa: u64, j: int)
    requires
        c.contains_key(pa),
        c.contains_key(qa),
        0 <= i < c[pa].len(),
        0 <= j < c[qa].len(),
    ensures
        c.insert(pa, c[pa].update(i, w))[qa][j] == if qa == pa && j == i { w } else { c[qa][j] },
{
}

/// The frame allocator hands out first the frame freed last: after
/// `k_free(pa)` on a free list `free` and contents `c`, `k_alloc` returns
/// `pa`, leaves `free` as it was, and `pa` holds junk.
pub proof fn lemma_alloc_after_free(free: Seq<u64>, c: Map<u64, Seq<u64>>, pa: u64)
    ensures
        free.push(pa).len() > 0,
        free.push(pa).last() == pa,
        free.push(pa).drop_last() == free,
        c.remove(pa).insert(pa, Seq::new(WORDS_PER_PAGE as nat, |i: int| ALLOC_JUNK))
            == c.insert(pa, Seq::new(WORDS_PER_PAGE as nat, |i: int| ALLOC_JUNK)),
{
    assert(free.push(pa).drop_last() =~= free);
    assert(c.remove(pa).insert(pa, Seq::new(WORDS_PER_PAGE as nat, |i: int| ALLOC_JUNK))
        =~= c.insert(pa, Seq::new(WORDS_PER_PAGE as nat, |i: int| ALLOC_JUNK)));
}

/// Releases all RAM after the kernel image to the frame allocator.
pub fn k_me_init(mem: &mut PhysMem)
    requires
        old(mem).wf(),
        can_free_range(*old(mem), old(mem).kernel_end() as int, RAM_END as int),
    ensures
        final(mem).wf(),
        final(mem).free() == old(mem).free() + range_pages(old(mem).kernel_end() as int, RAM_END as int),
        final(mem).contents() == old(mem).contents().remove_keys(range_pages(old(mem).kernel_end() as int, RAM_END as int).to_set()),
        final(mem).tables() == old(mem).tables(),
        final(mem).kernel_end() == old(mem).kernel_end(),
{
    let start = kernel_end_addr(mem) as usize;
    free_range(mem, start, RAM_END);
}

} // verus!
