//! Where blocks live on disk and the keys that hide their bytes.
//!
//! Each disk is split into up to four fragment files of `i64::MAX` bytes; an
//! absolute offset names a fragment and an offset inside it. The allocator
//! keeps, for every disk, which of its fragments are already open; opening a
//! file and moving bytes is the caller's part.
use vstd::prelude::*;

verus! {

/// Number of disks that an allocator serves (`u16::MAX`, numbered from zero).
pub const DISK_COUNT: usize = 65535;

/// Fragment files per disk.
pub const FRAGMENTS_PER_DISK: usize = 4;

/// Bytes in one fragment file.
pub const FRAGMENT_BYTES: u64 = 0x7fff_ffff_ffff_ffff;

/// Bytes in one block: a four-byte header and 279 data bytes.
pub const BLOCK_SIZE: usize = 283;

pub const MIX_MUL_1: u64 = 0xff51afd7ed558ccd;

pub const MIX_MUL_2: u64 = 0xc4ceb9fe1a85ec53;

pub const LAYER_MUL: u64 = 0x9E3779B97F4A7C15;

pub const DISK_MUL: u64 = 0x8D2668A86E396B04;

pub const BLOCK_MUL: u64 = 0x7C1557975D2859F3;

/// The 64-bit finalizer that spreads the bits of `x`.
pub open spec fn mix64_spec(x: u64) -> u64 {
    let a = x ^ (x >> 33u64);
    let b = a.wrapping_mul(MIX_MUL_1);
    let c = b ^ (b >> 33u64);
    let d = c.wrapping_mul(MIX_MUL_2);
    d ^ (d >> 33u64)
}

pub open spec fn layer_key_spec(layer: u64) -> u64 {
    mix64_spec(layer.wrapping_mul(LAYER_MUL))
}

pub open spec fn disk_key_spec(layer_key: u64, disk: u64) -> u64 {
    layer_key ^ mix64_spec(disk.wrapping_mul(DISK_MUL))
}

pub open spec fn block_key_spec(disk_key: u64, block_id: u64) -> u64 {
    disk_key ^ mix64_spec(block_id.wrapping_mul(BLOCK_MUL))
}

/// The key that hides the bytes of block `block` of disk `disk` at level `layer`.
pub open spec fn ofusc_key_spec(layer: u64, disk: u64, block: u64) -> u64 {
    block_key_spec(disk_key_spec(layer_key_spec(layer), disk), block)
}

/// The fragment slot of fragment number `frg`, when the disk has one.
pub fn frag_index(frg: u64) -> (r: Option<usize>)
    ensures
        r == (if frg < FRAGMENTS_PER_DISK {
            Some(frg as usize)
        } else {
            None::<usize>
        }),
{
    if frg <= 3 {
        Some(frg as usize)
    } else {
        None
    }
}

/// Where an access to a disk goes.
#[derive(Debug, Clone, Copy, PartialEq, Eq, Structural)]
pub struct DiskAccess {
    pub disk: usize,
    /// Number of the fragment file.
    pub frag: u64,
    /// Slot of the fragment among the disk's fragments.
    pub slot: usize,
    /// Offset inside the fragment file.
    pub inner_off: u64,
    /// The fragment file is not open yet.
    pub must_open: bool,
}

/// The open fragments of one disk.
pub struct DiskHelperManage {
    fragments: Vec<bool>,
}

impl View for DiskHelperManage {
    type V = Seq<bool>;

    closed spec fn view(&self) -> Seq<bool> {
        self.fragments@
    }
}

impl DiskHelperManage {
    /// No fragment open.
    pub fn new() -> (m: Self)
        ensures
            m@ == Seq::new(FRAGMENTS_PER_DISK as nat, |_i: int| false),
    {
        let m = Self { fragments: vec![false, false, false, false] };
        assert(m@ =~= Seq::new(FRAGMENTS_PER_DISK as nat, |_i: int| false));
        m
    }

    /// The slot of fragment `frag` and whether its file must still be opened.
    pub fn get_or_create(&self, frag: u64) -> (r: Option<(usize, bool)>)
        requires
            self@.len() == FRAGMENTS_PER_DISK,
        ensures
            r == (if frag < FRAGMENTS_PER_DISK {
                Some((frag as usize, !self@[frag as int]))
            } else {
                None::<(usize, bool)>
            }),
    {
        let idx = match frag_index(frag) {
            Some(i) => i,
            None => return None,
        };
        Some((idx, !self.fragments[idx]))
    }

    /// Records that the file of slot `idx` is open.
    pub fn mark_open(&mut self, idx: usize)
        requires
            idx < old(self)@.len(),
        ensures
            final(self)@ == old(self)@.update(idx as int, true),
    {
        self.fragments.set(idx, true);
    }
}

/// The open fragments of every disk, and the keys of the blocks.
pub struct AllocatorBlock {
    helpers: Vec<DiskHelperManage>,
}

impl AllocatorBlock {
    /// Which fragments of disk `disk` are open.
    pub closed spec fn opened(&self, disk: int) -> Seq<bool> {
        self.helpers@[disk]@
    }

    pub closed spec fn wf(&self) -> bool {
        &&& self.helpers@.len() == DISK_COUNT
        &&& forall|d: int| 0 <= d < DISK_COUNT ==> #[trigger] self.helpers@[d]@.len()
            == FRAGMENTS_PER_DISK
    }

    /// An allocator with no fragment open.
    pub fn new() -> (a: Self)
        ensures
            a.wf(),
            forall|d: int, f: int|
                0 <= d < DISK_COUNT && 0 <= f < FRAGMENTS_PER_DISK ==> !#[trigger] a.opened(d)[f],
    {
        let mut helpers: Vec<DiskHelperManage> = Vec::new();
        let mut i: usize = 0;
        while i < DISK_COUNT
            invariant
                0 <= i <= DISK_COUNT,
                helpers@.len() == i,
                forall|d: int|
                    0 <= d < i ==> #[trigger] helpers@[d]@ == Seq::new(
                        FRAGMENTS_PER_DISK as nat,
                        |_i: int| false,
                    ),
            decreases DISK_COUNT - i,
        {
            helpers.push(DiskHelperManage::new());
            i = i + 1;
        }
        Self { helpers }
    }

    fn mix64(x: u64) -> (r: u64)
        ensures
            r == mix64_spec(x),
    {
        let mut x = x;
        x ^= x >> 33;
        x = x.wrapping_mul(MIX_MUL_1);
        x ^= x >> 33;
        x = x.wrapping_mul(MIX_MUL_2);
        x ^= x >> 33;
        x
    }

    pub fn get_layer_key(layer: u64) -> (k: u64)
        ensures
            k == layer_key_spec(layer),
    {
        Self::mix64(layer.wrapping_mul(LAYER_MUL))
    }

    pub fn get_disk_key(layer_key: u64, disk: u64) -> (k: u64)
        ensures
            k == disk_key_spec(layer_key, disk),
    {
        let dk = Self::mix64(disk.wrapping_mul(DISK_MUL));
        layer_key ^ dk
    }

    pub fn get_block_key(disk_key: u64, block_id: u64) -> (k: u64)
        ensures
            k == block_key_spec(disk_key, block_id),
    {
        let bk = Self::mix64(block_id.wrapping_mul(BLOCK_MUL));
        disk_key ^ bk
    }

    pub fn get_ofusc_key(layer: u64, disk: u64, block: u64) -> (k: u64)
        ensures
            k == ofusc_key_spec(layer, disk, block),
    {
        let layer_key = Self::get_layer_key(layer);
        let disk_key = Self::get_disk_key(layer_key, disk);
        Self::get_block_key(disk_key, block)
    }

    pub fn get_size_block() -> (n: usize)
        ensures
            n == BLOCK_SIZE,
    {
        BLOCK_SIZE
    }

    /// Where byte `off` of disk `disk_id` lies: the fragment `off / i64::MAX`
    /// at offset `off % i64::MAX`. There is none for the disk numbered
    /// `u16::MAX` nor beyond the fourth fragment.
    pub fn locate(&self, off: u64, disk_id: u16) -> (r: Option<DiskAccess>)
        requires
            self.wf(),
        ensures
            r == (if (disk_id as int) < DISK_COUNT && off / FRAGMENT_BYTES < FRAGMENTS_PER_DISK {
                Some(
                    DiskAccess {
                        disk: disk_id as usize,
                        frag: off / FRAGMENT_BYTES,
                        slot: (off / FRAGMENT_BYTES) as usize,
                        inner_off: off % FRAGMENT_BYTES,
                        must_open: !self.opened(disk_id as int)[(off / FRAGMENT_BYTES) as int],
                    },
                )
            } else {
                None::<DiskAccess>
            }),
    {
        let max = FRAGMENT_BYTES;
        let frag = off / max;
        let inner_off = off % max;
        let disk = disk_id as usize;
        if disk >= self.helpers.len() {
            return None;
        }
        let (slot, must_open) = match self.helpers[disk].get_or_create(frag) {
            Some(p) => p,
            None => return None,
        };
        Some(DiskAccess { disk, frag, slot, inner_off, must_open })
    }

    /// Records that fragment slot `slot` of disk `disk` has its file open.
    pub fn mark_open(&mut self, disk: usize, slot: usize)
        requires
            old(self).wf(),
            disk < DISK_COUNT,
            slot < FRAGMENTS_PER_DISK,
        ensures
            final(self).wf(),
            forall|d: int|
                0 <= d < DISK_COUNT ==> #[trigger] final(self).opened(d) == if d == disk {
                    old(self).opened(d).update(slot as int, true)
                } else {
                    old(self).opened(d)
                },
    {
        let mut helper = DiskHelperManage::new();
        std::mem::swap(&mut helper, &mut self.helpers[disk]);
        helper.mark_open(slot);
        std::mem::swap(&mut helper, &mut self.helpers[disk]);
    }
}

/// A located access names the fragment and the offset inside it that make up
/// the absolute offset.
pub proof fn law_locate_decomposes(off: u64)
    ensures
        (off / FRAGMENT_BYTES) * FRAGMENT_BYTES + off % FRAGMENT_BYTES == off,
        off % FRAGMENT_BYTES < FRAGMENT_BYTES,
{
    vstd::arithmetic::div_mod::lemma_fundamental_div_mod(off as int, FRAGMENT_BYTES as int);
    assert((off / FRAGMENT_BYTES) * FRAGMENT_BYTES == FRAGMENT_BYTES * (off / FRAGMENT_BYTES)) by (nonlinear_arith);
}

} // verus!
