//! The leaf block: it holds the file bytes themselves.
//!
//! On disk a block starts at `BLOCK_SIZE * pos`: a four-byte big-endian
//! header with the number of bytes held, then those bytes, each XOR-ed with a
//! byte of a key derived from the block's level, disk and number.
//!
//! The block keeps its bytes in memory. Moving bytes to and from the disk is
//! left to the caller: `header_request`, `load_header` and `load_data` bring
//! a block in, `write_intern` says what to write back and `mark_clean`
//! records that it was written.
use crate::algoritm::cursors::{
    all_slots, next_fits, next_position, position_value, slots_in_range, Cursor, LAST_SLOT,
};
use crate::block::allocator_block::{
    mix64_spec, ofusc_key_spec, AllocatorBlock, BLOCK_MUL, BLOCK_SIZE, DISK_MUL, LAYER_MUL,
};
use crate::block::insert_helpers::{
    BufferStates, InsertResult, InsertResultItem, TransitOption, TransitOptions, TransitReturn,
    TransitStates, TransitView, TransportContext,
};
use crate::block::shadowd_block::ShadowdBlockCore;
use crate::helpers::convertions::{be_bytes, be_to_size, be_value, pow256, size_to_be};
use vstd::prelude::*;

verus! {

/// Bytes of the on-disk header.
pub const HEAD_SIZE: u8 = 4;

/// Bytes of data a block holds.
pub const DATA_SIZE: usize = 279;

/// Bytes of one directory entry; a cursor slot names the entry at
/// `slot * ENTRY_SIZE`.
pub const ENTRY_SIZE: usize = 11;

/// Bytes that `DeletePosDefault` removes.
pub const DEFAULT_DELETE: usize = 8;

/// The plain values of a block.
pub struct BlockState {
    pub layer: u8,
    pub pos: u64,
    pub disk_id: usize,
    /// First byte of the block on disk.
    pub start: u64,
    pub buffer: Seq<u8>,
    pub is_free: bool,
    pub writed: nat,
    pub free: nat,
    pub loaded: bool,
    pub dirty: bool,
}

/// Byte `i mod 8` of `key`, lowest byte first.
pub open spec fn key_byte(key: u64, i: int) -> u8 {
    ((key >> ((i % 8) * 8) as u64) & 0xff) as u8
}

/// `s` with every byte XOR-ed with the matching byte of `key`.
pub open spec fn obfuscated(key: u64, s: Seq<u8>) -> Seq<u8> {
    Seq::new(s.len(), |i: int| s[i] ^ key_byte(key, i))
}

/// The key of a block.
pub open spec fn block_key(s: BlockState) -> u64 {
    ofusc_key_spec(s.layer as u64, s.disk_id as u64, s.pos)
}

/// `a - b`, or zero when `b` is larger.
pub open spec fn sat_sub(a: nat, b: nat) -> nat {
    if a >= b {
        (a - b) as nat
    } else {
        0
    }
}

pub open spec fn min_nat(a: nat, b: nat) -> nat {
    if a <= b {
        a
    } else {
        b
    }
}


/// Whether `write_block` of `d` stays within the machine's integers.
pub open spec fn write_block_ok(s: BlockState, d: Seq<u8>) -> bool {
    s.free == 0 || {
        let w = min_nat(d.len(), s.free);
        let joined = s.buffer.len() + w;
        &&& s.writed + w <= usize::MAX
        &&& joined > DATA_SIZE ==> {
            let spill = joined - DATA_SIZE + (d.len() - w);
            &&& s.writed + w >= spill
            &&& s.free - w + spill <= usize::MAX
        }
    }
}

/// The cursor after up to `k` calls of `advance` that stop at the first one
/// not answering 2, and whether all `k` answered 2.
pub open spec fn advance_run(s: Seq<u8>, k: nat) -> (Seq<u8>, bool)
    decreases k,
{
    if k == 0 {
        (s, true)
    } else {
        let (t, ok) = advance_run(s, (k - 1) as nat);
        if !ok || all_slots(t, LAST_SLOT) {
            (t, false)
        } else {
            (next_position(t), true)
        }
    }
}

/// None of the calls counted by `advance_run` overflows a slot.
pub open spec fn advance_run_fits(s: Seq<u8>, k: nat) -> bool
    decreases k,
{
    k == 0 || (advance_run_fits(s, (k - 1) as nat) && {
        let (t, ok) = advance_run(s, (k - 1) as nat);
        !ok || all_slots(t, LAST_SLOT) || next_fits(t)
    })
}

/// The bytes `read_to` hands out: from the entry that slot `slot` names, at
/// most `size` of them, within the buffer.
pub open spec fn read_window(buffer: Seq<u8>, slot: u8, size: usize) -> Seq<u8> {
    let offset = slot * ENTRY_SIZE;
    let end = min_nat(min_nat((offset + size) as nat, usize::MAX as nat), buffer.len());
    buffer.subrange(offset as int, end as int)
}

proof fn lemma_advance_run_stops(s: Seq<u8>, j: nat, k: nat)
    requires
        j <= k,
        !advance_run(s, j).1,
    ensures
        advance_run(s, k) == advance_run(s, j),
    decreases k,
{
    if k > j {
        lemma_advance_run_stops(s, j, (k - 1) as nat);
    }
}

proof fn lemma_advance_run_fits_prefix(s: Seq<u8>, j: nat, k: nat)
    requires
        j <= k,
        advance_run_fits(s, k),
    ensures
        advance_run_fits(s, j),
    decreases k,
{
    if k > j {
        lemma_advance_run_fits_prefix(s, j, (k - 1) as nat);
    }
}


pub open spec fn tview(
    action: TransitOption,
    state: TransitStates,
    data: Seq<u8>,
    increment_size: bool,
    context: TransportContext,
) -> TransitView {
    TransitView { action, state, data, increment_size, context }
}

/// A block whose buffer grew: with `inc` set, the bytes beyond `DATA_SIZE`
/// leave it and go on to the next block; otherwise the block keeps them. Either
/// way the free space is what the count leaves of `DATA_SIZE`.
pub open spec fn settled(s: BlockState, inc: bool) -> (BlockState, TransitView) {
    if inc && s.buffer.len() > DATA_SIZE {
        let rest = s.buffer.skip(DATA_SIZE as int);
        let w = (s.writed - rest.len()) as nat;
        (
            BlockState {
                buffer: s.buffer.take(DATA_SIZE as int),
                writed: w,
                free: sat_sub(DATA_SIZE as nat, w),
                ..s
            },
            tview(
                TransitOption::InsertBegin,
                TransitStates::MoveToEnd,
                rest,
                inc,
                TransportContext::File,
            ),
        )
    } else {
        (
            BlockState { free: sat_sub(DATA_SIZE as nat, s.writed), ..s },
            tview(
                TransitOption::Finalize,
                TransitStates::Success,
                Seq::empty(),
                inc,
                TransportContext::File,
            ),
        )
    }
}

/// The block after its buffer became `buf`, `added` bytes more than it counted.
pub open spec fn grown(s: BlockState, buf: Seq<u8>, added: nat, inc: bool) -> (
    BlockState,
    TransitView,
) {
    settled(BlockState { buffer: buf, writed: s.writed + added, dirty: true, ..s }, inc)
}

pub open spec fn grown_ok(s: BlockState, buf: Seq<u8>, added: nat, inc: bool) -> bool {
    &&& s.writed + added <= usize::MAX
    &&& inc && buf.len() > DATA_SIZE ==> s.writed + added >= buf.len() - DATA_SIZE
}

/// Offset in the buffer of the entry that slot `slot` names.
pub open spec fn entry_offset(slot: u8) -> nat {
    slot as nat * ENTRY_SIZE as nat
}

/// The block and the answer after `insert_to`; `None` where it refuses the
/// option.
pub open spec fn insert_outcome(
    s: BlockState,
    opt: TransitOption,
    slot: u8,
    d: Seq<u8>,
    inc: bool,
    ctx: TransportContext,
) -> Option<(BlockState, TransitView)> {
    let pos = entry_offset(slot);
    let n = s.buffer.len();
    let refused = tview(TransitOption::Finalize, TransitStates::Error1, d, false, TransportContext::File);
    if ctx == TransportContext::Directory {
        if pos >= n {
            None
        } else if s.buffer[pos as int] > 0 {
            Some(
                (
                    s,
                    tview(
                        TransitOption::Finalize,
                        TransitStates::IlegalAcction,
                        d,
                        false,
                        TransportContext::Directory,
                    ),
                ),
            )
        } else if d.len() != ENTRY_SIZE || n < pos + ENTRY_SIZE {
            None
        } else {
            Some(
                (
                    BlockState {
                        buffer: s.buffer.take(pos as int) + d + s.buffer.skip(pos + ENTRY_SIZE),
                        dirty: true,
                        ..s
                    },
                    tview(
                        TransitOption::Finalize,
                        TransitStates::Success,
                        Seq::empty(),
                        inc,
                        TransportContext::Directory,
                    ),
                ),
            )
        }
    } else {
        match opt {
            TransitOption::InsertBegin => if n + d.len() >= DATA_SIZE && !inc {
                Some((s, refused))
            } else {
                Some(grown(s, d + s.buffer, d.len(), inc))
            },
            TransitOption::InsertEnd => if n == DATA_SIZE {
                if inc {
                    Some(
                        (
                            s,
                            tview(
                                TransitOption::InsertBegin,
                                TransitStates::MoveToEnd,
                                d,
                                inc,
                                TransportContext::File,
                            ),
                        ),
                    )
                } else {
                    Some((s, refused))
                }
            } else if n + d.len() > DATA_SIZE && !inc {
                Some((s, refused))
            } else {
                Some(grown(s, s.buffer + d, d.len(), inc))
            },
            TransitOption::InsertInPos => if n + d.len() > DATA_SIZE && !inc {
                Some(
                    (
                        s,
                        tview(
                            TransitOption::Finalize,
                            TransitStates::Error1,
                            d,
                            inc,
                            TransportContext::File,
                        ),
                    ),
                )
            } else {
                let p = min_nat(pos, n);
                Some(grown(s, s.buffer.take(p as int) + d + s.buffer.skip(p as int), d.len(), inc))
            },
            _ => None,
        }
    }
}

/// `insert_to` stays within the machine's integers.
pub open spec fn insert_ok(
    s: BlockState,
    opt: TransitOption,
    slot: u8,
    d: Seq<u8>,
    inc: bool,
    ctx: TransportContext,
) -> bool {
    let pos = entry_offset(slot);
    let n = s.buffer.len();
    if ctx == TransportContext::Directory {
        true
    } else {
        match opt {
            TransitOption::InsertBegin => n + d.len() <= usize::MAX && (!(n + d.len()
                >= DATA_SIZE && !inc) ==> grown_ok(s, d + s.buffer, d.len(), inc)),
            TransitOption::InsertEnd => n != DATA_SIZE ==> (n + d.len() <= usize::MAX && (!(n
                + d.len() > DATA_SIZE && !inc) ==> grown_ok(s, s.buffer + d, d.len(), inc))),
            TransitOption::InsertInPos => n + d.len() <= usize::MAX && (!(n + d.len()
                > DATA_SIZE && !inc) ==> {
                let p = min_nat(pos, n);
                grown_ok(s, s.buffer.take(p as int) + d + s.buffer.skip(p as int), d.len(), inc)
            }),
            _ => true,
        }
    }
}

/// The block after `removed` left it and its buffer became `buf`.
pub open spec fn shrunk(s: BlockState, buf: Seq<u8>, removed: Seq<u8>, dec: bool) -> (
    BlockState,
    TransitView,
) {
    let w = sat_sub(s.writed, removed.len());
    (
        BlockState { buffer: buf, writed: w, free: sat_sub(DATA_SIZE as nat, w), dirty: true, ..s },
        tview(TransitOption::InsertEnd, TransitStates::MoveToBegin, removed, dec, TransportContext::File),
    )
}

/// `b` with the entry at `pos` zeroed.
pub open spec fn clear_entry(b: Seq<u8>, pos: nat) -> Seq<u8> {
    Seq::new(b.len(), |i: int| if pos <= i < pos + ENTRY_SIZE { 0u8 } else { b[i] })
}

/// `b` without the `len` bytes at `pos`.
pub open spec fn cut(b: Seq<u8>, pos: nat, len: nat) -> Seq<u8> {
    b.take(pos as int) + b.skip((pos + len) as int)
}

/// The block and the answer after `remove_to`; `None` where it refuses the
/// option.
pub open spec fn remove_outcome(
    s: BlockState,
    opt: TransitOption,
    slot: u8,
    ind: usize,
    dec: bool,
    ctx: TransportContext,
) -> Option<(BlockState, TransitView)> {
    let pos = entry_offset(slot);
    let n = s.buffer.len();
    let refused = (
        s,
        tview(TransitOption::Finalize, TransitStates::Error2, Seq::empty(), dec, TransportContext::File),
    );
    if ctx == TransportContext::Directory {
        let done = tview(
            TransitOption::Finalize,
            TransitStates::Success,
            Seq::empty(),
            dec,
            TransportContext::Directory,
        );
        if pos >= n {
            None
        } else if s.buffer[pos as int] == 0 {
            Some((s, done))
        } else if pos + ENTRY_SIZE > n {
            None
        } else {
            Some((BlockState { buffer: clear_entry(s.buffer, pos), dirty: true, ..s }, done))
        }
    } else {
        match opt {
            TransitOption::DeletePosBytesToBegin => if pos == 0 {
                Some(refused)
            } else {
                let e = min_nat(pos, n);
                Some(shrunk(s, s.buffer.skip(e as int), s.buffer.take(e as int), dec))
            },
            TransitOption::DeletePosBytesToEnd => if pos == 0 {
                Some(refused)
            } else {
                let st = min_nat(pos, n);
                Some(shrunk(s, s.buffer.take(st as int), s.buffer.skip(st as int), dec))
            },
            TransitOption::DeletePosDefault => if pos == 0 || pos >= n || pos + DEFAULT_DELETE > n {
                Some(refused)
            } else {
                Some(
                    shrunk(
                        s,
                        cut(s.buffer, pos, DEFAULT_DELETE as nat),
                        s.buffer.subrange(pos as int, pos + DEFAULT_DELETE),
                        dec,
                    ),
                )
            },
            TransitOption::DeletePosToIndicator => if pos == 0 || ind == 0 || pos >= n || pos + ind
                > n {
                Some(refused)
            } else {
                Some(
                    shrunk(
                        s,
                        cut(s.buffer, pos, ind as nat),
                        s.buffer.subrange(pos as int, pos + ind),
                        dec,
                    ),
                )
            },
            _ => None,
        }
    }
}

/// `remove_to` stays within the machine's integers.
pub open spec fn remove_ok(
    s: BlockState,
    opt: TransitOption,
    slot: u8,
    ind: usize,
    ctx: TransportContext,
) -> bool {
    let pos = entry_offset(slot);
    let n = s.buffer.len();
    if ctx == TransportContext::Directory {
        true
    } else {
        opt == TransitOption::DeletePosToIndicator && pos != 0 && ind != 0 && pos < n ==> pos
            + ind <= usize::MAX
    }
}

/// An answer of `insert_to` or `remove_to` matches the expected outcome.
pub open spec fn transit_matches(
    expected: Option<(BlockState, TransitView)>,
    before: BlockState,
    after: BlockState,
    r: Option<TransitReturn>,
) -> bool {
    match expected {
        Some((st, tv)) => after == st && r is Some && r->0@ == tv,
        None => after == before && r is None,
    }
}

/// A read of `count` bytes at `off` of disk `disk`.
#[derive(Debug, Clone, Copy, PartialEq, Eq, Structural)]
pub struct ReadRequest {
    pub disk: u16,
    pub off: u64,
    pub count: usize,
}

/// A write of `data` at `off` of disk `disk`.
#[derive(Debug)]
pub struct WriteRequest {
    pub disk: u16,
    pub off: u64,
    pub data: Vec<u8>,
}

/// What bringing a block's changes to disk takes.
#[derive(Debug)]
pub enum FlushStep {
    /// The block was never read: read it in first, then ask again.
    Load,
    /// Nothing changed since the last write.
    Clean,
    /// Write the header, then the hidden bytes.
    Write(WriteRequest, WriteRequest),
}

/// The leaf block of the tree.
pub struct BaseSheetShadowdBlock {
    core: ShadowdBlockCore,
    buffer: Vec<u8>,
    is_free: bool,
    writed_bytes: usize,
    free_bytes: usize,
    start: u64,
    loaded: bool,
    dirty: bool,
}

impl View for BaseSheetShadowdBlock {
    type V = BlockState;

    closed spec fn view(&self) -> BlockState {
        BlockState {
            layer: self.core.layer,
            pos: self.core.pos,
            disk_id: self.core.disk_id,
            start: self.start,
            buffer: self.buffer@,
            is_free: self.is_free,
            writed: self.writed_bytes as nat,
            free: self.free_bytes as nat,
            loaded: self.loaded,
            dirty: self.dirty,
        }
    }
}

/// XOR-ing twice with the same key gives the bytes back.
pub proof fn law_obfuscation_involutive(key: u64, s: Seq<u8>)
    ensures
        obfuscated(key, obfuscated(key, s)) == s,
{
    assert forall|i: int| 0 <= i < s.len() implies #[trigger] obfuscated(
        key,
        obfuscated(key, s),
    )[i] == s[i] by {
        let b = s[i];
        let k = key_byte(key, i);
        assert((b ^ k) ^ k == b) by (bit_vector);
    }
    assert(obfuscated(key, obfuscated(key, s)) =~= s);
}

impl BaseSheetShadowdBlock {
    /// The block numbered `pos` of disk `disk_id` at level `layer`, not yet
    /// read from disk.
    pub fn new(pos: u64, disk_id: usize, layer: u8) -> (b: Self)
        requires
            BLOCK_SIZE * pos <= u64::MAX,
        ensures
            b@ == (BlockState {
                layer,
                pos,
                disk_id,
                start: (BLOCK_SIZE * pos) as u64,
                buffer: Seq::empty(),
                is_free: true,
                writed: 0,
                free: DATA_SIZE as nat,
                loaded: false,
                dirty: false,
            }),
    {
        let b = Self {
            core: ShadowdBlockCore { layer, pos, disk_id },
            buffer: Vec::new(),
            is_free: true,
            writed_bytes: 0,
            free_bytes: DATA_SIZE,
            start: AllocatorBlock::get_size_block() as u64 * pos,
            loaded: false,
            dirty: false,
        };
        assert(b@.buffer =~= Seq::<u8>::empty());
        b
    }

    /// The level of leaf blocks.
    pub fn layer() -> (l: u8)
        ensures
            l == 1,
    {
        1
    }

    pub fn is_free(&self) -> (b: bool)
        ensures
            b == self@.is_free,
    {
        self.is_free
    }

    pub fn writed_bytes(&self) -> (n: usize)
        ensures
            n == self@.writed,
    {
        self.writed_bytes
    }

    pub fn free_bytes(&self) -> (n: usize)
        ensures
            n == self@.free,
    {
        self.free_bytes
    }

    pub fn is_loaded(&self) -> (b: bool)
        ensures
            b == self@.loaded,
    {
        self.loaded
    }

    pub fn block_core(&self) -> (c: ShadowdBlockCore)
        ensures
            c.layer == self@.layer,
            c.pos == self@.pos,
            c.disk_id == self@.disk_id,
    {
        self.core
    }

    /// The bytes the block holds in memory.
    pub fn buffer(&self) -> (b: &Vec<u8>)
        ensures
            b@ == self@.buffer,
    {
        &self.buffer
    }

    /// XOR-s `data` with this block's key; the same call hides and reveals.
    pub fn ofusc(&self, data: &Vec<u8>) -> (out: Vec<u8>)
        ensures
            out@ == obfuscated(block_key(self@), data@),
    {
        let key = AllocatorBlock::get_ofusc_key(
            self.core.layer as u64,
            self.core.disk_id as u64,
            self.core.pos,
        );
        let mut out: Vec<u8> = Vec::with_capacity(data.len());
        let mut i: usize = 0;
        while i < data.len()
            invariant
                0 <= i <= data@.len(),
                key == block_key(self@),
                out@ =~= obfuscated(key, data@.take(i as int)),
            decreases data@.len() - i,
        {
            let shift = (i % 8) * 8;
            let k = ((key >> shift as u64) & 0xFF) as u8;
            out.push(data[i] ^ k);
            i = i + 1;
        }
        assert(data@.take(data@.len() as int) =~= data@);
        out
    }

    /// Where the header of the block is read from.
    pub fn header_request(&self) -> (r: ReadRequest)
        ensures
            r == (ReadRequest { disk: self@.disk_id as u16, off: self@.start, count: HEAD_SIZE as usize }),
    {
        ReadRequest { disk: self.core.disk_id as u16, off: self.start, count: HEAD_SIZE as usize }
    }

    /// Takes in the header read from disk. An empty header (nothing written
    /// there yet) makes the block empty and loaded; otherwise the header gives
    /// how many bytes the block holds, at most `DATA_SIZE`, and the answer is
    /// where to read them.
    pub fn load_header(&mut self, head: &Vec<u8>) -> (r: Option<ReadRequest>)
        requires
            old(self)@.start + HEAD_SIZE <= u64::MAX,
            head@.len() == 0 || head@.len() >= HEAD_SIZE,
        ensures
            head@.len() == 0 ==> r is None && final(self)@ == (BlockState {
                writed: 0,
                free: DATA_SIZE as nat,
                is_free: true,
                loaded: true,
                ..old(self)@
            }),
            head@.len() > 0 ==> ({
                let n = min_nat(
                    be_value(head@.take(HEAD_SIZE as int)) % (usize::MAX as nat + 1),
                    DATA_SIZE as nat,
                );
                &&& r == Some(
                    ReadRequest {
                        disk: old(self)@.disk_id as u16,
                        off: (old(self)@.start + HEAD_SIZE) as u64,
                        count: n as usize,
                    },
                )
                &&& final(self)@ == (BlockState {
                    writed: n,
                    free: (DATA_SIZE - n) as nat,
                    is_free: n == 0,
                    ..old(self)@
                })
            }),
    {
        let count = self.start + HEAD_SIZE as u64;
        if head.len() == 0 {
            self.writed_bytes = 0;
            self.free_bytes = DATA_SIZE;
            self.is_free = true;
            self.loaded = true;
            return None;
        }
        let writed = be_to_size(head.as_slice(), HEAD_SIZE as usize);
        let to_read = if writed < DATA_SIZE {
            writed
        } else {
            DATA_SIZE
        };
        self.writed_bytes = to_read;
        if to_read > 0 {
            self.free_bytes = DATA_SIZE - to_read;
            self.is_free = false;
        } else {
            self.free_bytes = DATA_SIZE;
            self.is_free = true;
        }
        Some(ReadRequest { disk: self.core.disk_id as u16, off: count, count: to_read })
    }

    /// Takes in the hidden bytes read from disk: the block now holds them
    /// revealed and counts as loaded.
    pub fn load_data(&mut self, raw: &Vec<u8>)
        ensures
            final(self)@ == (BlockState {
                buffer: obfuscated(block_key(old(self)@), raw@),
                loaded: true,
                ..old(self)@
            }),
    {
        let data = self.ofusc(raw);
        self.buffer = data;
        self.loaded = true;
    }

    /// What writing the block back takes: a block never read must be read in
    /// first, a clean block needs nothing, and a changed block writes its
    /// header (the count of bytes held, at most `DATA_SIZE`, on four bytes)
    /// and then its bytes hidden under the block's key, at most `DATA_SIZE`
    /// of them, so that the write stays within the block.
    pub fn write_intern(&self) -> (step: FlushStep)
        requires
            self@.loaded && self@.dirty ==> self@.start + HEAD_SIZE <= u64::MAX,
        ensures
            !self@.loaded ==> step is Load,
            self@.loaded && !self@.dirty ==> step is Clean,
            self@.loaded && self@.dirty ==> ({
                &&& step is Write
                &&& step->0.disk == self@.disk_id as u16
                &&& step->0.off == self@.start
                &&& step->0.data@ == be_bytes(min_nat(self@.writed, DATA_SIZE as nat), HEAD_SIZE as nat)
                &&& step->1.disk == self@.disk_id as u16
                &&& step->1.off == self@.start + HEAD_SIZE
                &&& step->1.data@ == obfuscated(
                    block_key(self@),
                    self@.buffer.take(min_nat(self@.buffer.len(), DATA_SIZE as nat) as int),
                )
                &&& step->1.off + step->1.data@.len() <= self@.start + BLOCK_SIZE
            }),
    {
        if !self.loaded {
            return FlushStep::Load;
        }
        if !self.dirty {
            return FlushStep::Clean;
        }
        let count = self.start;
        let count_writed = if self.writed_bytes < DATA_SIZE {
            self.writed_bytes
        } else {
            DATA_SIZE
        };
        let header_bytes = size_to_be(count_writed, HEAD_SIZE as usize);
        let disk = self.core.disk_id as u16;
        let header = WriteRequest { disk, off: count, data: header_bytes };
        let count = count + HEAD_SIZE as u64;
        let mut shown = self.buffer.clone();
        assert(shown@ =~= self.buffer@);
        if shown.len() > DATA_SIZE {
            shown.truncate(DATA_SIZE);
        }
        assert(shown@ =~= self@.buffer.take(min_nat(self@.buffer.len(), DATA_SIZE as nat) as int));
        let data = self.ofusc(&shown);
        FlushStep::Write(header, WriteRequest { disk, off: count, data })
    }

    /// Appends as much of `data` as the free space takes and answers what was
    /// written and what is left over; `data` ends empty. Bytes beyond
    /// `DATA_SIZE` in the buffer go back to the leftovers. A block that has
    /// become full is due to be written back (`write_intern`).
    pub fn write_block(&mut self, data: &mut Vec<u8>) -> (r: InsertResult)
        requires
            write_block_ok(old(self)@, old(data)@),
        ensures
            final(data)@ == Seq::<u8>::empty(),
            final(self)@.buffer + r.remaining_bytes@ == old(self)@.buffer + old(data)@,
            old(self)@.free == 0 ==> {
                &&& final(self)@ == old(self)@
                &&& r.result == InsertResultItem::BufferIsFull
                &&& r.state == BufferStates::Full
                &&& r.remaining == old(data)@.len()
                &&& r.written == 0
                &&& r.remaining_bytes@ == old(data)@
            },
            old(self)@.free > 0 ==> ({
                let s = old(self)@;
                let d = old(data)@;
                let w = min_nat(d.len(), s.free);
                let joined = s.buffer + d.take(w as int);
                let over = joined.len() > DATA_SIZE;
                let spill = if over {
                    joined.skip(DATA_SIZE as int) + d.skip(w as int)
                } else {
                    d.skip(w as int)
                };
                let writed = if over {
                    (s.writed + w - spill.len()) as nat
                } else {
                    s.writed + w
                };
                let free = if over {
                    (s.free - w + spill.len()) as nat
                } else {
                    (s.free - w) as nat
                };
                &&& final(self)@ == (BlockState {
                    buffer: if over {
                        joined.take(DATA_SIZE as int)
                    } else {
                        joined
                    },
                    writed,
                    free,
                    dirty: true,
                    ..s
                })
                &&& r.remaining_bytes@ == spill
                &&& r.remaining == spill.len()
                &&& r.written == w
                &&& r.state == (if free == 0 {
                    BufferStates::Full
                } else if free == DATA_SIZE {
                    BufferStates::Empty
                } else {
                    BufferStates::PartiallyFull
                })
                &&& r.result == (if w == d.len() {
                    InsertResultItem::InsertedWithoutRemaining
                } else {
                    InsertResultItem::InsertedWithRemaining
                })
            }),
    {
        if self.free_bytes == 0 {
            let remaining = data.len();
            let mut taken: Vec<u8> = Vec::new();
            std::mem::swap(data, &mut taken);
            assert(data@ =~= Seq::<u8>::empty());
            return InsertResult {
                result: InsertResultItem::BufferIsFull,
                state: BufferStates::Full,
                remaining,
                written: 0,
                remaining_bytes: taken,
            };
        }
        let ghost d = data@;
        let ghost buf0 = self.buffer@;
        let original_data_size = data.len();
        let remaining = self.free_bytes;
        let to_write = if data.len() < remaining {
            data.len()
        } else {
            remaining
        };

        self.writed_bytes += to_write;
        self.free_bytes -= to_write;
        self.dirty = true;

        let mut data_remaning_bytes = if to_write < data.len() {
            data.split_off(to_write)
        } else {
            Vec::new()
        };
        proof {
            assert(data@ =~= d.take(to_write as int));
            assert(data_remaning_bytes@ =~= d.skip(to_write as int));
        }

        self.buffer.append(data);

        let remaining_bytes = if self.buffer.len() > DATA_SIZE {
            let mut vec = self.buffer.split_off(DATA_SIZE);
            vec.append(&mut data_remaning_bytes);
            self.writed_bytes -= vec.len();
            self.free_bytes += vec.len();
            vec
        } else {
            data_remaning_bytes
        };

        let is_fully = self.free_bytes == 0;

        let mut result = InsertResult {
            result: InsertResultItem::Fail,
            state: BufferStates::Empty,
            remaining: remaining_bytes.len(),
            written: 0,
            remaining_bytes: remaining_bytes,
        };

        result.written = to_write;
        result.state = if is_fully {
            BufferStates::Full
        } else if self.free_bytes == DATA_SIZE {
            BufferStates::Empty
        } else {
            BufferStates::PartiallyFull
        };

        result.result = if to_write == original_data_size {
            InsertResultItem::InsertedWithoutRemaining
        } else {
            InsertResultItem::InsertedWithRemaining
        };
        proof {
            assert(final(data)@ =~= Seq::<u8>::empty());
            assert(self.buffer@ + result.remaining_bytes@ =~= buf0 + d);
        }
        result
    }

    /// Hands out the bytes from the entry that `cur`'s leaf slot names, at
    /// most `size`, and advances `cur` once for every whole entry among them.
    /// It answers `None` when that entry lies past the buffer, and when the
    /// cursor runs out of positions on the way.
    pub fn read_to(&self, cur: &mut Cursor, size: usize) -> (r: Option<Vec<u8>>)
        requires
            old(cur).wf(),
            old(cur)@[5] * ENTRY_SIZE <= self@.buffer.len() ==> advance_run_fits(
                old(cur)@,
                read_window(self@.buffer, old(cur)@[5], size).len() / ENTRY_SIZE as nat,
            ),
        ensures
            final(cur).wf(),
            old(cur)@[5] * ENTRY_SIZE > self@.buffer.len() ==> r is None && final(cur)@ == old(
                cur,
            )@,
            old(cur)@[5] * ENTRY_SIZE <= self@.buffer.len() ==> ({
                let bytes = read_window(self@.buffer, old(cur)@[5], size);
                let run = advance_run(old(cur)@, bytes.len() / ENTRY_SIZE as nat);
                &&& final(cur)@ == run.0
                &&& r is Some == run.1
                &&& r matches Some(v) ==> v@ == bytes
            }),
    {
        let ghost c0 = cur@;
        proof {
            cur.lemma_view_len();
        }
        let offset_ = cur.get_pos(1)? as usize;
        let offset = offset_ * ENTRY_SIZE;
        if offset > self.buffer.len() {
            return None;
        }
        let sum = offset.saturating_add(size);
        let end = if sum < self.buffer.len() {
            sum
        } else {
            self.buffer.len()
        };
        let mut vec: Vec<u8> = Vec::new();
        let mut j: usize = offset;
        while j < end
            invariant
                offset <= j <= end <= self.buffer@.len(),
                vec@ =~= self.buffer@.subrange(offset as int, j as int),
            decreases end - j,
        {
            vec.push(self.buffer[j]);
            j = j + 1;
        }
        let ghost bytes = read_window(self@.buffer, c0[5], size);
        assert(vec@ == bytes);
        let ghost k = (bytes.len() / ENTRY_SIZE as nat) as nat;
        let sized = vec.len();
        let mut count: usize = 0;
        loop
            invariant
                count <= sized,
                c0 == old(cur)@,
                c0[5] * ENTRY_SIZE <= self@.buffer.len(),
                bytes == read_window(self@.buffer, c0[5], size),
                sized == bytes.len(),
                vec@ == bytes,
                count % 11 == 0,
                count / 11 <= k,
                k == sized / 11,
                cur.wf(),
                advance_run(c0, (count / 11) as nat) == (cur@, true),
                advance_run_fits(c0, k),
            ensures
                count / 11 == k,
                advance_run(c0, k) == (cur@, true),
                cur.wf(),
            decreases sized - count,
        {
            if sized == count {
                break;
            }
            if sized - count < ENTRY_SIZE {
                break;
            }
            let ghost j = (count / 11) as nat;
            proof {
                lemma_advance_run_fits_prefix(c0, j + 1, k);
                if all_slots(cur@, LAST_SLOT) {
                    crate::algoritm::cursors::lemma_next_of_last(cur@);
                }
            }
            let ghost before = cur@;
            if cur.advance() != 2 {
                proof {
                    assert(all_slots(before, LAST_SLOT));
                    assert(advance_run(c0, j + 1) == (before, false));
                    lemma_advance_run_stops(c0, j + 1, k);
                }
                return None;
            }
            count += ENTRY_SIZE;
        }
        Some(vec)
    }

    /// Sends the bytes beyond `DATA_SIZE` on to the next block when `increment`
    /// allows the transfer to grow; otherwise the insertion is done. The free
    /// space follows the new count.
    fn settle_growth(&mut self, increment: bool) -> (r: TransitReturn)
        requires
            increment && old(self)@.buffer.len() > DATA_SIZE ==> old(self)@.writed >= old(
                self,
            )@.buffer.len() - DATA_SIZE,
        ensures
            (final(self)@, r@) == settled(old(self)@, increment),
    {
        if increment && self.buffer.len() > DATA_SIZE {
            let remaining = self.buffer.split_off(DATA_SIZE);
            self.writed_bytes -= remaining.len();
            self.free_bytes = DATA_SIZE.saturating_sub(self.writed_bytes);
            return TransitReturn {
                action: TransitOption::InsertBegin,
                state: TransitStates::MoveToEnd,
                data: remaining,
                increment_size: increment,
                context: TransportContext::File,
            };
        }
        self.free_bytes = DATA_SIZE.saturating_sub(self.writed_bytes);
        let r = TransitReturn {
            action: TransitOption::Finalize,
            state: TransitStates::Success,
            data: Vec::new(),
            increment_size: increment,
            context: TransportContext::File,
        };
        assert(r@.data =~= Seq::<u8>::empty());
        r
    }

    /// Inserts `options.data` as `options.option` says.
    ///
    /// In a directory the cursor's leaf slot names an eleven-byte entry: an
    /// entry that starts past the buffer answers `None`; an occupied entry is
    /// refused with `IlegalAcction` and the data handed back; a free entry
    /// takes the data when it is exactly one entry long and the entry lies
    /// within the buffer, and the answer is `None` otherwise.
    ///
    /// In a file, `InsertBegin`, `InsertEnd` and `InsertInPos` put the data at
    /// the start, at the end or at the cursor's entry. Without
    /// `increment_size` an insertion that does not fit the `DATA_SIZE` data
    /// bytes is refused with `Error1`; with it, the bytes beyond `DATA_SIZE`
    /// are handed on with `MoveToEnd`, and `InsertEnd` on a full block hands
    /// all its data on. The free space follows the new count. Other options
    /// answer `None`.
    pub fn insert_to(&mut self, options: &TransitOptions) -> (r: Option<TransitReturn>)
        requires
            options.pos.wf(),
            insert_ok(
                old(self)@,
                options.option,
                options.pos@[5],
                options.data@,
                options.increment_size,
                options.context,
            ),
        ensures
            transit_matches(
                insert_outcome(
                    old(self)@,
                    options.option,
                    options.pos@[5],
                    options.data@,
                    options.increment_size,
                    options.context,
                ),
                old(self)@,
                final(self)@,
                r,
            ),
    {
        proof {
            options.pos.lemma_view_len();
        }
        let ghost s0 = self@;
        let ghost d = options.data@;
        let is_dir = options.context.is_directory();

        if is_dir {
            let aux = options.data.clone();
            assert(aux@ =~= d);
            let handed_back = options.data.clone();
            assert(handed_back@ =~= d);
            let default = TransitReturn {
                action: TransitOption::Finalize,
                state: TransitStates::IlegalAcction,
                data: handed_back,
                increment_size: false,
                context: TransportContext::Directory,
            };

            let pos = options.pos.get_pos(1)? as usize * ENTRY_SIZE;

            if pos >= self.buffer.len() {
                return None;
            }
            if self.buffer[pos] > 0 {
                return Some(default);
            }
            if aux.len() != ENTRY_SIZE || self.buffer.len() < pos + ENTRY_SIZE {
                return None;
            }
            let mut i: usize = 0;
            while i < ENTRY_SIZE
                invariant
                    0 <= i <= ENTRY_SIZE,
                    aux@.len() == ENTRY_SIZE,
                    pos + ENTRY_SIZE <= self.buffer.len(),
                    self.buffer@.len() == s0.buffer.len(),
                    forall|j: int|
                        0 <= j < self.buffer@.len() ==> #[trigger] self.buffer@[j] == if pos <= j
                            < pos + i {
                            aux@[j - pos]
                        } else {
                            s0.buffer[j]
                        },
                    self@ == (BlockState { buffer: self.buffer@, ..s0 }),
                decreases ENTRY_SIZE - i,
            {
                self.buffer.set(pos + i, aux[i]);
                i = i + 1;
            }
            self.dirty = true;
            assert(self.buffer@ =~= s0.buffer.take(pos as int) + d + s0.buffer.skip(
                pos + ENTRY_SIZE,
            ));
            let done = TransitReturn {
                action: TransitOption::Finalize,
                state: TransitStates::Success,
                data: Vec::new(),
                increment_size: options.increment_size,
                context: TransportContext::Directory,
            };
            assert(done@.data =~= Seq::<u8>::empty());
            return Some(done);
        }
        let mut data = options.data.clone();
        assert(data@ =~= d);
        let capacity = DATA_SIZE;
        let increment = options.increment_size;
        let pos = (options.pos.get_pos(1)? as usize) * ENTRY_SIZE;

        match options.option {
            TransitOption::InsertBegin => {
                if self.buffer.len() + data.len() >= capacity && !increment {
                    let mut moved: Vec<u8> = Vec::new();
                    std::mem::swap(&mut data, &mut moved);
                    return Some(
                        TransitReturn {
                            action: TransitOption::Finalize,
                            state: TransitStates::Error1,
                            data: moved,
                            increment_size: false,
                            context: TransportContext::File,
                        },
                    );
                }
                self.writed_bytes += data.len();
                let mut joined: Vec<u8> = Vec::new();
                std::mem::swap(&mut joined, &mut data);
                joined.append(&mut self.buffer);
                self.buffer = joined;
                self.dirty = true;
                proof {
                    assert(self@ == (BlockState {
                        buffer: d + s0.buffer,
                        writed: s0.writed + d.len(),
                        dirty: true,
                        ..s0
                    }));
                }
                Some(self.settle_growth(increment))
            },
            TransitOption::InsertEnd => {
                let handed_back = data.clone();
                assert(handed_back@ =~= d);
                let result_error = TransitReturn {
                    action: TransitOption::Finalize,
                    state: TransitStates::Error1,
                    data: handed_back,
                    increment_size: false,
                    context: TransportContext::File,
                };
                if self.buffer.len() == capacity {
                    if increment {
                        let mut moved: Vec<u8> = Vec::new();
                        std::mem::swap(&mut data, &mut moved);
                        return Some(
                            TransitReturn {
                                action: TransitOption::InsertBegin,
                                state: TransitStates::MoveToEnd,
                                data: moved,
                                increment_size: increment,
                                context: TransportContext::File,
                            },
                        );
                    } else {
                        return Some(result_error);
                    }
                }
                if self.buffer.len() + data.len() > capacity && !increment {
                    return Some(result_error);
                }
                self.writed_bytes += data.len();
                self.buffer.append(&mut data);
                self.dirty = true;
                proof {
                    assert(self@ == (BlockState {
                        buffer: s0.buffer + d,
                        writed: s0.writed + d.len(),
                        dirty: true,
                        ..s0
                    }));
                }
                Some(self.settle_growth(increment))
            },
            TransitOption::InsertInPos => {
                if self.buffer.len() + data.len() > capacity && !increment {
                    let mut moved: Vec<u8> = Vec::new();
                    std::mem::swap(&mut data, &mut moved);
                    return Some(
                        TransitReturn {
                            action: TransitOption::Finalize,
                            state: TransitStates::Error1,
                            data: moved,
                            increment_size: increment,
                            context: TransportContext::File,
                        },
                    );
                }
                self.writed_bytes += data.len();
                let p = if pos < self.buffer.len() {
                    pos
                } else {
                    self.buffer.len()
                };
                let mut tail = self.buffer.split_off(p);
                self.buffer.append(&mut data);
                self.buffer.append(&mut tail);
                self.dirty = true;
                proof {
                    assert(self@.buffer =~= s0.buffer.take(p as int) + d + s0.buffer.skip(p as int));
                }
                Some(self.settle_growth(increment))
            },
            _ => None,
        }
    }

    /// Removes bytes as `options.option` says and hands them back.
    ///
    /// In a directory the eleven-byte entry that the cursor's leaf slot names
    /// is zeroed (a free entry is left as it is); an entry that does not lie
    /// within the buffer answers `None`. In a file:
    /// `DeletePosBytesToBegin` removes the bytes before the cursor's entry,
    /// `DeletePosBytesToEnd` those from it to the end, `DeletePosDefault` eight
    /// bytes at it and `DeletePosToIndicator` `options.indicator` bytes at it;
    /// the removed bytes come back with `MoveToBegin`. The entry of slot zero,
    /// and a range beyond the buffer, are refused with `Error2`. Other options
    /// answer `None`.
    pub fn remove_to(&mut self, options: &TransitOptions) -> (r: Option<TransitReturn>)
        requires
            options.pos.wf(),
            remove_ok(
                old(self)@,
                options.option,
                options.pos@[5],
                options.indicator,
                options.context,
            ),
        ensures
            transit_matches(
                remove_outcome(
                    old(self)@,
                    options.option,
                    options.pos@[5],
                    options.indicator,
                    options.increment_size,
                    options.context,
                ),
                old(self)@,
                final(self)@,
                r,
            ),
    {
        proof {
            options.pos.lemma_view_len();
        }
        let ghost s0 = self@;
        let pos = (options.pos.get_pos(1)? as usize) * ENTRY_SIZE;
        let dec = options.increment_size;

        if options.context.is_directory() {
            let def = TransitReturn {
                action: TransitOption::Finalize,
                state: TransitStates::Success,
                data: Vec::new(),
                increment_size: dec,
                context: TransportContext::Directory,
            };
            assert(def@.data =~= Seq::<u8>::empty());
            if pos >= self.buffer.len() {
                return None;
            }
            if self.buffer[pos] == 0 {
                return Some(def);
            }
            if pos + ENTRY_SIZE > self.buffer.len() {
                return None;
            }
            let mut i: usize = 0;
            while i < ENTRY_SIZE
                invariant
                    0 <= i <= ENTRY_SIZE,
                    pos + ENTRY_SIZE <= s0.buffer.len(),
                    pos + ENTRY_SIZE <= self.buffer.len(),
                    self.buffer@.len() == s0.buffer.len(),
                    forall|j: int|
                        0 <= j < self.buffer@.len() ==> #[trigger] self.buffer@[j] == if pos <= j
                            < pos + i {
                            0u8
                        } else {
                            s0.buffer[j]
                        },
                    self@ == (BlockState { buffer: self.buffer@, ..s0 }),
                decreases ENTRY_SIZE - i,
            {
                self.buffer.set(pos + i, 0);
                i = i + 1;
            }
            self.dirty = true;
            assert(self.buffer@ =~= clear_entry(s0.buffer, pos as nat));
            return Some(def);
        }
        let refused = TransitReturn {
            action: TransitOption::Finalize,
            state: TransitStates::Error2,
            data: Vec::new(),
            increment_size: dec,
            context: TransportContext::File,
        };
        assert(refused@.data =~= Seq::<u8>::empty());

        match options.option {
            TransitOption::DeletePosBytesToBegin => {
                if pos == 0 {
                    return Some(refused);
                }
                let end = if pos < self.buffer.len() {
                    pos
                } else {
                    self.buffer.len()
                };
                let rest = self.buffer.split_off(end);
                let mut data = rest;
                std::mem::swap(&mut data, &mut self.buffer);
                self.dirty = true;
                self.writed_bytes = self.writed_bytes.saturating_sub(data.len());
                self.free_bytes = DATA_SIZE.saturating_sub(self.writed_bytes);
                Some(
                    TransitReturn {
                        action: TransitOption::InsertEnd,
                        state: TransitStates::MoveToBegin,
                        data,
                        increment_size: dec,
                        context: TransportContext::File,
                    },
                )
            },
            TransitOption::DeletePosBytesToEnd => {
                if pos == 0 {
                    return Some(refused);
                }
                let start = if pos < self.buffer.len() {
                    pos
                } else {
                    self.buffer.len()
                };
                let data = self.buffer.split_off(start);
                self.dirty = true;
                self.writed_bytes = self.writed_bytes.saturating_sub(data.len());
                self.free_bytes = DATA_SIZE.saturating_sub(self.writed_bytes);
                Some(
                    TransitReturn {
                        action: TransitOption::InsertEnd,
                        state: TransitStates::MoveToBegin,
                        data,
                        increment_size: dec,
                        context: TransportContext::File,
                    },
                )
            },
            TransitOption::DeletePosDefault => {
                let ind = DEFAULT_DELETE;
                if pos == 0 || pos >= self.buffer.len() || pos + ind > self.buffer.len() {
                    return Some(refused);
                }
                let end = pos + ind;
                let data = self.take_range(pos, end);
                self.writed_bytes = self.writed_bytes.saturating_sub(data.len());
                self.free_bytes = DATA_SIZE.saturating_sub(self.writed_bytes);
                self.dirty = true;
                Some(
                    TransitReturn {
                        action: TransitOption::InsertEnd,
                        state: TransitStates::MoveToBegin,
                        data,
                        increment_size: dec,
                        context: TransportContext::File,
                    },
                )
            },
            TransitOption::DeletePosToIndicator => {
                let ind = options.indicator;
                if pos == 0 || ind == 0 || pos >= self.buffer.len() || pos + ind > self.buffer.len() {
                    return Some(refused);
                }
                let end = pos + ind;
                let data = self.take_range(pos, end);
                self.writed_bytes = self.writed_bytes.saturating_sub(data.len());
                self.free_bytes = DATA_SIZE.saturating_sub(self.writed_bytes);
                self.dirty = true;
                Some(
                    TransitReturn {
                        action: TransitOption::InsertEnd,
                        state: TransitStates::MoveToBegin,
                        data,
                        increment_size: dec,
                        context: TransportContext::File,
                    },
                )
            },
            _ => None,
        }
    }

    /// Takes the bytes `start..end` out of the buffer.
    fn take_range(&mut self, start: usize, end: usize) -> (taken: Vec<u8>)
        requires
            start <= end <= old(self)@.buffer.len(),
        ensures
            taken@ == old(self)@.buffer.subrange(start as int, end as int),
            final(self)@ == (BlockState { buffer: cut(old(self)@.buffer, start as nat, (end - start) as nat), ..old(self)@ }),
    {
        let ghost b = self.buffer@;
        let mut tail = self.buffer.split_off(end);
        let taken = self.buffer.split_off(start);
        self.buffer.append(&mut tail);
        assert(self.buffer@ =~= cut(b, start as nat, (end - start) as nat));
        taken
    }

    /// Zeroes every byte the block holds and marks it changed.
    pub fn zero_buffer(&mut self)
        ensures
            final(self)@ == (BlockState {
                buffer: Seq::new(old(self)@.buffer.len(), |_i: int| 0u8),
                dirty: true,
                ..old(self)@
            }),
    {
        let ghost s0 = self@;
        let mut i: usize = 0;
        while i < self.buffer.len()
            invariant
                0 <= i <= self.buffer@.len(),
                self.buffer@.len() == s0.buffer.len(),
                forall|j: int| 0 <= j < i ==> #[trigger] self.buffer@[j] == 0u8,
                self@ == (BlockState { buffer: self.buffer@, ..s0 }),
            decreases self.buffer@.len() - i,
        {
            self.buffer.set(i, 0);
            i = i + 1;
        }
        self.dirty = true;
        assert(self.buffer@ =~= Seq::new(s0.buffer.len(), |_i: int| 0u8));
    }

    /// Counts the block as holding nothing and marks it changed.
    pub fn reset_counts(&mut self)
        ensures
            final(self)@ == (BlockState {
                writed: 0,
                free: DATA_SIZE as nat,
                dirty: true,
                ..old(self)@
            }),
    {
        self.dirty = true;
        self.writed_bytes = 0;
        self.free_bytes = DATA_SIZE;
    }

    /// Records that the block's changes reached the disk.
    pub fn mark_clean(&mut self)
        ensures
            final(self)@ == (BlockState { dirty: false, ..old(self)@ }),
    {
        self.dirty = false;
    }
}

/// A child slot of a branch block: a leaf block, valid or not, and its place.
pub struct EntrySheetShadowdBlock {
    pos: usize,
    bs_sb: BaseSheetShadowdBlock,
    is_valid: bool,
}

impl View for EntrySheetShadowdBlock {
    /// Place, block and validity.
    type V = (usize, BlockState, bool);

    closed spec fn view(&self) -> (usize, BlockState, bool) {
        (self.pos, self.bs_sb@, self.is_valid)
    }
}

impl EntrySheetShadowdBlock {
    pub fn new_invalid(pos: usize, bs_sb: BaseSheetShadowdBlock) -> (e: Self)
        ensures
            e@ == (pos, bs_sb@, false),
    {
        Self { pos, bs_sb, is_valid: false }
    }

    pub fn new_valid(pos: usize, bs_sb: BaseSheetShadowdBlock) -> (e: Self)
        ensures
            e@ == (pos, bs_sb@, true),
    {
        Self { pos, bs_sb, is_valid: true }
    }

    pub fn get_pos(&self) -> (p: usize)
        ensures
            p == self@.0,
    {
        self.pos
    }

    pub fn is_valid(&self) -> (b: bool)
        ensures
            b == self@.2,
    {
        self.is_valid
    }

    /// The block of a valid entry, to read or change in place.
    pub fn get_bs(&mut self) -> (r: Option<&mut BaseSheetShadowdBlock>)
        ensures
            r is Some == old(self)@.2,
            r is None ==> final(self)@ == old(self)@,
            r matches Some(b) ==> b@ == old(self)@.1 && final(self)@ == (
                old(self)@.0,
                final(b)@,
                old(self)@.2,
            ),
    {
        if self.is_valid {
            Some(&mut self.bs_sb)
        } else {
            None
        }
    }
}

/// What `write_intern` writes for a block, `load_header` and `load_data` of a
/// new block at the same place read back: the same count and the same bytes,
/// when the block holds exactly the bytes it counts.
pub proof fn law_written_block_reads_back(s: BlockState, fresh: BlockState)
    requires
        s.buffer.len() == s.writed,
        s.writed <= DATA_SIZE,
        fresh.layer == s.layer,
        fresh.pos == s.pos,
        fresh.disk_id == s.disk_id,
    ensures
        ({
            let header = be_bytes(min_nat(s.writed, DATA_SIZE as nat), HEAD_SIZE as nat);
            let n = min_nat(
                be_value(header.take(HEAD_SIZE as int)) % (usize::MAX as nat + 1),
                DATA_SIZE as nat,
            );
            &&& header.len() > 0
            &&& n == s.writed
            &&& obfuscated(
                block_key(fresh),
                obfuscated(block_key(s), s.buffer).take(n as int),
            ) == s.buffer
        }),
{
    let header = be_bytes(s.writed, HEAD_SIZE as nat);
    assert(pow256(4) == 4294967296) by {
        reveal_with_fuel(pow256, 5);
    }
    crate::helpers::convertions::law_be_roundtrip(s.writed, HEAD_SIZE as nat);
    assert(header.take(HEAD_SIZE as int) =~= header);
    assert(min_nat(s.writed, DATA_SIZE as nat) == s.writed);
    vstd::arithmetic::div_mod::lemma_small_mod(s.writed, usize::MAX as nat + 1);
    assert(block_key(fresh) == block_key(s));
    assert(obfuscated(block_key(s), s.buffer).take(s.writed as int) =~= obfuscated(
        block_key(s),
        s.buffer,
    ));
    law_obfuscation_involutive(block_key(s), s.buffer);
}

/// Deleting `indicator` bytes at a cursor's entry and inserting them back at
/// the same entry restores the buffer of a block that fits its size.
pub proof fn law_reinsert_undoes_delete(
    s: BlockState,
    slot: u8,
    ind: usize,
    dec: bool,
)
    requires
        s.buffer.len() <= DATA_SIZE,
        remove_outcome(
            s,
            TransitOption::DeletePosToIndicator,
            slot,
            ind,
            dec,
            TransportContext::File,
        ) matches Some((_, tv)) && tv.state == TransitStates::MoveToBegin,
    ensures
        ({
            let (s1, tv) = remove_outcome(
                s,
                TransitOption::DeletePosToIndicator,
                slot,
                ind,
                dec,
                TransportContext::File,
            ).unwrap();
            insert_outcome(
                s1,
                TransitOption::InsertInPos,
                slot,
                tv.data,
                false,
                TransportContext::File,
            ) matches Some((s2, _)) && s2.buffer == s.buffer
        }),
{
    let pos = entry_offset(slot);
    let (s1, tv) = remove_outcome(
        s,
        TransitOption::DeletePosToIndicator,
        slot,
        ind,
        dec,
        TransportContext::File,
    ).unwrap();
    assert(s1.buffer.take(pos as int) + tv.data + s1.buffer.skip(pos as int) =~= s.buffer);
}

/// Deleting the bytes before a cursor's entry and inserting them back at the
/// start restores the buffer of a block with room to spare.
pub proof fn law_reinsert_undoes_delete_to_begin(s: BlockState, slot: u8, dec: bool)
    requires
        s.buffer.len() < DATA_SIZE,
        entry_offset(slot) > 0,
    ensures
        ({
            let (s1, tv) = remove_outcome(
                s,
                TransitOption::DeletePosBytesToBegin,
                slot,
                0,
                dec,
                TransportContext::File,
            ).unwrap();
            insert_outcome(
                s1,
                TransitOption::InsertBegin,
                slot,
                tv.data,
                false,
                TransportContext::File,
            ) matches Some((s2, _)) && s2.buffer == s.buffer
        }),
{
    let (s1, tv) = remove_outcome(
        s,
        TransitOption::DeletePosBytesToBegin,
        slot,
        0,
        dec,
        TransportContext::File,
    ).unwrap();
    assert(tv.data + s1.buffer =~= s.buffer);
}

/// Removing a directory entry leaves it free.
pub proof fn law_removed_entry_is_free(s: BlockState, slot: u8, dec: bool)
    requires
        entry_offset(slot) + ENTRY_SIZE <= s.buffer.len(),
    ensures
        ({
            let (s1, tv) = remove_outcome(
                s,
                TransitOption::Finalize,
                slot,
                0,
                dec,
                TransportContext::Directory,
            ).unwrap();
            &&& tv.state == TransitStates::Success
            &&& s1.buffer.len() == s.buffer.len()
            &&& s1.buffer[entry_offset(slot) as int] == 0
        }),
{
}

/// Inserting at a cursor's entry in a file that may grow never refuses for
/// lack of room: the data goes in at the entry (or at the end of the buffer
/// when the entry lies past it), the block keeps the first `DATA_SIZE` bytes of
/// the result and hands the rest on, asking the next block to take them.
pub proof fn law_insert_in_pos_with_growth(s: BlockState, slot: u8, d: Seq<u8>)
    ensures
        ({
            let off = slot as nat * 11;
            let p = if off <= s.buffer.len() {
                off
            } else {
                s.buffer.len()
            };
            let all = s.buffer.take(p as int) + d + s.buffer.skip(p as int);
            insert_outcome(
                s,
                TransitOption::InsertInPos,
                slot,
                d,
                true,
                TransportContext::File,
            ) matches Some((t, v)) && {
                &&& t.buffer + v.data == all
                &&& t.buffer.len() == (if all.len() > 279 {
                    279
                } else {
                    all.len()
                })
                &&& v.state == (if all.len() > 279 {
                    TransitStates::MoveToEnd
                } else {
                    TransitStates::Success
                })
                &&& v.increment_size
            }
        }),
{
    let off = slot as nat * 11;
    let p = min_nat(off, s.buffer.len());
    let all = s.buffer.take(p as int) + d + s.buffer.skip(p as int);
    if all.len() > 279 {
        assert(all.take(279) + all.skip(279) =~= all);
    }
}

/// Inserting at a cursor's entry in a file that may not grow refuses exactly
/// when the bytes would not fit, leaving the buffer alone; otherwise the data
/// goes in at the entry and nothing is handed on.
pub proof fn law_insert_in_pos_without_growth(s: BlockState, slot: u8, d: Seq<u8>)
    ensures
        ({
            let off = slot as nat * 11;
            let p = if off <= s.buffer.len() {
                off
            } else {
                s.buffer.len()
            };
            insert_outcome(
                s,
                TransitOption::InsertInPos,
                slot,
                d,
                false,
                TransportContext::File,
            ) matches Some((t, v)) && if s.buffer.len() + d.len() > 279 {
                &&& v.state == TransitStates::Error1
                &&& t.buffer == s.buffer
                &&& v.data == d
            } else {
                &&& v.state == TransitStates::Success
                &&& t.buffer == s.buffer.take(p as int) + d + s.buffer.skip(p as int)
                &&& v.data.len() == 0
            }
        }),
{
}

/// Deleting at a cursor's entry with `DeletePosDefault` takes out exactly the
/// eight bytes at the entry and hands them back: putting them back at the
/// entry gives the old buffer. It refuses, leaving the block alone, at the
/// first entry and where fewer than eight bytes follow the entry.
pub proof fn law_delete_default_cuts_at_entry(s: BlockState, slot: u8, ind: usize, dec: bool)
    ensures
        ({
            let pos = slot as nat * 11;
            remove_outcome(
                s,
                TransitOption::DeletePosDefault,
                slot,
                ind,
                dec,
                TransportContext::File,
            ) matches Some((t, v)) && if pos == 0 || pos + 8 > s.buffer.len() {
                &&& v.state == TransitStates::Error2
                &&& t == s
            } else {
                &&& v.state == TransitStates::MoveToBegin
                &&& v.data == s.buffer.subrange(pos as int, (pos + 8) as int)
                &&& t.buffer.len() + 8 == s.buffer.len()
                &&& t.buffer.take(pos as int) + v.data + t.buffer.skip(pos as int) == s.buffer
            }
        }),
{
    let pos = slot as nat * 11;
    if !(pos == 0 || pos + 8 > s.buffer.len()) {
        let (t, v) = remove_outcome(
            s,
            TransitOption::DeletePosDefault,
            slot,
            ind,
            dec,
            TransportContext::File,
        ).unwrap();
        assert(t.buffer.take(pos as int) + v.data + t.buffer.skip(pos as int) =~= s.buffer);
    }
}

/// Deleting with `DeletePosDefault` and inserting the handed-back bytes at the
/// same entry restores the buffer of a block that fits its size.
pub proof fn law_reinsert_undoes_default_delete(s: BlockState, slot: u8, ind: usize, dec: bool)
    requires
        s.buffer.len() <= DATA_SIZE,
        slot > 0,
        slot as nat * 11 + 8 <= s.buffer.len(),
    ensures
        ({
            let (s1, tv) = remove_outcome(
                s,
                TransitOption::DeletePosDefault,
                slot,
                ind,
                dec,
                TransportContext::File,
            ).unwrap();
            insert_outcome(
                s1,
                TransitOption::InsertInPos,
                slot,
                tv.data,
                false,
                TransportContext::File,
            ) matches Some((s2, _)) && s2.buffer == s.buffer
        }),
{
    law_delete_default_cuts_at_entry(s, slot, ind, dec);
}

/// `read_to` hands out the bytes from the entry on: `size` of them, or all
/// that follow the entry when fewer are there.
pub proof fn law_read_window_counts_from_entry(buffer: Seq<u8>, slot: u8, size: usize)
    requires
        buffer.len() <= usize::MAX,
        slot as nat * 11 <= buffer.len(),
    ensures
        ({
            let off = slot as nat * 11;
            let k = if size <= buffer.len() - off {
                size as nat
            } else {
                (buffer.len() - off) as nat
            };
            &&& read_window(buffer, slot, size).len() == k
            &&& read_window(buffer, slot, size) == buffer.subrange(off as int, (off + k) as int)
        }),
{
}

/// The key of a block is the XOR of three parts, one spread from the level,
/// one from the disk and one from the block number, each with its own
/// multiplier.
pub proof fn law_block_key_parts(s: BlockState)
    ensures
        block_key(s) == mix64_spec((s.layer as u64).wrapping_mul(LAYER_MUL)) ^ mix64_spec(
            (s.disk_id as u64).wrapping_mul(DISK_MUL),
        ) ^ mix64_spec(s.pos.wrapping_mul(BLOCK_MUL)),
{
}

/// Two blocks at the same level and number on different disks have keys that
/// differ by the disk parts alone; the block number plays no part in it.
pub proof fn law_block_key_follows_disk(s1: BlockState, s2: BlockState)
    requires
        s1.layer == s2.layer,
        s1.pos == s2.pos,
    ensures
        block_key(s1) ^ block_key(s2) == mix64_spec((s1.disk_id as u64).wrapping_mul(DISK_MUL))
            ^ mix64_spec((s2.disk_id as u64).wrapping_mul(DISK_MUL)),
{
    let a = mix64_spec((s1.layer as u64).wrapping_mul(LAYER_MUL));
    let b1 = mix64_spec((s1.disk_id as u64).wrapping_mul(DISK_MUL));
    let b2 = mix64_spec((s2.disk_id as u64).wrapping_mul(DISK_MUL));
    let c = mix64_spec(s1.pos.wrapping_mul(BLOCK_MUL));
    assert(((a ^ b1) ^ c) ^ ((a ^ b2) ^ c) == b1 ^ b2) by (bit_vector);
}

/// Two blocks at the same level and disk with different numbers have keys that
/// differ by the block-number parts alone; the disk plays no part in it.
pub proof fn law_block_key_follows_number(s1: BlockState, s2: BlockState)
    requires
        s1.layer == s2.layer,
        s1.disk_id == s2.disk_id,
    ensures
        block_key(s1) ^ block_key(s2) == mix64_spec(s1.pos.wrapping_mul(BLOCK_MUL)) ^ mix64_spec(
            s2.pos.wrapping_mul(BLOCK_MUL),
        ),
{
    let a = mix64_spec((s1.layer as u64).wrapping_mul(LAYER_MUL));
    let b = mix64_spec((s1.disk_id as u64).wrapping_mul(DISK_MUL));
    let c1 = mix64_spec(s1.pos.wrapping_mul(BLOCK_MUL));
    let c2 = mix64_spec(s2.pos.wrapping_mul(BLOCK_MUL));
    assert(((a ^ b) ^ c1) ^ ((a ^ b) ^ c2) == c1 ^ c2) by (bit_vector);
}

/// A run of advances that all answered 2, as `read_to` makes one per whole
/// entry read, moves a cursor whose slots lie within their nodes forward by
/// exactly that many positions.
pub proof fn law_advance_run_counts(s: Seq<u8>, k: nat)
    requires
        slots_in_range(s),
        advance_run(s, k).1,
    ensures
        slots_in_range(advance_run(s, k).0),
        position_value(advance_run(s, k).0) == position_value(s) + k,
    decreases k,
{
    if k > 0 {
        let t = advance_run(s, (k - 1) as nat).0;
        law_advance_run_counts(s, (k - 1) as nat);
        crate::algoritm::cursors::law_advance_counts_up(t);
    }
}

/// Inserting at the start or at the end of a file that may grow never refuses:
/// the block keeps the first `DATA_SIZE` bytes of the data put before (or
/// after) its buffer and hands the rest on, asking the next block to take them.
pub proof fn law_insert_at_ends_with_growth(s: BlockState, slot: u8, d: Seq<u8>)
    ensures
        insert_outcome(
            s,
            TransitOption::InsertBegin,
            slot,
            d,
            true,
            TransportContext::File,
        ) matches Some((t, v)) && {
            &&& t.buffer + v.data == d + s.buffer
            &&& t.buffer.len() == (if d.len() + s.buffer.len() > 279 {
                279
            } else {
                d.len() + s.buffer.len()
            })
            &&& d.len() + s.buffer.len() > 279 ==> v.state == TransitStates::MoveToEnd
        },
        s.buffer.len() <= 279 ==> (insert_outcome(
            s,
            TransitOption::InsertEnd,
            slot,
            d,
            true,
            TransportContext::File,
        ) matches Some((t, v)) && {
            &&& t.buffer + v.data == s.buffer + d
            &&& t.buffer.len() == (if d.len() + s.buffer.len() > 279 {
                279
            } else {
                d.len() + s.buffer.len()
            })
            &&& d.len() + s.buffer.len() > 279 ==> v.state == TransitStates::MoveToEnd
        }),
{
    let a = d + s.buffer;
    if a.len() > 279 {
        assert(a.take(279) + a.skip(279) =~= a);
    }
    let b = s.buffer + d;
    if b.len() > 279 {
        assert(b.take(279) + b.skip(279) =~= b);
    }
}

/// Deleting the bytes before a cursor's entry hands back exactly the bytes
/// before it and keeps the rest; deleting from the entry to the end keeps
/// exactly the bytes before it and hands back the rest. Both refuse at the
/// first entry, leaving the block alone.
pub proof fn law_delete_splits_at_entry(s: BlockState, slot: u8, ind: usize, dec: bool)
    ensures
        ({
            let off = slot as nat * 11;
            let e = if off <= s.buffer.len() {
                off
            } else {
                s.buffer.len()
            };
            &&& remove_outcome(
                s,
                TransitOption::DeletePosBytesToBegin,
                slot,
                ind,
                dec,
                TransportContext::File,
            ) matches Some((t, v)) && if off == 0 {
                t == s && v.state == TransitStates::Error2
            } else {
                &&& v.state == TransitStates::MoveToBegin
                &&& v.data + t.buffer == s.buffer
                &&& v.data.len() == e
            }
            &&& remove_outcome(
                s,
                TransitOption::DeletePosBytesToEnd,
                slot,
                ind,
                dec,
                TransportContext::File,
            ) matches Some((t, v)) && if off == 0 {
                t == s && v.state == TransitStates::Error2
            } else {
                &&& v.state == TransitStates::MoveToBegin
                &&& t.buffer + v.data == s.buffer
                &&& t.buffer.len() == e
            }
        }),
{
    let e = min_nat(slot as nat * 11, s.buffer.len());
    assert(s.buffer.take(e as int) + s.buffer.skip(e as int) =~= s.buffer);
}

} // verus!
