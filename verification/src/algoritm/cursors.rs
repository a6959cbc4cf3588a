//! Navigation cursors over the block tree.
//!
//! A cursor is a string of sixteen slots, each naming one of the
//! `LAST_SLOT + 1` children of a node. Read in serialization order it is a
//! big-endian numeral in base `LAST_SLOT + 1`: advancing adds one to it and
//! delaying subtracts one. On disk a cursor takes 47 bytes: the sixteen slots,
//! one byte each in serialization order, then 31 reserved bytes written as
//! zero and skipped on reading.
use crate::helpers::convertions::{be_bytes, be_to_size, be_value, pow256, size_to_be};
use vstd::prelude::*;

verus! {

/// Highest slot number of a node.
pub const LAST_SLOT: u8 = 30;

/// Bytes that one slot takes on disk.
pub const SLOT_BYTES: usize = 1;

/// Number of slots in a full cursor.
pub const CURSOR_SLOTS: usize = 16;

/// Reserved bytes that follow the slots on disk.
pub const RESERVED_BYTES: usize = 31;

/// Bytes that a full cursor takes on disk.
pub const CURSOR_BYTES: usize = 47;

/// Every slot of `s` equals `v`.
pub open spec fn all_slots(s: Seq<u8>, v: u8) -> bool {
    forall|i: int| 0 <= i < s.len() ==> s[i] == v
}

/// `n` slots, each equal to `v`.
pub open spec fn repeat_slot(v: u8, n: nat) -> Seq<u8> {
    Seq::new(n, |_i: int| v)
}

/// Slots that all lie within a node.
pub open spec fn slots_in_range(s: Seq<u8>) -> bool {
    forall|i: int| 0 <= i < s.len() ==> s[i] <= LAST_SLOT
}

/// The next position: the trailing slots that stand at `LAST_SLOT` go back to
/// zero and the slot before them goes up by one.
pub open spec fn next_position(s: Seq<u8>) -> Seq<u8>
    decreases s.len(),
{
    if s.len() == 0 {
        s
    } else if s.last() == LAST_SLOT {
        next_position(s.drop_last()).push(0)
    } else {
        s.drop_last().push((s.last() + 1) as u8)
    }
}

/// The slot that `next_position` raises is below 255, so that it fits a byte.
pub open spec fn next_fits(s: Seq<u8>) -> bool
    decreases s.len(),
{
    if s.len() == 0 {
        true
    } else if s.last() == LAST_SLOT {
        next_fits(s.drop_last())
    } else {
        s.last() < 255
    }
}

/// The previous position: the trailing zero slots go to `LAST_SLOT` and the
/// slot before them goes down by one.
pub open spec fn prev_position(s: Seq<u8>) -> Seq<u8>
    decreases s.len(),
{
    if s.len() == 0 {
        s
    } else if s.last() == 0 {
        prev_position(s.drop_last()).push(LAST_SLOT)
    } else {
        s.drop_last().push((s.last() - 1) as u8)
    }
}

/// The number that a string of slots denotes in base `LAST_SLOT + 1`.
pub open spec fn position_value(s: Seq<u8>) -> nat
    decreases s.len(),
{
    if s.len() == 0 {
        0
    } else {
        position_value(s.drop_last()) * 31 + s.last() as nat
    }
}

/// The on-disk form of a cursor whose slots are `s`: the slots, then the
/// reserved bytes as zeros.
pub open spec fn cursor_bytes(s: Seq<u8>) -> Seq<u8> {
    s + repeat_slot(0, RESERVED_BYTES as nat)
}

/// What a cursor of a nested level does on `advance`: when asked to stop at the
/// end and standing at the last position it stays and answers 3; otherwise it
/// moves to the next position and answers 1 if it wrapped around, else 2.
pub open spec fn advanced(old: Seq<u8>, new: Seq<u8>, at_end: bool, r: u8) -> bool {
    if at_end && all_slots(old, LAST_SLOT) {
        new == old && r == 3
    } else {
        new == next_position(old) && r == (if all_slots(old, LAST_SLOT) {
            1u8
        } else {
            2u8
        })
    }
}

/// What a cursor of a nested level does on `delay`: when asked to stop at the
/// start, every slot but the last stands at `LAST_SLOT` and the last at zero, it
/// stays and answers 3; otherwise it moves to the previous position and answers
/// 1 if it wrapped around, else 2.
pub open spec fn delayed(old: Seq<u8>, new: Seq<u8>, at_first: bool, r: u8) -> bool {
    if at_first && all_slots(old.drop_last(), LAST_SLOT) && old.last() == 0 {
        new == old && r == 3
    } else {
        new == prev_position(old) && r == (if all_slots(old, 0) {
            1u8
        } else {
            2u8
        })
    }
}

/// What `charge` of a nested level of `n` slots does to its source: it takes
/// one byte per slot off the front; when fewer are there it takes them all and
/// answers `None`.
pub open spec fn charged(old: Seq<u8>, new: Seq<u8>, r: Option<Seq<u8>>, n: nat) -> bool {
    if old.len() >= n {
        r == Some(old.take(n as int)) && new == old.skip(n as int)
    } else {
        r is None && new == Seq::<u8>::empty()
    }
}

/// What `Cursor::charge` does to its source: from at least `CURSOR_BYTES`
/// bytes it reads the slots from the first `CURSOR_SLOTS` and removes the whole
/// on-disk form; from fewer it answers `None` and leaves the source alone.
pub open spec fn cursor_charged(old: Seq<u8>, new: Seq<u8>, r: Option<Seq<u8>>) -> bool {
    if old.len() >= CURSOR_BYTES {
        r == Some(old.take(CURSOR_SLOTS as int)) && new == old.skip(CURSOR_BYTES as int)
    } else {
        r is None && new == old
    }
}

/// The slot that `Cursor::get_pos` answers for level `cn` of a cursor whose
/// slots are `s`.
pub open spec fn level_slot(s: Seq<u8>, cn: u8) -> Option<u8> {
    if 1 <= cn <= 6 {
        Some(s[Cursor::level_index(cn)])
    } else {
        None
    }
}

/// Whether `Cursor::set_pos(cn, v)` takes: a slot within a node, at a level
/// from 1 to 6.
pub open spec fn level_settable(cn: u8, v: u8) -> bool {
    v <= LAST_SLOT && 1 <= cn <= 6
}

/// The slots of a cursor after `Cursor::set_pos(cn, v)` on slots `s`.
pub open spec fn with_level(s: Seq<u8>, cn: u8, v: u8) -> Seq<u8> {
    if level_settable(cn, v) {
        s.update(Cursor::level_index(cn), v)
    } else {
        s
    }
}

pub proof fn lemma_all_slots_concat(a: Seq<u8>, b: Seq<u8>, v: u8)
    ensures
        all_slots(a + b, v) == (all_slots(a, v) && all_slots(b, v)),
{
    if all_slots(a, v) && all_slots(b, v) {
        assert forall|i: int| 0 <= i < (a + b).len() implies (a + b)[i] == v by {
            if i >= a.len() {
                assert((a + b)[i] == b[i - a.len()]);
            }
        }
    }
    if all_slots(a + b, v) {
        assert forall|i: int| 0 <= i < b.len() implies b[i] == v by {
            assert((a + b)[i + a.len()] == b[i]);
        }
        assert forall|i: int| 0 <= i < a.len() implies a[i] == v by {
            assert((a + b)[i] == a[i]);
        }
    }
}

proof fn lemma_concat_drop_last(a: Seq<u8>, b: Seq<u8>)
    requires
        b.len() > 0,
    ensures
        (a + b).drop_last() == a + b.drop_last(),
        (a + b).last() == b.last(),
{
    assert((a + b).drop_last() =~= a + b.drop_last());
}

pub proof fn lemma_single_slot(p: u8)
    ensures
        next_position(seq![p]) == seq![
            if p == LAST_SLOT {
                0u8
            } else {
                (p + 1) as u8
            },
        ],
        next_fits(seq![p]) == (p == LAST_SLOT || p < 255),
        prev_position(seq![p]) == seq![
            if p == 0 {
                LAST_SLOT
            } else {
                (p - 1) as u8
            },
        ],
        all_slots(seq![p], LAST_SLOT) == (p == LAST_SLOT),
        all_slots(seq![p], 0) == (p == 0),
        seq![p].drop_last() == Seq::<u8>::empty(),
        seq![p].last() == p,
{
    let s = seq![p];
    assert(s.drop_last() =~= Seq::<u8>::empty());
    assert(next_fits(Seq::<u8>::empty()));
    assert(next_position(Seq::<u8>::empty()) == Seq::<u8>::empty());
    assert(prev_position(Seq::<u8>::empty()) == Seq::<u8>::empty());
    assert(Seq::<u8>::empty().push(0u8) =~= seq![0u8]);
    assert(Seq::<u8>::empty().push(LAST_SLOT) =~= seq![LAST_SLOT]);
    assert(Seq::<u8>::empty().push((p + 1) as u8) =~= seq![(p + 1) as u8]);
    assert(Seq::<u8>::empty().push((p - 1) as u8) =~= seq![(p - 1) as u8]);
    assert(all_slots(s, LAST_SLOT) ==> s[0] == LAST_SLOT);
    assert(all_slots(s, 0) ==> s[0] == 0);
}

/// A string of slots that all stand at `LAST_SLOT` wraps to zeros without overflow.
pub proof fn lemma_next_of_last(s: Seq<u8>)
    requires
        all_slots(s, LAST_SLOT),
    ensures
        next_fits(s),
        next_position(s) == repeat_slot(0, s.len()),
    decreases s.len(),
{
    if s.len() > 0 {
        lemma_next_of_last(s.drop_last());
        assert(repeat_slot(0, (s.len() - 1) as nat).push(0) =~= repeat_slot(0, s.len()));
    } else {
        assert(s =~= repeat_slot(0, 0));
    }
}

/// A string of zero slots wraps to `LAST_SLOT` everywhere.
pub proof fn lemma_prev_of_first(s: Seq<u8>)
    requires
        all_slots(s, 0),
    ensures
        prev_position(s) == repeat_slot(LAST_SLOT, s.len()),
    decreases s.len(),
{
    if s.len() > 0 {
        lemma_prev_of_first(s.drop_last());
        assert(repeat_slot(LAST_SLOT, (s.len() - 1) as nat).push(LAST_SLOT) =~= repeat_slot(
            LAST_SLOT,
            s.len(),
        ));
    } else {
        assert(s =~= repeat_slot(LAST_SLOT, 0));
    }
}

/// Advancing a concatenation carries from the right part into the left part
/// exactly when the right part stands at its last position.
pub proof fn lemma_next_concat(a: Seq<u8>, b: Seq<u8>)
    ensures
        next_position(a + b) == (if all_slots(b, LAST_SLOT) {
            next_position(a) + next_position(b)
        } else {
            a + next_position(b)
        }),
        next_fits(a + b) == (if all_slots(b, LAST_SLOT) {
            next_fits(a)
        } else {
            next_fits(b)
        }),
        next_position(a + b).len() == a.len() + b.len(),
    decreases b.len(),
{
    if b.len() == 0 {
        assert(a + b =~= a);
        assert(next_position(b) =~= b);
        assert(a + next_position(b) =~= a);
        lemma_next_len(a);
    } else {
        lemma_concat_drop_last(a, b);
        let bd = b.drop_last();
        lemma_next_concat(a, bd);
        assert(b =~= bd.push(b.last()));
        lemma_all_slots_concat(bd, seq![b.last()], LAST_SLOT);
        assert(bd + seq![b.last()] =~= b);
        if b.last() == LAST_SLOT {
            lemma_single_slot(b.last());
            if all_slots(bd, LAST_SLOT) {
                lemma_next_of_last(bd);
                lemma_next_of_last(b);
                assert(next_position(a) + next_position(bd) + seq![0u8] =~= next_position(a)
                    + next_position(b));
                assert((next_position(a) + next_position(bd)).push(0) =~= next_position(a)
                    + next_position(bd) + seq![0u8]);
            } else {
                assert((a + next_position(bd)).push(0) =~= a + next_position(bd).push(0));
            }
        } else {
            assert(!all_slots(b, LAST_SLOT));
            assert((a + bd).push((b.last() + 1) as u8) =~= a + bd.push((b.last() + 1) as u8));
        }
        lemma_next_len(a + b);
    }
}

pub proof fn lemma_next_len(s: Seq<u8>)
    ensures
        next_position(s).len() == s.len(),
    decreases s.len(),
{
    if s.len() > 0 {
        lemma_next_len(s.drop_last());
    }
}

pub proof fn lemma_prev_len(s: Seq<u8>)
    ensures
        prev_position(s).len() == s.len(),
    decreases s.len(),
{
    if s.len() > 0 {
        lemma_prev_len(s.drop_last());
    }
}

/// Delaying a concatenation borrows from the left part exactly when the right
/// part stands at its first position.
pub proof fn lemma_prev_concat(a: Seq<u8>, b: Seq<u8>)
    ensures
        prev_position(a + b) == (if all_slots(b, 0) {
            prev_position(a) + prev_position(b)
        } else {
            a + prev_position(b)
        }),
    decreases b.len(),
{
    if b.len() == 0 {
        assert(a + b =~= a);
        assert(prev_position(b) =~= b);
        assert(a + prev_position(b) =~= a);
        assert(prev_position(a) + prev_position(b) =~= prev_position(a));
    } else {
        lemma_concat_drop_last(a, b);
        let bd = b.drop_last();
        lemma_prev_concat(a, bd);
        lemma_all_slots_concat(bd, seq![b.last()], 0);
        assert(bd + seq![b.last()] =~= b);
        if b.last() == 0 {
            lemma_single_slot(b.last());
            if all_slots(bd, 0) {
                lemma_prev_of_first(bd);
                lemma_prev_of_first(b);
                assert((prev_position(a) + prev_position(bd)).push(LAST_SLOT) =~= prev_position(a)
                    + prev_position(b));
            } else {
                assert((a + prev_position(bd)).push(LAST_SLOT) =~= a + prev_position(bd).push(
                    LAST_SLOT,
                ));
            }
        } else {
            assert(!all_slots(b, 0));
            assert((a + bd).push((b.last() - 1) as u8) =~= a + bd.push((b.last() - 1) as u8));
        }
    }
}

/// The one-byte big-endian form of a slot is the slot itself.
proof fn lemma_slot_be_bytes(p: u8)
    ensures
        be_bytes(p as nat, 1) == seq![p],
{
    assert(pow256(0) == 1);
    let v = p as nat;
    assert(v / 1 == v && v % 256 == v);
    let b = be_bytes(v, 1);
    assert(b[0] == p);
    assert(b =~= seq![p]);
}

/// The last byte of a big-endian number is its lowest digit, also after a
/// reduction modulo a multiple of 256.
proof fn lemma_be_low_byte(s: Seq<u8>, k: nat)
    requires
        s.len() > 0,
        k > 0,
    ensures
        (be_value(s) % (k * 256)) % 256 == s.last(),
{
    vstd::arithmetic::div_mod::lemma_mod_mod(be_value(s) as int, 256, k as int);
    assert(256 * k == k * 256) by (nonlinear_arith);
    vstd::arithmetic::div_mod::lemma_mod_multiples_vanish(
        be_value(s.drop_last()) as int,
        s.last() as int,
        256,
    );
    vstd::arithmetic::div_mod::lemma_small_mod(s.last() as nat, 256);
    assert(be_value(s) == 256 * be_value(s.drop_last()) + s.last()) by (nonlinear_arith)
        requires
            be_value(s) == be_value(s.drop_last()) * 256 + s.last() as nat,
    ;
}

/// One step of a composite `charge`: a first part of `n1` slots read from
/// `old`, then a second part of `n2` slots read from what is left.
proof fn lemma_charged_concat(
    old: Seq<u8>,
    mid: Seq<u8>,
    new: Seq<u8>,
    a: Seq<u8>,
    r2: Option<Seq<u8>>,
    n1: nat,
    n2: nat,
)
    requires
        old.len() >= n1,
        a == old.take(n1 as int),
        mid == old.skip(n1 as int),
        charged(mid, new, r2, n2),
    ensures
        charged(
            old,
            new,
            match r2 {
                Some(b) => Some(a + b),
                None => None,
            },
            n1 + n2,
        ),
{
    if old.len() >= n1 + n2 {
        let b = r2->0;
        assert(a + b =~= old.take((n1 + n2) as int));
        assert(new =~= old.skip((n1 + n2) as int));
    }
}

#[derive(Debug, Clone)]
struct CursorCore {
    pos: u8,
}

impl View for CursorCore {
    type V = Seq<u8>;

    closed spec fn view(&self) -> Seq<u8> {
        seq![self.pos]
    }
}

impl CursorCore {
    fn new() -> (c: Self)
        ensures
            c.pos == 0,
    {
        Self { pos: 0 }
    }

    /// Takes one slot off the front of `v`.
    fn charge(v: &mut Vec<u8>) -> (r: Option<Self>)
        ensures
            charged(
                old(v)@,
                final(v)@,
                match r {
                    Some(c) => Some(c@),
                    None => None,
                },
                1,
            ),
    {
        if v.len() < SLOT_BYTES {
            proof {
                assert(v@ =~= Seq::<u8>::empty());
            }
            return None;
        }
        let mut chunk = v.split_off(SLOT_BYTES);
        std::mem::swap(v, &mut chunk);
        let n = be_to_size(chunk.as_slice(), SLOT_BYTES);
        let pos = n as u8;
        proof {
            assert(pos == n % 256) by (bit_vector)
                requires
                    pos == n as u8,
            ;
            let k = usize::MAX as nat / 256 + 1;
            assert(k * 256 == usize::MAX as nat + 1) by {
                assert(usize::MAX == 0xffff_ffff || usize::MAX == 0xffff_ffff_ffff_ffff);
            }
            assert(chunk@.take(1) =~= chunk@);
            lemma_be_low_byte(chunk@, k);
            assert(old(v)@.take(1) =~= seq![pos]);
        }
        Some(Self { pos })
    }

    fn serialize(&self) -> (out: Vec<u8>)
        ensures
            out@ == self@,
    {
        let mut out: Vec<u8> = Vec::with_capacity(SLOT_BYTES);
        let pos = size_to_be(self.pos as usize, SLOT_BYTES);
        out.extend_from_slice(pos.as_slice());
        proof {
            lemma_slot_be_bytes(self.pos);
            assert(out@ =~= self@);
        }
        out
    }

    fn serialize_into(&self, dst: &mut Vec<u8>)
        ensures
            final(dst)@ == old(dst)@ + self@,
    {
        let mut bytes = self.serialize();
        dst.append(&mut bytes);
    }

    /// Moves to the next slot; at the last slot it wraps to zero (answer 1)
    /// unless `is_end` asks it to stay (answer 3).
    fn advance(&mut self, is_end: bool) -> (r: u8)
        requires
            next_fits(old(self)@),
        ensures
            advanced(old(self)@, final(self)@, is_end, r),
    {
        proof {
            lemma_single_slot(self.pos);
        }
        if self.pos == LAST_SLOT {
            if is_end {
                return 3;
            }
            self.pos = 0;
            1
        } else {
            self.pos += 1;
            2
        }
    }

    /// Moves to the previous slot; at slot zero it wraps to the last slot
    /// (answer 1) unless `is_firts` asks it to stay (answer 3).
    fn delay(&mut self, is_firts: bool) -> (r: u8)
        ensures
            delayed(old(self)@, final(self)@, is_firts, r),
    {
        proof {
            lemma_single_slot(self.pos);
        }
        if self.pos == 0 {
            if is_firts {
                return 3;
            }
            self.pos = LAST_SLOT;
            1
        } else {
            self.pos -= 1;
            2
        }
    }

    /// Whether the slot stands at the last (`in_end`) or the first position.
    fn in_limit(&self, in_end: bool) -> (b: bool)
        ensures
            b == all_slots(self@, if in_end {
                LAST_SLOT
            } else {
                0
            }),
    {
        proof {
            lemma_single_slot(self.pos);
        }
        if in_end {
            if self.pos == LAST_SLOT {
                true
            } else {
                false
            }
        } else {
            if self.pos == 0 {
                true
            } else {
                false
            }
        }
    }
}

#[derive(Debug, Clone)]
struct Cursor1 {
    core: CursorCore,
}

impl View for Cursor1 {
    type V = Seq<u8>;

    closed spec fn view(&self) -> Seq<u8> {
        self.core@
    }
}

impl Cursor1 {
    fn new() -> (c: Self)
        ensures
            c@ == repeat_slot(0, 1),
    {
        let c = Self { core: CursorCore::new() };
        assert(c@ =~= repeat_slot(0, 1));
        c
    }

    fn charge(v: &mut Vec<u8>) -> (r: Option<Self>)
        ensures
            charged(
                old(v)@,
                final(v)@,
                match r {
                    Some(c) => Some(c@),
                    None => None,
                },
                1,
            ),
    {
        let core = CursorCore::charge(v)?;
        Some(Self { core: core })
    }

    fn serialize_into(&self, dst: &mut Vec<u8>)
        ensures
            final(dst)@ == old(dst)@ + self@,
    {
        self.core.serialize_into(dst);
    }

    fn advance(&mut self, is_end: bool) -> (r: u8)
        requires
            next_fits(old(self)@),
        ensures
            advanced(old(self)@, final(self)@, is_end, r),
    {
        self.core.advance(is_end)
    }

    fn delay(&mut self, is_firts: bool) -> (r: u8)
        ensures
            delayed(old(self)@, final(self)@, is_firts, r),
    {
        self.core.delay(is_firts)
    }

    fn in_limit(&self, in_end: bool) -> (b: bool)
        ensures
            b == all_slots(self@, if in_end {
                LAST_SLOT
            } else {
                0
            }),
    {
        self.core.in_limit(in_end)
    }
}


#[derive(Debug, Clone)]
struct Cursor2 {
    core: CursorCore,
    cur1: Cursor1,
}

impl View for Cursor2 {
    type V = Seq<u8>;

    closed spec fn view(&self) -> Seq<u8> {
        self.core@ + self.cur1@
    }
}

impl Cursor2 {
    fn new() -> (c: Self)
        ensures
            c@ == repeat_slot(0, 2),
    {
        let c = Self { core: CursorCore::new(), cur1: Cursor1::new() };
        assert(c@ =~= repeat_slot(0, 2));
        c
    }

    fn charge(v: &mut Vec<u8>) -> (r: Option<Self>)
        ensures
            charged(
                old(v)@,
                final(v)@,
                match r {
                    Some(c) => Some(c@),
                    None => None,
                },
                2,
            ),
    {
        let ghost source = v@;
        let core = match CursorCore::charge(v) {
            Some(c) => c,
            None => return None,
        };
        let ghost rest = v@;
        let cur = match Cursor1::charge(v) {
            Some(c) => c,
            None => {
                proof {
                    lemma_charged_concat(source, rest, v@, core@, None, 1, 1);
                }
                return None;
            },
        };
        proof {
            lemma_charged_concat(source, rest, v@, core@, Some(cur@), 1, 1);
        }
        Some(Self { core: core, cur1: cur })
    }

    fn serialize_into(&self, dst: &mut Vec<u8>)
        ensures
            final(dst)@ == old(dst)@ + self@,
    {
        let ghost before = dst@;
        self.core.serialize_into(dst);
        self.cur1.serialize_into(dst);
        proof {
            assert(before + self.core@ + self.cur1@ =~= before + self@);
        }
    }

    /// Advances the lower levels first; when they wrap around, this level's
    /// own slot moves too.
    fn advance(&mut self, is_end_: bool) -> (r: u8)
        requires
            next_fits(old(self)@),
        ensures
            advanced(old(self)@, final(self)@, is_end_, r),
    {
        proof {
            lemma_next_concat(self.core@, self.cur1@);
            lemma_all_slots_concat(self.core@, self.cur1@, LAST_SLOT);
            lemma_single_slot(self.core.pos);
            if all_slots(self.cur1@, LAST_SLOT) {
                lemma_next_of_last(self.cur1@);
            }
        }
        let is_end = (self.core.pos == LAST_SLOT) && is_end_;
        let advance_r = self.cur1.advance(is_end);
        match advance_r {
            1 => self.core.advance(is_end),
            2 => 2,
            _ => 3,
        }
    }

    /// Delays the lower levels first; when they wrap around, this level's
    /// own slot moves too.
    fn delay(&mut self, is_firts_: bool) -> (r: u8)
        ensures
            delayed(old(self)@, final(self)@, is_firts_, r),
    {
        proof {
            lemma_prev_concat(self.core@, self.cur1@);
            lemma_all_slots_concat(self.core@, self.cur1@, 0);
            lemma_concat_drop_last(self.core@, self.cur1@);
            lemma_all_slots_concat(self.core@, self.cur1@.drop_last(), LAST_SLOT);
            lemma_single_slot(self.core.pos);
        }
        let is_firts = (self.core.pos == LAST_SLOT) && is_firts_;
        let delay_r = self.cur1.delay(is_firts);
        match delay_r {
            1 => self.core.delay(is_firts),
            2 => 2,
            _ => 3,
        }
    }

    fn in_limit(&self, in_end: bool) -> (b: bool)
        ensures
            b == all_slots(self@, if in_end {
                LAST_SLOT
            } else {
                0
            }),
    {
        proof {
            lemma_all_slots_concat(self.core@, self.cur1@, if in_end {
                LAST_SLOT
            } else {
                0
            });
        }
        let core_in = self.core.in_limit(in_end);
        let cur_in = self.cur1.in_limit(in_end);
        core_in && cur_in
    }
}

#[derive(Debug, Clone)]
struct Cursor3 {
    core: CursorCore,
    cur2: Cursor2,
}

impl View for Cursor3 {
    type V = Seq<u8>;

    closed spec fn view(&self) -> Seq<u8> {
        self.core@ + self.cur2@
    }
}

impl Cursor3 {
    fn new() -> (c: Self)
        ensures
            c@ == repeat_slot(0, 3),
    {
        let c = Self { core: CursorCore::new(), cur2: Cursor2::new() };
        assert(c@ =~= repeat_slot(0, 3));
        c
    }

    fn charge(v: &mut Vec<u8>) -> (r: Option<Self>)
        ensures
            charged(
                old(v)@,
                final(v)@,
                match r {
                    Some(c) => Some(c@),
                    None => None,
                },
                3,
            ),
    {
        let ghost source = v@;
        let core = match CursorCore::charge(v) {
            Some(c) => c,
            None => return None,
        };
        let ghost rest = v@;
        let cur = match Cursor2::charge(v) {
            Some(c) => c,
            None => {
                proof {
                    lemma_charged_concat(source, rest, v@, core@, None, 1, 2);
                }
                return None;
            },
        };
        proof {
            lemma_charged_concat(source, rest, v@, core@, Some(cur@), 1, 2);
        }
        Some(Self { core: core, cur2: cur })
    }

    fn serialize_into(&self, dst: &mut Vec<u8>)
        ensures
            final(dst)@ == old(dst)@ + self@,
    {
        let ghost before = dst@;
        self.core.serialize_into(dst);
        self.cur2.serialize_into(dst);
        proof {
            assert(before + self.core@ + self.cur2@ =~= before + self@);
        }
    }

    /// Advances the lower levels first; when they wrap around, this level's
    /// own slot moves too.
    fn advance(&mut self, is_end_: bool) -> (r: u8)
        requires
            next_fits(old(self)@),
        ensures
            advanced(old(self)@, final(self)@, is_end_, r),
    {
        proof {
            lemma_next_concat(self.core@, self.cur2@);
            lemma_all_slots_concat(self.core@, self.cur2@, LAST_SLOT);
            lemma_single_slot(self.core.pos);
            if all_slots(self.cur2@, LAST_SLOT) {
                lemma_next_of_last(self.cur2@);
            }
        }
        let is_end = (self.core.pos == LAST_SLOT) && is_end_;
        let advance_r = self.cur2.advance(is_end);
        match advance_r {
            1 => self.core.advance(is_end),
            2 => 2,
            _ => 3,
        }
    }

    /// Delays the lower levels first; when they wrap around, this level's
    /// own slot moves too.
    fn delay(&mut self, is_firts_: bool) -> (r: u8)
        ensures
            delayed(old(self)@, final(self)@, is_firts_, r),
    {
        proof {
            lemma_prev_concat(self.core@, self.cur2@);
            lemma_all_slots_concat(self.core@, self.cur2@, 0);
            lemma_concat_drop_last(self.core@, self.cur2@);
            lemma_all_slots_concat(self.core@, self.cur2@.drop_last(), LAST_SLOT);
            lemma_single_slot(self.core.pos);
        }
        let is_firts = (self.core.pos == LAST_SLOT) && is_firts_;
        let delay_r = self.cur2.delay(is_firts);
        match delay_r {
            1 => self.core.delay(is_firts),
            2 => 2,
            _ => 3,
        }
    }

    fn in_limit(&self, in_end: bool) -> (b: bool)
        ensures
            b == all_slots(self@, if in_end {
                LAST_SLOT
            } else {
                0
            }),
    {
        proof {
            lemma_all_slots_concat(self.core@, self.cur2@, if in_end {
                LAST_SLOT
            } else {
                0
            });
        }
        let core_in = self.core.in_limit(in_end);
        let cur_in = self.cur2.in_limit(in_end);
        core_in && cur_in
    }
}

#[derive(Debug, Clone)]
struct Cursor4 {
    core: CursorCore,
    cur3: Cursor3,
}

impl View for Cursor4 {
    type V = Seq<u8>;

    closed spec fn view(&self) -> Seq<u8> {
        self.core@ + self.cur3@
    }
}

impl Cursor4 {
    fn new() -> (c: Self)
        ensures
            c@ == repeat_slot(0, 4),
    {
        let c = Self { core: CursorCore::new(), cur3: Cursor3::new() };
        assert(c@ =~= repeat_slot(0, 4));
        c
    }

    fn charge(v: &mut Vec<u8>) -> (r: Option<Self>)
        ensures
            charged(
                old(v)@,
                final(v)@,
                match r {
                    Some(c) => Some(c@),
                    None => None,
                },
                4,
            ),
    {
        let ghost source = v@;
        let core = match CursorCore::charge(v) {
            Some(c) => c,
            None => return None,
        };
        let ghost rest = v@;
        let cur = match Cursor3::charge(v) {
            Some(c) => c,
            None => {
                proof {
                    lemma_charged_concat(source, rest, v@, core@, None, 1, 3);
                }
                return None;
            },
        };
        proof {
            lemma_charged_concat(source, rest, v@, core@, Some(cur@), 1, 3);
        }
        Some(Self { core: core, cur3: cur })
    }

    fn serialize_into(&self, dst: &mut Vec<u8>)
        ensures
            final(dst)@ == old(dst)@ + self@,
    {
        let ghost before = dst@;
        self.core.serialize_into(dst);
        self.cur3.serialize_into(dst);
        proof {
            assert(before + self.core@ + self.cur3@ =~= before + self@);
        }
    }

    /// Advances the lower levels first; when they wrap around, this level's
    /// own slot moves too.
    fn advance(&mut self, is_end_: bool) -> (r: u8)
        requires
            next_fits(old(self)@),
        ensures
            advanced(old(self)@, final(self)@, is_end_, r),
    {
        proof {
            lemma_next_concat(self.core@, self.cur3@);
            lemma_all_slots_concat(self.core@, self.cur3@, LAST_SLOT);
            lemma_single_slot(self.core.pos);
            if all_slots(self.cur3@, LAST_SLOT) {
                lemma_next_of_last(self.cur3@);
            }
        }
        let is_end = (self.core.pos == LAST_SLOT) && is_end_;
        let advance_r = self.cur3.advance(is_end);
        match advance_r {
            1 => self.core.advance(is_end),
            2 => 2,
            _ => 3,
        }
    }

    /// Delays the lower levels first; when they wrap around, this level's
    /// own slot moves too.
    fn delay(&mut self, is_firts_: bool) -> (r: u8)
        ensures
            delayed(old(self)@, final(self)@, is_firts_, r),
    {
        proof {
            lemma_prev_concat(self.core@, self.cur3@);
            lemma_all_slots_concat(self.core@, self.cur3@, 0);
            lemma_concat_drop_last(self.core@, self.cur3@);
            lemma_all_slots_concat(self.core@, self.cur3@.drop_last(), LAST_SLOT);
            lemma_single_slot(self.core.pos);
        }
        let is_firts = (self.core.pos == LAST_SLOT) && is_firts_;
        let delay_r = self.cur3.delay(is_firts);
        match delay_r {
            1 => self.core.delay(is_firts),
            2 => 2,
            _ => 3,
        }
    }

    fn in_limit(&self, in_end: bool) -> (b: bool)
        ensures
            b == all_slots(self@, if in_end {
                LAST_SLOT
            } else {
                0
            }),
    {
        proof {
            lemma_all_slots_concat(self.core@, self.cur3@, if in_end {
                LAST_SLOT
            } else {
                0
            });
        }
        let core_in = self.core.in_limit(in_end);
        let cur_in = self.cur3.in_limit(in_end);
        core_in && cur_in
    }
}

#[derive(Debug, Clone)]
struct Cursor5 {
    core: CursorCore,
    cur4: Cursor4,
}

impl View for Cursor5 {
    type V = Seq<u8>;

    closed spec fn view(&self) -> Seq<u8> {
        self.core@ + self.cur4@
    }
}

impl Cursor5 {
    fn new() -> (c: Self)
        ensures
            c@ == repeat_slot(0, 5),
    {
        let c = Self { core: CursorCore::new(), cur4: Cursor4::new() };
        assert(c@ =~= repeat_slot(0, 5));
        c
    }

    fn charge(v: &mut Vec<u8>) -> (r: Option<Self>)
        ensures
            charged(
                old(v)@,
                final(v)@,
                match r {
                    Some(c) => Some(c@),
                    None => None,
                },
                5,
            ),
    {
        let ghost source = v@;
        let core = match CursorCore::charge(v) {
            Some(c) => c,
            None => return None,
        };
        let ghost rest = v@;
        let cur = match Cursor4::charge(v) {
            Some(c) => c,
            None => {
                proof {
                    lemma_charged_concat(source, rest, v@, core@, None, 1, 4);
                }
                return None;
            },
        };
        proof {
            lemma_charged_concat(source, rest, v@, core@, Some(cur@), 1, 4);
        }
        Some(Self { core: core, cur4: cur })
    }

    fn serialize_into(&self, dst: &mut Vec<u8>)
        ensures
            final(dst)@ == old(dst)@ + self@,
    {
        let ghost before = dst@;
        self.core.serialize_into(dst);
        self.cur4.serialize_into(dst);
        proof {
            assert(before + self.core@ + self.cur4@ =~= before + self@);
        }
    }

    /// Advances the lower levels first; when they wrap around, this level's
    /// own slot moves too.
    fn advance(&mut self, is_end_: bool) -> (r: u8)
        requires
            next_fits(old(self)@),
        ensures
            advanced(old(self)@, final(self)@, is_end_, r),
    {
        proof {
            lemma_next_concat(self.core@, self.cur4@);
            lemma_all_slots_concat(self.core@, self.cur4@, LAST_SLOT);
            lemma_single_slot(self.core.pos);
            if all_slots(self.cur4@, LAST_SLOT) {
                lemma_next_of_last(self.cur4@);
            }
        }
        let is_end = (self.core.pos == LAST_SLOT) && is_end_;
        let advance_r = self.cur4.advance(is_end);
        match advance_r {
            1 => self.core.advance(is_end),
            2 => 2,
            _ => 3,
        }
    }

    /// Delays the lower levels first; when they wrap around, this level's
    /// own slot moves too.
    fn delay(&mut self, is_firts_: bool) -> (r: u8)
        ensures
            delayed(old(self)@, final(self)@, is_firts_, r),
    {
        proof {
            lemma_prev_concat(self.core@, self.cur4@);
            lemma_all_slots_concat(self.core@, self.cur4@, 0);
            lemma_concat_drop_last(self.core@, self.cur4@);
            lemma_all_slots_concat(self.core@, self.cur4@.drop_last(), LAST_SLOT);
            lemma_single_slot(self.core.pos);
        }
        let is_firts = (self.core.pos == LAST_SLOT) && is_firts_;
        let delay_r = self.cur4.delay(is_firts);
        match delay_r {
            1 => self.core.delay(is_firts),
            2 => 2,
            _ => 3,
        }
    }

    fn in_limit(&self, in_end: bool) -> (b: bool)
        ensures
            b == all_slots(self@, if in_end {
                LAST_SLOT
            } else {
                0
            }),
    {
        proof {
            lemma_all_slots_concat(self.core@, self.cur4@, if in_end {
                LAST_SLOT
            } else {
                0
            });
        }
        let core_in = self.core.in_limit(in_end);
        let cur_in = self.cur4.in_limit(in_end);
        core_in && cur_in
    }
}

/// A position in the block tree: one slot per level, from the top level down
/// to the slot inside a leaf block.
#[derive(Debug, Clone)]
pub struct Cursor {
    cur6: Cursor1,
    cur5: Cursor5,
    cur4: Cursor4,
    cur3: Cursor3,
    cur2: Cursor2,
    cur1: Cursor1,
    layer: u8,
}

impl View for Cursor {
    type V = Seq<u8>;

    /// The sixteen slots in the order in which they are written out.
    closed spec fn view(&self) -> Seq<u8> {
        self.cur6@ + self.cur5@ + self.cur4@ + self.cur3@ + self.cur2@ + self.cur1@
    }
}

impl Cursor {
    /// A cursor always addresses the full depth of the tree.
    pub closed spec fn wf(&self) -> bool {
        self.layer == 6
    }

    /// The slot that level `cn` (1 for a leaf block, up to 6) reads through
    /// `get_pos` and `set_pos`.
    pub open spec fn level_index(cn: u8) -> int {
        6 - cn
    }

    pub proof fn lemma_view_len(&self)
        ensures
            self@.len() == CURSOR_SLOTS,
    {
    }

    /// A cursor at the first position of the tree.
    pub fn new() -> (c: Self)
        ensures
            c.wf(),
            c@ == repeat_slot(0, CURSOR_SLOTS as nat),
    {
        let c = Self {
            cur6: Cursor1::new(),
            cur5: Cursor5::new(),
            cur4: Cursor4::new(),
            cur3: Cursor3::new(),
            cur2: Cursor2::new(),
            cur1: Cursor1::new(),
            layer: 6,
        };
        assert(c@ =~= repeat_slot(0, CURSOR_SLOTS as nat));
        c
    }

    /// Reads a cursor from the front of `v` and removes its on-disk form. When
    /// `v` holds fewer than `CURSOR_BYTES` bytes it answers `None` and leaves
    /// `v` as it was.
    pub fn charge(v: &mut Vec<u8>) -> (r: Option<Self>)
        ensures
            cursor_charged(
                old(v)@,
                final(v)@,
                match r {
                    Some(c) => Some(c@),
                    None => None,
                },
            ),
            r matches Some(c) ==> c.wf(),
    {
        if v.len() < CURSOR_BYTES {
            return None;
        }
        let ghost s0 = v@;
        let _6 = match Cursor1::charge(v) {
            Some(c) => c,
            None => return None,
        };
        let ghost s1 = v@;
        let _5 = match Cursor5::charge(v) {
            Some(c) => c,
            None => return None,
        };
        proof {
            lemma_charged_concat(s0, s1, v@, _6@, Some(_5@), 1, 5);
        }
        let ghost s2 = v@;
        let ghost p2 = _6@ + _5@;
        let _4 = match Cursor4::charge(v) {
            Some(c) => c,
            None => return None,
        };
        proof {
            lemma_charged_concat(s0, s2, v@, p2, Some(_4@), 6, 4);
        }
        let ghost s3 = v@;
        let ghost p3 = p2 + _4@;
        let _3 = match Cursor3::charge(v) {
            Some(c) => c,
            None => return None,
        };
        proof {
            lemma_charged_concat(s0, s3, v@, p3, Some(_3@), 10, 3);
        }
        let ghost s4 = v@;
        let ghost p4 = p3 + _3@;
        let _2 = match Cursor2::charge(v) {
            Some(c) => c,
            None => return None,
        };
        proof {
            lemma_charged_concat(s0, s4, v@, p4, Some(_2@), 13, 2);
        }
        let ghost s5 = v@;
        let ghost p5 = p4 + _2@;
        let _1 = match Cursor1::charge(v) {
            Some(c) => c,
            None => return None,
        };
        proof {
            lemma_charged_concat(s0, s5, v@, p5, Some(_1@), 15, 1);
        }
        let mut tail = v.split_off(RESERVED_BYTES);
        std::mem::swap(v, &mut tail);
        proof {
            assert(v@ =~= s0.skip(CURSOR_BYTES as int));
        }
        Some(Self { cur6: _6, cur5: _5, cur4: _4, cur3: _3, cur2: _2, cur1: _1, layer: 6 })
    }

    /// Appends the `CURSOR_BYTES` on-disk bytes of the cursor to `dst`.
    pub fn serialize_into(&self, dst: &mut Vec<u8>)
        ensures
            final(dst)@ == old(dst)@ + cursor_bytes(self@),
            final(dst)@.len() == old(dst)@.len() + CURSOR_BYTES,
    {
        let ghost d0 = dst@;
        self.cur6.serialize_into(dst);
        self.cur5.serialize_into(dst);
        self.cur4.serialize_into(dst);
        self.cur3.serialize_into(dst);
        self.cur2.serialize_into(dst);
        self.cur1.serialize_into(dst);
        proof {
            assert(dst@ =~= d0 + self@);
        }
        let mut i: usize = 0;
        while i < RESERVED_BYTES
            invariant
                i <= RESERVED_BYTES,
                self@.len() == CURSOR_SLOTS,
                dst@ == d0 + self@ + repeat_slot(0, i as nat),
            decreases RESERVED_BYTES - i,
        {
            dst.push(0);
            proof {
                assert(repeat_slot(0, i as nat).push(0) =~= repeat_slot(0, (i + 1) as nat));
                assert(d0 + self@ + repeat_slot(0, i as nat).push(0) =~= (d0 + self@
                    + repeat_slot(0, i as nat)).push(0));
            }
            i += 1;
        }
        proof {
            assert(dst@ =~= d0 + cursor_bytes(self@));
        }
    }

    /// The slot of level `cn`, for `cn` from 1 to 6.
    pub fn get_pos(&self, cn: u8) -> (r: Option<u8>)
        requires
            self.wf(),
        ensures
            r == level_slot(self@, cn),
    {
        match self.resolve_core(cn) {
            Some(c) => Some(c.pos),
            None => None,
        }
    }

    /// Sets the slot of level `cn` to `v`. It refuses (answers `false`) a slot
    /// beyond the last one or a level outside 1 to 6.
    pub fn set_pos(&mut self, cn: u8, v: u8) -> (done: bool)
        requires
            old(self).wf(),
        ensures
            final(self).wf(),
            done == level_settable(cn, v),
            final(self)@ == with_level(old(self)@, cn, v),
    {
        if v >= 31 {
            false
        } else if let Some(core) = self.resolve_core_mut(cn) {
            core.pos = v;
            true
        } else {
            false
        }
    }

    /// Moves to the next position: the lowest slot goes up by one, carrying
    /// into the levels above. At the very last position it stays and answers 3;
    /// otherwise it answers 2.
    pub fn advance(&mut self) -> (r: u8)
        requires
            next_fits(old(self)@),
        ensures
            final(self).wf() == old(self).wf(),
            all_slots(old(self)@, LAST_SLOT) ==> final(self)@ == old(self)@ && r == 3,
            !all_slots(old(self)@, LAST_SLOT) ==> final(self)@ == next_position(old(self)@) && r
                == 2,
    {
        let ghost a6 = self.cur6@;
        let ghost a5 = self.cur5@;
        let ghost a4 = self.cur4@;
        let ghost a3 = self.cur3@;
        let ghost a2 = self.cur2@;
        let ghost a1 = self.cur1@;
        let ghost p2 = a6 + a5;
        let ghost p3 = p2 + a4;
        let ghost p4 = p3 + a3;
        let ghost p5 = p4 + a2;
        proof {
            lemma_next_concat(p5, a1);
            lemma_next_concat(p4, a2);
            lemma_next_concat(p3, a3);
            lemma_next_concat(p2, a4);
            lemma_next_concat(a6, a5);
            lemma_all_slots_concat(p5, a1, LAST_SLOT);
            lemma_all_slots_concat(p4, a2, LAST_SLOT);
            lemma_all_slots_concat(p3, a3, LAST_SLOT);
            lemma_all_slots_concat(p2, a4, LAST_SLOT);
            lemma_all_slots_concat(a6, a5, LAST_SLOT);
            if all_slots(a1, LAST_SLOT) {
                lemma_next_of_last(a1);
            }
            if all_slots(a2, LAST_SLOT) {
                lemma_next_of_last(a2);
            }
            if all_slots(a3, LAST_SLOT) {
                lemma_next_of_last(a3);
            }
            if all_slots(a4, LAST_SLOT) {
                lemma_next_of_last(a4);
            }
            if all_slots(a5, LAST_SLOT) {
                lemma_next_of_last(a5);
            }
            if all_slots(a6, LAST_SLOT) {
                lemma_next_of_last(a6);
            }
        }
        let is_end = self.in_limit(true);

        let r1 = self.cur1.advance(is_end);

        let r2 = if r1 == 1 {
            self.cur2.advance(is_end)
        } else {
            return r1;
        };
        proof {
            assert(self@[15] == 0);
        }
        let is_end = self.in_limit(true);

        let r3 = if r2 == 1 {
            self.cur3.advance(is_end)
        } else {
            return r2;
        };
        proof {
            assert(self@[15] == 0);
        }
        let is_end = self.in_limit(true);

        let r4 = if r3 == 1 {
            self.cur4.advance(is_end)
        } else {
            return r3;
        };
        proof {
            assert(self@[15] == 0);
        }
        let is_end = self.in_limit(true);

        let r5 = if r4 == 1 {
            self.cur5.advance(is_end)
        } else {
            return r4;
        };
        proof {
            assert(self@[15] == 0);
        }
        let is_end = self.in_limit(true);

        let r6 = if r5 == 1 {
            self.cur6.advance(is_end)
        } else {
            return r5;
        };
        r6
    }

    /// Moves to the previous position: the lowest slot goes down by one,
    /// borrowing from the levels above. At the very first position it stays and
    /// answers 3; otherwise it answers 2.
    pub fn delay(&mut self) -> (r: u8)
        ensures
            final(self).wf() == old(self).wf(),
            all_slots(old(self)@, 0) ==> final(self)@ == old(self)@ && r == 3,
            !all_slots(old(self)@, 0) ==> final(self)@ == prev_position(old(self)@) && r == 2,
    {
        let ghost a6 = self.cur6@;
        let ghost a5 = self.cur5@;
        let ghost a4 = self.cur4@;
        let ghost a3 = self.cur3@;
        let ghost a2 = self.cur2@;
        let ghost a1 = self.cur1@;
        let ghost p2 = a6 + a5;
        let ghost p3 = p2 + a4;
        let ghost p4 = p3 + a3;
        let ghost p5 = p4 + a2;
        proof {
            lemma_prev_concat(p5, a1);
            lemma_prev_concat(p4, a2);
            lemma_prev_concat(p3, a3);
            lemma_prev_concat(p2, a4);
            lemma_prev_concat(a6, a5);
            lemma_all_slots_concat(p5, a1, 0);
            lemma_all_slots_concat(p4, a2, 0);
            lemma_all_slots_concat(p3, a3, 0);
            lemma_all_slots_concat(p2, a4, 0);
            lemma_all_slots_concat(a6, a5, 0);
            lemma_single_slot(a1[0]);
            assert(a1 =~= seq![a1[0]]);
        }
        let is_firts = self.in_limit(false);
        let r1 = self.cur1.delay(is_firts);
        proof {
            assert(r1 == 1 ==> self@[15] == LAST_SLOT);
        }
        let is_firts = self.in_limit(false);

        let r2 = if r1 == 1 {
            self.cur2.delay(is_firts)
        } else {
            return r1;
        };
        proof {
            assert(self@[15] == LAST_SLOT);
        }
        let is_firts = self.in_limit(false);

        let r3 = if r2 == 1 {
            self.cur3.delay(is_firts)
        } else {
            return r2;
        };
        proof {
            assert(self@[15] == LAST_SLOT);
        }
        let is_firts = self.in_limit(false);

        let r4 = if r3 == 1 {
            self.cur4.delay(is_firts)
        } else {
            return r3;
        };
        proof {
            assert(self@[15] == LAST_SLOT);
        }
        let is_firts = self.in_limit(false);

        let r5 = if r4 == 1 {
            self.cur5.delay(is_firts)
        } else {
            return r4;
        };
        proof {
            assert(self@[15] == LAST_SLOT);
        }
        let is_firts = self.in_limit(false);

        let r6 = if r5 == 1 {
            self.cur6.delay(is_firts)
        } else {
            return r5;
        };

        r6
    }

    /// Whether `advance` can run without pushing a slot past 255: the slot it
    /// raises, the last one not at `LAST_SLOT`, is below 255.
    pub fn can_advance(&self) -> (b: bool)
        ensures
            b == next_fits(self@),
    {
        let mut bytes: Vec<u8> = Vec::new();
        self.serialize_into(&mut bytes);
        proof {
            assert(bytes@ =~= cursor_bytes(self@));
            assert(self@.take(CURSOR_SLOTS as int) =~= self@);
        }
        let mut i: usize = CURSOR_SLOTS;
        while i > 0
            invariant
                i <= CURSOR_SLOTS,
                self@.len() == CURSOR_SLOTS,
                bytes@ == cursor_bytes(self@),
                next_fits(self@) == next_fits(self@.take(i as int)),
            decreases i,
        {
            let p = bytes[i - 1];
            proof {
                assert(p == self@[i - 1]);
                let t = self@.take(i as int);
                assert(t.drop_last() =~= self@.take(i - 1));
                assert(t.last() == p);
            }
            if p != LAST_SLOT {
                return p < 255;
            }
            i -= 1;
        }
        assert(self@.take(0) =~= Seq::<u8>::empty());
        true
    }

    /// Whether every slot stands at the last (`in_end`) or the first position.
    fn in_limit(&self, in_end: bool) -> (b: bool)
        ensures
            b == all_slots(self@, if in_end {
                LAST_SLOT
            } else {
                0
            }),
    {
        let v = if in_end {
            LAST_SLOT
        } else {
            0
        };
        proof {
            let p1 = self.cur6@;
            let p2 = p1 + self.cur5@;
            let p3 = p2 + self.cur4@;
            let p4 = p3 + self.cur3@;
            let p5 = p4 + self.cur2@;
            lemma_all_slots_concat(p1, self.cur5@, v);
            lemma_all_slots_concat(p2, self.cur4@, v);
            lemma_all_slots_concat(p3, self.cur3@, v);
            lemma_all_slots_concat(p4, self.cur2@, v);
            lemma_all_slots_concat(p5, self.cur1@, v);
        }
        let c1 = self.cur1.in_limit(in_end);
        let c2 = self.cur2.in_limit(in_end);
        let c3 = self.cur3.in_limit(in_end);
        let c4 = self.cur4.in_limit(in_end);
        let c5 = self.cur5.in_limit(in_end);
        let c6 = self.cur6.in_limit(in_end);
        c1 && c2 && c3 && c4 && c5 && c6
    }

    fn resolve_core_mut(&mut self, cn: u8) -> (r: Option<&mut CursorCore>)
        requires
            old(self).wf(),
        ensures
            r is Some == (1 <= cn <= 6),
            r is None ==> *final(self) == *old(self),
            r matches Some(c) ==> c.pos == old(self)@[Self::level_index(cn)],
            r matches Some(c) ==> final(self).wf() && final(self)@ == old(self)@.update(
                Self::level_index(cn),
                final(c).pos,
            ),
    {
        if cn == 0 || cn > self.layer {
            return None;
        }
        match self.layer {
            6 => match cn {
                6 => Some(&mut self.cur6.core),
                5 => Some(&mut self.cur5.core),
                4 => Some(&mut self.cur5.cur4.core),
                3 => Some(&mut self.cur5.cur4.cur3.core),
                2 => Some(&mut self.cur5.cur4.cur3.cur2.core),
                1 => Some(&mut self.cur5.cur4.cur3.cur2.cur1.core),
                _ => None,
            },
            5 => match cn {
                5 => Some(&mut self.cur5.core),
                4 => Some(&mut self.cur5.cur4.core),
                3 => Some(&mut self.cur5.cur4.cur3.core),
                2 => Some(&mut self.cur5.cur4.cur3.cur2.core),
                1 => Some(&mut self.cur5.cur4.cur3.cur2.cur1.core),
                _ => None,
            },
            4 => match cn {
                4 => Some(&mut self.cur4.core),
                3 => Some(&mut self.cur4.cur3.core),
                2 => Some(&mut self.cur4.cur3.cur2.core),
                1 => Some(&mut self.cur4.cur3.cur2.cur1.core),
                _ => None,
            },
            3 => match cn {
                3 => Some(&mut self.cur3.core),
                2 => Some(&mut self.cur3.cur2.core),
                1 => Some(&mut self.cur3.cur2.cur1.core),
                _ => None,
            },
            2 => match cn {
                2 => Some(&mut self.cur2.core),
                1 => Some(&mut self.cur2.cur1.core),
                _ => None,
            },
            1 => match cn {
                1 => Some(&mut self.cur1.core),
                _ => None,
            },
            _ => None,
        }
    }

    fn resolve_core(&self, cn: u8) -> (r: Option<&CursorCore>)
        requires
            self.wf(),
        ensures
            r is Some == (1 <= cn <= 6),
            r is Some ==> r->0.pos == self@[Self::level_index(cn)],
    {
        if cn == 0 || cn > self.layer {
            return None;
        }
        match self.layer {
            6 => match cn {
                6 => Some(&self.cur6.core),
                5 => Some(&self.cur5.core),
                4 => Some(&self.cur5.cur4.core),
                3 => Some(&self.cur5.cur4.cur3.core),
                2 => Some(&self.cur5.cur4.cur3.cur2.core),
                1 => Some(&self.cur5.cur4.cur3.cur2.cur1.core),
                _ => None,
            },
            5 => match cn {
                5 => Some(&self.cur5.core),
                4 => Some(&self.cur5.cur4.core),
                3 => Some(&self.cur5.cur4.cur3.core),
                2 => Some(&self.cur5.cur4.cur3.cur2.core),
                1 => Some(&self.cur5.cur4.cur3.cur2.cur1.core),
                _ => None,
            },
            4 => match cn {
                4 => Some(&self.cur4.core),
                3 => Some(&self.cur4.cur3.core),
                2 => Some(&self.cur4.cur3.cur2.core),
                1 => Some(&self.cur4.cur3.cur2.cur1.core),
                _ => None,
            },
            3 => match cn {
                3 => Some(&self.cur3.core),
                2 => Some(&self.cur3.cur2.core),
                1 => Some(&self.cur3.cur2.cur1.core),
                _ => None,
            },
            2 => match cn {
                2 => Some(&self.cur2.core),
                1 => Some(&self.cur2.cur1.core),
                _ => None,
            },
            1 => match cn {
                1 => Some(&self.cur1.core),
                _ => None,
            },
            _ => None,
        }
    }
}

proof fn lemma_split_last(s: Seq<u8>, v: u8)
    requires
        s.len() > 0,
    ensures
        all_slots(s, v) == (all_slots(s.drop_last(), v) && s.last() == v),
        s == s.drop_last().push(s.last()),
        slots_in_range(s) == (slots_in_range(s.drop_last()) && s.last() <= LAST_SLOT),
{
    assert(s =~= s.drop_last().push(s.last()));
    if all_slots(s.drop_last(), v) && s.last() == v {
        assert forall|i: int| 0 <= i < s.len() implies s[i] == v by {
            if i < s.len() - 1 {
                assert(s[i] == s.drop_last()[i]);
            }
        }
    }
    if slots_in_range(s.drop_last()) && s.last() <= LAST_SLOT {
        assert forall|i: int| 0 <= i < s.len() implies s[i] <= LAST_SLOT by {
            if i < s.len() - 1 {
                assert(s[i] == s.drop_last()[i]);
            }
        }
    }
}

/// Advancing a cursor whose slots all lie within their nodes adds one to the
/// position it denotes, keeps every slot within its node and never overflows a
/// slot, unless it stands at the last position.
pub proof fn law_advance_counts_up(s: Seq<u8>)
    requires
        slots_in_range(s),
        !all_slots(s, LAST_SLOT),
    ensures
        next_fits(s),
        slots_in_range(next_position(s)),
        position_value(next_position(s)) == position_value(s) + 1,
    decreases s.len(),
{
    lemma_split_last(s, LAST_SLOT);
    let d = s.drop_last();
    if s.last() == LAST_SLOT {
        law_advance_counts_up(d);
        lemma_split_last(next_position(s), LAST_SLOT);
        assert(next_position(s).drop_last() =~= next_position(d));
    } else {
        lemma_split_last(next_position(s), LAST_SLOT);
        assert(next_position(s).drop_last() =~= d);
    }
}

/// Delaying a cursor whose slots all lie within their nodes takes one from the
/// position it denotes and keeps every slot within its node, unless it stands
/// at the first position.
pub proof fn law_delay_counts_down(s: Seq<u8>)
    requires
        slots_in_range(s),
        !all_slots(s, 0),
    ensures
        slots_in_range(prev_position(s)),
        position_value(prev_position(s)) + 1 == position_value(s),
    decreases s.len(),
{
    lemma_split_last(s, 0);
    let d = s.drop_last();
    if s.last() == 0 {
        law_delay_counts_down(d);
        lemma_split_last(prev_position(s), 0);
        assert(prev_position(s).drop_last() =~= prev_position(d));
    } else {
        lemma_split_last(prev_position(s), 0);
        assert(prev_position(s).drop_last() =~= d);
    }
}

/// Delaying right after advancing comes back to the same position.
pub proof fn law_delay_undoes_advance(s: Seq<u8>)
    requires
        slots_in_range(s),
        !all_slots(s, LAST_SLOT),
    ensures
        !all_slots(next_position(s), 0),
        prev_position(next_position(s)) == s,
    decreases s.len(),
{
    lemma_split_last(s, LAST_SLOT);
    let d = s.drop_last();
    let n = next_position(s);
    lemma_next_len(s);
    lemma_split_last(n, 0);
    if s.last() == LAST_SLOT {
        law_delay_undoes_advance(d);
        assert(n.drop_last() =~= next_position(d));
    } else {
        assert(n.drop_last() =~= d);
    }
}

/// Advancing right after delaying comes back to the same position.
pub proof fn law_advance_undoes_delay(s: Seq<u8>)
    requires
        slots_in_range(s),
        !all_slots(s, 0),
    ensures
        !all_slots(prev_position(s), LAST_SLOT),
        next_fits(prev_position(s)),
        next_position(prev_position(s)) == s,
    decreases s.len(),
{
    lemma_split_last(s, 0);
    let d = s.drop_last();
    let p = prev_position(s);
    lemma_prev_len(s);
    lemma_split_last(p, LAST_SLOT);
    law_delay_counts_down(s);
    if s.last() == 0 {
        law_advance_undoes_delay(d);
        assert(p.drop_last() =~= prev_position(d));
    } else {
        assert(p.drop_last() =~= d);
    }
    law_advance_counts_up(p);
}

/// What `serialize_into` writes, `charge` reads back: the same slots, and the
/// source is left with exactly what followed the cursor's on-disk form.
pub proof fn law_charge_reads_serialized(s: Seq<u8>, rest: Seq<u8>)
    requires
        s.len() == CURSOR_SLOTS,
    ensures
        cursor_charged(cursor_bytes(s) + rest, rest, Some(s)),
{
    let b = cursor_bytes(s) + rest;
    assert(b.take(CURSOR_SLOTS as int) =~= s);
    assert(b.skip(CURSOR_BYTES as int) =~= rest);
}

/// After `set_pos(cn, v)`, `get_pos(cn)` answers `v` when the write took, and
/// `get_pos` of every other level, or of `cn` when the write was refused,
/// answers what it answered before.
pub proof fn law_get_after_set(s: Seq<u8>, cn: u8, v: u8, other: u8)
    requires
        s.len() == CURSOR_SLOTS,
    ensures
        level_slot(with_level(s, cn, v), other) == (if level_settable(cn, v) && other == cn {
            Some(v)
        } else {
            level_slot(s, other)
        }),
{
}

/// Level `cn` is the slot `6 - cn` in the order in which a cursor is written
/// out: the top level 6 comes first, the leaf level 1 sixth. `get_pos(cn)`
/// reads that slot, `set_pos(cn, v)` writes it and no other, and on a new
/// cursor it leaves the 47 bytes all zero but that one.
pub proof fn law_level_slot_order(s: Seq<u8>, cn: u8, v: u8)
    requires
        s.len() == CURSOR_SLOTS,
        1 <= cn <= 6,
    ensures
        level_slot(s, cn) == Some(s[6 - cn]),
        v <= LAST_SLOT ==> with_level(s, cn, v) == s.update(6 - cn, v),
        v <= LAST_SLOT ==> cursor_bytes(with_level(repeat_slot(0, 16), cn, v)) == repeat_slot(
            0,
            47,
        ).update(6 - cn, v),
{
    if v <= LAST_SLOT {
        assert(cursor_bytes(with_level(repeat_slot(0, 16), cn, v)) =~= repeat_slot(0, 47).update(
            6 - cn,
            v,
        ));
    }
}

} // verus!
