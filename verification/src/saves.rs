//! Per-slot storage of saved item boxes: one item list per save slot,
//! kept in memory between the host's save and load passes.

use vstd::prelude::*;
use crate::inventory::Item;
use crate::patch::le_bytes32;

verus! {

/// Number of save slots the host exposes.
pub const NUM_SAVE_SLOTS: usize = 20;

/// Tag marking the start of the saved-box section of a save file.
pub open spec fn magic() -> Seq<u8> {
    seq![0x49u8, 0x42u8, 0x4Fu8, 0x58u8]  // "IBOX"
}

/// A 32-bit value's two's-complement image in `[0, 2^32)`.
pub open spec fn to_u32(x: int) -> int {
    if x < 0 {
        x + 0x1_0000_0000
    } else {
        x
    }
}

/// The signed reading of a value in `[0, 2^32)`.
pub open spec fn from_u32(u: int) -> int {
    if u >= 0x8000_0000 {
        u - 0x1_0000_0000
    } else {
        u
    }
}

/// The little-endian 32-bit value at `off` in `b`.
pub open spec fn u32_val(b: Seq<u8>, off: int) -> int
    recommends
        0 <= off,
        off + 4 <= b.len(),
{
    b[off] + 256 * (b[off + 1] + 256 * (b[off + 2] + 256 * b[off + 3]))
}

/// One item on the wire: its id then its count, each 32-bit little-endian.
pub open spec fn spec_encode_item(it: Item) -> Seq<u8> {
    le_bytes32(to_u32(it.id as int)) + le_bytes32(to_u32(it.count as int))
}

/// An item list on the wire, in order.
pub open spec fn spec_encode_items(v: Seq<Item>) -> Seq<u8>
    decreases v.len(),
{
    if v.len() == 0 {
        Seq::empty()
    } else {
        spec_encode_items(v.drop_last()) + spec_encode_item(v.last())
    }
}

/// One slot on the wire: a 32-bit little-endian item count, then the items.
pub open spec fn spec_encode_slot(v: Seq<Item>) -> Seq<u8>
    recommends
        v.len() <= u32::MAX,
{
    le_bytes32(v.len() as int) + spec_encode_items(v)
}

/// All slots on the wire, in order.
pub open spec fn spec_encode_slots(ss: Seq<Seq<Item>>) -> Seq<u8>
    decreases ss.len(),
{
    if ss.len() == 0 {
        Seq::empty()
    } else {
        spec_encode_slots(ss.drop_last()) + spec_encode_slot(ss.last())
    }
}

/// The saved-box section of a save file: the magic tag, then every slot.
pub open spec fn spec_encode(ss: Seq<Seq<Item>>) -> Seq<u8> {
    magic() + spec_encode_slots(ss)
}

/// The item read from `b` at offset `off`.
pub open spec fn spec_item_at(b: Seq<u8>, off: int) -> Item
    recommends
        0 <= off,
        off + 8 <= b.len(),
{
    Item {
        id: from_u32(u32_val(b, off)) as i32,
        count: from_u32(u32_val(b, off + 4)) as i32,
    }
}

/// The first `n` items of `b`, eight bytes each.
pub open spec fn spec_parse_items(b: Seq<u8>, n: int) -> Seq<Item>
    recommends
        8 * n <= b.len(),
    decreases n,
{
    if n <= 0 {
        Seq::empty()
    } else {
        seq![spec_item_at(b, 0)] + spec_parse_items(b.skip(8), n - 1)
    }
}

/// `k` consecutive slots read from the front of `b`, with what is left,
/// or nothing if `b` runs out.
pub open spec fn spec_parse_slots(b: Seq<u8>, k: int) -> Option<(Seq<Seq<Item>>, Seq<u8>)>
    decreases k,
{
    if k <= 0 {
        Some((Seq::empty(), b))
    } else if b.len() < 4 {
        None
    } else {
        let n = u32_val(b, 0);
        let body = b.skip(4);
        if body.len() < 8 * n {
            None
        } else {
            match spec_parse_slots(body.skip(8 * n), k - 1) {
                Some(r) => Some((seq![spec_parse_items(body, n)] + r.0, r.1)),
                None => None,
            }
        }
    }
}

/// The saved boxes read from the saved-box section `b`: the magic tag
/// must open it, and every slot must be complete. Trailing bytes are
/// ignored.
pub open spec fn spec_parse(b: Seq<u8>) -> Option<Seq<Seq<Item>>> {
    if b.len() < 4 || b.take(4) != magic() {
        None
    } else {
        match spec_parse_slots(b.skip(4), NUM_SAVE_SLOTS as int) {
            Some(r) => Some(r.0),
            None => None,
        }
    }
}

/// Each parsed item sits eight bytes after the one before it.
proof fn lemma_parse_items_index(b: Seq<u8>, n: int)
    requires
        0 <= n,
        8 * n <= b.len(),
    ensures
        spec_parse_items(b, n).len() == n,
        forall|j: int| 0 <= j < n ==> spec_parse_items(b, n)[j] == spec_item_at(b, 8 * j),
    decreases n,
{
    if n > 0 {
        lemma_parse_items_index(b.skip(8), n - 1);
        assert forall|j: int| 0 <= j < n implies spec_parse_items(b, n)[j] == spec_item_at(
            b,
            8 * j,
        ) by {
            if j > 0 {
                assert(spec_parse_items(b, n)[j] == spec_parse_items(b.skip(8), n - 1)[j - 1]);
                assert(spec_parse_items(b.skip(8), n - 1)[j - 1] == spec_item_at(
                    b.skip(8),
                    8 * (j - 1),
                ));
                assert(b.skip(8)[8 * (j - 1)] == b[8 * j]);
                assert(b.skip(8)[8 * (j - 1) + 1] == b[8 * j + 1]);
                assert(b.skip(8)[8 * (j - 1) + 2] == b[8 * j + 2]);
                assert(b.skip(8)[8 * (j - 1) + 3] == b[8 * j + 3]);
                assert(b.skip(8)[8 * (j - 1) + 4] == b[8 * j + 4]);
                assert(b.skip(8)[8 * (j - 1) + 5] == b[8 * j + 5]);
                assert(b.skip(8)[8 * (j - 1) + 6] == b[8 * j + 6]);
                assert(b.skip(8)[8 * (j - 1) + 7] == b[8 * j + 7]);
            }
        };
    }
}

/// The little-endian bytes of a 32-bit value read back as that value.
proof fn lemma_le_bytes32_val(x: int)
    requires
        0 <= x < 0x1_0000_0000,
    ensures
        le_bytes32(x).len() == 4,
        u32_val(le_bytes32(x), 0) == x,
{
    vstd::arithmetic::div_mod::lemma_mod_bound(x, 256);
    vstd::arithmetic::div_mod::lemma_mod_bound(x / 256, 256);
    vstd::arithmetic::div_mod::lemma_mod_bound(x / 65536, 256);
    vstd::arithmetic::div_mod::lemma_fundamental_div_mod(x, 256);
    vstd::arithmetic::div_mod::lemma_fundamental_div_mod(x / 256, 256);
    vstd::arithmetic::div_mod::lemma_fundamental_div_mod(x / 65536, 256);
    vstd::arithmetic::div_mod::lemma_div_denominator(x, 256, 256);
    vstd::arithmetic::div_mod::lemma_div_denominator(x, 65536, 256);
    assert(x / 16777216 < 256) by {
        vstd::arithmetic::div_mod::lemma_div_is_ordered(x, 0xFFFF_FFFF, 16777216);
    };
    vstd::arithmetic::div_mod::lemma_div_pos_is_pos(x, 16777216);
    vstd::arithmetic::div_mod::lemma_small_mod((x / 16777216) as nat, 256);
}

/// One encoded item occupies eight bytes and reads back as itself.
proof fn lemma_item_round(it: Item, rest: Seq<u8>)
    ensures
        spec_encode_item(it).len() == 8,
        spec_item_at(spec_encode_item(it) + rest, 0) == it,
{
    let idb = le_bytes32(to_u32(it.id as int));
    let cntb = le_bytes32(to_u32(it.count as int));
    lemma_le_bytes32_val(to_u32(it.id as int));
    lemma_le_bytes32_val(to_u32(it.count as int));
    let b = spec_encode_item(it) + rest;
    assert(b[0] == idb[0] && b[1] == idb[1] && b[2] == idb[2] && b[3] == idb[3]);
    assert(b[4] == cntb[0] && b[5] == cntb[1] && b[6] == cntb[2] && b[7] == cntb[3]);
    assert(u32_val(b, 0) == to_u32(it.id as int));
    assert(u32_val(b, 4) == to_u32(it.count as int));
}

/// An encoded item list is eight bytes per item and unfolds from the front.
proof fn lemma_enc_items_first(v: Seq<Item>)
    ensures
        spec_encode_items(v).len() == 8 * v.len(),
        v.len() > 0 ==> spec_encode_items(v) == spec_encode_item(v.first()) + spec_encode_items(
            v.drop_first(),
        ),
    decreases v.len(),
{
    if v.len() > 0 {
        lemma_enc_items_first(v.drop_last());
        lemma_item_round(v.last(), Seq::empty());
        lemma_item_round(v.first(), Seq::empty());
        if v.len() == 1 {
            assert(v.drop_last() =~= Seq::<Item>::empty());
            assert(v.drop_first() =~= Seq::<Item>::empty());
            assert(v.first() == v.last());
            assert(spec_encode_items(v.drop_last()) + spec_encode_item(v.last())
                =~= spec_encode_item(v.first()) + spec_encode_items(v.drop_first()));
        } else {
            assert(v.drop_last().first() == v.first());
            assert(v.drop_last().drop_first() =~= v.drop_first().drop_last());
            assert(v.drop_first().last() == v.last());
            lemma_enc_items_first(v.drop_first());
            assert(spec_encode_items(v) =~= spec_encode_item(v.first()) + (spec_encode_items(
                v.drop_first().drop_last(),
            ) + spec_encode_item(v.last())));
        }
    }
}

/// Parsing the encoding of an item list recovers it, whatever follows.
proof fn lemma_items_round(v: Seq<Item>, rest: Seq<u8>)
    ensures
        spec_parse_items(spec_encode_items(v) + rest, v.len() as int) == v,
    decreases v.len(),
{
    lemma_enc_items_first(v);
    if v.len() == 0 {
        assert(spec_parse_items(spec_encode_items(v) + rest, 0) =~= v);
    } else {
        let tail = spec_encode_items(v.drop_first()) + rest;
        let b = spec_encode_items(v) + rest;
        lemma_item_round(v.first(), tail);
        assert(b =~= spec_encode_item(v.first()) + tail);
        assert(spec_item_at(b, 0) == v.first());
        assert(b.skip(8) =~= tail);
        lemma_items_round(v.drop_first(), rest);
        assert(seq![v.first()] + v.drop_first() =~= v);
    }
}

/// An encoded slot list unfolds from the front.
proof fn lemma_enc_slots_first(ss: Seq<Seq<Item>>)
    ensures
        ss.len() > 0 ==> spec_encode_slots(ss) == spec_encode_slot(ss.first()) + spec_encode_slots(
            ss.drop_first(),
        ),
    decreases ss.len(),
{
    if ss.len() > 0 {
        if ss.len() == 1 {
            assert(ss.drop_last() =~= Seq::<Seq<Item>>::empty());
            assert(ss.drop_first() =~= Seq::<Seq<Item>>::empty());
            assert(ss.first() == ss.last());
            assert(spec_encode_slots(ss.drop_last()) + spec_encode_slot(ss.last())
                =~= spec_encode_slot(ss.first()) + spec_encode_slots(ss.drop_first()));
        } else {
            lemma_enc_slots_first(ss.drop_last());
            assert(ss.drop_last().first() == ss.first());
            assert(ss.drop_last().drop_first() =~= ss.drop_first().drop_last());
            assert(ss.drop_first().last() == ss.last());
            assert(spec_encode_slots(ss) =~= spec_encode_slot(ss.first()) + (spec_encode_slots(
                ss.drop_first().drop_last(),
            ) + spec_encode_slot(ss.last())));
        }
    }
}

/// Parsing the encoding of a slot list recovers it, with the trailing
/// bytes intact.
#[verifier::rlimit(100)]
proof fn lemma_slots_round(ss: Seq<Seq<Item>>, rest: Seq<u8>)
    requires
        forall|i: int| 0 <= i < ss.len() ==> (#[trigger] ss[i]).len() <= u32::MAX,
    ensures
        spec_parse_slots(spec_encode_slots(ss) + rest, ss.len() as int) == Some::<(Seq<Seq<Item>>,
            Seq<u8>)>((ss, rest)),
    decreases ss.len(),
{
    if ss.len() == 0 {
        assert(spec_encode_slots(ss) + rest =~= rest);
        assert(Seq::<Seq<Item>>::empty() =~= ss);
    } else {
        lemma_enc_slots_first(ss);
        let n = ss.first().len() as int;
        let lenb = le_bytes32(n);
        lemma_le_bytes32_val(n);
        let after_len = spec_encode_items(ss.first()) + (spec_encode_slots(ss.drop_first())
            + rest);
        let b = spec_encode_slots(ss) + rest;
        assert(b =~= (lenb + after_len));
        assert(b[0] == lenb[0] && b[1] == lenb[1] && b[2] == lenb[2] && b[3] == lenb[3]);
        assert(u32_val(b, 0) == n);
        lemma_enc_items_first(ss.first());
        assert(b.skip(4) =~= after_len);
        lemma_items_round(ss.first(), spec_encode_slots(ss.drop_first()) + rest);
        assert(spec_parse_items(after_len, n) == ss.first());
        assert(after_len.skip(8 * n) =~= spec_encode_slots(ss.drop_first()) + rest);
        lemma_slots_round(ss.drop_first(), rest);
        assert(seq![ss.first()] + ss.drop_first() =~= ss);
    }
}

/// Decoding recovers whatever encoding wrote: the parse of an encoded
/// slot table followed by any trailing bytes yields exactly that table.
pub proof fn lemma_encode_parse_round(ss: Seq<Seq<Item>>, rest: Seq<u8>)
    requires
        ss.len() == NUM_SAVE_SLOTS,
        forall|i: int| 0 <= i < ss.len() ==> (#[trigger] ss[i]).len() <= u32::MAX,
    ensures
        spec_parse(spec_encode(ss) + rest) == Some(ss),
{
    let b = spec_encode(ss) + rest;
    assert(b.take(4) =~= magic());
    assert(b.skip(4) =~= spec_encode_slots(ss) + rest);
    lemma_slots_round(ss, rest);
}

/// The item list of one save slot.
pub struct ItemVec {
    pub items: Vec<Item>,
}

impl View for ItemVec {
    type V = Seq<Item>;

    open spec fn view(&self) -> Seq<Item> {
        self.items@
    }
}

impl ItemVec {
    pub fn new() -> (r: Self)
        ensures
            r@ == Seq::<Item>::empty(),
    {
        ItemVec { items: Vec::new() }
    }
}

/// The saved item boxes of every slot.
pub struct SavedBoxes {
    pub slots: Vec<ItemVec>,
}

impl View for SavedBoxes {
    type V = Seq<Seq<Item>>;

    open spec fn view(&self) -> Seq<Seq<Item>> {
        Seq::new(self.slots@.len(), |i: int| self.slots@[i]@)
    }
}

impl SavedBoxes {
    /// One slot per save slot, all empty.
    pub open spec fn wf(self) -> bool {
        self.slots@.len() == NUM_SAVE_SLOTS
    }

    pub fn new() -> (r: Self)
        ensures
            r.wf(),
            forall|i: int| 0 <= i < NUM_SAVE_SLOTS ==> (#[trigger] r@[i]).len() == 0,
    {
        let mut slots: Vec<ItemVec> = Vec::new();
        let mut i: usize = 0;
        while i < NUM_SAVE_SLOTS
            invariant
                0 <= i <= NUM_SAVE_SLOTS,
                slots@.len() == i,
                forall|k: int| 0 <= k < i ==> (#[trigger] slots@[k])@.len() == 0,
            decreases NUM_SAVE_SLOTS - i,
        {
            slots.push(ItemVec::new());
            i += 1;
        }
        SavedBoxes { slots }
    }

    /// Record `items` as the box contents of save slot `index`.
    pub fn save_to_slot(&mut self, items: &[Item], index: usize)
        requires
            old(self).wf(),
            index < NUM_SAVE_SLOTS,
        ensures
            final(self).wf(),
            final(self)@[index as int] == items@,
            forall|i: int|
                0 <= i < NUM_SAVE_SLOTS && i != index ==> (#[trigger] final(self)@[i]) == old(
                    self,
                )@[i],
    {
        let mut v: Vec<Item> = Vec::new();
        let mut i: usize = 0;
        while i < items.len()
            invariant
                0 <= i <= items@.len(),
                v@ == items@.take(i as int),
            decreases items@.len() - i,
        {
            let it = items[i];
            v.push(it);
            proof {
                assert(v@ =~= items@.take(i + 1));
            }
            i += 1;
        }
        proof {
            assert(items@.take(items@.len() as int) =~= items@);
        }
        self.slots[index] = ItemVec { items: v };
    }

    /// The box contents stored in save slot `index`.
    pub fn load_from_slot(&self, index: usize) -> (r: Vec<Item>)
        requires
            self.wf(),
            index < NUM_SAVE_SLOTS,
        ensures
            r@ == self@[index as int],
    {
        let slot = &self.slots[index];
        let mut v: Vec<Item> = Vec::new();
        let mut i: usize = 0;
        while i < slot.items.len()
            invariant
                0 <= i <= slot.items@.len(),
                v@ == slot.items@.take(i as int),
            decreases slot.items@.len() - i,
        {
            let it = slot.items[i];
            v.push(it);
            proof {
                assert(v@ =~= slot.items@.take(i + 1));
            }
            i += 1;
        }
        proof {
            assert(slot.items@.take(slot.items@.len() as int) =~= slot.items@);
        }
        v
    }

    /// The saved-box section of a save file: the magic tag, then each
    /// slot as an item count followed by each item's id and count, all
    /// 32-bit little-endian.
    pub fn encode(&self) -> (r: Vec<u8>)
        requires
            self.wf(),
            forall|i: int| 0 <= i < NUM_SAVE_SLOTS ==> (#[trigger] self@[i]).len() <= u32::MAX,
        ensures
            r@ == spec_encode(self@),
    {
        let mut out: Vec<u8> = Vec::new();
        out.push(0x49);
        out.push(0x42);
        out.push(0x4F);
        out.push(0x58);
        proof {
            assert(out@ =~= magic());
            assert(self@.take(0) =~= Seq::<Seq<Item>>::empty());
            assert(out@ =~= magic() + spec_encode_slots(self@.take(0)));
        }
        let mut k: usize = 0;
        while k < NUM_SAVE_SLOTS
            invariant
                0 <= k <= NUM_SAVE_SLOTS,
                self.wf(),
                forall|i: int| 0 <= i < NUM_SAVE_SLOTS ==> (#[trigger] self@[i]).len() <= u32::MAX,
                out@ == magic() + spec_encode_slots(self@.take(k as int)),
            decreases NUM_SAVE_SLOTS - k,
        {
            let ghost slot_seq = self@[k as int];
            let slot = &self.slots[k];
            let count = slot.items.len();
            push_u32_le(&mut out, count as u32);
            let ghost base = out@;
            let mut j: usize = 0;
            while j < count
                invariant
                    0 <= j <= count,
                    count == slot.items@.len(),
                    slot_seq == slot.items@,
                    out@ == base + spec_encode_items(slot_seq.take(j as int)),
                decreases count - j,
            {
                proof {
                    assert(slot_seq.take(j + 1).drop_last() =~= slot_seq.take(j as int));
                    assert(slot_seq.take(j + 1).last() == slot_seq[j as int]);
                }
                let it = slot.items[j];
                push_i32_le(&mut out, it.id);
                push_i32_le(&mut out, it.count);
                proof {
                    assert(out@ =~= base + spec_encode_items(slot_seq.take(j + 1)));
                }
                j += 1;
            }
            proof {
                assert(slot_seq.take(count as int) =~= slot_seq);
                assert(self@.take(k + 1).drop_last() =~= self@.take(k as int));
                assert(self@.take(k + 1).last() == slot_seq);
                assert(out@ =~= magic() + spec_encode_slots(self@.take(k + 1)));
            }
            k += 1;
        }
        proof {
            assert(self@.take(NUM_SAVE_SLOTS as int) =~= self@);
        }
        out
    }

    /// Read saved boxes back from the saved-box section of a save file.
    /// Returns nothing exactly when the bytes do not parse: the magic tag
    /// is missing or a slot is cut short.
    pub fn decode(bytes: &[u8]) -> (r: Option<SavedBoxes>)
        ensures
            (r is Some) == (spec_parse(bytes@) is Some),
            r is Some ==> r.unwrap().wf() && r.unwrap()@ == spec_parse(bytes@).unwrap(),
    {
        if bytes.len() < 4 {
            return None;
        }
        if !(bytes[0] == 0x49 && bytes[1] == 0x42 && bytes[2] == 0x4F && bytes[3] == 0x58) {
            proof {
                assert(bytes@.take(4).len() == magic().len());
                assert(bytes@.take(4) != magic()) by {
                    if bytes@.take(4) == magic() {
                        assert(bytes@.take(4)[0] == 0x49u8);
                        assert(bytes@.take(4)[1] == 0x42u8);
                        assert(bytes@.take(4)[2] == 0x4Fu8);
                        assert(bytes@.take(4)[3] == 0x58u8);
                    }
                };
            }
            return None;
        }
        proof {
            assert(bytes@.take(4) =~= magic());
        }
        let mut slots: Vec<ItemVec> = Vec::new();
        let ghost mut parsed: Seq<Seq<Item>> = Seq::empty();
        let mut pos: usize = 4;
        let mut k: usize = 0;
        while k < NUM_SAVE_SLOTS
            invariant
                0 <= k <= NUM_SAVE_SLOTS,
                4 <= pos <= bytes@.len(),
                slots@.len() == k,
                parsed.len() == k,
                forall|i: int| 0 <= i < k ==> (#[trigger] slots@[i])@ == parsed[i],
                spec_parse_slots(bytes@.skip(4), NUM_SAVE_SLOTS as int) == (match spec_parse_slots(
                    bytes@.skip(pos as int),
                    NUM_SAVE_SLOTS as int - k as int,
                ) {
                    Some(r) => Some::<(Seq<Seq<Item>>, Seq<u8>)>((parsed + r.0, r.1)),
                    None => None::<(Seq<Seq<Item>>, Seq<u8>)>,
                }),
            decreases NUM_SAVE_SLOTS - k,
        {
            let ghost rest = bytes@.skip(pos as int);
            if bytes.len() - pos < 4 {
                proof {
                    assert(rest.len() < 4);
                    assert(spec_parse_slots(rest, NUM_SAVE_SLOTS as int - k as int) is None);
                }
                return None;
            }
            let n = read_u32_le(bytes, pos);
            proof {
                assert(rest[0] == bytes@[pos as int]);
                assert(rest[1] == bytes@[pos as int + 1]);
                assert(rest[2] == bytes@[pos as int + 2]);
                assert(rest[3] == bytes@[pos as int + 3]);
                assert(n as int == u32_val(rest, 0));
            }
            let n_us = n as usize;
            let remaining = bytes.len() - (pos + 4);
            if remaining / 8 < n_us {
                proof {
                    let body = rest.skip(4);
                    assert(body.len() == remaining);
                    assert(body.len() < 8 * (n as int));
                    assert(spec_parse_slots(rest, NUM_SAVE_SLOTS as int - k as int) is None);
                }
                return None;
            }
            let ghost body = rest.skip(4);
            proof {
                assert(body.len() == remaining);
                assert(8 * (n as int) <= remaining) by {
                    vstd::arithmetic::div_mod::lemma_fundamental_div_mod(remaining as int, 8);
                    vstd::arithmetic::mul::lemma_mul_inequality(
                        n as int,
                        remaining as int / 8,
                        8,
                    );
                };
                lemma_parse_items_index(body, n as int);
            }
            let mut items: Vec<Item> = Vec::new();
            let mut j: usize = 0;
            while j < n_us
                invariant
                    0 <= j <= n_us,
                    n_us as int == n as int,
                    4 <= pos,
                    bytes@.len() <= usize::MAX,
                    pos + 4 + 8 * n_us <= bytes@.len(),
                    body == bytes@.skip(pos as int).skip(4),
                    body == bytes@.skip(pos as int + 4),
                    8 * n_us <= body.len(),
                    items@.len() == j,
                    forall|jj: int| 0 <= jj < j ==> (#[trigger] items@[jj]) == spec_item_at(body, 8 * jj),
                decreases n_us - j,
            {
                let off = pos + 4 + 8 * j;
                let id_u = read_u32_le(bytes, off);
                let count_u = read_u32_le(bytes, off + 4);
                let id = u32_to_i32(id_u);
                let count = u32_to_i32(count_u);
                proof {
                    assert(body[8 * j as int] == bytes@[off as int]);
                    assert(body[8 * j + 1] == bytes@[off + 1]);
                    assert(body[8 * j + 2] == bytes@[off + 2]);
                    assert(body[8 * j + 3] == bytes@[off + 3]);
                    assert(body[8 * j + 4] == bytes@[off + 4]);
                    assert(body[8 * j + 5] == bytes@[off + 5]);
                    assert(body[8 * j + 6] == bytes@[off + 6]);
                    assert(body[8 * j + 7] == bytes@[off + 7]);
                    assert(id_u as int == u32_val(body, 8 * j as int));
                    assert(count_u as int == u32_val(body, 8 * j + 4));
                }
                items.push(Item { id, count });
                j += 1;
            }
            let ghost slot_items = spec_parse_items(body, n as int);
            proof {
                assert(items@ =~= slot_items);
            }
            let new_pos = pos + 4 + 8 * n_us;
            proof {
                // one step of the slot parser unrolls to this iteration
                assert(bytes@.skip(pos as int + 4).skip(8 * (n as int)) =~= bytes@.skip(
                    new_pos as int,
                ));
                assert(spec_parse_slots(rest, NUM_SAVE_SLOTS as int - k as int) == (
                match spec_parse_slots(bytes@.skip(new_pos as int), NUM_SAVE_SLOTS as int - k as int - 1) {
                    Some(r) => Some::<(Seq<Seq<Item>>, Seq<u8>)>((seq![slot_items] + r.0, r.1)),
                    None => None::<(Seq<Seq<Item>>, Seq<u8>)>,
                }));
            }
            slots.push(ItemVec { items });
            proof {
                let tail = spec_parse_slots(
                    bytes@.skip(new_pos as int),
                    NUM_SAVE_SLOTS as int - k as int - 1,
                );
                if tail is Some {
                    let rr = tail.unwrap();
                    assert(parsed.push(slot_items) + rr.0 =~= parsed + (seq![slot_items] + rr.0));
                }
                parsed = parsed.push(slot_items);
            }
            pos = new_pos;
            k += 1;
        }
        proof {
            assert(spec_parse_slots(bytes@.skip(pos as int), 0) == Some::<(Seq<Seq<Item>>, Seq<
                u8,
            >)>((Seq::empty(), bytes@.skip(pos as int))));
            assert(parsed + Seq::<Seq<Item>>::empty() =~= parsed);
        }
        let boxes = SavedBoxes { slots };
        proof {
            assert(boxes@ =~= parsed);
        }
        Some(boxes)
    }

    /// Empty every slot.
    pub fn clear_save(&mut self)
        requires
            old(self).wf(),
        ensures
            final(self).wf(),
            forall|i: int| 0 <= i < NUM_SAVE_SLOTS ==> (#[trigger] final(self)@[i]).len() == 0,
    {
        let mut i: usize = 0;
        while i < NUM_SAVE_SLOTS
            invariant
                0 <= i <= NUM_SAVE_SLOTS,
                self.slots@.len() == NUM_SAVE_SLOTS,
                forall|k: int| 0 <= k < i ==> (#[trigger] self.slots@[k])@.len() == 0,
            decreases NUM_SAVE_SLOTS - i,
        {
            self.slots[i] = ItemVec { items: Vec::new() };
            i += 1;
        }
    }
}


/// Append the four little-endian bytes of `x`.
fn push_u32_le(out: &mut Vec<u8>, x: u32)
    ensures
        final(out)@ == old(out)@ + le_bytes32(x as int),
{
    out.push((x % 256) as u8);
    out.push(((x / 256) % 256) as u8);
    out.push(((x / 65536) % 256) as u8);
    out.push(((x / 16777216) % 256) as u8);
    proof {
        assert(out@ =~= old(out)@ + le_bytes32(x as int));
    }
}

/// Append the two's-complement little-endian bytes of `x`.
fn push_i32_le(out: &mut Vec<u8>, x: i32)
    ensures
        final(out)@ == old(out)@ + le_bytes32(to_u32(x as int)),
{
    let u: u32 = if x >= 0 {
        x as u32
    } else {
        ((x as i64) + 0x1_0000_0000i64) as u32
    };
    proof {
        assert(u as int == to_u32(x as int));
    }
    push_u32_le(out, u);
}

/// The little-endian 32-bit value at `pos`.
fn read_u32_le(bytes: &[u8], pos: usize) -> (r: u32)
    requires
        pos + 4 <= bytes@.len(),
    ensures
        r as int == u32_val(bytes@, pos as int),
{
    let b0 = bytes[pos] as u32;
    let b1 = bytes[pos + 1] as u32;
    let b2 = bytes[pos + 2] as u32;
    let b3 = bytes[pos + 3] as u32;
    b0 + 256 * (b1 + 256 * (b2 + 256 * b3))
}

/// The signed reading of a 32-bit wire value.
fn u32_to_i32(u: u32) -> (r: i32)
    ensures
        r as int == from_u32(u as int),
{
    if u >= 0x80000000 {
        ((u as i64) - 0x1_0000_0000i64) as i32
    } else {
        u as i32
    }
}

} // verus!
