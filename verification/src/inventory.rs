//! The item box core: item records, the six-cell view bag, and the
//! backing store with its organize, scroll, reconcile and make-room
//! operations.

use vstd::prelude::*;

verus! {

broadcast use vstd::array::group_array_axioms;

/// Number of item cells in the view window.
pub const BAG_SIZE: usize = 6;

/// Sentinel id marking the second cell of a two-slot item.
pub const SLOT_TWO: i32 = 180;

/// A single inventory entry. `id == 0` denotes an empty cell.
#[derive(Clone, Copy, Debug, PartialEq, Eq, Structural)]
pub struct Item {
    pub id: i32,
    pub count: i32,
}

impl Item {
    /// The cell holds nothing.
    pub open spec fn spec_is_empty(self) -> bool {
        self.id == 0
    }

    /// The cell holds the second half of a two-slot item.
    pub open spec fn spec_is_slot_two(self) -> bool {
        self.id == SLOT_TWO
    }

    /// The id belongs to the fixed set of items that occupy two cells.
    pub open spec fn spec_is_two_slot_item(self) -> bool {
        ||| self.id == 5  // hunting gun
        ||| self.id == 6  // shotgun
        ||| self.id == 7  // grenade launcher (grenade rounds)
        ||| self.id == 8  // grenade launcher (flame rounds)
        ||| self.id == 9  // grenade launcher (acid rounds)
        ||| self.id == 11  // sub-machine gun
        ||| self.id == 12  // unused weapon slot
        ||| self.id == 23  // rocket launcher
        ||| self.id == 104  // hookshot
    }

    /// An occupied cell that is neither half of a two-slot item.
    pub open spec fn spec_is_single(self) -> bool {
        !self.spec_is_empty() && !self.spec_is_slot_two() && !self.spec_is_two_slot_item()
    }

    pub fn empty() -> (r: Self)
        ensures
            r == (Item { id: 0, count: 0 }),
    {
        Item { id: 0, count: 0 }
    }

    pub fn is_empty(&self) -> (r: bool)
        ensures
            r == self.spec_is_empty(),
    {
        self.id == 0
    }

    pub fn is_slot_two(&self) -> (r: bool)
        ensures
            r == self.spec_is_slot_two(),
    {
        self.id == SLOT_TWO
    }

    pub fn is_two_slot_item(&self) -> (r: bool)
        ensures
            r == self.spec_is_two_slot_item(),
    {
        self.id == 5 || self.id == 6 || self.id == 7 || self.id == 8 || self.id == 9
            || self.id == 11 || self.id == 12 || self.id == 23 || self.id == 104
    }
}

/// No slot-two sentinel sits in an even (left-hand) cell, no two-slot
/// item starts in an odd (right-hand) cell, and the occupied cells form
/// a contiguous prefix.
pub open spec fn bag_organized(s: Seq<Item>) -> bool {
    &&& forall|i: int|
        0 <= i < s.len() && i % 2 == 0 ==> !(#[trigger] s[i]).spec_is_slot_two()
    &&& forall|i: int|
        0 <= i < s.len() && i % 2 == 1 ==> !(#[trigger] s[i]).spec_is_two_slot_item()
    &&& forall|i: int, j: int|
        0 <= i < j < s.len() && (#[trigger] s[i]).spec_is_empty() ==> (#[trigger] s[j]).spec_is_empty()
}

/// The cell after `i` exists and holds a slot-two sentinel.
pub open spec fn slot_two_follows(s: Seq<Item>, i: int) -> bool {
    i + 1 < s.len() && s[i + 1].spec_is_slot_two()
}

/// Some two-slot item lacks its sentinel in the next cell, or some
/// sentinel is not preceded by a two-slot item: a structural pairing
/// violation, independent of left/right positioning.
pub open spec fn bag_broken(s: Seq<Item>) -> bool {
    exists|i: int|
        0 <= i < s.len() && (#[trigger] s[i]).spec_is_two_slot_item() != slot_two_follows(s, i)
}

/// How many cells of `s` are empty.
pub open spec fn num_empty(s: Seq<Item>) -> nat
    decreases s.len(),
{
    if s.len() == 0 {
        0
    } else {
        num_empty(s.drop_last()) + if s.last().spec_is_empty() { 1nat } else { 0nat }
    }
}

/// A two-slot item can be exchanged into cell `index`: at least two free
/// cells, or one free cell and an occupied target (a same-slot swap), or
/// the next cell already holds a slot-two sentinel (space is reserved).
pub open spec fn spec_can_exchange_double(s: Seq<Item>, index: int) -> bool
    recommends
        0 <= index < s.len(),
{
    ||| num_empty(s) >= 2
    ||| (num_empty(s) == 1 && !s[index].spec_is_empty())
    ||| (index + 1 < s.len() && s[index + 1].spec_is_slot_two())
}

/// The fixed-size view window: a positional copy of six store cells.
#[derive(Clone, Copy, Debug)]
pub struct Bag {
    pub unknown00: i32,
    pub items: [Item; BAG_SIZE],
    pub personal_item: Item,
    pub equipped_item_index: i32,
}

impl View for Bag {
    type V = Seq<Item>;

    open spec fn view(&self) -> Seq<Item> {
        self.items@
    }
}

impl Bag {
    pub fn empty() -> (r: Self)
        ensures
            r@.len() == BAG_SIZE,
            forall|i: int| 0 <= i < BAG_SIZE ==> (#[trigger] r@[i]) == (Item { id: 0, count: 0 }),
    {
        Bag {
            unknown00: 0,
            items: [Item { id: 0, count: 0 }; BAG_SIZE],
            personal_item: Item { id: 0, count: 0 },
            equipped_item_index: -1,
        }
    }

    pub fn is_organized(&self) -> (r: bool)
        ensures
            r == bag_organized(self@),
    {
        let ghost s = self@;
        let mut seen_empty = false;
        let ghost mut first_empty: int = 0;
        let mut i: usize = 0;
        while i < BAG_SIZE
            invariant
                0 <= i <= BAG_SIZE,
                s == self@,
                s.len() == BAG_SIZE,
                forall|k: int| 0 <= k < i && k % 2 == 0 ==> !(#[trigger] s[k]).spec_is_slot_two(),
                forall|k: int| 0 <= k < i && k % 2 == 1 ==> !(#[trigger] s[k]).spec_is_two_slot_item(),
                seen_empty ==> 0 <= first_empty < i && s[first_empty].spec_is_empty(),
                !seen_empty ==> forall|k: int| 0 <= k < i ==> !(#[trigger] s[k]).spec_is_empty(),
                forall|k: int, j: int|
                    0 <= k < j < i && (#[trigger] s[k]).spec_is_empty() ==> (#[trigger] s[j]).spec_is_empty(),
            decreases BAG_SIZE - i,
        {
            let it = self.items[i];
            if i % 2 == 0 && it.is_slot_two() {
                return false;
            }
            if i % 2 == 1 && it.is_two_slot_item() {
                return false;
            }
            if seen_empty && !it.is_empty() {
                assert(s[first_empty].spec_is_empty() && !s[i as int].spec_is_empty());
                return false;
            }
            if it.is_empty() && !seen_empty {
                seen_empty = true;
                proof {
                    first_empty = i as int;
                }
            }
            i += 1;
        }
        true
    }

    pub fn is_broken(&self) -> (r: bool)
        ensures
            r == bag_broken(self@),
    {
        let ghost s = self@;
        let mut i: usize = 0;
        while i < BAG_SIZE
            invariant
                0 <= i <= BAG_SIZE,
                s == self@,
                s.len() == BAG_SIZE,
                forall|k: int|
                    0 <= k < i ==> (#[trigger] s[k]).spec_is_two_slot_item() == slot_two_follows(s, k),
            decreases BAG_SIZE - i,
        {
            let is_two_slot = self.items[i].is_two_slot_item();
            let follows = i + 1 < BAG_SIZE && self.items[i + 1].is_slot_two();
            if is_two_slot != follows {
                return true;
            }
            i += 1;
        }
        false
    }

    pub fn is_valid(&self) -> (r: bool)
        ensures
            r == (bag_organized(self@) && !bag_broken(self@)),
    {
        self.is_organized() && !self.is_broken()
    }

    pub fn can_exchange_double(&self, index: usize) -> (r: bool)
        requires
            index < BAG_SIZE,
        ensures
            r == spec_can_exchange_double(self@, index as int),
    {
        let ghost s = self@;
        let mut n: usize = 0;
        let mut i: usize = 0;
        while i < BAG_SIZE
            invariant
                0 <= i <= BAG_SIZE,
                s == self@,
                s.len() == BAG_SIZE,
                n == num_empty(s.take(i as int)),
                n <= i,
            decreases BAG_SIZE - i,
        {
            proof {
                assert(s.take(i + 1).drop_last() =~= s.take(i as int));
                assert(s.take(i + 1).last() == s[i as int]);
            }
            if self.items[i].is_empty() {
                n += 1;
            }
            i += 1;
        }
        proof {
            assert(s.take(BAG_SIZE as int) =~= s);
        }
        n >= 2 || (n == 1 && !self.items[index].is_empty())
            || (index + 1 < BAG_SIZE && self.items[index + 1].is_slot_two())
    }

    pub fn is_slot_two(&self, index: usize) -> (r: bool)
        ensures
            r == (index < BAG_SIZE && self@[index as int].spec_is_slot_two()),
    {
        index < BAG_SIZE && self.items[index].is_slot_two()
    }
}

/// The empty cell value.
pub open spec fn empty_item() -> Item {
    Item { id: 0, count: 0 }
}

/// `s` extended with empty cells until it is at least `n` long.
pub open spec fn pad_to(s: Seq<Item>, n: int) -> Seq<Item> {
    if s.len() >= n {
        s
    } else {
        s + Seq::new((n - s.len()) as nat, |i: int| empty_item())
    }
}

/// The largest even number not above `x`.
pub open spec fn round_down_even(x: int) -> int {
    x - (x % 2)
}

/// Index of the last occupied cell of `s`, or 0 if every cell is empty.
pub open spec fn last_occupied(s: Seq<Item>) -> int
    decreases s.len(),
{
    if s.len() == 0 {
        0
    } else if !s.last().spec_is_empty() {
        s.len() - 1
    } else {
        last_occupied(s.drop_last())
    }
}

/// Start of the last occupied two-cell row of `s`.
pub open spec fn last_row(s: Seq<Item>) -> int {
    round_down_even(last_occupied(s))
}

/// Where a scroll by `off` from cursor `idx` lands: the requested cell
/// rounded up to an even boundary, clamped to `[0, last_row(s)]`.
pub open spec fn scroll_target(s: Seq<Item>, idx: int, off: int) -> int {
    let r = round_down_even(idx + off + 1);
    if r < 0 {
        0
    } else if r > last_row(s) {
        last_row(s)
    } else {
        r
    }
}

/// The item box: the backing store of items, the cursor, and the derived
/// six-cell view. The store is the single source of truth; the view is a
/// positional copy of `items[index .. index + BAG_SIZE]`.
pub struct ItemBox {
    pub is_open: bool,
    pub items: Vec<Item>,
    pub index: usize,
    pub view: Bag,
}

impl ItemBox {
    /// Basic well-formedness: the cursor is even and small enough that
    /// cursor arithmetic cannot overflow.
    pub open spec fn wf(self) -> bool {
        self.index % 2 == 0 && self.index + BAG_SIZE <= isize::MAX as usize
    }

    /// The view mirrors the store at the cursor.
    pub open spec fn view_in_sync(self) -> bool {
        &&& self.items@.len() >= self.index + BAG_SIZE
        &&& self.view@ == self.items@.subrange(self.index as int, self.index + BAG_SIZE as int)
    }

    pub fn new() -> (r: Self)
        ensures
            r.wf(),
            !r.is_open,
            r.index == 0,
            r.items@ == Seq::<Item>::empty(),
            forall|i: int| 0 <= i < BAG_SIZE ==> (#[trigger] r.view@[i]) == empty_item(),
    {
        ItemBox { is_open: false, items: Vec::new(), index: 0, view: Bag::empty() }
    }

    /// Pad the store with empty cells so that a full view's worth of
    /// cells exists at the cursor.
    fn ensure_view_len(&mut self)
        requires
            old(self).wf(),
        ensures
            final(self).wf(),
            final(self).is_open == old(self).is_open,
            final(self).index == old(self).index,
            final(self).view == old(self).view,
            final(self).items@ == pad_to(old(self).items@, old(self).index + BAG_SIZE),
            final(self).items@.len() >= old(self).index + BAG_SIZE,
    {
        let ghost orig = *self;
        let target = self.index + BAG_SIZE;
        while self.items.len() < target
            invariant
                self.index == orig.index,
                self.is_open == orig.is_open,
                self.view == orig.view,
                target == orig.index + BAG_SIZE,
                orig.items@.len() <= self.items@.len(),
                self.items@.len() <= pad_to(orig.items@, target as int).len(),
                self.items@ == pad_to(orig.items@, target as int).subrange(0, self.items@.len() as int),
            decreases target - self.items@.len(),
        {
            proof {
                assert(pad_to(orig.items@, target as int)[self.items@.len() as int] == empty_item());
            }
            self.items.push(Item { id: 0, count: 0 });
            proof {
                assert(self.items@ =~= pad_to(orig.items@, target as int).subrange(
                    0,
                    self.items@.len() as int,
                ));
            }
        }
        proof {
            assert(self.items@ =~= pad_to(orig.items@, target as int));
        }
    }

    /// Pad the store at the cursor, then copy the six cells there into
    /// the view.
    fn update_view(&mut self)
        requires
            old(self).wf(),
        ensures
            final(self).wf(),
            final(self).is_open == old(self).is_open,
            final(self).index == old(self).index,
            final(self).items@ == pad_to(old(self).items@, old(self).index + BAG_SIZE),
            final(self).view_in_sync(),
    {
        let ghost orig = *self;
        self.ensure_view_len();
        let mut i: usize = 0;
        while i < BAG_SIZE
            invariant
                0 <= i <= BAG_SIZE,
                self.index == orig.index,
                self.is_open == orig.is_open,
                self.wf(),
                self.items@ == pad_to(orig.items@, orig.index + BAG_SIZE),
                self.items@.len() >= self.index + BAG_SIZE,
                forall|k: int|
                    0 <= k < i ==> (#[trigger] self.view@[k]) == self.items@[self.index + k],
            decreases BAG_SIZE - i,
        {
            let ghost vprev = self.view@;
            let it = self.items[self.index + i];
            self.view.items[i] = it;
            proof {
                assert(self.view@ =~= vprev.update(i as int, it));
            }
            i += 1;
        }
        proof {
            assert(self.view@ =~= self.items@.subrange(
                self.index as int,
                self.index + BAG_SIZE as int,
            ));
        }
    }

    pub fn is_open(&self) -> (r: bool)
        ensures
            r == self.is_open,
    {
        self.is_open
    }

    /// Borrow the view for reading or host-side editing. Edits flow back
    /// into the store only through `update_from_view`.
    pub fn view(&mut self) -> (r: &mut Bag)
        ensures
            *r == old(self).view,
            final(self).view == *final(r),
            final(self).is_open == old(self).is_open,
            final(self).index == old(self).index,
            final(self).items@ == old(self).items@,
    {
        &mut self.view
    }

    pub fn get_contents(&self) -> (r: &[Item])
        ensures
            r@ == self.items@,
    {
        self.items.as_slice()
    }

    /// Replace the store outright. The box is closed first (it can be
    /// left open by an abrupt host-side teardown), the cursor is reset,
    /// and the view is rebuilt.
    pub fn set_contents(&mut self, items: Vec<Item>)
        ensures
            final(self).wf(),
            !final(self).is_open,
            final(self).index == 0,
            final(self).items@ == pad_to(items@, BAG_SIZE as int),
            final(self).view_in_sync(),
    {
        self.close();
        self.items = items;
        self.index = 0;
        self.update_view();
    }

    /// Closed -> Open; a no-op when already open. Resets the cursor and
    /// rebuilds the view from the start of the store.
    pub fn open(&mut self)
        requires
            old(self).wf(),
        ensures
            final(self).wf(),
            final(self).is_open,
            old(self).is_open ==> *final(self) == *old(self),
            !old(self).is_open ==> {
                &&& final(self).index == 0
                &&& final(self).items@ == pad_to(old(self).items@, BAG_SIZE as int)
                &&& final(self).view_in_sync()
            },
    {
        if !self.is_open {
            self.is_open = true;
            self.index = 0;
            self.update_view();
        }
    }

    /// Open -> Closed; a no-op when already closed.
    pub fn close(&mut self)
        ensures
            !final(self).is_open,
            final(self).items@ == old(self).items@,
            final(self).index == old(self).index,
            final(self).view == old(self).view,
    {
        self.is_open = false;
    }

    /// Move the cursor by `offset` cells, normalized to an even boundary
    /// and clamped to `[0, last_row]`. Returns true iff the cursor moved;
    /// on movement the view is rebuilt at the new cursor.
    pub fn scroll_view(&mut self, offset: isize) -> (moved: bool)
        requires
            old(self).wf(),
            old(self).index + offset + 1 <= isize::MAX,
            old(self).items@.len() + BAG_SIZE <= isize::MAX,
        ensures
            final(self).wf(),
            final(self).index == scroll_target(old(self).items@, old(self).index as int, offset as int),
            moved == (final(self).index != old(self).index),
            !moved ==> *final(self) == *old(self),
            moved ==> {
                &&& final(self).is_open == old(self).is_open
                &&& final(self).items@ == pad_to(old(self).items@, final(self).index + BAG_SIZE)
                &&& final(self).view_in_sync()
            },
    {
        let ghost orig = *self;
        // index must stay a multiple of 2; an odd request rounds up
        let x1: isize = self.index as isize + offset + 1;
        let new_index: usize = if x1 < 0 {
            0
        } else {
            let rounded = (x1 - x1 % 2) as usize;
            // don't let the cursor point past the last occupied row
            let last_row_index = self.last_row_index();
            if rounded > last_row_index {
                last_row_index
            } else {
                rounded
            }
        };
        if self.index != new_index {
            self.index = new_index;
            self.update_view();
            true
        } else {
            false
        }
    }

    /// Start of the last occupied two-cell row of the store.
    fn last_row_index(&self) -> (r: usize)
        ensures
            r == last_row(self.items@),
            r % 2 == 0,
            r <= self.items@.len(),
    {
        let ghost s = self.items@;
        proof {
            assert(s.take(s.len() as int) =~= s);
        }
        let mut j = self.items.len();
        let mut last: usize = 0;
        let mut found = false;
        while j > 0 && !found
            invariant
                0 <= j <= s.len(),
                s == self.items@,
                !found ==> last == 0 && last_occupied(s) == last_occupied(s.take(j as int)),
                found ==> j < s.len() && last == j && last_occupied(s) == j,
            decreases j + if found { 0int } else { 1int },
        {
            j -= 1;
            proof {
                assert(s.take(j + 1).drop_last() =~= s.take(j as int));
                assert(s.take(j + 1).last() == s[j as int]);
            }
            if !self.items[j].is_empty() {
                last = j;
                found = true;
                proof {
                    lemma_last_occupied_take(s, j as int);
                }
            }
        }
        proof {
            if !found {
                assert(s.take(0) =~= Seq::<Item>::empty());
            }
        }
        last - last % 2
    }

    /// Rebuild the store into alignment: drop empty cells, insert the
    /// missing sentinel after any unterminated two-slot item, drop
    /// orphaned sentinels, then realign two-slot items left on odd
    /// indices.
    ///
    /// The contract also states idempotence: a store that is already
    /// fully repaired (`valid_store`) comes back unchanged, and one pass
    /// fully repairs any store that does not end in a two-slot item, so
    /// a second pass over such a store's result changes nothing.
    #[verifier::rlimit(100)]
    pub fn organize(&mut self)
        requires
            old(self).wf(),
            old(self).items@.len() <= isize::MAX as usize,
        ensures
            final(self).wf(),
            final(self).is_open == old(self).is_open,
            final(self).index == old(self).index,
            final(self).view == old(self).view,
            final(self).items@.len() <= 2 * old(self).items@.len(),
            compact(final(self).items@),
            grounded(final(self).items@),
            no_even_slot_two(final(self).items@),
            singles(final(self).items@).to_multiset() == singles(old(self).items@).to_multiset(),
            doubles(final(self).items@) == doubles(old(self).items@),
            (old(self).items@.len() == 0 || !old(self).items@.last().spec_is_two_slot_item())
                ==> valid_store(final(self).items@),
            store_well_formed(old(self).items@) ==> final(self).items@ == old(
                self,
            ).items@.take(occ_len(old(self).items@)),
            valid_store(old(self).items@) ==> final(self).items@ == old(self).items@,
    {
        let ghost s = old(self).items@;
        let ghost orig = *old(self);
        let mut new_items: Vec<Item> = Vec::new();
        let n = self.items.len();
        let mut i: usize = 0;
        proof {
            lemma_occ_trailing(s);
            assert(s.take(0) =~= Seq::<Item>::empty());
        }
        // remove all empty cells and fix any broken two-slot pairings
        while i < n
            invariant
                *self == orig,
                s == orig.items@,
                n == s.len(),
                0 <= i <= n,
                new_items@.len() <= 2 * i,
                compact(new_items@),
                grounded(new_items@),
                near_terminated(new_items@),
                i == 0 ==> new_items@.len() == 0,
                i > 0 ==> ((new_items@.len() > 0 && new_items@.last().spec_is_two_slot_item())
                    <==> s[i - 1].spec_is_two_slot_item()),
                singles(new_items@) == singles(s.take(i as int)),
                doubles(new_items@) == doubles(s.take(i as int)),
                store_well_formed(s) ==> new_items@ == (if i <= occ_len(s) {
                    s.take(i as int)
                } else {
                    s.take(occ_len(s))
                }),
            decreases n - i,
        {
            let item = self.items[i];
            let expect_slot_two = i > 0 && self.items[i - 1].is_two_slot_item();
            proof {
                assert(s.take(i + 1).drop_last() =~= s.take(i as int));
                assert(s.take(i + 1).last() == s[i as int]);
                lemma_sel_push(s.take(i as int), s[i as int]);
                if store_well_formed(s) {
                    lemma_well_formed_cell(s, i as int);
                }
            }
            if item.is_slot_two() != expect_slot_two {
                if expect_slot_two {
                    // a two-slot item with no second cell: synthesize one
                    proof {
                        lemma_sel_push(new_items@, Item { id: SLOT_TWO, count: 1 });
                    }
                    new_items.push(Item { id: SLOT_TWO, count: 1 });
                } else {
                    // an orphaned sentinel: drop it
                    i += 1;
                    continue;
                }
            }
            if !item.is_empty() {
                proof {
                    lemma_sel_push(new_items@, item);
                }
                new_items.push(item);
            }
            i += 1;
        }
        proof {
            assert(s.take(n as int) =~= s);
            // a store not ending in a two-slot item is fully terminated
            if n == 0 || !s[n - 1].spec_is_two_slot_item() {
                assert forall|k: int|
                    0 <= k < new_items@.len() && (#[trigger] new_items@[k]).spec_is_two_slot_item()
                        implies k + 1 < new_items@.len() && new_items@[k + 1].spec_is_slot_two() by {
                    assert(k < new_items@.len() - 1);
                };
                assert(terminated(new_items@));
            }
        }
        // realign any misaligned two-slot items
        self.items = new_items;
        let ghost t = self.items@;
        self.fix_misaligned(0);
        proof {
            if n == 0 || !s[n - 1].spec_is_two_slot_item() {
                // terminated + grounded + sentinels off even cells
                // together give even alignment
                assert forall|k: int|
                    0 <= k < self.items@.len() && (#[trigger] self.items@[k]).spec_is_two_slot_item()
                        implies k % 2 == 0 by {
                    assert(self.items@[k + 1].spec_is_slot_two());
                };
                assert(valid_store(self.items@));
            }
            if store_well_formed(s) {
                lemma_occ_trailing(s);
                assert(t == s.take(occ_len(s)));
                lemma_valid_no_even_slot_two(s.take(occ_len(s)));
                assert(self.items@ == s.take(occ_len(s)));
            }
            if valid_store(s) {
                lemma_occ_of_padded(s, s.len() as int);
                assert(s.take(occ_len(s)) =~= s);
                assert(self.items@ == s);
            }
        }
    }

    /// Second organize pass: find runs of two-slot items whose sentinels
    /// landed on even indices after compaction, and rotate the single
    /// item preceding each run behind it, restoring even alignment.
    /// Scanning begins at `check_start`, rounded down to even.
    #[verifier::rlimit(60)]
    fn fix_misaligned(&mut self, check_start: usize)
        requires
            old(self).wf(),
            old(self).items@.len() <= usize::MAX - 1,
            check_start % 2 == 0,
            check_start <= old(self).items@.len(),
            forall|i: int|
                0 <= i < check_start && i % 2 == 0 ==> !(#[trigger] old(
                    self,
                ).items@[i]).spec_is_slot_two(),
            compact(old(self).items@),
            grounded(old(self).items@),
            near_terminated(old(self).items@),
        ensures
            final(self).wf(),
            final(self).is_open == old(self).is_open,
            final(self).index == old(self).index,
            final(self).view == old(self).view,
            final(self).items@.len() <= old(self).items@.len(),
            compact(final(self).items@),
            grounded(final(self).items@),
            no_even_slot_two(final(self).items@),
            singles(final(self).items@).to_multiset() == singles(old(self).items@).to_multiset(),
            doubles(final(self).items@) == doubles(old(self).items@),
            terminated(old(self).items@) ==> terminated(final(self).items@),
            no_even_slot_two(old(self).items@) ==> final(self).items@ == old(self).items@,
    {
        let ghost s0 = old(self).items@;
        let ghost orig = *old(self);
        let mut check_start = check_start;
        loop
            invariant
                self.wf(),
                self.is_open == orig.is_open,
                self.index == orig.index,
                self.view == orig.view,
                compact(self.items@),
                grounded(self.items@),
                self.items@.len() <= old(self).items@.len(),
                self.items@.len() <= usize::MAX - 1,
                check_start <= self.items@.len(),
                check_start % 2 == 1 ==> !self.items@[check_start - 1].spec_is_slot_two(),
                forall|i: int|
                    0 <= i < check_start && i % 2 == 0 ==> !(#[trigger] self.items@[i]).spec_is_slot_two(),
                forall|i: int|
                    0 <= i < self.items@.len() && (#[trigger] self.items@[i]).spec_is_two_slot_item()
                        && !slot_two_follows(self.items@, i) ==> i == self.items@.len() - 1 || (i
                        == self.items@.len() - 2 && check_start >= self.items@.len()),
                singles(self.items@).to_multiset() == singles(s0).to_multiset(),
                doubles(self.items@) == doubles(s0),
                terminated(s0) ==> terminated(self.items@),
                no_even_slot_two(s0) ==> self.items@ == s0,
            ensures
                no_even_slot_two(self.items@),
            decreases self.items@.len() - check_start,
        {
            let ghost cur = *self;
            let ghost v = self.items@;
            let n = self.items.len();
            // scan even cells from check_start, rounded down, for a sentinel
            let scan_start = check_start - check_start % 2;
            let mut i = scan_start;
            while i < n && !self.items[i].is_slot_two()
                invariant
                    *self == cur,
                    v == cur.items@,
                    n == v.len(),
                    n <= usize::MAX - 1,
                    i % 2 == 0,
                    scan_start <= i,
                    forall|k: int|
                        scan_start <= k < i && k % 2 == 0 ==> !(#[trigger] v[k]).spec_is_slot_two(),
                decreases n + 2 - i,
            {
                i += 2;
            }
            if i >= n {
                // every even cell is clear of sentinels
                proof {
                    assert forall|m: int| 0 <= m < v.len() && m % 2 == 0 implies !(#[trigger] v[m]).spec_is_slot_two() by {
                        if m < scan_start {
                            assert(m < check_start);
                        }
                    };
                }
                break;
            }
            let bad = i;
            proof {
                // a sentinel was found on an even cell, so the store was not
                // already aligned, and the scan start sits inside the store
                if no_even_slot_two(s0) {
                    assert(v[bad as int].spec_is_slot_two() && bad % 2 == 0);
                    assert(false);
                }
                if check_start >= n {
                    assert(check_start == n);
                    if n % 2 == 0 {
                        assert(scan_start >= n);
                        assert(false);
                    } else {
                        assert(scan_start == n - 1);
                        assert(bad == n - 1);
                        assert(!v[check_start - 1].spec_is_slot_two());
                        assert(false);
                    }
                }
                // so unpaired two-slot items sit only at the very last cell
                assert forall|idx: int|
                    0 <= idx < v.len() && (#[trigger] v[idx]).spec_is_two_slot_item()
                        && !slot_two_follows(v, idx) implies idx == v.len() - 1 by {};
            }
            if bad < 2 {
                // a sentinel in the first cell pair cannot occur in a
                // grounded store; the self-healing choice drops the cell
                proof {
                    assert(bad == 0);
                    assert(false);
                }
                self.items.remove(0);
                continue;
            }
            let range_start = bad - 2;
            // find where the run of even-indexed sentinels ends
            let mut j = bad + 2;
            while j < n && self.items[j].is_slot_two()
                invariant
                    *self == cur,
                    v == cur.items@,
                    n == v.len(),
                    n <= usize::MAX - 1,
                    j % 2 == 0,
                    bad + 2 <= j,
                    v[bad as int].spec_is_slot_two(),
                    forall|k: int|
                        bad <= k < j && k < n && k % 2 == 0 ==> (#[trigger] v[k]).spec_is_slot_two(),
                decreases n + 2 - j,
            {
                j += 2;
            }
            let range_end = if j < n { j - 1 } else { n };
            proof {
                lemma_fix_rotation(v, bad as int, range_end as int);
            }
            if self.items[range_start].is_empty() {
                // cannot occur in a compact store; drop the stray empty cell
                proof {
                    assert(false);
                }
                self.items.remove(range_start);
            } else {
                // rotate the range [range_start, range_end) left by one
                let saved = self.items[range_start];
                let mut k = range_start;
                while k + 1 < range_end
                    invariant
                        self.wf(),
                        self.is_open == cur.is_open,
                        self.index == cur.index,
                        self.view == cur.view,
                        n == v.len(),
                        self.items@.len() == v.len(),
                        range_start <= k,
                        range_start + 3 <= range_end <= n,
                        k < range_end,
                        saved == v[range_start as int],
                        forall|m: int| 0 <= m < range_start ==> self.items@[m] == v[m],
                        forall|m: int| range_start <= m < k ==> self.items@[m] == v[m + 1],
                        forall|m: int| k <= m < v.len() ==> self.items@[m] == v[m],
                    decreases range_end - k,
                {
                    let next = self.items[k + 1];
                    self.items[k] = next;
                    k += 1;
                }
                self.items[range_end - 1] = saved;
                proof {
                    assert(self.items@ =~= rotl1(v, range_start as int, range_end as int));
                }
            }
            proof {
                // the loop measure shrinks: the new scan start is past `bad`
                if check_start % 2 == 1 {
                    assert(!v[check_start - 1].spec_is_slot_two());
                    assert(bad != check_start - 1);
                }
                assert(check_start < range_end);
            }
            check_start = range_end;
        }
    }

    /// Make room in the store for a two-slot item to be exchanged into
    /// view cell `index`. If the view cannot currently host one there, an
    /// empty cell is inserted into the store right after that cell; when
    /// `index` is the view's last cell, the displaced item is additionally
    /// swapped outside the view. Afterwards the view can always host a
    /// two-slot item at `index`.
    pub fn make_room_for_double(&mut self, index: usize)
        requires
            old(self).wf(),
            index < BAG_SIZE,
        ensures
            final(self).wf(),
            final(self).is_open == old(self).is_open,
            final(self).index == old(self).index,
            spec_can_exchange_double(old(self).view@, index as int) ==> *final(self) == *old(self),
            !spec_can_exchange_double(old(self).view@, index as int) ==> {
                let p = pad_to(old(self).items@, old(self).index + BAG_SIZE);
                let bi = old(self).index + index;
                let q = p.insert(bi + 1, empty_item());
                &&& final(self).items@ == (if index == BAG_SIZE - 1 {
                    q.update(bi - 1, q[bi + 1]).update(bi + 1, q[bi - 1])
                } else {
                    q
                })
                &&& final(self).view_in_sync()
            },
            spec_can_exchange_double(final(self).view@, index as int),
    {
        // only act if there is no room already
        if !self.view.can_exchange_double(index) {
            let ghost orig = *self;
            self.ensure_view_len();
            let ghost p = self.items@;
            let box_index = index + self.index;
            self.items.insert(box_index + 1, Item::empty());
            let ghost q = self.items@;
            proof {
                assert(q == p.insert(box_index + 1, empty_item()));
            }
            if index == BAG_SIZE - 1 {
                // exchanging with the last cell: shift the displaced item
                // outside the view
                let shifted = self.items[box_index - 1];
                let inserted = self.items[box_index + 1];
                self.items[box_index - 1] = inserted;
                self.items[box_index + 1] = shifted;
                proof {
                    assert(self.items@ == q.update(box_index - 1, q[box_index + 1]).update(
                        box_index + 1,
                        q[box_index - 1],
                    ));
                }
            }
            let ghost r = self.items@;
            self.update_view();
            proof {
                assert(pad_to(r, self.index + BAG_SIZE) == r);
                assert(self.items@ == r);
                let w = self.view@;
                let c = self.index as int;
                assert(w.len() == BAG_SIZE);
                // an empty cell now sits right where the two-slot item
                // needs its second half
                let e: int = if index == BAG_SIZE - 1 {
                    index - 1
                } else {
                    index + 1
                };
                assert(w[e] == r[c + e]);
                assert(w[e].spec_is_empty());
                lemma_num_empty_at(w, e);
                assert(num_empty(w) >= 1);
                if num_empty(w) < 2 {
                    let t: int = index as int;
                    if w[t].spec_is_empty() {
                        if t < e {
                            lemma_num_empty_two(w, t, e);
                        } else {
                            lemma_num_empty_two(w, e, t);
                        }
                        assert(false);
                    }
                    assert(!w[index as int].spec_is_empty());
                }
                assert(spec_can_exchange_double(w, index as int));
            }
        }
    }

    /// Reconcile host edits made to the view back into the store. If the
    /// view is not in a valid state the host is still mid-edit, and
    /// nothing happens — a deliberate no-op, not an error. Otherwise the
    /// view's six cells are written over the store at the cursor, the
    /// whole store is organized, and the view is rebuilt at the same
    /// cursor from the repaired store.
    ///
    /// When the written-in store is already a repaired prefix plus
    /// padding, the round trip reproduces the view's occupied cells
    /// exactly and pads the rest: writing and reconciling is then lossless.
    pub fn update_from_view(&mut self)
        requires
            old(self).wf(),
            old(self).items@.len() <= isize::MAX as usize,
        ensures
            final(self).wf(),
            final(self).is_open == old(self).is_open,
            final(self).index == old(self).index,
            !(bag_organized(old(self).view@) && !bag_broken(old(self).view@)) ==> *final(self)
                == *old(self),
            (bag_organized(old(self).view@) && !bag_broken(old(self).view@)) ==> {
                let spl = spliced(old(self).items@, old(self).index as int, old(self).view@);
                let fin = final(self).items@;
                &&& fin.len() <= 2 * spl.len() + old(self).index + BAG_SIZE
                &&& singles(fin).to_multiset() == singles(spl).to_multiset()
                &&& doubles(fin) == doubles(spl)
                &&& grounded(fin)
                &&& no_even_slot_two(fin)
                &&& final(self).view_in_sync()
                &&& ((spl.len() == 0 || !spl.last().spec_is_two_slot_item())
                    ==> store_well_formed(fin))
                &&& (store_well_formed(spl) ==> {
                    &&& fin == pad_to(
                        spl.take(occ_len(spl)),
                        old(self).index + BAG_SIZE,
                    )
                    &&& forall|j: int|
                        0 <= j < BAG_SIZE && old(self).index + j < occ_len(spl)
                            ==> final(self).view@[j] == old(self).view@[j]
                    &&& forall|j: int|
                        0 <= j < BAG_SIZE && old(self).index + j >= occ_len(spl)
                            ==> final(self).view@[j] == empty_item()
                })
            },
    {
        // wait until the host has finished organizing the view
        if !self.view.is_valid() {
            return;
        }
        let ghost c = self.index as int;
        let ghost s_old = self.items@;
        let ghost vw = self.view@;
        let ghost spl = spliced(s_old, c, vw);
        let ghost orig = *self;
        self.ensure_view_len();
        let ghost padded = self.items@;
        // copy the view's cells over the store at the cursor
        let mut i: usize = 0;
        while i < BAG_SIZE
            invariant
                0 <= i <= BAG_SIZE,
                self.wf(),
                self.is_open == orig.is_open,
                self.index == orig.index,
                self.view == orig.view,
                c == self.index as int,
                vw == self.view@,
                padded == pad_to(s_old, c + BAG_SIZE),
                self.items@.len() == padded.len(),
                padded.len() >= c + BAG_SIZE,
                forall|m: int| 0 <= m < c ==> self.items@[m] == padded[m],
                forall|m: int| c <= m < c + i ==> self.items@[m] == vw[m - c],
                forall|m: int| c + i <= m < padded.len() ==> self.items@[m] == padded[m],
            decreases BAG_SIZE - i,
        {
            let it = self.view.items[i];
            self.items[self.index + i] = it;
            i += 1;
        }
        proof {
            assert(self.items@ =~= spl);
        }
        // re-organize the box to account for any gaps or oddities
        self.organize();
        let ghost x = self.items@;
        self.update_view();
        proof {
            let fin = self.items@;
            lemma_sel_pad(x, c + BAG_SIZE);
            assert(fin == pad_to(x, c + BAG_SIZE));
            assert forall|m: int|
                0 <= m < fin.len() && (#[trigger] fin[m]).spec_is_slot_two() implies 0 < m && fin[m
                - 1].spec_is_two_slot_item() by {
                assert(fin[m] == (if m < x.len() { x[m] } else { empty_item() }));
                assert(m < x.len());
                assert(fin[m - 1] == x[m - 1]);
            };
            assert forall|m: int|
                0 <= m < fin.len() && m % 2 == 0 implies !(#[trigger] fin[m]).spec_is_slot_two() by {
                assert(fin[m] == (if m < x.len() { x[m] } else { empty_item() }));
            };
            if spl.len() == 0 || !spl.last().spec_is_two_slot_item() {
                assert(valid_store(x));
                assert forall|m: int| 0 <= m < x.len() implies !(#[trigger] fin[m]).spec_is_empty() by {
                    assert(fin[m] == x[m]);
                };
                lemma_occ_of_padded(fin, x.len() as int);
                assert(fin.take(x.len() as int) =~= x);
                assert(store_well_formed(fin));
            }
            if store_well_formed(spl) {
                lemma_occ_trailing(spl);
                let kk = occ_len(spl);
                assert(x == spl.take(kk));
                assert(x.len() == kk);
                assert forall|j: int| 0 <= j < BAG_SIZE && c + j < kk implies self.view@[j] == vw[j] by {
                    assert(self.view@[j] == fin[c + j]);
                    assert(fin[c + j] == x[c + j]);
                    assert(x[c + j] == spl[c + j]);
                    assert(spl[c + j] == vw[j]);
                };
                assert forall|j: int|
                    0 <= j < BAG_SIZE && c + j >= kk implies self.view@[j] == empty_item() by {
                    assert(self.view@[j] == fin[c + j]);
                    assert(fin[c + j] == (if c + j < x.len() { x[c + j] } else { empty_item() }));
                };
            }
        }
    }
}

/// No cell of `s` is empty.
pub open spec fn compact(s: Seq<Item>) -> bool {
    forall|i: int| 0 <= i < s.len() ==> !(#[trigger] s[i]).spec_is_empty()
}

/// Every slot-two sentinel is immediately preceded by a two-slot item.
pub open spec fn grounded(s: Seq<Item>) -> bool {
    forall|i: int|
        0 <= i < s.len() && (#[trigger] s[i]).spec_is_slot_two() ==> 0 < i && s[i
            - 1].spec_is_two_slot_item()
}

/// Every two-slot item is immediately followed by its slot-two sentinel.
pub open spec fn terminated(s: Seq<Item>) -> bool {
    forall|i: int|
        0 <= i < s.len() && (#[trigger] s[i]).spec_is_two_slot_item() ==> i + 1 < s.len() && s[i
            + 1].spec_is_slot_two()
}

/// Like `terminated`, but tolerates a two-slot item in the very last cell.
pub open spec fn near_terminated(s: Seq<Item>) -> bool {
    forall|i: int|
        0 <= i < s.len() - 1 && (#[trigger] s[i]).spec_is_two_slot_item() ==> s[i
            + 1].spec_is_slot_two()
}

/// Every two-slot item starts at an even index.
pub open spec fn aligned(s: Seq<Item>) -> bool {
    forall|i: int| 0 <= i < s.len() && (#[trigger] s[i]).spec_is_two_slot_item() ==> i % 2 == 0
}

/// No slot-two sentinel sits at an even index.
pub open spec fn no_even_slot_two(s: Seq<Item>) -> bool {
    forall|i: int|
        0 <= i < s.len() && i % 2 == 0 ==> !(#[trigger] s[i]).spec_is_slot_two()
}

/// A fully repaired store: no empty cells, every two-slot item paired
/// with a sentinel right after it, every sentinel right after its item,
/// and every two-slot item on an even index.
pub open spec fn valid_store(s: Seq<Item>) -> bool {
    compact(s) && grounded(s) && terminated(s) && aligned(s)
}

/// The subsequence of single-cell occupied items, in store order.
pub open spec fn singles(s: Seq<Item>) -> Seq<Item>
    decreases s.len(),
{
    if s.len() == 0 {
        Seq::empty()
    } else if s.last().spec_is_single() {
        singles(s.drop_last()).push(s.last())
    } else {
        singles(s.drop_last())
    }
}

/// The subsequence of two-slot items, in store order.
pub open spec fn doubles(s: Seq<Item>) -> Seq<Item>
    decreases s.len(),
{
    if s.len() == 0 {
        Seq::empty()
    } else if s.last().spec_is_two_slot_item() {
        doubles(s.drop_last()).push(s.last())
    } else {
        doubles(s.drop_last())
    }
}

/// `singles` and `doubles` distribute over concatenation.
pub proof fn lemma_sel_add(a: Seq<Item>, b: Seq<Item>)
    ensures
        singles(a + b) == singles(a) + singles(b),
        doubles(a + b) == doubles(a) + doubles(b),
    decreases b.len(),
{
    if b.len() == 0 {
        assert(a + b =~= a);
        assert(singles(a) + singles(b) =~= singles(a));
        assert(doubles(a) + doubles(b) =~= doubles(a));
    } else {
        lemma_sel_add(a, b.drop_last());
        assert((a + b).drop_last() =~= a + b.drop_last());
        assert((a + b).last() == b.last());
        if b.last().spec_is_single() {
            assert(singles(a) + singles(b) =~= (singles(a) + singles(b.drop_last())).push(
                b.last(),
            ));
        } else {
            assert(singles(a) + singles(b) =~= singles(a) + singles(b.drop_last()));
        }
        if b.last().spec_is_two_slot_item() {
            assert(doubles(a) + doubles(b) =~= (doubles(a) + doubles(b.drop_last())).push(
                b.last(),
            ));
        } else {
            assert(doubles(a) + doubles(b) =~= doubles(a) + doubles(b.drop_last()));
        }
    }
}

/// `singles` and `doubles` after appending one element.
pub proof fn lemma_sel_push(s: Seq<Item>, x: Item)
    ensures
        singles(s.push(x)) == if x.spec_is_single() {
            singles(s).push(x)
        } else {
            singles(s)
        },
        doubles(s.push(x)) == if x.spec_is_two_slot_item() {
            doubles(s).push(x)
        } else {
            doubles(s)
        },
{
    assert(s.push(x).drop_last() =~= s);
    assert(s.push(x).last() == x);
}

/// `singles` and `doubles` of a sequence with no single or two-slot
/// items are empty.
pub proof fn lemma_sel_none(s: Seq<Item>)
    requires
        forall|i: int| 0 <= i < s.len() ==> !(#[trigger] s[i]).spec_is_single(),
        forall|i: int| 0 <= i < s.len() ==> !(#[trigger] s[i]).spec_is_two_slot_item(),
    ensures
        singles(s) == Seq::<Item>::empty(),
        doubles(s) == Seq::<Item>::empty(),
    decreases s.len(),
{
    if s.len() > 0 {
        lemma_sel_none(s.drop_last());
    }
}

/// Rotating a subrange left by one: the first element of the range moves
/// to the range's end and the rest shift down one cell.
pub open spec fn rotl1(v: Seq<Item>, a: int, b: int) -> Seq<Item>
    recommends
        0 <= a < b <= v.len(),
{
    v.take(a) + v.subrange(a + 1, b) + seq![v[a]] + v.skip(b)
}

/// Rotating a range led by a non-two-slot element keeps the multiset of
/// single items and the exact order of the two-slot items.
pub proof fn lemma_rotl1_sel(v: Seq<Item>, a: int, b: int)
    requires
        0 <= a < b <= v.len(),
        !v[a].spec_is_two_slot_item(),
    ensures
        singles(rotl1(v, a, b)).to_multiset() == singles(v).to_multiset(),
        doubles(rotl1(v, a, b)) == doubles(v),
{
    let mid = v.subrange(a + 1, b);
    let one = seq![v[a]];
    assert(one.drop_last() =~= Seq::<Item>::empty());
    lemma_sel_add(v.take(a) + mid, one + v.skip(b));
    lemma_sel_add(v.take(a), mid);
    lemma_sel_add(one, v.skip(b));
    lemma_sel_add(v.take(a) + one, mid + v.skip(b));
    lemma_sel_add(v.take(a), one);
    lemma_sel_add(mid, v.skip(b));
    assert(rotl1(v, a, b) =~= (v.take(a) + mid) + (one + v.skip(b)));
    assert(v =~= (v.take(a) + one) + (mid + v.skip(b)));
    // the leading element is not a two-slot item, so it contributes no doubles
    assert(one.len() == 1);
    assert(one.last() == v[a]);
    assert(doubles(one) == doubles(one.drop_last()));
    assert(doubles(one) =~= Seq::<Item>::empty());
    assert(doubles(rotl1(v, a, b)) =~= doubles(v));
    // singles may swap across the rotated run, so only the multiset is kept
    let s1 = singles(v.take(a));
    let sm = singles(mid);
    let so = singles(one);
    let s2 = singles(v.skip(b));
    vstd::seq_lib::lemma_multiset_commutative(s1 + sm, so + s2);
    vstd::seq_lib::lemma_multiset_commutative(s1, sm);
    vstd::seq_lib::lemma_multiset_commutative(so, s2);
    vstd::seq_lib::lemma_multiset_commutative(s1 + so, sm + s2);
    vstd::seq_lib::lemma_multiset_commutative(s1, so);
    vstd::seq_lib::lemma_multiset_commutative(sm, s2);
    assert(singles(rotl1(v, a, b)).to_multiset() =~= singles(v).to_multiset());
}

/// A misaligned run: `v[bad]` is a sentinel on an even index, every even
/// cell from `bad` up to the range end `b` holds a sentinel, and the cell
/// two before the run is a single item. Rotating `[bad - 2, b)` left by
/// one restores even alignment over the whole range and preserves the
/// store's structural facts.
#[verifier::rlimit(60)]
proof fn lemma_fix_rotation(v: Seq<Item>, bad: int, b: int)
    requires
        2 <= bad < v.len(),
        bad % 2 == 0,
        bad + 1 <= b <= v.len(),
        b < v.len() ==> b % 2 == 1 && b + 1 < v.len() && !v[b + 1].spec_is_slot_two(),
        compact(v),
        grounded(v),
        forall|i: int|
            0 <= i < v.len() && (#[trigger] v[i]).spec_is_two_slot_item() && !slot_two_follows(
                v,
                i,
            ) ==> i == v.len() - 1,
        forall|k: int| 0 <= k < bad && k % 2 == 0 ==> !(#[trigger] v[k]).spec_is_slot_two(),
        v[bad].spec_is_slot_two(),
        forall|k: int|
            bad <= k < b + 1 && k < v.len() && k % 2 == 0 ==> (#[trigger] v[k]).spec_is_slot_two(),
    ensures
        rotl1(v, bad - 2, b).len() == v.len(),
        compact(rotl1(v, bad - 2, b)),
        grounded(rotl1(v, bad - 2, b)),
        forall|k: int|
            0 <= k < b && k % 2 == 0 ==> !(#[trigger] rotl1(v, bad - 2, b)[k]).spec_is_slot_two(),
        !rotl1(v, bad - 2, b)[b - 1].spec_is_slot_two(),
        forall|i: int|
            0 <= i < v.len() && (#[trigger] rotl1(v, bad - 2, b)[i]).spec_is_two_slot_item()
                && !slot_two_follows(rotl1(v, bad - 2, b), i) ==> i == v.len() - 1 || (i == v.len()
                - 2 && b == v.len()),
        terminated(v) ==> terminated(rotl1(v, bad - 2, b)),
        singles(rotl1(v, bad - 2, b)).to_multiset() == singles(v).to_multiset(),
        doubles(rotl1(v, bad - 2, b)) == doubles(v),
{
    let n = v.len() as int;
    let a = bad - 2;
    let w = rotl1(v, a, b);
    assert(w.len() == n);
    assert forall|m: int| 0 <= m < n implies #[trigger] w[m] == (if m < a {
        v[m]
    } else if m < b - 1 {
        v[m + 1]
    } else if m == b - 1 {
        v[a]
    } else {
        v[m]
    }) by {};

    // the item before the sentinel at `bad` is a two-slot item
    assert(v[bad - 1].spec_is_two_slot_item());
    // the cell leading the range holds a plain single item
    assert(!v[a].spec_is_slot_two());
    assert(!v[a].spec_is_two_slot_item()) by {
        if v[a].spec_is_two_slot_item() {
            assert(!v[a + 1].spec_is_slot_two());
            assert(a == n - 1);
        }
    };
    // odd cells of the run hold two-slot items (their pairs' first halves)
    assert forall|m: int|
        bad - 1 <= m < b && m % 2 == 1 && m + 1 < n implies (#[trigger] v[m]).spec_is_two_slot_item()
    by {
        assert(v[m + 1].spec_is_slot_two());
    };
    // when the run reaches an even-length store's end, the last cell is
    // not a sentinel (its left neighbour already is one)
    assert(b == n && n % 2 == 0 ==> !v[n - 1].spec_is_slot_two()) by {
        if b == n && n % 2 == 0 && v[n - 1].spec_is_slot_two() {
            assert(v[n - 2].spec_is_two_slot_item());
            assert(v[n - 2].spec_is_slot_two());
        }
    };
    // the cell after the range, when inside the store, is a single item
    assert(b < n ==> !v[b].spec_is_slot_two() && !v[b].spec_is_two_slot_item()) by {
        if b < n {
            if v[b].spec_is_slot_two() {
                assert(v[b - 1].spec_is_two_slot_item());
                assert(v[b - 1].spec_is_slot_two());
            }
            if v[b].spec_is_two_slot_item() {
                assert(!slot_two_follows(v, b));
                assert(b == n - 1);
            }
        }
    };

    assert(compact(w)) by {
        assert forall|m: int| 0 <= m < n implies !(#[trigger] w[m]).spec_is_empty() by {
            if a <= m < b - 1 {
                assert(w[m] == v[m + 1]);
            }
        };
    };

    assert(grounded(w)) by {
        assert forall|m: int| 0 <= m < n && (#[trigger] w[m]).spec_is_slot_two() implies 0 < m && w[m
            - 1].spec_is_two_slot_item() by {
            if m < a {
                assert(w[m] == v[m]);
                assert(v[m - 1].spec_is_two_slot_item());
                assert(w[m - 1] == v[m - 1]);
            } else if m == a {
                assert(w[a] == v[bad - 1]);
            } else if m < b - 1 {
                assert(w[m] == v[m + 1]);
                // a two-slot item is never a sentinel, so `m + 1` is even
                if (m + 1) % 2 == 1 {
                    if m + 2 < n {
                        assert(v[m + 1].spec_is_two_slot_item());
                    } else {
                        assert(m + 1 == n - 1 && b == n && n % 2 == 0);
                    }
                }
                assert(m % 2 == 1);
                if m - 1 == a {
                    assert(w[a] == v[bad - 1]);
                } else {
                    assert(w[m - 1] == v[m]);
                    assert(v[m].spec_is_two_slot_item());
                }
            } else if m == b - 1 {
                assert(w[m] == v[a]);
            } else {
                assert(w[m] == v[m]);
                assert(v[m - 1].spec_is_two_slot_item());
                if m - 1 == b - 1 {
                    assert(!v[b].spec_is_slot_two());
                } else {
                    assert(w[m - 1] == v[m - 1]);
                }
            }
        };
    };

    assert forall|k: int| 0 <= k < b && k % 2 == 0 implies !(#[trigger] w[k]).spec_is_slot_two() by {
        if k < a {
            assert(w[k] == v[k]);
        } else if k == a {
            assert(w[a] == v[bad - 1]);
        } else if k < b - 1 {
            assert(w[k] == v[k + 1]);
            if k + 2 < n {
                assert(v[k + 1].spec_is_two_slot_item());
            } else {
                if k + 2 == n && b == n {
                    assert(n % 2 == 0);
                }
            }
        } else {
            assert(w[b - 1] == v[a]);
        }
    };

    assert(!w[b - 1].spec_is_slot_two()) by {
        assert(w[b - 1] == v[a]);
    };

    assert forall|i: int|
        0 <= i < n && (#[trigger] w[i]).spec_is_two_slot_item() && !slot_two_follows(w, i) implies i
        == n - 1 || (i == n - 2 && b == n) by {
        if i < a - 1 {
            assert(w[i] == v[i] && w[i + 1] == v[i + 1]);
            assert(slot_two_follows(v, i));
        } else if i == a - 1 {
            assert(w[i] == v[a - 1]);
            if v[a - 1].spec_is_two_slot_item() {
                assert(!v[a].spec_is_slot_two());
                assert(!slot_two_follows(v, a - 1));
                assert(a - 1 == n - 1);
            }
        } else if i == a {
            assert(w[a] == v[bad - 1]);
            assert(w[a + 1] == v[bad]);
            assert(slot_two_follows(w, a));
        } else if i < b - 1 {
            assert(w[i] == v[i + 1]);
            if (i + 1) % 2 == 0 {
                assert(v[i + 1].spec_is_slot_two());
            }
            assert((i + 1) % 2 == 1);
            if i + 1 < b - 1 {
                assert(w[i + 1] == v[i + 2]);
                assert(v[i + 2].spec_is_slot_two());
                assert(slot_two_follows(w, i));
            } else {
                // the run reached the store's end: the displaced item now
                // sits at the second-to-last cell
                assert(i + 1 == b - 1);
                if b < n {
                    assert(b % 2 == 1);
                    assert((b - 1) % 2 == 0);
                    assert(v[b - 1].spec_is_slot_two());
                } else {
                    assert(i == n - 2);
                }
            }
        } else if i == b - 1 {
            assert(w[i] == v[a]);
        } else {
            assert(w[i] == v[i]);
            if i < n - 1 {
                assert(slot_two_follows(v, i));
                assert(w[i + 1] == v[i + 1]);
            }
        }
    };

    assert(terminated(v) ==> terminated(w)) by {
        if terminated(v) {
            assert forall|i: int|
                0 <= i < n && (#[trigger] w[i]).spec_is_two_slot_item() implies i + 1 < n && w[i
                + 1].spec_is_slot_two() by {
                if i == n - 1 || (i == n - 2 && b == n) {
                    if i == n - 2 && b == n && !slot_two_follows(w, i) {
                        // only the displaced end-of-store item could sit here,
                        // and a terminated store has no such item
                        assert(w[i] == (if i < b - 1 { v[i + 1] } else { v[a] }));
                        if i < b - 1 {
                            assert(v[i + 1].spec_is_two_slot_item());
                            assert(i + 2 == n);
                            assert(!slot_two_follows(v, i + 1));
                            assert(i + 1 == n - 1);
                        } else {
                            assert(!v[a].spec_is_two_slot_item());
                        }
                    }
                    if i == n - 1 && w[i].spec_is_two_slot_item() {
                        if i == b - 1 {
                            assert(!v[a].spec_is_two_slot_item());
                        } else {
                            assert(w[i] == v[i]);
                            assert(slot_two_follows(v, i));
                        }
                    }
                }
            };
        }
    };

    lemma_rotl1_sel(v, a, b);
}

/// Length of `s` without its trailing empty cells (store padding).
pub open spec fn occ_len(s: Seq<Item>) -> int
    decreases s.len(),
{
    if s.len() == 0 {
        0
    } else if !s.last().spec_is_empty() {
        s.len() as int
    } else {
        occ_len(s.drop_last())
    }
}

/// The store is a fully repaired prefix followed by empty padding.
pub open spec fn store_well_formed(s: Seq<Item>) -> bool {
    valid_store(s.take(occ_len(s)))
}

/// Everything at or after `occ_len` is an empty cell.
pub proof fn lemma_occ_trailing(s: Seq<Item>)
    ensures
        0 <= occ_len(s) <= s.len(),
        forall|m: int| occ_len(s) <= m < s.len() ==> (#[trigger] s[m]).spec_is_empty(),
        occ_len(s) > 0 ==> !s[occ_len(s) - 1].spec_is_empty(),
    decreases s.len(),
{
    if s.len() > 0 && s.last().spec_is_empty() {
        lemma_occ_trailing(s.drop_last());
        assert forall|m: int| occ_len(s) <= m < s.len() implies (#[trigger] s[m]).spec_is_empty() by {
            if m < s.len() - 1 {
                assert(s.drop_last()[m] == s[m]);
            }
        };
    }
}

/// `occ_len` recovers the occupied length of a compact prefix plus
/// empty padding.
pub proof fn lemma_occ_of_padded(s: Seq<Item>, k: int)
    requires
        0 <= k <= s.len(),
        forall|m: int| 0 <= m < k ==> !(#[trigger] s[m]).spec_is_empty(),
        forall|m: int| k <= m < s.len() ==> (#[trigger] s[m]).spec_is_empty(),
    ensures
        occ_len(s) == k,
    decreases s.len(),
{
    if s.len() > 0 {
        if s.last().spec_is_empty() {
            assert(k < s.len());
            lemma_occ_of_padded(s.drop_last(), k);
        } else {
            assert(k == s.len());
        }
    }
}

/// What one cell of a repaired-prefix-plus-padding store can hold: over
/// the prefix the slot-two expectation always matches, and the padding
/// holds only empty cells.
pub proof fn lemma_well_formed_cell(s: Seq<Item>, i: int)
    requires
        store_well_formed(s),
        0 <= i < s.len(),
    ensures
        0 <= occ_len(s) <= s.len(),
        i < occ_len(s) ==> !s[i].spec_is_empty(),
        i < occ_len(s) ==> (s[i].spec_is_slot_two() <==> (i > 0
            && s[i - 1].spec_is_two_slot_item())),
        i >= occ_len(s) ==> s[i].spec_is_empty(),
        i >= occ_len(s) ==> (i == 0 || !s[i - 1].spec_is_two_slot_item()),
{
    lemma_occ_trailing(s);
    let kk = occ_len(s);
    if i < kk {
        assert(s.take(kk)[i] == s[i]);
        assert(!s[i].spec_is_empty());
        if s[i].spec_is_slot_two() {
            assert(s.take(kk)[i - 1] == s[i - 1]);
            assert(s[i - 1].spec_is_two_slot_item());
        }
        if i > 0 && s[i - 1].spec_is_two_slot_item() {
            assert(s.take(kk)[i - 1] == s[i - 1]);
            assert(slot_two_follows(s.take(kk), i - 1));
            assert(s[i].spec_is_slot_two());
        }
    } else {
        assert(s[i].spec_is_empty());
        if i > 0 && i - 1 >= kk {
            assert(s[i - 1].spec_is_empty());
        }
        if i > 0 && i - 1 == kk - 1 && s[i - 1].spec_is_two_slot_item() {
            assert(s.take(kk)[kk - 1].spec_is_two_slot_item());
            assert(slot_two_follows(s.take(kk), kk - 1));
            assert(false);
        }
    }
}

/// The store with the view written over its six cells at cursor `c`,
/// after padding the store so those cells exist.
pub open spec fn spliced(s: Seq<Item>, c: int, w: Seq<Item>) -> Seq<Item> {
    let p = pad_to(s, c + BAG_SIZE);
    p.take(c) + w + p.skip(c + BAG_SIZE)
}

/// Empty padding contributes no single or two-slot items.
pub proof fn lemma_sel_pad(s: Seq<Item>, n: int)
    ensures
        singles(pad_to(s, n)) == singles(s),
        doubles(pad_to(s, n)) == doubles(s),
{
    if s.len() < n {
        let e = Seq::new((n - s.len()) as nat, |i: int| empty_item());
        lemma_sel_add(s, e);
        lemma_sel_none(e);
        assert(singles(s) + Seq::<Item>::empty() =~= singles(s));
        assert(doubles(s) + Seq::<Item>::empty() =~= doubles(s));
    }
}

/// `num_empty` distributes over concatenation.
pub proof fn lemma_num_empty_add(a: Seq<Item>, b: Seq<Item>)
    ensures
        num_empty(a + b) == num_empty(a) + num_empty(b),
    decreases b.len(),
{
    if b.len() == 0 {
        assert(a + b =~= a);
    } else {
        lemma_num_empty_add(a, b.drop_last());
        assert((a + b).drop_last() =~= a + b.drop_last());
        assert((a + b).last() == b.last());
    }
}

/// Splitting the empty count at one empty cell.
pub proof fn lemma_num_empty_at(w: Seq<Item>, x: int)
    requires
        0 <= x < w.len(),
        w[x].spec_is_empty(),
    ensures
        num_empty(w) == num_empty(w.take(x)) + 1 + num_empty(w.skip(x + 1)),
{
    assert(w =~= w.take(x) + (seq![w[x]] + w.skip(x + 1)));
    lemma_num_empty_add(w.take(x), seq![w[x]] + w.skip(x + 1));
    lemma_num_empty_add(seq![w[x]], w.skip(x + 1));
    assert(seq![w[x]].drop_last() =~= Seq::<Item>::empty());
    assert(seq![w[x]].last() == w[x]);
    assert(num_empty(seq![w[x]]) == num_empty(Seq::<Item>::empty()) + 1);
}

/// Two distinct empty cells put the empty count at two or more.
pub proof fn lemma_num_empty_two(w: Seq<Item>, x: int, y: int)
    requires
        0 <= x < y < w.len(),
        w[x].spec_is_empty(),
        w[y].spec_is_empty(),
    ensures
        num_empty(w) >= 2,
{
    lemma_num_empty_at(w, x);
    let rest = w.skip(x + 1);
    assert(rest[y - x - 1] == w[y]);
    lemma_num_empty_at(rest, y - x - 1);
}

/// In a fully repaired store no sentinel sits at an even index.
pub proof fn lemma_valid_no_even_slot_two(s: Seq<Item>)
    requires
        valid_store(s),
    ensures
        no_even_slot_two(s),
{
    assert forall|i: int| 0 <= i < s.len() && i % 2 == 0 implies !(#[trigger] s[i]).spec_is_slot_two()
    by {
        if s[i].spec_is_slot_two() {
            assert(s[i - 1].spec_is_two_slot_item());
        }
    }
}

/// If `s[j]` is occupied, the last occupied cell of `s.take(j + 1)` is `j`.
proof fn lemma_last_occupied_take(s: Seq<Item>, j: int)
    requires
        0 <= j < s.len(),
        !s[j].spec_is_empty(),
    ensures
        last_occupied(s.take(j + 1)) == j,
{
    assert(s.take(j + 1).last() == s[j]);
}

} // verus!
