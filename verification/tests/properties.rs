use re0box::inventory::{Bag, Item, ItemBox, BAG_SIZE, SLOT_TWO};
use re0box::saves::{ItemVec, SavedBoxes, NUM_SAVE_SLOTS};

fn occupied(items: &[Item]) -> Vec<Item> {
    items.iter().filter(|i| !i.is_empty()).cloned().collect()
}

#[test]
fn organize_is_idempotent() {
    let mut item_box = ItemBox::new();
    item_box.set_contents(vec![
        Item { id: 55, count: 7 },
        Item { id: 0, count: 0 },
        Item { id: 6, count: 1 }, // shotgun missing its second half
        Item { id: 32, count: 15 },
        Item {
            id: SLOT_TWO,
            count: 1,
        }, // orphaned sentinel
        Item { id: 3, count: 5 },
    ]);
    item_box.organize();
    let once = occupied(item_box.get_contents());
    item_box.organize();
    let twice = occupied(item_box.get_contents());
    assert_eq!(once, twice);
}

#[test]
fn organize_restores_pairing_and_prefix() {
    let mut item_box = ItemBox::new();
    item_box.set_contents(vec![
        Item { id: 55, count: 7 },
        Item { id: 5, count: 1 }, // misaligned hunting gun
        Item {
            id: SLOT_TWO,
            count: 1,
        },
        Item { id: 0, count: 0 },
        Item { id: 23, count: 1 }, // rocket launcher missing its second half
        Item { id: 3, count: 5 },
        Item {
            id: SLOT_TWO,
            count: 1,
        }, // orphaned sentinel
    ]);
    item_box.organize();
    let contents = item_box.get_contents();
    let occ = occupied(contents);
    // occupied cells form a contiguous prefix
    assert_eq!(
        contents.iter().take_while(|i| !i.is_empty()).count(),
        occ.len()
    );
    // every two-slot item sits on an even index, directly followed by its
    // sentinel, and every sentinel directly follows a two-slot item
    for (i, item) in occ.iter().enumerate() {
        if item.is_two_slot_item() {
            assert_eq!(i % 2, 0);
            assert!(occ[i + 1].is_slot_two());
        }
        if item.is_slot_two() {
            assert!(i > 0 && occ[i - 1].is_two_slot_item());
        }
    }
}

#[test]
fn organize_synthesizes_sentinel_before_padding() {
    // a lone two-slot item is followed by store padding, so the repair
    // pass synthesizes its missing sentinel right after it
    let mut item_box = ItemBox::new();
    item_box.set_contents(vec![Item { id: 6, count: 1 }]);
    item_box.organize();
    let occ = occupied(item_box.get_contents());
    assert_eq!(occ.len(), 2);
    assert_eq!(occ[0].id, 6);
    assert!(occ[1].is_slot_two());
}

#[test]
fn organize_keeps_trailing_two_slot_item() {
    // a two-slot item in the very last cell has nothing following it, so
    // the repair pass cannot complete its pair; the item is kept as-is
    let mut item_box = ItemBox::new();
    item_box.set_contents(vec![
        Item { id: 1, count: 1 },
        Item { id: 2, count: 1 },
        Item { id: 3, count: 1 },
        Item { id: 4, count: 1 },
        Item { id: 13, count: 1 },
        Item { id: 6, count: 1 }, // shotgun in the final cell
    ]);
    item_box.organize();
    let occ = occupied(item_box.get_contents());
    assert_eq!(occ.len(), 6);
    assert_eq!(occ[5].id, 6);
    assert!(!occ.iter().any(Item::is_slot_two));
}

#[test]
fn organize_completes_displaced_pair_on_next_pass() {
    // a misaligned run that reaches the store's very last cell displaces
    // the leading single item behind an unterminated two-slot item; the
    // missing sentinel appears only on the next pass, so this is the one
    // shape on which a single pass is not a fixpoint
    let mut item_box = ItemBox::new();
    item_box.set_contents(vec![
        Item { id: 55, count: 7 },
        Item { id: 5, count: 1 },
        Item {
            id: SLOT_TWO,
            count: 1,
        },
        Item { id: 11, count: 1 },
        Item {
            id: SLOT_TWO,
            count: 1,
        },
        Item { id: 6, count: 1 }, // shotgun in the run's (and store's) last cell
    ]);
    item_box.organize();
    let once = occupied(item_box.get_contents());
    assert_eq!(once.len(), 6);
    assert_eq!(once[4].id, 6);
    assert_eq!(once[5].id, 55); // displaced behind the shotgun, no sentinel yet
    item_box.organize();
    let twice = occupied(item_box.get_contents());
    assert_eq!(twice.len(), 7);
    assert!(twice[5].is_slot_two()); // the second pass completes the pair
    assert_eq!(twice[6].id, 55);
}

#[test]
fn organize_empty_store() {
    let mut item_box = ItemBox::new();
    item_box.set_contents(vec![]);
    item_box.organize();
    assert_eq!(occupied(item_box.get_contents()).len(), 0);
}

#[test]
fn scroll_clamps_and_rounds() {
    let mut item_box = ItemBox::new();
    item_box.set_contents(vec![
        Item { id: 1, count: 1 },
        Item { id: 2, count: 1 },
        Item { id: 3, count: 1 },
        Item { id: 4, count: 1 },
    ]);
    item_box.open();
    // an empty-direction overshoot saturates at the first row
    assert!(!item_box.scroll_view(-1000));
    assert_eq!(item_box.view().items[0].id, 1);
    // odd offsets round up to the next even boundary
    assert!(item_box.scroll_view(1));
    assert_eq!(item_box.view().items[0].id, 3);
    // a huge offset saturates at the last occupied row, and saturating
    // again reports no movement
    assert!(!item_box.scroll_view(1000));
    assert!(!item_box.scroll_view(1000));
    assert_eq!(item_box.view().items[0].id, 3);
    // an odd backward offset rounds up to the current row: no movement
    assert!(!item_box.scroll_view(-1));
    assert_eq!(item_box.view().items[0].id, 3);
    // a full row backward moves
    assert!(item_box.scroll_view(-2));
    assert_eq!(item_box.view().items[0].id, 1);
}

#[test]
fn scroll_on_empty_store() {
    let mut item_box = ItemBox::new();
    item_box.set_contents(vec![]);
    item_box.open();
    assert!(!item_box.scroll_view(2));
    assert!(!item_box.scroll_view(-2));
    assert!(item_box.view().items[0].is_empty());
}

#[test]
fn update_from_view_round_trip() {
    let mut item_box = ItemBox::new();
    item_box.set_contents(vec![
        Item { id: 1, count: 1 },
        Item { id: 2, count: 2 },
        Item { id: 3, count: 3 },
    ]);
    item_box.open();
    // write an already-organized arrangement into the view
    item_box.view().items[3] = Item { id: 9, count: 4 };
    item_box.view().items[4] = Item { id: SLOT_TWO, count: 1 };
    item_box.update_from_view();
    // the written cells survive the reconcile exactly
    let view = item_box.view();
    assert_eq!(view.items[0], Item { id: 1, count: 1 });
    assert_eq!(view.items[1], Item { id: 2, count: 2 });
    assert_eq!(view.items[2], Item { id: 3, count: 3 });
    assert_eq!(view.items[3], Item { id: 9, count: 4 });
    assert_eq!(view.items[4], Item { id: SLOT_TWO, count: 1 });
    assert!(view.items[5].is_empty());
}

#[test]
fn update_from_view_skips_invalid_view() {
    let mut item_box = ItemBox::new();
    item_box.set_contents(vec![Item { id: 1, count: 1 }, Item { id: 2, count: 2 }]);
    item_box.open();
    // an orphaned sentinel leaves the view in a broken state: reconciling
    // must change nothing
    item_box.view().items[4] = Item { id: SLOT_TWO, count: 1 };
    item_box.update_from_view();
    let contents = item_box.get_contents();
    assert!(!contents.iter().any(Item::is_slot_two));
    assert_eq!(occupied(contents).len(), 2);
}

#[test]
fn make_room_inner_cell() {
    // a full view with no free cells: making room for an exchange into an
    // inner cell frees space right after it
    let mut item_box = ItemBox::new();
    item_box.set_contents(vec![
        Item { id: 1, count: 1 },
        Item { id: 2, count: 1 },
        Item { id: 3, count: 1 },
        Item { id: 4, count: 1 },
        Item { id: 14, count: 1 },
        Item { id: 15, count: 1 },
        Item { id: 16, count: 1 },
    ]);
    item_box.open();
    assert!(!item_box.view().can_exchange_double(2));
    item_box.make_room_for_double(2);
    assert!(item_box.view().can_exchange_double(2));
    assert!(item_box.view().items[3].is_empty());
    // the item that was in cell 3 shifted one cell to the right
    assert_eq!(item_box.view().items[4].id, 4);
}

#[test]
fn make_room_noop_when_room_exists() {
    let mut item_box = ItemBox::new();
    item_box.set_contents(vec![Item { id: 1, count: 1 }, Item { id: 2, count: 1 }]);
    item_box.open();
    let before: Vec<Item> = item_box.get_contents().to_vec();
    assert!(item_box.view().can_exchange_double(0));
    item_box.make_room_for_double(0);
    assert_eq!(item_box.get_contents(), &before[..]);
}

#[test]
fn can_exchange_double_cases() {
    let mut bag = Bag::empty();
    // all six cells empty: plenty of room anywhere
    assert!(bag.can_exchange_double(0));
    // exactly one empty cell and an occupied target: a same-slot swap
    for i in 0..5 {
        bag.items[i] = Item { id: 1 + i as i32, count: 1 };
    }
    assert!(bag.can_exchange_double(0));
    // exactly one empty cell and that cell as the target: no room
    assert!(!bag.can_exchange_double(5));
    // a full bag: no room
    bag.items[5] = Item { id: 9, count: 1 };
    assert!(!bag.can_exchange_double(0));
    // unless the next cell already holds a slot-two sentinel
    bag.items[1] = Item {
        id: SLOT_TWO,
        count: 1,
    };
    assert!(bag.can_exchange_double(0));
}

#[test]
fn bag_validity_predicates() {
    let mut bag = Bag::empty();
    assert!(bag.is_organized());
    assert!(!bag.is_broken());
    assert!(bag.is_valid());
    // a gap between occupied cells breaks organization
    bag.items[0] = Item { id: 1, count: 1 };
    bag.items[2] = Item { id: 2, count: 1 };
    assert!(!bag.is_organized());
    assert!(!bag.is_broken());
    bag.items[1] = Item { id: 3, count: 1 };
    assert!(bag.is_valid());
    // a two-slot item with no sentinel after it is a structural break
    bag.items[3] = Item { id: 4, count: 1 };
    bag.items[4] = Item { id: 104, count: 1 };
    assert!(bag.is_broken());
    assert!(!bag.is_valid());
    // pairing it up on its even cell restores validity
    bag.items[5] = Item {
        id: SLOT_TWO,
        count: 1,
    };
    assert!(bag.is_valid());
    // a two-slot item on an odd cell is unorganized but not broken
    let mut odd = Bag::empty();
    odd.items[0] = Item { id: 1, count: 1 };
    odd.items[1] = Item { id: 5, count: 1 };
    odd.items[2] = Item {
        id: SLOT_TWO,
        count: 1,
    };
    assert!(!odd.is_organized());
    assert!(!odd.is_broken());
    assert!(!odd.is_valid());
}

#[test]
fn bag_is_slot_two_bounds() {
    let mut bag = Bag::empty();
    bag.items[1] = Item {
        id: SLOT_TWO,
        count: 1,
    };
    assert!(bag.is_slot_two(1));
    assert!(!bag.is_slot_two(0));
    // out-of-range indices are simply not sentinels
    assert!(!bag.is_slot_two(BAG_SIZE));
    assert!(!bag.is_slot_two(1000));
}

#[test]
fn item_predicates() {
    assert!(Item::empty().is_empty());
    assert!(!Item::empty().is_slot_two());
    for id in [5, 6, 7, 8, 9, 11, 12, 23, 104] {
        assert!(Item { id, count: 1 }.is_two_slot_item());
    }
    assert!(!Item { id: 10, count: 1 }.is_two_slot_item());
    assert!(Item {
        id: SLOT_TWO,
        count: 1
    }
    .is_slot_two());
    assert!(!Item {
        id: SLOT_TWO,
        count: 1
    }
    .is_two_slot_item());
}

#[test]
fn saved_boxes_round_trip() {
    let mut saves = SavedBoxes::new();
    for i in 0..NUM_SAVE_SLOTS {
        assert!(saves.load_from_slot(i).is_empty());
    }
    let items = vec![Item { id: 6, count: 1 }, Item { id: 180, count: 1 }];
    saves.save_to_slot(&items, 3);
    assert_eq!(saves.load_from_slot(3), items);
    assert!(saves.load_from_slot(2).is_empty());
    // overwriting a slot replaces its contents
    saves.save_to_slot(&[], 3);
    assert!(saves.load_from_slot(3).is_empty());
    saves.save_to_slot(&items, 19);
    saves.clear_save();
    for i in 0..NUM_SAVE_SLOTS {
        assert!(saves.load_from_slot(i).is_empty());
    }
    let empty_vec = ItemVec::new();
    assert!(empty_vec.items.is_empty());
}
