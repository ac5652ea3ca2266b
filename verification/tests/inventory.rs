use re0box::inventory::{Item, ItemBox, BAG_SIZE, SLOT_TWO};

#[test]
fn organize_missing_second_half() {
    let mut item_box = ItemBox::new();
    item_box.set_contents(vec![
        Item { id: 6, count: 1 }, // shotgun, two-slot item
        Item { id: 55, count: 7 },
        Item { id: 32, count: 15 },
    ]);
    item_box.organize();
    let new_contents = item_box.get_contents();
    let pos = new_contents.iter().position(|i| i.id == 6).unwrap();
    assert_eq!(pos & 1, 0); // must be in an even-numbered (left-hand) slot
    assert!(new_contents[pos + 1].is_slot_two()); // must be followed by SLOT_TWO
    assert_eq!(new_contents.iter().filter(|i| !i.is_empty()).count(), 4); // must have 4 items, counting the newly inserted SLOT_TWO as an item
}

#[test]
fn organize_missing_first_half() {
    let mut item_box = ItemBox::new();
    item_box.set_contents(vec![
        Item { id: 55, count: 7 },
        Item {
            id: SLOT_TWO,
            count: 1,
        }, // SLOT_TWO but the preceding item is not a two-slot item
        Item { id: 32, count: 15 },
        Item { id: 3, count: 5 },
    ]);
    item_box.organize();
    let new_contents = item_box.get_contents();
    assert!(!new_contents.iter().any(Item::is_slot_two));
    assert_eq!(new_contents.iter().filter(|i| !i.is_empty()).count(), 3);
}

#[test]
fn organize_misaligned() {
    let mut item_box = ItemBox::new();
    item_box.set_contents(vec![
        Item { id: 55, count: 7 },
        Item { id: 5, count: 1 }, // two-slot item (hunting gun) at an odd-numbered index
        Item {
            id: SLOT_TWO,
            count: 1,
        },
        Item { id: 32, count: 15 },
        Item { id: 3, count: 5 },
    ]);
    item_box.organize();
    let new_contents = item_box.get_contents();
    let pos = new_contents.iter().position(|i| i.id == 5).unwrap();
    assert_eq!(pos & 1, 0); // must be in an even-numbered (left-hand) slot
    assert!(new_contents[pos + 1].is_slot_two()); // must be followed by SLOT_TWO
    assert_eq!(new_contents.iter().filter(|i| !i.is_empty()).count(), 5); // must have the same number of items, counting SLOT_TWO as an item
}

#[test]
fn organize_gaps() {
    let mut item_box = ItemBox::new();
    item_box.set_contents(vec![
        Item { id: 55, count: 7 },
        Item { id: 0, count: 0 }, // empty slot between non-empty slots
        Item { id: 32, count: 15 },
        Item { id: 3, count: 5 },
    ]);
    item_box.organize();
    let new_contents = item_box.get_contents();
    assert_eq!(new_contents.iter().take_while(|i| !i.is_empty()).count(), 3);
    // empty slot should be gone, any empty slots at the end notwithstanding
}

#[test]
fn make_room_for_double() {
    let mut item_box = ItemBox::new();
    item_box.set_contents(vec![
        Item { id: 6, count: 1 },
        Item {
            id: SLOT_TWO,
            count: 1,
        },
        Item { id: 55, count: 7 },
        Item { id: 32, count: 15 },
        Item { id: 14, count: 3 },
    ]);
    item_box.open();
    assert!(item_box.view().is_valid());
    // there are five items in the box (counting the SLOT_TWO item) so there should be five occupied
    // slots in the view and one empty slot at the end
    let view = item_box.view();
    assert_eq!(view.items.iter().filter(|i| i.is_empty()).count(), 1);
    assert!(view.items[BAG_SIZE - 1].is_empty());
    item_box.make_room_for_double(BAG_SIZE - 1);
    // there should now be two empty slots at the end of the view to make room for the two-slot item
    let view = item_box.view();
    assert!(view.items[BAG_SIZE - 2].is_empty());
    assert!(view.items[BAG_SIZE - 1].is_empty());
}

#[test]
fn scroll() {
    let mut item_box = ItemBox::new();
    item_box.set_contents(vec![
        Item { id: 6, count: 1 },
        Item {
            id: SLOT_TWO,
            count: 1,
        },
        Item { id: 104, count: 1 },
        Item {
            id: SLOT_TWO,
            count: 1,
        },
        Item { id: 55, count: 7 },
        Item { id: 32, count: 15 },
        Item { id: 14, count: 3 },
        Item { id: 4, count: 7 },
    ]);
    item_box.open();
    assert!(item_box.view().is_valid());
    assert_eq!(item_box.view().items[0].id, 6);
    // not allowed to scroll before the beginning
    item_box.scroll_view(-2);
    assert_eq!(item_box.view().items[0].id, 6);
    item_box.scroll_view(2);
    assert_eq!(item_box.view().items[0].id, 104);
    // we always scroll in increments of 2, so odd numbers should be rounded
    item_box.scroll_view(1);
    assert_eq!(item_box.view().items[0].id, 55);
    // not allowed to scroll past the end
    item_box.scroll_view(1000);
    assert_eq!(item_box.view().items[0].id, 14);
    // negative
    item_box.scroll_view(-2);
    assert_eq!(item_box.view().items[0].id, 55);
}

#[test]
fn update_from_view() {
    let mut item_box = ItemBox::new();
    item_box.set_contents(vec![
        Item { id: 6, count: 1 },
        Item {
            id: SLOT_TWO,
            count: 1,
        },
        Item { id: 104, count: 1 },
        Item {
            id: SLOT_TWO,
            count: 1,
        },
        Item { id: 3, count: 7 },
        Item { id: 32, count: 15 },
        Item { id: 14, count: 3 },
    ]);
    item_box.open();
    assert!(item_box.view().is_valid());
    item_box.view().items[4] = Item { id: 4, count: 9 };
    item_box.update_from_view();
    let contents = item_box.get_contents();
    assert!(!contents.iter().any(|i| i.id == 3));
    assert!(contents.iter().any(|i| i.id == 4));

    item_box.view().items[BAG_SIZE - 1] = Item::empty();
    item_box.update_from_view();
    // 7 items - the 1 we removed == 6
    assert_eq!(
        item_box
            .get_contents()
            .iter()
            .take_while(|i| !i.is_empty())
            .count(),
        6
    );
    let view = item_box.view();
    // there should be no more empty slots in the view because we still have enough items to fill it
    assert!(view.items.iter().all(|i| !i.is_empty()));
    // the last item in the view should be the item that was shifted up from the end, 14
    assert_eq!(view.items[BAG_SIZE - 1].id, 14);
}

#[test]
fn open_and_close() {
    let mut item_box = ItemBox::new();
    assert!(!item_box.is_open()); // box should not start open
    item_box.open();
    assert!(item_box.is_open()); // box should now be open
    item_box.close();
    assert!(!item_box.is_open()); // box should no longer be open
}
