use stable_id::{Eids, Sequence};

#[test]
fn claim_ids() {
    let mut entities: Eids<u8> = Default::default();
    for i in 0..100 {
        let id = entities.claim();
        assert_eq!(id, i);
    }

    fn is_multiple_of_3(i: &u8) -> bool {
        i % 3 == 0
    }

    (0..60u8)
        .filter(is_multiple_of_3)
        .for_each(|i| entities.unclaim(i));

    assert!((0..60u8)
        .filter(is_multiple_of_3)
        .all(|i| entities.claim() == i));
}

#[test]
fn eids_coalesce_reports_moves_from_the_top() {
    let mut entities: Eids<u8> = Default::default();
    for i in 0..255 {
        assert_eq!(entities.claim(), i);
    }

    entities.unclaim(27);
    entities.unclaim(15);
    entities.unclaim(254);
    entities.unclaim(252);
    entities.unclaim(251);
    entities.unclaim(253);

    let mut records_old = Vec::new();
    let mut records_new = Vec::new();

    entities.coalesce(|old_id, new_id| {
        records_old.push(old_id);
        records_new.push(new_id);
    });

    assert_eq!(records_old, [250, 249]);
    assert_eq!(records_new, [27, 15]);
    assert_eq!(entities.claim(), 249);
}

#[test]
fn eids_reuse_smallest_first() {
    let mut entities: Eids<u16> = Default::default();
    for _ in 0..10 {
        entities.claim();
    }
    entities.unclaim(7);
    entities.unclaim(2);
    entities.unclaim(5);
    assert_eq!(entities.claim(), 2);
    assert_eq!(entities.claim(), 5);
    assert_eq!(entities.claim(), 7);
    assert_eq!(entities.claim(), 10);
}

#[test]
fn sequence_counts_up() {
    let mut s: Sequence<u8> = Default::default();
    assert_eq!(s.next_value(), 0);
    assert_eq!(s.next_value(), 1);
    assert_eq!(s.next_value(), 2);

    let mut s = Sequence::continue_from(1234u16);
    assert_eq!(s.next_value(), 1234);
    assert_eq!(s.next_value(), 1235);
    assert_eq!(s.next_value(), 1236);
}

#[test]
fn eids_compact_returns_renames_in_order() {
    let mut entities: Eids<u8> = Default::default();
    for _ in 0..20 {
        entities.claim();
    }
    entities.unclaim(3);
    entities.unclaim(19);
    entities.unclaim(10);
    entities.unclaim(17);
    assert_eq!(entities.compact(), vec![(18, 17), (17, 10), (16, 3)]);
    assert_eq!(entities.claim(), 16);
}

#[test]
fn eids_compact_without_freed_ids_is_empty() {
    let mut entities: Eids<u32> = Default::default();
    entities.claim();
    entities.claim();
    assert!(entities.compact().is_empty());
    assert_eq!(entities.claim(), 2);
}
