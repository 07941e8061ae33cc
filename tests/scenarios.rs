use stable_id::{Tec, TecError};

fn filled_u8(n: u8) -> Tec<u8, u8> {
    let mut tec: Tec<u8, u8> = Default::default();
    for i in 0..n {
        assert_eq!(tec.allocate(i).unwrap(), i);
    }
    tec
}

#[test]
fn handles_are_handed_out_in_order() {
    let mut tec: Tec<u32, u8> = Default::default();
    let ids: Vec<u8> = (0..5u32).map(|v| tec.allocate(v).unwrap()).collect();
    assert_eq!(ids, vec![0, 1, 2, 3, 4]);
}

#[test]
fn coalesce_moves_highest_source_first() {
    let mut tec = filled_u8(255);
    for i in [27u8, 254, 15, 252, 251, 253] {
        tec.remove(i).unwrap();
    }
    let mut events = Vec::new();
    tec.coalesce(|old_id, new_id| events.push((old_id, new_id)));
    assert_eq!(events, vec![(250, 15), (249, 27)]);
    assert_eq!(tec.len(), 249);
    assert_eq!(tec.capacity(), 249);
    assert_eq!(*tec.get(15).unwrap(), 250);
    assert_eq!(*tec.get(27).unwrap(), 249);
}

#[test]
fn compact_returns_the_moves() {
    let mut tec = filled_u8(10);
    tec.remove(1).unwrap();
    tec.remove(3).unwrap();
    tec.remove(8).unwrap();
    let moves = tec.compact();
    assert_eq!(moves, vec![(9, 1), (7, 3)]);
    let values: Vec<u8> = tec.iter().into_iter().copied().collect();
    assert_eq!(values, vec![0, 9, 2, 7, 4, 5, 6]);
}

#[test]
fn coalesce_without_dead_slots_reports_nothing() {
    let mut tec = filled_u8(4);
    let mut events: Vec<(u8, u8)> = Vec::new();
    tec.coalesce(|a, b| events.push((a, b)));
    assert!(events.is_empty());
    assert_eq!(tec.capacity(), 4);
}

#[test]
fn coalesce_keeps_every_payload() {
    let mut tec = filled_u8(40);
    for i in [3u8, 17, 5, 38, 22, 30, 31] {
        tec.remove(i).unwrap();
    }
    let mut before: Vec<u8> = tec.iter().into_iter().copied().collect();
    tec.coalesce(|_, _| {});
    let mut after: Vec<u8> = tec.iter().into_iter().copied().collect();
    before.sort();
    after.sort();
    assert_eq!(before, after);
    assert_eq!(tec.capacity(), tec.len());
}

#[test]
fn remove_on_empty_fails() {
    let mut tec: Tec<u8, u8> = Default::default();
    assert_eq!(tec.remove(0), Err(TecError::EmptyContainer));
}

#[test]
fn remove_twice_fails() {
    let mut tec = filled_u8(3);
    assert_eq!(tec.remove(1), Ok(1));
    assert_eq!(tec.remove(1), Err(TecError::DoubleRemove));
    assert_eq!(tec.len(), 2);
}

#[test]
fn remove_past_the_end_fails() {
    let mut tec = filled_u8(3);
    assert_eq!(tec.remove(7), Err(TecError::InvalidIndex));
    assert_eq!(tec.len(), 3);
}

#[test]
fn allocate_past_the_handle_range_fails() {
    let mut tec: Tec<u16, u8> = Default::default();
    for i in 0..255u16 {
        assert_eq!(tec.allocate(i).unwrap() as u16, i);
    }
    assert_eq!(tec.allocate(255), Err(TecError::CapacityOverflow));
    assert_eq!(tec.len(), 255);
    tec.remove(100).unwrap();
    assert_eq!(tec.allocate(999), Ok(100));
}

#[test]
fn len_and_capacity_follow_the_slots() {
    let mut tec = filled_u8(6);
    tec.remove(2).unwrap();
    assert_eq!(tec.len(), 5);
    assert_eq!(tec.capacity(), 6);
    tec.remove(5).unwrap();
    assert_eq!(tec.len(), 4);
    assert_eq!(tec.capacity(), 5);
    tec.remove(4).unwrap();
    tec.remove(3).unwrap();
    assert_eq!(tec.len(), 2);
    assert_eq!(tec.capacity(), 2);
}

#[test]
fn trailing_dead_slots_are_cut_off() {
    let mut tec = filled_u8(8);
    tec.remove(5).unwrap();
    tec.remove(6).unwrap();
    assert_eq!(tec.capacity(), 8);
    tec.remove(7).unwrap();
    assert_eq!(tec.capacity(), 5);
    assert_eq!(tec.allocate(50), Ok(5));
    tec.remove(0).unwrap();
    tec.remove(1).unwrap();
    tec.remove(2).unwrap();
    tec.remove(3).unwrap();
    tec.remove(4).unwrap();
    tec.remove(5).unwrap();
    assert_eq!(tec.capacity(), 0);
    assert!(tec.is_empty());
    assert_eq!(tec.allocate(9), Ok(0));
}

#[test]
fn freed_slots_are_reused_last_freed_first() {
    let mut tec = filled_u8(10);
    tec.remove(2).unwrap();
    tec.remove(7).unwrap();
    tec.remove(4).unwrap();
    assert_eq!(tec.allocate(100), Ok(4));
    assert_eq!(tec.allocate(101), Ok(7));
    assert_eq!(tec.allocate(102), Ok(2));
    assert_eq!(tec.allocate(103), Ok(10));
}

#[test]
fn get_after_allocate_round_trips() {
    let mut tec: Tec<String, u16> = Default::default();
    let a = tec.allocate("a".to_owned()).unwrap();
    let b = tec.allocate("b".to_owned()).unwrap();
    tec.remove(a).unwrap();
    let c = tec.allocate("c".to_owned()).unwrap();
    assert_eq!(c, a);
    assert_eq!(tec.get(c).map(|s| s.as_str()), Some("c"));
    assert_eq!(tec.get(b).map(|s| s.as_str()), Some("b"));
}

#[test]
fn get_on_dead_or_missing_slot_is_none() {
    let mut tec = filled_u8(4);
    tec.remove(1).unwrap();
    assert_eq!(tec.get(1), None);
    assert_eq!(tec.get(9), None);
    assert!(tec.get_mut(1).is_none());
}

#[test]
fn get_mut_changes_the_payload() {
    let mut tec = filled_u8(4);
    *tec.get_mut(2).unwrap() = 77;
    assert_eq!(tec.get(2), Some(&77));
    assert_eq!(tec.len(), 4);
}

#[test]
fn iter_with_id_skips_dead_slots() {
    let mut tec: Tec<String> = Default::default();
    for s in ["0", "1", "2", "3", "4", "5"] {
        tec.allocate(s.to_owned()).unwrap();
    }
    assert_eq!(tec.remove(1).unwrap(), "1");
    assert_eq!(tec.remove(4).unwrap(), "4");
    assert_eq!(tec.remove(5).unwrap(), "5");
    assert_eq!(tec.remove(2).unwrap(), "2");
    let pairs: Vec<(usize, String)> = tec
        .iter_with_id()
        .into_iter()
        .map(|(id, v)| (id, v.clone()))
        .collect();
    assert_eq!(pairs, vec![(0, "0".to_owned()), (3, "3".to_owned())]);
    let values: Vec<&String> = tec.iter();
    assert_eq!(values, vec!["0", "3"]);
}

#[test]
fn alloc_default_stores_the_default() {
    let mut tec: Tec<u64, u8> = Default::default();
    tec.allocate(5).unwrap();
    let id = tec.alloc_default().unwrap();
    assert_eq!(id, 1);
    assert_eq!(tec.get(id), Some(&0));
}

#[test]
fn populate_defaults_fills_slots() {
    let tec = Tec::<u32, u16>::populate_defaults(7);
    assert_eq!(tec.len(), 7);
    assert_eq!(tec.capacity(), 7);
    assert_eq!(tec.get(6), Some(&0));
}

#[test]
fn usize_handles_reach_beyond_u8() {
    let mut tec: Tec<u32> = Tec::new();
    for i in 0..300u32 {
        assert_eq!(tec.allocate(i).unwrap(), i as usize);
    }
    assert_eq!(tec.remove(299), Ok(299));
    assert_eq!(tec.capacity(), 299);
}

#[test]
fn into_iter_with_id_hands_out_live_entries() {
    let mut tec: Tec<String, u8> = Default::default();
    for s in ["a", "b", "c", "d"] {
        tec.allocate(s.to_owned()).unwrap();
    }
    tec.remove(1).unwrap();
    let entries = tec.into_iter_with_id();
    assert_eq!(
        entries,
        vec![(0, "a".to_owned()), (2, "c".to_owned()), (3, "d".to_owned())]
    );
}

#[test]
fn free_list_lists_dead_slots_head_first() {
    let mut tec = filled_u8(10);
    assert!(tec.get_free_list().is_empty());
    tec.remove(2).unwrap();
    tec.remove(7).unwrap();
    tec.remove(4).unwrap();
    assert_eq!(tec.get_free_list(), vec![4, 7, 2]);
    tec.remove(9).unwrap();
    tec.remove(8).unwrap();
    assert_eq!(tec.get_free_list(), vec![4, 2]);
    assert_eq!(tec.capacity(), 7);
}
