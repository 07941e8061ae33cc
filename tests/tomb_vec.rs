use std::collections::HashSet;

use stable_id::{Tec, TecError};

fn create_remove_end_1() -> Tec<u8, u8> {
    let mut entities: Tec<u8, u8> = Default::default();
    for i in 0..255u8 {
        assert_eq!(entities.allocate(i).unwrap(), i);
    }

    entities.remove(27).unwrap();
    entities.remove(254).unwrap();
    entities.remove(15).unwrap();
    entities.remove(252).unwrap();
    entities.remove(251).unwrap();
    entities.remove(253).unwrap();

    entities
}

fn create_remove_end_2() -> Tec<u8, u8> {
    let mut entities: Tec<u8, u8> = Default::default();
    for i in 0..255u8 {
        assert_eq!(entities.allocate(i).unwrap(), i);
    }

    for i in [
        27u8, 15, 250, 232, 231, 254, 252, 251, 25, 253, 229, 233, 234, 235, 236, 237, 238, 239,
        240, 35, 241, 242, 243, 245, 244, 246, 247, 248, 34, 249, 30,
    ] {
        entities.remove(i).unwrap();
    }

    entities
}

#[test]
fn populate() {
    let count = 50;
    let mut entities = Tec::<usize, u8>::populate_defaults(count);

    assert_eq!(entities.len(), count);
    assert_eq!(entities.allocate(54354534).unwrap(), count as u8);
    assert_eq!(entities.len(), count + 1);
}

#[test]
fn create_remove_end_custom_id() {
    let mut entities: Tec<u8, u8> = Default::default();
    for i in 0..255u8 {
        assert_eq!(entities.allocate(i).unwrap(), i);
    }

    entities.remove(27).unwrap();
    entities.remove(254).unwrap();
    entities.remove(15).unwrap();
    entities.remove(252).unwrap();
    entities.remove(251).unwrap();
    entities.remove(253).unwrap();

    let mut records_old = HashSet::new();
    let mut records_new = HashSet::new();

    entities.coalesce(|old_id, new_id| {
        records_old.insert(old_id);
        records_new.insert(new_id);
    });

    assert_eq!(records_old, HashSet::from([250, 249]));
    assert_eq!(records_new, HashSet::from([15, 27]));
}

#[test]
fn tomb_vec_tests_remove_base_case_1() {
    let mut entities: Tec<u8, u8> = Default::default();
    assert_eq!(entities.allocate(23).unwrap(), 0);
    assert_eq!(entities.allocate(23).unwrap(), 1);
    assert_eq!(entities.len(), 2);

    entities.remove(0).unwrap();
    entities.remove(1).unwrap();
    assert!(entities.is_empty());

    entities.allocate(23).unwrap();
    assert_eq!(entities.len(), 1);
    entities.allocate(23).unwrap();
    assert_eq!(entities.len(), 2);
}

#[test]
fn tomb_vec_tests_remove_end_1() {
    let entities = create_remove_end_1();

    let (data, _) = entities
        .iter_with_id()
        .into_iter()
        .rev()
        .next()
        .expect("should have at least 1 item");
    assert_eq!(data, 250);
    assert_eq!(entities.len(), 249);
}

#[test]
fn tomb_vec_tests_remove_end_2() {
    let entities = create_remove_end_2();

    let (data, _) = entities
        .iter_with_id()
        .into_iter()
        .rev()
        .next()
        .expect("should have at least 1 item");
    assert_eq!(data, 230);
    assert_eq!(entities.len(), 224);
}

#[test]
fn tomb_vec_tests_remove_end_3() {
    let mut entities: Tec<u8, u8> = Default::default();
    entities.allocate(0).unwrap();
    entities.remove(0).unwrap();
}

#[test]
fn tomb_vec_tests_coalesce_1() {
    let mut entities = create_remove_end_1();

    let mut records_old = HashSet::new();
    let mut records_new = HashSet::new();

    entities.coalesce(|old_id, new_id| {
        records_old.insert(old_id);
        records_new.insert(new_id);
    });

    assert_eq!(records_old, HashSet::from([249, 250]));
    assert_eq!(records_new, HashSet::from([15, 27]));
}

#[test]
fn tomb_vec_tests_coalesce_2() {
    let mut entities = create_remove_end_2();

    let mut records_old = HashSet::new();
    let mut records_new = HashSet::new();

    entities.coalesce(|old_id, new_id| {
        records_old.insert(old_id);
        records_new.insert(new_id);
    });

    assert!(records_old.iter().all(|index| *index > 223));

    let unique_values: HashSet<_> = entities
        .iter_with_id()
        .into_iter()
        .map(|(_, data)| *data)
        .collect();
    assert_eq!(unique_values.len(), 224);

    let expected = HashSet::from([27, 15, 25, 35, 34, 30]);
    assert_eq!(records_new, expected);
}

#[test]
fn tomb_vec_tests_remove_unallocated_element() {
    let mut tec = Tec::<u8>::default();
    assert_eq!(tec.remove(12321), Err(TecError::EmptyContainer));
}

#[test]
fn tomb_vec_tests_index_overflow() {
    let mut tec = Tec::<u8>::default();
    assert_eq!(tec.remove(12321), Err(TecError::EmptyContainer));
}

#[test]
fn tomb_vec_tests_remove_dead_element() {
    let mut tec = Tec::default();
    tec.allocate(12).unwrap();
    let id: u32 = tec.allocate(23).unwrap();
    tec.allocate(23).unwrap();

    tec.remove(id).unwrap();
    assert_eq!(tec.remove(id), Err(TecError::DoubleRemove));
}

#[test]
fn tomb_vec_tests_alloc_over_max_capacity() {
    let mut tec = Tec::<u8, u8>::default();
    for val in 0..u8::MAX {
        tec.allocate(val).unwrap();
    }
    assert_eq!(tec.allocate(u8::MAX), Err(TecError::CapacityOverflow));
}

#[test]
fn tomb_vec_tests_it_works() {
    let mut tec = Tec::with_capacity(2);
    assert_eq!(tec.len(), 0);

    let e1 = 1212;
    let i1: u16 = tec.allocate(e1).unwrap();
    assert_eq!(tec.len(), 1);
    assert_eq!(*tec.get(i1).unwrap(), e1);

    let e2 = 31232;
    let i2 = tec.allocate(e2).unwrap();
    assert_eq!(tec.len(), 2);
    assert_eq!(*tec.get(i2).unwrap(), e2);

    tec.clear();
    assert_eq!(tec.len(), 0);

    let e1 = 1212;
    let i1 = tec.allocate(e1).unwrap();
    assert_eq!(tec.len(), 1);
    assert_eq!(*tec.get(i1).unwrap(), e1);

    let e2 = 31232;
    let i2 = tec.allocate(e2).unwrap();
    assert_eq!(tec.len(), 2);
    assert_eq!(*tec.get(i2).unwrap(), e2);
}

#[test]
fn tomb_vec_tests_insert() {
    let a = 12312;
    let b = 654645;
    let c = 0;
    let d = 123;
    let mut tec = Tec::<_, u8>::default();
    let a_id = tec.allocate(a).unwrap();
    let b_id = tec.allocate(b).unwrap();
    let c_id = tec.allocate(c).unwrap();
    let d_id = tec.allocate(d).unwrap();

    assert_eq!(tec.get(a_id).cloned(), Some(a));
    assert_eq!(tec.get(b_id).cloned(), Some(b));
    assert_eq!(tec.get(c_id).cloned(), Some(c));
    assert_eq!(tec.get(d_id).cloned(), Some(d));
    assert_eq!(*tec.get(a_id).unwrap(), a);
    assert_eq!(*tec.get(b_id).unwrap(), b);
    assert_eq!(*tec.get(c_id).unwrap(), c);
    assert_eq!(*tec.get(d_id).unwrap(), d);
    assert_eq!(tec.len(), 4);

    let e = 43243;
    let e_index = tec.allocate(e).unwrap();
    assert_eq!(tec.len(), 5);
    assert_eq!(e_index, 4);
    assert_eq!(*tec.get(e_index).unwrap(), e);

    let e_index = tec.allocate(e).unwrap();
    assert_eq!(tec.len(), 6);
    assert_eq!(e_index, 5);
    assert_eq!(*tec.get(e_index).unwrap(), e);
}

#[test]
fn tomb_vec_tests_remove() {
    let mut tec = Tec::<_, u8>::default();

    for val in 0..100u8 {
        tec.allocate(val).unwrap();
    }

    assert_eq!(tec.len(), 100);

    tec.remove(90).unwrap();
    assert_eq!(tec.len(), 99);
    assert!(tec
        .iter()
        .into_iter()
        .take(90)
        .enumerate()
        .all(|(index, val)| index as u8 == *val));
    let temp: Vec<_> = tec.iter().into_iter().skip(90).enumerate().collect();
    assert_eq!(temp.len(), 9);
    assert!(temp.iter().all(|&(index, val)| (index as u8) + 91 == *val));

    let e1 = 123;
    let i1 = tec.allocate(e1).unwrap();
    assert_eq!(i1, 90);
    assert_eq!(*tec.get(i1).unwrap(), e1);
    assert_eq!(tec.len(), 100);

    tec.remove(20).unwrap();
    tec.remove(32).unwrap();
    assert_eq!(tec.len(), 98);

    let e2 = 124;
    let e3 = 125;
    let i2 = tec.allocate(e2).unwrap();
    assert_eq!(tec.len(), 99);
    assert_eq!(*tec.get(i2).unwrap(), e2);
    assert_eq!(i2, 32);

    let i3 = tec.allocate(e3).unwrap();
    assert_eq!(tec.len(), 100);
    assert_eq!(*tec.get(i3).unwrap(), e3);
    assert_eq!(i3, 20);
}

#[test]
fn test_remove_then_fill() {
    let mut tec: Tec<u8, u8> = Default::default();

    for i in 0..255 {
        assert_eq!(i, tec.allocate(i).unwrap());
    }

    for i in 50..150 {
        assert_eq!(i, tec.remove(i).unwrap());
    }

    assert_eq!(tec.len(), 155);

    for i in 0..100 {
        tec.allocate(i + 50).unwrap();
    }
}

#[test]
fn test_remove_then_fill_overflow() {
    let mut tec: Tec<u8, u8> = Default::default();

    for i in 0..255 {
        assert_eq!(i, tec.allocate(i).unwrap());
    }

    for i in 50..150 {
        assert_eq!(i, tec.remove(i).unwrap());
    }

    assert_eq!(tec.len(), 155);

    for i in 0..100 {
        tec.allocate(i + 50).unwrap();
    }

    assert_eq!(tec.allocate(11), Err(TecError::CapacityOverflow));
}

#[test]
fn test_remove() {
    let mut tec: Tec<usize> = Default::default();

    let total = 10;

    for i in 0..total {
        assert_eq!(i, tec.allocate(i).unwrap());
    }

    for i in total..0 {
        assert_eq!(tec.len(), i);
        assert_eq!(i, tec.remove(i).unwrap());
    }
}

#[test]
fn test_remove2() {
    let mut tec: Tec<usize> = Default::default();

    let remove_items = [1, 4, 5, 3, 2, 0];

    for i in 0..remove_items.len() {
        assert_eq!(i, tec.allocate(i).unwrap());
    }

    for item in remove_items {
        assert_eq!(item, tec.remove(item).unwrap());
    }
}

#[test]
fn test_remove3() {
    let mut tec: Tec<usize> = Default::default();

    let remove_items = [0, 3, 2, 1, 4];

    for i in 0..remove_items.len() {
        assert_eq!(i, tec.allocate(i).unwrap());
    }

    for item in remove_items {
        assert_eq!(item, tec.remove(item).unwrap());
    }
}
