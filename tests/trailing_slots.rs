use stable_id::{find_start_of_trailing_dead_slots, Slot};

#[test]
fn base_case2() {
    let data: [Slot<usize, usize>; 1] = [Slot::Alive(1232)];
    let result = find_start_of_trailing_dead_slots(&data);
    assert_eq!(result, None);
}

#[test]
fn test1() {
    let data: Vec<Slot<usize, usize>> = vec![
        Slot::Alive(324),
        Slot::Dead { next_free: 1 },
        Slot::Alive(34),
        Slot::Dead { next_free: 2 },
        Slot::Dead { next_free: 3 },
        Slot::Dead { next_free: 4 },
        Slot::Dead { next_free: 5 },
        Slot::Dead { next_free: 6 },
        Slot::Dead { next_free: 7 },
    ];
    let result = find_start_of_trailing_dead_slots(&data);
    assert_eq!(result, Some((3, 6)));
}

#[test]
fn test2() {
    let data: Vec<Slot<usize, usize>> = vec![
        Slot::Dead { next_free: 1 },
        Slot::Dead { next_free: 1 },
        Slot::Dead { next_free: 1 },
        Slot::Dead { next_free: 1 },
        Slot::Dead { next_free: 1 },
        Slot::Dead { next_free: 1 },
        Slot::Dead { next_free: 1 },
    ];
    let result = find_start_of_trailing_dead_slots(&data);
    assert_eq!(result, Some((0, 7)));
}

#[test]
fn test3() {
    let data: Vec<Slot<usize, usize>> = vec![
        Slot::Alive(324),
        Slot::Dead { next_free: 1 },
        Slot::Alive(34),
        Slot::Alive(34),
        Slot::Alive(34),
        Slot::Alive(34),
        Slot::Alive(34),
        Slot::Dead { next_free: 1 },
        Slot::Dead { next_free: 1 },
        Slot::Dead { next_free: 1 },
        Slot::Dead { next_free: 1 },
        Slot::Dead { next_free: 1 },
        Slot::Dead { next_free: 1 },
    ];
    let result = find_start_of_trailing_dead_slots(&data);
    assert_eq!(result, Some((7, 6)));
}

#[test]
fn test4() {
    let data: Vec<Slot<usize, usize>> = vec![
        Slot::Alive(324),
        Slot::Dead { next_free: 1 },
        Slot::Alive(34),
        Slot::Alive(34),
        Slot::Alive(34),
        Slot::Alive(34),
        Slot::Alive(34),
        Slot::Dead { next_free: 1 },
        Slot::Dead { next_free: 1 },
        Slot::Dead { next_free: 1 },
        Slot::Alive(34),
        Slot::Dead { next_free: 1 },
        Slot::Dead { next_free: 1 },
        Slot::Dead { next_free: 1 },
    ];
    let result = find_start_of_trailing_dead_slots(&data);
    assert_eq!(result, Some((11, 3)));
}

#[test]
fn test5() {
    let data: Vec<Slot<usize, usize>> = vec![
        Slot::Alive(324),
        Slot::Dead { next_free: 1 },
        Slot::Alive(34),
        Slot::Alive(34),
        Slot::Alive(34),
        Slot::Alive(34),
        Slot::Alive(34),
        Slot::Dead { next_free: 1 },
        Slot::Dead { next_free: 1 },
        Slot::Dead { next_free: 1 },
        Slot::Dead { next_free: 1 },
        Slot::Dead { next_free: 1 },
        Slot::Dead { next_free: 1 },
        Slot::Alive(34),
    ];
    let result = find_start_of_trailing_dead_slots(&data);
    assert_eq!(result, None);
}

#[test]
fn empty_slice_has_no_trailing_run() {
    let data: [Slot<usize, usize>; 0] = [];
    assert_eq!(find_start_of_trailing_dead_slots(&data), None);
}
