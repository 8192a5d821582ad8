use rust_pyaq::constants::VNULL;
use rust_pyaq::stone_group::StoneGroup;

#[test]
fn a_new_group_is_a_placeholder() {
    let g = StoneGroup::new();
    assert_eq!(g.get_size(), VNULL);
    assert_eq!(g.get_lib_cnt(), VNULL);
    assert_eq!(g.get_v_atr(), VNULL);
}

#[test]
fn clear_makes_a_single_stone_or_a_placeholder() {
    let mut g = StoneGroup::new();
    g.clear(true);
    assert_eq!((g.get_size(), g.get_lib_cnt(), g.get_v_atr()), (1, 0, VNULL));
    g.add(13);
    g.clear(false);
    assert_eq!((g.get_size(), g.get_lib_cnt(), g.get_v_atr()), (VNULL, VNULL, VNULL));
    assert!(!g.has_lib(13));
}

#[test]
fn add_and_sub_are_idempotent() {
    let mut g = StoneGroup::new();
    g.clear(true);
    g.add(13);
    g.add(13);
    assert_eq!(g.get_lib_cnt(), 1);
    assert_eq!(g.get_v_atr(), 13);
    g.add(23);
    assert_eq!(g.get_lib_cnt(), 2);
    assert_eq!(g.get_v_atr(), 23);
    g.sub(23);
    g.sub(23);
    assert_eq!(g.get_lib_cnt(), 1);
    // the last liberty added stays on record
    assert_eq!(g.get_v_atr(), 23);
    assert!(g.has_lib(13) && !g.has_lib(23));
    g.sub(99);
    assert_eq!(g.get_lib_cnt(), 1);
}

#[test]
fn merge_unites_liberties_and_adds_sizes() {
    let mut a = StoneGroup::new();
    a.clear(true);
    a.add(13);
    a.add(14);
    let mut b = StoneGroup::new();
    b.clear(true);
    b.add(14);
    b.add(25);
    a.merge(&b);
    assert_eq!(a.get_size(), 2);
    assert_eq!(a.get_lib_cnt(), 3);
    assert!(a.has_lib(13) && a.has_lib(14) && a.has_lib(25));
    assert_eq!(a.get_v_atr(), 14);
    assert_eq!(b.get_lib_cnt(), 2);
}

#[test]
fn merge_records_a_single_liberty() {
    let mut a = StoneGroup::new();
    a.clear(true);
    let mut b = StoneGroup::new();
    b.clear(true);
    b.add(40);
    a.merge(&b);
    assert_eq!(a.get_lib_cnt(), 1);
    assert_eq!(a.get_v_atr(), 40);
}

#[test]
fn copy_to_copies_everything() {
    let mut a = StoneGroup::new();
    a.clear(true);
    a.add(13);
    a.add(14);
    let mut b = StoneGroup::new();
    b.add(99);
    a.copy_to(&mut b);
    assert_eq!((b.get_size(), b.get_lib_cnt(), b.get_v_atr()), (1, 2, 14));
    assert!(b.has_lib(13) && b.has_lib(14) && !b.has_lib(99));
}
