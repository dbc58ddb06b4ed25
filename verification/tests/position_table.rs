use ocamlrep_marshal::position_table::{Bitvect_size, Lookup, PositionTable, Threshold};

#[test]
fn sizes_and_thresholds() {
    assert_eq!(Bitvect_size(0), 0);
    assert_eq!(Bitvect_size(1), 1);
    assert_eq!(Bitvect_size(64), 1);
    assert_eq!(Bitvect_size(65), 2);
    assert_eq!(Bitvect_size(256), 4);
    assert_eq!(Threshold(256), 170);
    assert_eq!(Threshold(2048), 1365);
    assert_eq!(Threshold(3), 2);
}

#[test]
fn hash_lands_in_the_table() {
    assert_eq!(ocamlrep_marshal::position_table::Hash(0, 56), 0);
    assert_eq!(ocamlrep_marshal::position_table::Hash(1, 56), 11400714819323198486u64 >> 56);
    for v in 0..1000usize {
        assert!(ocamlrep_marshal::position_table::Hash(v, 56) < 256);
        assert!(ocamlrep_marshal::position_table::Hash(v, 53) < 2048);
    }
}

#[test]
fn recorded_blocks_are_found_again_across_growth() {
    let mut t = PositionTable::init_position_table();
    let n = 5000u64;
    for k in 0..n {
        let obj = (k * 7919) as usize;
        match t.lookup_position(obj) {
            Lookup::Found(_) => panic!("not recorded yet"),
            Lookup::Vacant(h) => {
                t.set_at(obj, h, k);
                if k + 1 >= t.threshold() {
                    t.resize_position_table();
                }
            }
        }
    }
    for k in 0..n {
        assert_eq!(t.lookup_position((k * 7919) as usize), Lookup::Found(k));
    }
    assert!(matches!(t.lookup_position(1), Lookup::Vacant(_)));
    assert!(t.threshold() > n);
}

#[test]
fn table_grows_eightfold_while_small() {
    let mut t = PositionTable::init_position_table();
    assert_eq!(t.threshold(), 170);
    for k in 0..170u64 {
        match t.lookup_position(k as usize) {
            Lookup::Found(_) => panic!("not recorded yet"),
            Lookup::Vacant(h) => t.set_at(k as usize, h, k),
        }
    }
    t.resize_position_table();
    // 2048 slots: two thirds of them.
    assert_eq!(t.threshold(), 1365);
    for k in 0..170u64 {
        assert_eq!(t.lookup_position(k as usize), Lookup::Found(k));
    }
}

#[test]
fn empty_table_has_no_slots() {
    let t = PositionTable::new();
    assert_eq!(t.threshold(), 0);
}

#[test]
fn growing_past_the_threshold_keeps_every_lookup() {
    let mut t = PositionTable::init_position_table();
    for k in 0..200u64 {
        match t.lookup_position(k as usize * 3) {
            Lookup::Found(_) => panic!("not recorded yet"),
            Lookup::Vacant(h) => t.set_at(k as usize * 3, h, k),
        }
    }
    t.resize_position_table();
    assert_eq!(t.threshold(), 1365);
    for k in 0..200u64 {
        assert_eq!(t.lookup_position(k as usize * 3), Lookup::Found(k));
    }
    assert!(matches!(t.lookup_position(1), Lookup::Vacant(_)));
}
