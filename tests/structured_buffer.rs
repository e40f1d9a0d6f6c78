use frameshift::relation::Relation;
use frameshift::structured::Structured;

fn scenario_a() -> Structured {
    let mut s = Structured::raw(vec![0x01, 0x04, 0x41, 0x41, 0x41, 0x41, 0xff, 0xff]);
    s.add_relation(Relation::new(1, 4, 1, true, 2, 6));
    s
}

fn consistent(s: &Structured) -> bool {
    s.relations.iter().filter(|r| r.enabled).all(|r| {
        let mut copy = s.raw.clone();
        r.apply(&mut copy);
        copy == s.raw
    })
}

#[test]
fn scenario_b_insert_grows_length() {
    let mut s = scenario_a();
    s.insert_disabling(6, &[0x42, 0x42]);
    assert_eq!(s.raw, vec![0x01, 0x06, 0x41, 0x41, 0x41, 0x41, 0x42, 0x42, 0xff, 0xff]);
    assert_eq!(s.relations.len(), 1);
    assert_eq!(s.relations[0].value, 6);
    assert_eq!(s.relations[0].insert, 8);
    assert_eq!(s.relations[0].anchor, 2);
    assert!(consistent(&s));
}

#[test]
fn scenario_c_remove_first_byte() {
    let mut s = scenario_a();
    s.remove_disabling(0, 1);
    assert_eq!(s.raw, vec![0x04, 0x41, 0x41, 0x41, 0x41, 0xff, 0xff]);
    assert_eq!(s.relations.len(), 1);
    assert_eq!(s.relations[0].pos, 0);
    assert_eq!(s.relations[0].anchor, 1);
    assert_eq!(s.relations[0].insert, 5);
    assert!(consistent(&s));
}

#[test]
fn remove_disabling_drops_cut_field() {
    let mut s = scenario_a();
    s.remove_disabling(1, 2);
    assert!(s.relations.is_empty());
    assert_eq!(s.raw, vec![0x01, 0x41, 0x41, 0x41, 0xff, 0xff]);
}

#[test]
fn remove_disabling_keeps_subset() {
    let mut s = Structured::raw(vec![0u8; 32]);
    s.add_relation(Relation::new(0, 4, 1, true, 1, 5));
    s.add_relation(Relation::new(10, 4, 2, false, 12, 16));
    s.add_relation(Relation::new(20, 6, 1, true, 21, 27));
    s.sanitize();
    let before = s.clone();
    s.remove_disabling(11, 3);
    assert_eq!(s.raw.len(), 29);
    assert_eq!(s.relations.len(), 2);
    assert_eq!(s.relations[0], before.relations[0]);
    let mut moved = before.relations[2];
    assert!(moved.on_remove(11, 3).is_ok());
    assert_eq!(s.relations[1], moved);
    assert!(consistent(&s));
}

#[test]
fn insert_disabling_swaps_out_refusing() {
    let mut s = Structured::raw(vec![0u8; 40]);
    s.add_relation(Relation::new(0, 0xfe, 1, true, 1, 30));
    s.add_relation(Relation::new(4, 2, 1, true, 5, 7));
    s.add_relation(Relation::new(10, 20, 1, true, 11, 31));
    s.insert_disabling(6, &[9, 9, 9]);
    assert_eq!(s.raw.len(), 43);
    assert_eq!(s.relations.len(), 2);
    assert_eq!(s.relations[0].pos, 13);
    assert_eq!(s.relations[1].pos, 4);
    assert_eq!(s.relations[1].value, 5);
    assert_eq!(s.raw[4], 5);
    assert_eq!(s.raw[13], 20);
}

#[test]
fn strict_insert_is_atomic() {
    let mut s = Structured::raw(vec![0u8; 8]);
    s.add_relation(Relation::new(0, 2, 1, true, 1, 3));
    s.add_relation(Relation::new(4, 1, 2, true, 6, 7));
    s.sanitize();
    let before = s.clone();
    assert!(s.insert(5, &[1]).is_err());
    assert_eq!(s, before);
    assert!(s.insert(2, &[7, 7]).is_ok());
    assert_eq!(s.raw, vec![4, 0, 7, 7, 0, 0, 1, 0, 0, 0]);
    assert_eq!(s.relations[0].value, 4);
    assert_eq!(s.relations[1].pos, 6);
}

#[test]
fn strict_remove_is_atomic() {
    let mut s = Structured::raw(vec![3, 1, 2, 3, 9, 9]);
    s.add_relation(Relation::new(0, 3, 1, true, 1, 4));
    let before = s.clone();
    assert!(s.remove(0, 2).is_err());
    assert_eq!(s, before);
    assert!(s.remove(2, 1).is_ok());
    assert_eq!(s.raw, vec![2, 1, 3, 9, 9]);
}

#[test]
fn insert_ignore_invalid_leaves_refusing() {
    let mut s = Structured::raw(vec![0u8; 8]);
    s.add_relation(Relation::new(2, 1, 2, true, 4, 5));
    s.insert_ignore_invalid(3, &[5]);
    assert_eq!(s.relations.len(), 1);
    assert_eq!(s.relations[0], Relation::new(2, 1, 2, true, 4, 5));
    assert_eq!(s.raw.len(), 9);
}

#[test]
fn write_over_field_is_healed() {
    let mut s = scenario_a();
    s.write(0, &[7, 7, 7]);
    assert_eq!(s.raw, vec![7, 4, 7, 0x41, 0x41, 0x41, 0xff, 0xff]);
    assert!(consistent(&s));
}

#[test]
fn disabled_relation_not_applied() {
    let mut s = scenario_a();
    s.set_relation_enabled(0, false);
    s.write(1, &[9]);
    assert_eq!(s.raw[1], 9);
    s.insert_disabling(3, &[1]);
    assert_eq!(s.relations.len(), 1);
    assert_eq!(s.relations[0].pos, 1);
}

#[test]
fn on_insert_touches_only_relations() {
    let mut s = scenario_a();
    assert!(s.on_insert(3, 2).is_ok());
    assert_eq!(s.raw, scenario_a().raw);
    assert_eq!(s.relations[0].value, 6);
    s.restore_relations();
    assert_eq!(s.relations[0].value, 4);
    assert!(s.on_insert(3, 0xfc).is_err());
    assert_eq!(s.relations[0].value, 4);
    assert!(s.on_insert(3, 0xfb).is_ok());
    assert_eq!(s.relations[0].value, 0xff);
}

#[test]
fn points_sets() {
    let mut s = Structured::raw(vec![0u8; 30]);
    s.add_relation(Relation::new(0, 8, 4, true, 4, 12));
    s.add_relation(Relation::new(12, 4, 8, false, 4, 8));
    s.add_relation(Relation::new(20, 2, 1, true, 21, 23));
    let mut inf = s.inflection_points();
    inf.sort();
    assert_eq!(inf, vec![0, 4, 8, 12]);
    let ins = s.insertion_points();
    assert_eq!(ins[0], 30);
    let mut sorted = ins.clone();
    sorted.sort();
    assert_eq!(sorted, vec![8, 12, 23, 30]);
}

#[test]
fn empty_buffer_edits() {
    let mut s = Structured::raw(Vec::new());
    s.insert_disabling(0, &[]);
    s.remove_disabling(0, 0);
    assert!(s.raw.is_empty());
    assert!(s.insert(0, &[1, 2]).is_ok());
    assert_eq!(s.get_raw(), &[1, 2]);
    s.get_raw_mut()[0] = 5;
    assert_eq!(s.raw, vec![5, 2]);
}
