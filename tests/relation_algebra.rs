use frameshift::relation::Relation;

#[test]
fn test_insert_size1() {
    // ....FFFF|........|....
    let base = Relation::new(4, 8, 4, true, 8, 16);

    let mut rel = base.clone();
    assert!(rel.on_insert(0, 1).is_ok());
    assert_eq!(rel.pos, 5);
    assert_eq!(rel.anchor, 9);
    assert_eq!(rel.insert, 17);
    assert_eq!(rel.value, 8);

    let mut rel = base.clone();
    assert!(rel.on_insert(4, 1).is_ok());
    assert_eq!(rel.pos, 5);
    assert_eq!(rel.anchor, 9);
    assert_eq!(rel.insert, 17);
    assert_eq!(rel.value, 8);

    let mut rel = base.clone();
    assert!(rel.on_insert(5, 1).is_err());

    let mut rel = base.clone();
    assert!(rel.on_insert(8, 1).is_ok());
    assert_eq!(rel.pos, 4);
    assert_eq!(rel.anchor, 8);
    assert_eq!(rel.insert, 17);
    assert_eq!(rel.value, 9);

    let mut rel = base.clone();
    assert!(rel.on_insert(12, 1).is_ok());
    assert_eq!(rel.pos, 4);
    assert_eq!(rel.anchor, 8);
    assert_eq!(rel.insert, 17);
    assert_eq!(rel.value, 9);
}

#[test]
fn test_insert_size2() {
    // ....FFFF....|........|....
    let base = Relation::new(4, 8, 4, true, 12, 20);

    let mut rel = base.clone();
    assert!(rel.on_insert(0, 1).is_ok());
    assert_eq!(rel.pos, 5);
    assert_eq!(rel.anchor, 13);
    assert_eq!(rel.insert, 21);
    assert_eq!(rel.value, 8);

    let mut rel = base.clone();
    assert!(rel.on_insert(4, 1).is_ok());
    assert_eq!(rel.pos, 5);
    assert_eq!(rel.anchor, 13);
    assert_eq!(rel.insert, 21);
    assert_eq!(rel.value, 8);

    let mut rel = base.clone();
    assert!(rel.on_insert(5, 1).is_err());

    let mut rel = base.clone();
    assert!(rel.on_insert(8, 1).is_ok());
    assert_eq!(rel.pos, 4);
    assert_eq!(rel.anchor, 13);
    assert_eq!(rel.insert, 21);
    assert_eq!(rel.value, 8);

    let mut rel = base.clone();
    assert!(rel.on_insert(12, 1).is_ok());
    assert_eq!(rel.pos, 4);
    assert_eq!(rel.anchor, 12);
    assert_eq!(rel.insert, 21);
    assert_eq!(rel.value, 9);
}

#[test]
fn test_insert_offset() {
    // |....FFFF....|....
    let base = Relation::new(4, 12, 4, true, 0, 12);

    let mut rel = base.clone();
    assert!(rel.on_insert(0, 1).is_ok());
    assert_eq!(rel.pos, 5);
    assert_eq!(rel.anchor, 0);
    assert_eq!(rel.insert, 13);
    assert_eq!(rel.value, 13);

    let mut rel = base.clone();
    assert!(rel.on_insert(4, 1).is_ok());
    assert_eq!(rel.pos, 5);
    assert_eq!(rel.anchor, 0);
    assert_eq!(rel.insert, 13);
    assert_eq!(rel.value, 13);

    let mut rel = base.clone();
    assert!(rel.on_insert(5, 1).is_err());

    let mut rel = base.clone();
    assert!(rel.on_insert(8, 1).is_ok());
    assert_eq!(rel.pos, 4);
    assert_eq!(rel.anchor, 0);
    assert_eq!(rel.insert, 13);
    assert_eq!(rel.value, 13);

    let mut rel = base.clone();
    assert!(rel.on_insert(12, 1).is_ok());
    assert_eq!(rel.pos, 4);
    assert_eq!(rel.anchor, 0);
    assert_eq!(rel.insert, 13);
    assert_eq!(rel.value, 13);
}

#[test]
fn test_remove_size1() {
    // ....FFFF|........|....
    let base = Relation::new(4, 8, 4, true, 8, 16);

    let mut rel = base.clone();
    assert!(rel.on_remove(0, 1).is_ok());
    assert_eq!(rel.pos, 3);
    assert_eq!(rel.anchor, 7);
    assert_eq!(rel.insert, 15);
    assert_eq!(rel.value, 8);

    let mut rel = base.clone();
    assert!(rel.on_remove(4, 1).is_err());

    let mut rel = base.clone();
    assert!(rel.on_remove(7, 1).is_err());

    let mut rel = base.clone();
    assert!(rel.on_remove(8, 1).is_ok());
    assert_eq!(rel.pos, 4);
    assert_eq!(rel.anchor, 8);
    assert_eq!(rel.insert, 15);
    assert_eq!(rel.value, 7);

    let mut rel = base.clone();
    assert!(rel.on_remove(12, 1).is_ok());
    assert_eq!(rel.pos, 4);
    assert_eq!(rel.anchor, 8);
    assert_eq!(rel.insert, 15);
    assert_eq!(rel.value, 7);

    let mut rel = base.clone();
    assert!(rel.on_remove(16, 1).is_ok());
    assert_eq!(rel.pos, 4);
    assert_eq!(rel.anchor, 8);
    assert_eq!(rel.insert, 16);
    assert_eq!(rel.value, 8);
}

#[test]
fn test_remove_size2() {
    // ....FFFF....|........|....
    let base = Relation::new(4, 8, 4, true, 12, 20);

    let mut rel = base.clone();
    assert!(rel.on_remove(0, 1).is_ok());
    assert_eq!(rel.pos, 3);
    assert_eq!(rel.anchor, 11);
    assert_eq!(rel.insert, 19);
    assert_eq!(rel.value, 8);

    let mut rel = base.clone();
    assert!(rel.on_remove(4, 1).is_err());

    let mut rel = base.clone();
    assert!(rel.on_remove(7, 1).is_err());

    let mut rel = base.clone();
    assert!(rel.on_remove(8, 1).is_ok());
    assert_eq!(rel.pos, 4);
    assert_eq!(rel.anchor, 11);
    assert_eq!(rel.insert, 19);
    assert_eq!(rel.value, 8);

    let mut rel = base.clone();
    assert!(rel.on_remove(12, 1).is_ok());
    assert_eq!(rel.pos, 4);
    assert_eq!(rel.anchor, 12);
    assert_eq!(rel.insert, 19);
    assert_eq!(rel.value, 7);
}

#[test]
fn test_remove_offset() {
    // |....FFFF....|....
    let base = Relation::new(4, 12, 4, true, 0, 12);

    let mut rel = base.clone();
    assert!(rel.on_remove(0, 1).is_ok());
    assert_eq!(rel.pos, 3);
    assert_eq!(rel.anchor, 0);
    assert_eq!(rel.insert, 11);
    assert_eq!(rel.value, 11);

    let mut rel = base.clone();
    assert!(rel.on_remove(4, 1).is_err());

    let mut rel = base.clone();
    assert!(rel.on_remove(7, 1).is_err());

    let mut rel = base.clone();
    assert!(rel.on_remove(8, 1).is_ok());
    assert_eq!(rel.pos, 4);
    assert_eq!(rel.anchor, 0);
    assert_eq!(rel.insert, 11);
    assert_eq!(rel.value, 11);

    let mut rel = base.clone();
    assert!(rel.on_remove(12, 1).is_ok());
    assert_eq!(rel.pos, 4);
    assert_eq!(rel.anchor, 0);
    assert_eq!(rel.insert, 12);
    assert_eq!(rel.value, 12);
}

#[test]
fn roundtrip() {
    let rels = vec![
        Relation::new(4, 8, 4, true, 8, 16),
        Relation::new(4, 8, 4, true, 12, 20),
        Relation::new(4, 12, 4, true, 0, 12)
    ];

    for base in rels {
        for i in 0..20 {
            for size in 1..5 {
                let mut rel = base.clone();
                if rel.on_insert(i, size).is_ok() {
                    let mut rel2 = rel.clone();
                    assert!(rel2.on_remove(i, size).is_ok());
                    assert_eq!(rel2, base);
                }
            }
        }
    }
}

#[test]
fn test_oob_relation() {
    let mut rel = Relation::new(0, 0x30, 1, true, 0, 1);
    assert!(rel.on_insert(0, 0x40).is_ok());
    assert!(rel.on_insert(1, 0xf0).is_err());
}

#[test]
fn insert_then_remove_restores_relation() {
    let base = Relation::new(2, 6, 2, false, 4, 10);
    for idx in 0..14 {
        for n in 1..6 {
            let mut rel = base;
            if rel.on_insert(idx, n).is_ok() {
                assert!(rel.on_remove(idx, n).is_ok());
                assert_eq!(rel, base);
            }
        }
    }
}

#[test]
fn insert_inside_field_is_refused() {
    let base = Relation::new(10, 3, 8, true, 18, 21);
    for idx in 11..18 {
        let mut rel = base;
        assert!(rel.on_insert(idx, 1).is_err());
        assert_eq!(rel, base);
        let mut rel = base;
        assert!(rel.on_insert(idx, 1000).is_err());
    }
    let mut rel = base;
    assert!(rel.on_insert(10, 1).is_ok());
    let mut rel = base;
    assert!(rel.on_insert(18, 1).is_ok());
}

#[test]
fn value_overflow_is_refused() {
    let mut rel = Relation::new(0, 0x30, 1, true, 1, 0x31);
    assert!(rel.on_insert(5, 0x40).is_ok());
    assert_eq!(rel.value, 0x70);
    let mut rel = Relation::new(0, 0x30, 1, true, 1, 0x31);
    assert!(rel.on_insert(5, 0xf0).is_err());
    assert_eq!(rel.value, 0x30);
    let mut rel = Relation::new(0, 0xfffe, 2, true, 2, 0x10000);
    assert!(rel.on_insert(3, 1).is_ok());
    assert_eq!(rel.value, 0xffff);
    assert!(rel.on_insert(3, 1).is_err());
}

#[test]
fn anchor_at_zero_stays() {
    for idx in 0..20 {
        let mut rel = Relation::new(4, 12, 4, true, 0, 12);
        if rel.on_insert(idx, 7).is_ok() {
            assert_eq!(rel.anchor, 0);
        }
    }
}

#[test]
fn apply_writes_each_width_and_order() {
    let cases: Vec<(usize, bool, u64, Vec<u8>)> = vec![
        (1, true, 0xab, vec![0xab]),
        (1, false, 0xab, vec![0xab]),
        (2, true, 0x1234, vec![0x34, 0x12]),
        (2, false, 0x1234, vec![0x12, 0x34]),
        (3, true, 0x123456, vec![0x56, 0x34, 0x12]),
        (3, false, 0x123456, vec![0x12, 0x34, 0x56]),
        (4, true, 0x12345678, vec![0x78, 0x56, 0x34, 0x12]),
        (4, false, 0x12345678, vec![0x12, 0x34, 0x56, 0x78]),
        (8, true, 0x0102030405060708, vec![8, 7, 6, 5, 4, 3, 2, 1]),
        (8, false, 0x0102030405060708, vec![1, 2, 3, 4, 5, 6, 7, 8]),
    ];
    for (size, le, value, bytes) in cases {
        let mut buf = vec![0xeeu8; 12];
        let rel = Relation::new(2, value, size, le, 0, 0);
        rel.apply(&mut buf);
        assert_eq!(&buf[2..2 + size], &bytes[..]);
        assert!(buf[..2].iter().all(|b| *b == 0xee));
        assert!(buf[2 + size..].iter().all(|b| *b == 0xee));
        let mut back: u64 = 0;
        for k in 0..size {
            let b = if le { buf[2 + size - 1 - k] } else { buf[2 + k] };
            back = back * 256 + b as u64;
        }
        assert_eq!(back, value);
    }
}

#[test]
fn apply_truncates_to_width() {
    let mut buf = vec![0u8; 4];
    Relation::new(1, 0x1ff, 1, true, 0, 0).apply(&mut buf);
    assert_eq!(buf, vec![0, 0xff, 0, 0]);
}

#[test]
fn remove_counts_measured_bytes() {
    let mut rel = Relation::new(0, 8, 2, false, 2, 10);
    assert!(rel.on_remove(8, 4).is_ok());
    assert_eq!(rel.value, 6);
    assert_eq!(rel.insert, 8);
    let mut rel = Relation::new(0, 1, 2, false, 2, 10);
    assert!(rel.on_remove(3, 4).is_err());
    assert_eq!(rel.value, 1);
}

#[test]
fn save_and_restore() {
    let mut rel = Relation::new(4, 8, 4, true, 8, 16);
    rel.save();
    assert!(rel.on_insert(0, 3).is_ok());
    assert_eq!(rel.pos, 7);
    rel.restore();
    assert_eq!(rel, Relation::new(4, 8, 4, true, 8, 16));
}
