use frameshift::relation::Relation;
use frameshift::search::{
    anchors_for, corrupted_probe, hit_indices, loss_threshold_for, lost_entries, missed_indices,
    padded_probe, reached_count, shift_amount, takes_anchor, CoverageOracle, Ratio,
    SearchContext, SearchMetadata, SearchOptions,
};
use frameshift::structured::Structured;

/// A target that reads a length field and then that many bytes; each byte
/// read marks one coverage entry.
struct LengthPrefixed {
    le: bool,
    map: Vec<u8>,
}

impl CoverageOracle for LengthPrefixed {
    fn probe(&mut self, input: &[u8]) -> &[u8] {
        self.map.iter_mut().for_each(|b| *b = 0);
        if input.len() >= 2 {
            let n = if self.le {
                u16::from_le_bytes([input[0], input[1]])
            } else {
                u16::from_be_bytes([input[0], input[1]])
            } as usize;
            if 2 + n <= input.len() {
                for k in 0..n.min(self.map.len()) {
                    self.map[k] = 1;
                }
            }
        }
        &self.map
    }
}

/// A target that reads chunks of a one-byte-free two-byte big-endian length
/// and its body, one after the other, and stops at the first short chunk.
struct Chunks {
    map: Vec<u8>,
}

impl CoverageOracle for Chunks {
    fn probe(&mut self, input: &[u8]) -> &[u8] {
        self.map.iter_mut().for_each(|b| *b = 0);
        let mut at = 0;
        let mut chunk = 0;
        while at + 2 <= input.len() && chunk < 2 {
            let n = u16::from_be_bytes([input[at], input[at + 1]]) as usize;
            if at + 2 + n > input.len() {
                break;
            }
            for k in 0..n.min(100) {
                self.map[chunk * 100 + k] = 1;
            }
            at += 2 + n;
            chunk += 1;
        }
        &self.map
    }
}

/// A target whose coverage does not depend on its input.
struct Constant {
    map: Vec<u8>,
}

impl CoverageOracle for Constant {
    fn probe(&mut self, _input: &[u8]) -> &[u8] {
        &self.map
    }
}

/// A target that reads a one-byte length at offset 1 and marks entry `i`
/// when byte `i` of the window after it is `0x41`.
struct Window {
    map: Vec<u8>,
}

impl CoverageOracle for Window {
    fn probe(&mut self, input: &[u8]) -> &[u8] {
        self.map.iter_mut().for_each(|b| *b = 0);
        if input.len() >= 2 {
            let n = input[1] as usize;
            if 2 + n <= input.len() {
                for i in 0..n.min(self.map.len()) {
                    if input[2 + i] == 0x41 {
                        self.map[i] = 1;
                    }
                }
            }
        }
        &self.map
    }
}

fn length_seed(prefix: [u8; 2]) -> Vec<u8> {
    let mut seed = prefix.to_vec();
    seed.extend_from_slice(b"AAAAAAAA");
    seed.extend_from_slice(b"BBBB");
    seed
}

#[test]
fn finds_big_endian_length() {
    let seed = Structured::raw(length_seed([0x00, 0x08]));
    let oracle = LengthPrefixed { le: false, map: vec![0; 64] };
    let res = SearchContext::search(&seed, oracle, SearchOptions::default());
    assert!(res.found_any);
    assert_eq!(res.input.raw, seed.raw);
    assert_eq!(res.input.relations.len(), 1);
    let r = res.input.relations[0];
    assert_eq!((r.size, r.le, r.pos, r.anchor, r.insert, r.value), (2, false, 0, 2, 10, 8));
    assert!(res.test_count >= 2);
}

#[test]
fn finds_little_endian_length() {
    let seed = Structured::raw(length_seed([0x08, 0x00]));
    let oracle = LengthPrefixed { le: true, map: vec![0; 64] };
    let res = SearchContext::search(&seed, oracle, SearchOptions::default());
    assert_eq!(res.input.relations.len(), 1);
    let r = res.input.relations[0];
    assert_eq!((r.size, r.le, r.pos, r.anchor, r.insert, r.value), (2, true, 0, 2, 10, 8));
}

#[test]
fn random_seed_gives_nothing() {
    let bytes: Vec<u8> = (0..64u32).map(|i| ((i * 7919 + 13) % 251) as u8).collect();
    let seed = Structured::raw(bytes);
    let mut map = vec![0u8; 32];
    map[3] = 1;
    map[17] = 4;
    let oracle = Constant { map };
    let res = SearchContext::search(&seed, oracle, SearchOptions::default());
    assert!(!res.found_any);
    assert!(res.input.relations.is_empty());
}

#[test]
fn finds_two_chunks() {
    let bytes = vec![0x00, 0x04, 0x41, 0x41, 0x41, 0x41, 0x00, 0x03, 0x42, 0x42, 0x42];
    let seed = Structured::raw(bytes);
    let oracle = Chunks { map: vec![0; 200] };
    let res = SearchContext::search(&seed, oracle, SearchOptions::default());
    assert_eq!(res.input.relations.len(), 2);
    let a = res.input.relations[0];
    let b = res.input.relations[1];
    assert_eq!((a.size, a.le, a.pos, a.anchor, a.insert, a.value), (2, false, 0, 2, 6, 4));
    assert_eq!((b.size, b.le, b.pos, b.anchor, b.insert, b.value), (2, false, 6, 8, 11, 3));
    assert!(b.pos >= a.pos + a.size);
}

#[test]
fn scenario_a_one_byte_length() {
    let seed = Structured::raw(vec![0x01, 0x04, 0x41, 0x41, 0x41, 0x41, 0xff, 0xff]);
    let mut oracle = Window { map: vec![0; 64] };
    let res = SearchContext::search(&seed, &mut oracle, SearchOptions::default());
    assert_eq!(res.input.relations.len(), 1);
    let r = res.input.relations[0];
    assert_eq!((r.pos, r.size, r.le, r.value, r.anchor, r.insert), (1, 1, true, 4, 2, 6));
    let mut s = res.input;
    s.insert_disabling(6, &[0x42, 0x42]);
    assert_eq!(s.raw, vec![0x01, 0x06, 0x41, 0x41, 0x41, 0x41, 0x42, 0x42, 0xff, 0xff]);
    let cov = oracle.probe(&s.raw).to_vec();
    assert!(cov[..4].iter().all(|b| *b != 0));
}

#[test]
fn options_defaults() {
    let o = SearchOptions::default();
    assert!(!o.verbose && !o.extra_verbose);
    assert_eq!(o.max_iters, 10);
    assert_eq!((o.loss_threshold.num, o.loss_threshold.den), (5, 100));
    assert_eq!((o.recover_threshold.num, o.recover_threshold.den), (20, 100));
    assert!(SearchOptions::verbose().verbose);
}

#[test]
fn coverage_index_helpers() {
    let cov = [0u8, 3, 0, 1, 9];
    assert_eq!(hit_indices(&cov), vec![1, 3, 4]);
    assert!(hit_indices(&[]).is_empty());
    let idxs = vec![1, 2, 3, 7];
    assert_eq!(missed_indices(&idxs, &cov), vec![2, 7]);
    assert_eq!(reached_count(&idxs, &cov), 2);
    assert_eq!(reached_count(&vec![], &cov), 0);
}

#[test]
fn loss_threshold_rounds_up() {
    let five = Ratio { num: 5, den: 100 };
    assert_eq!(loss_threshold_for(five, 0), 1);
    assert_eq!(loss_threshold_for(five, 8), 1);
    assert_eq!(loss_threshold_for(five, 20), 1);
    assert_eq!(loss_threshold_for(five, 21), 2);
    assert_eq!(loss_threshold_for(five, 100), 5);
    assert_eq!(loss_threshold_for(Ratio { num: 1, den: 1 }, 7), 7);
    assert_eq!(loss_threshold_for(Ratio { num: 0, den: 3 }, 7), 1);
}

#[test]
fn shift_amounts() {
    assert_eq!(shift_amount(1, 4), Some(0x20));
    assert_eq!(shift_amount(1, 0xf0), Some(0x0f));
    assert_eq!(shift_amount(1, 0xff), None);
    assert_eq!(shift_amount(2, 8), Some(0xff));
    assert_eq!(shift_amount(8, 1), Some(0xff));
}

#[test]
fn anchor_orders() {
    assert_eq!(anchors_for(5, 1), vec![6]);
    assert_eq!(anchors_for(5, 2), vec![0, 5, 7]);
    assert_eq!(anchors_for(3, 4), vec![14, 13, 12, 11, 10, 9, 8, 0, 3, 7]);
}

#[test]
fn metadata_totals() {
    let mut m = SearchMetadata::new();
    assert_eq!((m.num_searched, m.num_found, m.search_tests), (0, 0, 0));
    let mut res = SearchContext::search(
        &Structured::raw(vec![1]),
        Constant { map: vec![0; 4] },
        SearchOptions::default(),
    );
    assert!(res.test_count >= 2);
    res.test_count = 12;
    res.target_test_ms = 3;
    res.total_test_ms = 5;
    res.found_any = true;
    m.record(&res);
    res.found_any = false;
    m.record(&res);
    assert_eq!((m.num_searched, m.num_found, m.search_tests), (2, 1, 24));
    assert_eq!((m.target_time_ms, m.total_time_ms), (6, 10));
    m.total_time_ms = u64::MAX - 1;
    res.test_count = 0;
    res.target_test_ms = 0;
    res.total_test_ms = 7;
    m.record(&res);
    assert_eq!(m.total_time_ms, u64::MAX);
}

#[test]
fn anchor_decision() {
    let lost = vec![0, 2, 4, 6];
    let cov = [1u8, 0, 1, 0, 0, 0, 1];
    let r = takes_anchor(&lost, &cov, Ratio { num: 20, den: 100 }).unwrap();
    assert_eq!((r.num, r.den), (3, 4));
    assert!(takes_anchor(&lost, &cov, Ratio { num: 3, den: 4 }).is_some());
    assert!(takes_anchor(&lost, &cov, Ratio { num: 4, den: 5 }).is_none());
    assert!(takes_anchor(&lost, &[], Ratio { num: 0, den: 1 }).is_some());
    assert!(takes_anchor(&lost, &[], Ratio { num: 1, den: 100 }).is_none());
}

#[test]
fn loss_gate_decision() {
    let focus = vec![0, 1, 2, 3];
    let cov = [1u8, 0, 0, 1];
    assert_eq!(lost_entries(&focus, &cov, 2), Some(vec![1, 2]));
    assert_eq!(lost_entries(&focus, &cov, 3), None);
    assert_eq!(lost_entries(&focus, &[1, 1, 1, 1], 0), None);
    assert_eq!(lost_entries(&vec![], &cov, 0), None);
}

#[test]
fn probe_buffers() {
    let seed = vec![0x00, 0x08, 1, 2, 3];
    let field = Relation::new(0, 8 + 0xff, 2, false, 0, 0);
    assert_eq!(corrupted_probe(&seed, &field), vec![0x01, 0x07, 1, 2, 3]);
    let mut s = Structured::raw(seed.clone());
    s.add_relation(Relation::new(4, 1, 1, true, 4, 5));
    assert!(s.on_insert(2, 3).is_ok());
    let probe = padded_probe(&seed, &s, &field, 2, 3);
    assert_eq!(probe, vec![0x01, 0x07, 0x41, 0x41, 0x41, 1, 2, 1]);
    let none = Structured::raw(vec![]);
    let later = Relation::new(3, 9, 1, true, 0, 0);
    let moved = padded_probe(&seed, &none, &later, 1, 2);
    assert_eq!(moved, vec![0x00, 0x41, 0x41, 0x08, 1, 9, 3]);
}

#[test]
fn no_passes_keeps_buffer() {
    let seed = Structured::raw(length_seed([0x00, 0x08]));
    let oracle = LengthPrefixed { le: false, map: vec![0; 64] };
    let mut options = SearchOptions::default();
    options.max_iters = 0;
    let res = SearchContext::search(&seed, oracle, options);
    assert!(res.input.relations.is_empty());
    assert_eq!(res.input.raw, seed.raw);
    assert_eq!(res.test_count, 2);
    assert!(!res.found_any);
}
