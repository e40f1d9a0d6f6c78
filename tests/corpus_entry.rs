use frameshift::input::{
    needs_search, BytesGenerator, GrammarGenerator, InputStatus, StructuredInput,
};
use frameshift::relation::Relation;
use frameshift::search::{CoverageOracle, SearchContext, SearchMetadata, SearchOptions};
use frameshift::structured::Structured;

/// A target that reaches nothing.
struct Silent {
    map: Vec<u8>,
}

impl CoverageOracle for Silent {
    fn probe(&mut self, _input: &[u8]) -> &[u8] {
        &self.map
    }
}

fn entry() -> StructuredInput {
    let mut s = Structured::raw(vec![0x01, 0x04, 0x41, 0x41, 0x41, 0x41, 0xff, 0xff]);
    s.add_relation(Relation::new(1, 4, 1, true, 2, 6));
    StructuredInput::new_structured(s)
}

#[test]
fn search_status_decisions() {
    assert!(needs_search(InputStatus::New, 3));
    assert!(needs_search(InputStatus::Mutated, 3));
    assert!(!needs_search(InputStatus::InProgress, 3));
    assert!(!needs_search(InputStatus::Searched(3), 3));
    assert!(needs_search(InputStatus::Searched(2), 3));
}

#[test]
fn new_entries() {
    let e = StructuredInput::new_raw(b"aaaaaaaa");
    assert_eq!(e.bytes(), b"aaaaaaaa");
    assert_eq!(e.len(), 8);
    assert_eq!(e.status, InputStatus::New);
    assert_eq!(e.seed, 0);
    assert!(e.input.relations.is_empty());
    let mut e = entry();
    e.set_seed(99);
    assert_eq!(e.seed, 99);
}

#[test]
fn resize_shrinks_and_grows() {
    let mut e = entry();
    e.resize(5, 0);
    assert_eq!(e.input.raw, vec![0x01, 0x03, 0x41, 0x41, 0x41]);
    assert_eq!(e.input.relations[0].value, 3);
    let mut e = entry();
    for seed in 0..8 {
        e.set_seed(seed);
        let before = e.len();
        e.resize(before + 3, 0x41);
        assert_eq!(e.len(), before + 3);
        assert!(e.input.relations.len() <= 1);
    }
    let mut e = entry();
    e.resize(8, 0);
    assert_eq!(e.input.raw, entry().input.raw);
}

#[test]
fn extend_appends() {
    let mut e = entry();
    e.extend(&[7, 8]);
    assert_eq!(e.input.raw, vec![0x01, 0x04, 0x41, 0x41, 0x41, 0x41, 0xff, 0xff, 7, 8]);
    assert_eq!(e.input.relations[0].value, 4);
}

#[test]
fn splice_three_ways() {
    let mut e = entry();
    e.splice(2, 4, &[0x50, 0x51]);
    assert_eq!(e.input.raw, vec![0x01, 0x04, 0x50, 0x51, 0x41, 0x41, 0xff, 0xff]);
    let mut e = entry();
    e.splice(2, 5, &[0x50]);
    assert_eq!(e.input.raw, vec![0x01, 0x02, 0x50, 0x41, 0xff, 0xff]);
    let mut e = entry();
    e.splice(3, 4, &[0x50, 0x51, 0x52]);
    assert_eq!(e.input.raw, vec![0x01, 0x06, 0x41, 0x50, 0x51, 0x52, 0x41, 0x41, 0xff, 0xff]);
}

#[test]
fn drain_removes_range() {
    let mut e = entry();
    e.drain(6, 8);
    assert_eq!(e.input.raw, vec![0x01, 0x04, 0x41, 0x41, 0x41, 0x41]);
    e.drain(0, 2);
    assert!(e.input.relations.is_empty());
    assert_eq!(e.input.raw, vec![0x41, 0x41, 0x41, 0x41]);
}

#[test]
fn stage_marks_and_finishes() {
    let mut e = entry();
    assert!(e.begin_search(4));
    assert_eq!(e.status, InputStatus::InProgress);
    assert!(!e.begin_search(4));
    assert_eq!(e.status, InputStatus::InProgress);
    let mut totals = SearchMetadata::new();
    let mut res = SearchContext::search(
        &Structured::raw(vec![9, 9]),
        Silent { map: vec![0; 4] },
        SearchOptions::default(),
    );
    res.test_count = 3;
    e.finish_search(4, res, &mut totals);
    assert_eq!(e.status, InputStatus::Searched(4));
    assert_eq!(e.input.raw, vec![9, 9]);
    assert_eq!((totals.num_searched, totals.num_found, totals.search_tests), (1, 0, 3));
    assert!(!e.begin_search(4));
    assert!(e.begin_search(5));
}

#[test]
fn generators_make_eight_a() {
    let e = GrammarGenerator.generate();
    assert_eq!(e.input.raw, b"aaaaaaaa".to_vec());
    assert!(e.input.relations.is_empty());
    assert_eq!(BytesGenerator.generate(), b"aaaaaaaa".to_vec());
}
