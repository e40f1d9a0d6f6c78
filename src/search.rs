//! Inference of length and offset fields from coverage feedback.

use crate::field::{decode, encode, load, overwrite};
use crate::relation::{supported_size, Relation};
use crate::structured::{
    all_accept_insert, bytes_inserted, fields_fit, flagged, inflection_seq, insert_bytes,
    is_inflection_point,
    lemma_fit_fields, sanitized, shifted_by_insert, Structured,
};
use vstd::prelude::*;

verus! {

/// A fraction `num / den` between 0 and 1.
#[derive(Clone, Copy, Debug, PartialEq, Eq, Structural)]
pub struct Ratio {
    pub num: u64,
    pub den: u64,
}

impl Ratio {
    /// The denominator is positive and the fraction at most 1.
    pub open spec fn wf(self) -> bool {
        0 < self.den && self.num <= self.den
    }
}

/// Settings of a search.
#[derive(Clone, Copy, Debug)]
pub struct SearchOptions {
    /// Report each relation found.
    pub verbose: bool,
    /// Report each probe as well.
    pub extra_verbose: bool,
    /// The most passes over the buffer.
    pub max_iters: usize,
    /// The share of the seed's own coverage that corrupting a field must lose.
    pub loss_threshold: Ratio,
    /// The share of the lost coverage that an insertion must bring back.
    pub recover_threshold: Ratio,
}

impl SearchOptions {
    /// Both thresholds are proper fractions.
    pub open spec fn wf(self) -> bool {
        self.loss_threshold.wf() && self.recover_threshold.wf()
    }

    /// The default settings with reporting on.
    pub fn verbose() -> (r: Self)
        ensures
            r.verbose,
            !r.extra_verbose,
            r.max_iters == 10,
            r.loss_threshold == (Ratio { num: 5, den: 100 }),
            r.recover_threshold == (Ratio { num: 20, den: 100 }),
    {
        let mut o = Self::default();
        o.verbose = true;
        o
    }
}

impl Default for SearchOptions {
    fn default() -> (r: Self)
        ensures
            !r.verbose,
            !r.extra_verbose,
            r.max_iters == 10,
            r.loss_threshold == (Ratio { num: 5, den: 100 }),
            r.recover_threshold == (Ratio { num: 20, den: 100 }),
    {
        SearchOptions {
            verbose: false,
            extra_verbose: false,
            max_iters: 10,
            loss_threshold: Ratio { num: 5, den: 100 },
            recover_threshold: Ratio { num: 20, den: 100 },
        }
    }
}

/// Settings of the search stage.
#[derive(Clone, Copy, Debug)]
pub struct SearchStageArgs {
    pub options: SearchOptions,
}

/// Runs the target and reports its coverage.
pub trait CoverageOracle {
    /// Runs the target on `input`. A nonzero entry of the result marks an
    /// instrumentation point that the run reached. The result lives only until
    /// the next call.
    fn probe(&mut self, input: &[u8]) -> &[u8];
}

impl<T: CoverageOracle> CoverageOracle for &mut T {
    fn probe(&mut self, input: &[u8]) -> &[u8] {
        (**self).probe(input)
    }
}

/// Entry `i` of a coverage map is set; entries past its end count as unset.
pub open spec fn reached(cov: Seq<u8>, i: int) -> bool {
    0 <= i < cov.len() && cov[i] != 0
}

/// The indices of the set entries of `cov`, in increasing order.
pub open spec fn hits(cov: Seq<u8>) -> Seq<usize> {
    flagged(Seq::new(cov.len(), |i: int| cov[i] != 0))
}

/// The indices of `idxs` whose entries in `cov` are not set, in order.
pub open spec fn missed(idxs: Seq<usize>, cov: Seq<u8>) -> Seq<usize>
    decreases idxs.len(),
{
    if idxs.len() == 0 {
        Seq::empty()
    } else {
        let prev = missed(idxs.drop_last(), cov);
        if reached(cov, idxs.last() as int) {
            prev
        } else {
            prev.push(idxs.last())
        }
    }
}

/// How many indices of `idxs` have their entries in `cov` set.
pub open spec fn count_reached(idxs: Seq<usize>, cov: Seq<u8>) -> nat
    decreases idxs.len(),
{
    if idxs.len() == 0 {
        0
    } else {
        count_reached(idxs.drop_last(), cov) + if reached(cov, idxs.last() as int) {
            1nat
        } else {
            0nat
        }
    }
}

/// `ceil(ratio * n)`, and at least 1.
pub open spec fn loss_threshold_of(ratio: Ratio, n: nat) -> nat {
    let c = (ratio.num * n + ratio.den - 1) / ratio.den as int;
    if c < 1 {
        1
    } else {
        c as nat
    }
}

/// How far a candidate field of `size` bytes holding `cur` is pushed to corrupt
/// it; none for a one-byte field that already holds its maximum.
pub open spec fn shift_of(size: usize, cur: u64) -> Option<usize> {
    if size == 1 {
        if cur >= 0xff {
            None
        } else if 0xff - cur < 0x20 {
            Some((0xff - cur) as usize)
        } else {
            Some(0x20)
        }
    } else {
        Some(0xff)
    }
}

/// The field shapes tried at each offset, in order: width and byte order.
pub open spec fn shapes() -> Seq<(usize, bool)> {
    seq![(8, true), (8, false), (4, true), (4, false), (2, true), (2, false), (1, true)]
}

/// The anchors tried first for a field of `size` bytes at `pos`, in order.
pub open spec fn anchor_candidates(pos: int, size: int) -> Seq<int> {
    let end = pos + size;
    if size == 1 {
        seq![end]
    } else if size == 2 {
        seq![0, pos, end]
    } else {
        seq![end + 7, end + 6, end + 5, end + 4, end + 3, end + 2, end + 1, 0, pos, end]
    }
}

/// The indices of the set entries of `cov`, in increasing order.
pub fn hit_indices(cov: &[u8]) -> (r: Vec<usize>)
    ensures
        r@ == hits(cov@),
{
    let ghost flags = Seq::new(cov@.len(), |i: int| cov@[i] != 0);
    let mut r: Vec<usize> = Vec::new();
    let mut k: usize = 0;
    while k < cov.len()
        invariant
            k <= cov@.len(),
            flags == Seq::new(cov@.len(), |i: int| cov@[i] != 0),
            r@ == flagged(flags.subrange(0, k as int)),
        decreases cov@.len() - k,
    {
        assert(flags.subrange(0, k + 1).drop_last() =~= flags.subrange(0, k as int));
        if cov[k] != 0 {
            r.push(k);
        }
        k = k + 1;
    }
    assert(flags.subrange(0, k as int) =~= flags);
    r
}

/// The indices of `idxs` whose entries in `cov` are not set, in order.
pub fn missed_indices(idxs: &Vec<usize>, cov: &[u8]) -> (r: Vec<usize>)
    ensures
        r@ == missed(idxs@, cov@),
        r@.len() <= idxs@.len(),
{
    let mut r: Vec<usize> = Vec::new();
    let mut k: usize = 0;
    while k < idxs.len()
        invariant
            k <= idxs@.len(),
            r@ == missed(idxs@.subrange(0, k as int), cov@),
            r@.len() <= k,
        decreases idxs@.len() - k,
    {
        assert(idxs@.subrange(0, k + 1).drop_last() =~= idxs@.subrange(0, k as int));
        let i = idxs[k];
        if !(i < cov.len() && cov[i] != 0) {
            r.push(i);
        }
        k = k + 1;
    }
    assert(idxs@.subrange(0, k as int) =~= idxs@);
    r
}

/// How many indices of `idxs` have their entries in `cov` set.
pub fn reached_count(idxs: &Vec<usize>, cov: &[u8]) -> (r: usize)
    ensures
        r == count_reached(idxs@, cov@),
        r <= idxs@.len(),
{
    let mut r: usize = 0;
    let mut k: usize = 0;
    while k < idxs.len()
        invariant
            k <= idxs@.len(),
            r == count_reached(idxs@.subrange(0, k as int), cov@),
            r <= k,
        decreases idxs@.len() - k,
    {
        assert(idxs@.subrange(0, k + 1).drop_last() =~= idxs@.subrange(0, k as int));
        let i = idxs[k];
        if i < cov.len() && cov[i] != 0 {
            r = r + 1;
        }
        k = k + 1;
    }
    assert(idxs@.subrange(0, k as int) =~= idxs@);
    r
}

/// The least number of lost coverage entries that makes a field worth a
/// closer look: `ceil(ratio * n)`, and at least 1.
pub fn loss_threshold_for(ratio: Ratio, n: usize) -> (r: usize)
    requires
        ratio.wf(),
    ensures
        r == loss_threshold_of(ratio, n as nat),
        1 <= r,
        r <= n || r == 1,
{
    let num = ratio.num as u128;
    let den = ratio.den as u128;
    proof {
        let a = num as int;
        let d = den as int;
        let m = n as int;
        assert(a * m <= 0xffff_ffff_ffff_ffff * 0xffff_ffff_ffff_ffff) by (nonlinear_arith)
            requires
                0 <= a <= 0xffff_ffff_ffff_ffff,
                0 <= m <= 0xffff_ffff_ffff_ffff,
        ;
        assert(a * m <= d * m) by (nonlinear_arith)
            requires
                a <= d,
                0 <= m,
        ;
        assert((a * m + d - 1) / d <= m) by (nonlinear_arith)
            requires
                a * m <= d * m,
                0 < d,
        ;
    }
    let c = (num * (n as u128) + den - 1) / den;
    if c < 1 {
        1
    } else {
        c as usize
    }
}

/// How far a candidate field of `size` bytes holding `cur` is pushed to
/// corrupt it.
pub fn shift_amount(size: usize, cur: u64) -> (r: Option<usize>)
    ensures
        r == shift_of(size, cur),
{
    if size == 1 {
        if cur >= 0xff {
            None
        } else if 0xff - cur < 0x20 {
            Some((0xff - cur) as usize)
        } else {
            Some(0x20)
        }
    } else {
        Some(0xff)
    }
}

fn shape(k: usize) -> (r: (usize, bool))
    requires
        k < 7,
    ensures
        r == shapes()[k as int],
{
    if k == 0 {
        (8, true)
    } else if k == 1 {
        (8, false)
    } else if k == 2 {
        (4, true)
    } else if k == 3 {
        (4, false)
    } else if k == 4 {
        (2, true)
    } else if k == 5 {
        (2, false)
    } else {
        (1, true)
    }
}

/// The anchors tried first for a field of `size` bytes at `pos`, in order.
pub fn anchors_for(pos: usize, size: usize) -> (r: Vec<usize>)
    requires
        pos + size + 7 <= usize::MAX,
    ensures
        r@.len() == anchor_candidates(pos as int, size as int).len(),
        forall|k: int| 0 <= k < r@.len() ==> r@[k] == anchor_candidates(pos as int, size as int)[k],
{
    let end = pos + size;
    if size == 1 {
        vec![end]
    } else if size == 2 {
        vec![0, pos, end]
    } else {
        vec![end + 7, end + 6, end + 5, end + 4, end + 3, end + 2, end + 1, 0, pos, end]
    }
}

/// The share of `lost` that `cov` brings back, when it is at least `cur`.
///
/// An equal share counts: among anchors that bring back the same share the
/// last one tried is kept. With the anchor order `0, pos, pos + size` this is
/// what makes a two-byte length at offset 0 measure from byte 2, not byte 0.
pub open spec fn share_taken(lost: Seq<usize>, cov: Seq<u8>, cur: Ratio) -> Option<Ratio> {
    let rec = count_reached(lost, cov);
    if rec * cur.den >= cur.num * lost.len() {
        Some(Ratio { num: rec as u64, den: lost.len() as u64 })
    } else {
        None
    }
}

/// The share `a` is at least the share `b`.
pub open spec fn at_least(a: Ratio, b: Ratio) -> bool {
    a.num * b.den >= b.num * a.den
}

/// The focus entries that `cov` misses, when there are at least `threshold`
/// of them and at least one.
pub open spec fn loss_gate(focus: Seq<usize>, cov: Seq<u8>, threshold: int) -> Option<Seq<usize>> {
    let lost = missed(focus, cov);
    if lost.len() >= threshold && lost.len() > 0 {
        Some(lost)
    } else {
        None
    }
}

/// Where a field at `pos` stands once `shift` bytes went in at `ins`.
pub open spec fn moved_pos(pos: int, ins: int, shift: int) -> int {
    if ins < pos {
        pos + shift
    } else {
        pos
    }
}

/// The probe that tests an insertion point: `seed` with `shift` bytes `0x41`
/// at `ins`, the value of the candidate `field` written where the field moved
/// to, and then the relations `shifted` (already moved by the insertion)
/// applied.
pub open spec fn padded(
    seed: Seq<u8>,
    shifted: Seq<Relation>,
    field: Relation,
    ins: int,
    shift: int,
) -> Seq<u8> {
    sanitized(
        overwrite(
            insert_bytes(seed, ins, Seq::new(shift as nat, |i: int| 0x41u8)),
            moved_pos(field.pos as int, ins, shift),
            field.encoded(),
        ),
        shifted,
    )
}

/// The evidence in `trace` that relation `r` was taken, in probes `t1` and
/// `t2`: the seed with the field pushed up by its shift lost at least
/// `threshold` of the `focus` entries, and the later probe that padded the
/// seed at `r.insert` brought back at least the share `recover` of them.
pub open spec fn witnessed(
    r: Relation,
    seed: Seq<u8>,
    trace: Seq<(Seq<u8>, Seq<u8>)>,
    focus: Seq<usize>,
    threshold: int,
    recover: Ratio,
    t1: int,
    t2: int,
) -> bool {
    let shift = shift_of(r.size, r.value)->0;
    let pushed = Relation { value: (r.value + shift) as u64, ..r };
    &&& 0 <= t1 < t2 < trace.len()
    &&& shift_of(r.size, r.value) is Some
    &&& trace[t1].0 == pushed.applied(seed)
    &&& loss_gate(focus, trace[t1].1, threshold) is Some
    &&& exists|shifted: Seq<Relation>|
        trace[t2].0 == #[trigger] padded(seed, shifted, pushed, r.insert as int, shift as int)
    &&& share_taken(loss_gate(focus, trace[t1].1, threshold)->0, trace[t2].1, recover) is Some
}

/// `trace` holds the evidence that `r` was taken.
pub open spec fn evidenced(
    r: Relation,
    seed: Seq<u8>,
    trace: Seq<(Seq<u8>, Seq<u8>)>,
    focus: Seq<usize>,
    threshold: int,
    recover: Ratio,
) -> bool {
    exists|t1: int, t2: int| witnessed(r, seed, trace, focus, threshold, recover, t1, t2)
}

/// Every relation of `rels` from index `from` on has its evidence in `trace`.
pub open spec fn evidenced_from(
    rels: Seq<Relation>,
    from: int,
    seed: Seq<u8>,
    trace: Seq<(Seq<u8>, Seq<u8>)>,
    focus: Seq<usize>,
    threshold: int,
    recover: Ratio,
) -> bool {
    forall|k: int|
        from <= k < rels.len()
            ==> evidenced(#[trigger] rels[k], seed, trace, focus, threshold, recover)
}

/// `a` is a prefix of `b`.
pub open spec fn prefix_of(a: Seq<(Seq<u8>, Seq<u8>)>, b: Seq<(Seq<u8>, Seq<u8>)>) -> bool {
    a.len() <= b.len() && forall|t: int| 0 <= t < a.len() ==> #[trigger] b[t] == a[t]
}

/// The relations of `rels` from index `from` on stand at rising positions.
pub open spec fn rising_from(rels: Seq<Relation>, from: int) -> bool {
    forall|a: int, b: int| from <= a < b < rels.len()
        ==> #[trigger] rels[a].pos < #[trigger] rels[b].pos
}

/// `shape` reads a candidate field at offset `i` of `seed`: the field fits,
/// holds a value above 0 and at most the length, and can be pushed up.
pub open spec fn is_candidate(seed: Seq<u8>, i: int, size: usize, le: bool) -> bool {
    let v = decode(seed.subrange(i, i + size), le);
    &&& 0 <= i
    &&& i + size <= seed.len()
    &&& 0 < v <= seed.len()
    &&& shift_of(size, v as u64) is Some
}

/// The probe that corrupts the candidate field at `i`: its value pushed up
/// by its shift.
pub open spec fn corruption(seed: Seq<u8>, i: int, size: usize, le: bool) -> Seq<u8> {
    let v = decode(seed.subrange(i, i + size), le);
    overwrite(seed, i, encode((v + shift_of(size, v as u64)->0) as nat, size as nat, le))
}

/// Bytes `i .. i + size` meet the field of some relation of `rels`.
pub open spec fn meets(rels: Seq<Relation>, i: int, size: int) -> bool {
    exists|j: int|
        0 <= j < rels.len() && #[trigger] rels[j].pos < i + size && i < rels[j].pos + rels[j].size
}

/// Some probe of `trace` had input `buf`.
pub open spec fn probed(trace: Seq<(Seq<u8>, Seq<u8>)>, buf: Seq<u8>) -> bool {
    exists|t: int| 0 <= t < trace.len() && #[trigger] trace[t].0 == buf
}

/// Every candidate field before offset `i` and shape `t`, in the order tried,
/// that meets no field of `rels` was corrupted in some probe of `trace`.
pub open spec fn tried_before(
    seed: Seq<u8>,
    rels: Seq<Relation>,
    trace: Seq<(Seq<u8>, Seq<u8>)>,
    i: int,
    t: int,
) -> bool {
    forall|p: int, k: int|
        0 <= k < 7 && (p < i || (p == i && k < t)) && #[trigger] is_candidate(
            seed,
            p,
            shapes()[k].0,
            shapes()[k].1,
        ) && !meets(rels, p, shapes()[k].0 as int) ==> probed(
            trace,
            corruption(seed, p, shapes()[k].0, shapes()[k].1),
        )
}

/// The anchor of `r` is one of the first tried for its shape or, for a field
/// of four or eight bytes, an inflection point of the relations `earlier`.
pub open spec fn anchor_allowed(earlier: Seq<Relation>, r: Relation) -> bool {
    anchor_candidates(r.pos as int, r.size as int).contains(r.anchor as int) || (r.size >= 4
        && is_inflection_point(earlier, r.anchor))
}

/// Each relation of `rels` from index `from` on has an anchor allowed by
/// the relations before it.
pub open spec fn anchors_allowed(rels: Seq<Relation>, from: int) -> bool {
    forall|k: int| from <= k < rels.len()
        ==> anchor_allowed(rels.subrange(0, k), #[trigger] rels[k])
}

/// `ra` and `rb` hold relations of the same widths and offsets.
pub open spec fn same_offsets(ra: Seq<Relation>, rb: Seq<Relation>) -> bool {
    &&& ra.len() == rb.len()
    &&& forall|j: int|
        #![trigger rb[j]]
        0 <= j < ra.len() ==> rb[j].size == ra[j].size && rb[j].pos == ra[j].pos && rb[j].anchor
            == ra[j].anchor && rb[j].insert == ra[j].insert
}

proof fn lemma_inflection_same(ra: Seq<Relation>, rb: Seq<Relation>, x: usize)
    requires
        same_offsets(ra, rb),
    ensures
        is_inflection_point(ra, x) == is_inflection_point(rb, x),
{
    if is_inflection_point(ra, x) {
        let i = choose|i: int|
            0 <= i < ra.len() && (ra[i].size == 4 || ra[i].size == 8) && (#[trigger] ra[i].pos == x
                || ra[i].anchor == x || ra[i].insert == x);
        assert(rb[i].size == ra[i].size);
    }
    if is_inflection_point(rb, x) {
        let i = choose|i: int|
            0 <= i < rb.len() && (rb[i].size == 4 || rb[i].size == 8) && (#[trigger] rb[i].pos == x
                || rb[i].anchor == x || rb[i].insert == x);
        assert(rb[i].size == ra[i].size);
    }
}

proof fn lemma_anchors_same(ra: Seq<Relation>, rb: Seq<Relation>, from: int)
    requires
        0 <= from,
        same_offsets(ra, rb),
        anchors_allowed(ra, from),
    ensures
        anchors_allowed(rb, from),
{
    assert forall|k: int| from <= k < rb.len() implies anchor_allowed(
        rb.subrange(0, k),
        #[trigger] rb[k],
    ) by {
        assert(anchor_allowed(ra.subrange(0, k), ra[k]));
        let sa = ra.subrange(0, k);
        let sb = rb.subrange(0, k);
        assert forall|j: int| #![trigger sb[j]] 0 <= j < sa.len() implies sb[j].size == sa[j].size
            && sb[j].pos == sa[j].pos && sb[j].anchor == sa[j].anchor && sb[j].insert
            == sa[j].insert by {
            assert(sa[j] == ra[j] && sb[j] == rb[j]);
        }
        assert(rb[k].pos == ra[k].pos && rb[k].size == ra[k].size && rb[k].anchor == ra[k].anchor);
        lemma_inflection_same(ra.subrange(0, k), rb.subrange(0, k), rb[k].anchor);
    }
}

proof fn lemma_anchors_kept(mid: Seq<Relation>, c: Seq<Relation>, from: int, seed: Seq<u8>)
    requires
        0 <= from <= mid.len(),
        anchors_allowed(mid, from),
        anchors_allowed(c, mid.len() as int),
        extends(mid, c, seed),
    ensures
        anchors_allowed(c, from),
{
    let cm = c.subrange(0, mid.len() as int);
    assert(same_offsets(mid, cm)) by {
        assert forall|j: int| #![trigger cm[j]] 0 <= j < mid.len() implies cm[j].size == mid[j].size
            && cm[j].pos == mid[j].pos && cm[j].anchor == mid[j].anchor && cm[j].insert
            == mid[j].insert by {
            assert(c[j].saved() == mid[j].saved());
        }
    }
    lemma_anchors_same(mid, cm, from);
    assert forall|k: int| from <= k < c.len()
        implies anchor_allowed(c.subrange(0, k), #[trigger] c[k]) by {
        if k < mid.len() {
            assert(anchor_allowed(cm.subrange(0, k), cm[k]));
            assert(cm.subrange(0, k) =~= c.subrange(0, k));
        }
    }
}

/// Byte `q` lies in the field of some relation of `rels`.
pub open spec fn covered(rels: Seq<Relation>, q: int) -> bool {
    exists|j: int| 0 <= j < rels.len() && #[trigger] rels[j].pos <= q < rels[j].pos + rels[j].size
}

/// Some byte of `i .. i + size` lies in the field of a relation of `rels`.
pub open spec fn field_taken(rels: Seq<Relation>, i: int, size: int) -> bool {
    exists|q: int| i <= q < i + size && #[trigger] covered(rels, q)
}

/// The anchors tried first for a field of `size` bytes at `pos`, as offsets.
pub open spec fn anchor_list(pos: usize, size: usize) -> Seq<usize> {
    anchor_candidates(pos as int, size as int).map_values(|x: int| x as usize)
}

/// The state of the anchor search for one candidate: the candidate, the best
/// share so far, the anchors visited, and how many probes were made.
pub type AnchorState = (Relation, Ratio, Seq<u8>, int);

/// One anchor tried: skipped when it lies outside the seed, its insertion
/// point lies past the end or it was visited; otherwise marked visited, and
/// when every relation accepts the insertion, probed with the next entry of
/// `trace` and taken when the share that comes back is at least the best.
pub open spec fn anchor_step(
    seed: Seq<u8>,
    rels: Seq<Relation>,
    trace: Seq<(Seq<u8>, Seq<u8>)>,
    lost: Seq<usize>,
    shift: int,
    cur_val: int,
    st: AnchorState,
    anchor: usize,
) -> AnchorState {
    let (pot, cur, vis, at) = st;
    let ins = anchor + cur_val;
    if !(anchor < seed.len() && ins <= seed.len() && vis[anchor as int] == 0) {
        st
    } else {
        let vis2 = vis.update(anchor as int, 1);
        if !all_accept_insert(rels, ins, shift) {
            (pot, cur, vis2, at)
        } else {
            match share_taken(lost, trace[at].1, cur) {
                Some(c) => (Relation { anchor, insert: ins as usize, ..pot }, c, vis2, at + 1),
                None => (pot, cur, vis2, at + 1),
            }
        }
    }
}

/// The anchors of `anchors` tried in order.
pub open spec fn anchors_run(
    seed: Seq<u8>,
    rels: Seq<Relation>,
    trace: Seq<(Seq<u8>, Seq<u8>)>,
    lost: Seq<usize>,
    shift: int,
    cur_val: int,
    st: AnchorState,
    anchors: Seq<usize>,
) -> AnchorState
    decreases anchors.len(),
{
    if anchors.len() == 0 {
        st
    } else {
        anchor_step(
            seed,
            rels,
            trace,
            lost,
            shift,
            cur_val,
            anchors_run(seed, rels, trace, lost, shift, cur_val, st, anchors.drop_last()),
            anchors.last(),
        )
    }
}

/// The candidate field of shape `(size, le)` at `i`, with its value pushed up
/// by `shift`.
pub open spec fn pushed_candidate(seed: Seq<u8>, i: int, size: usize, le: bool,
    shift: int) -> Relation {
    Relation {
        pos: i as usize,
        value: (decode(seed.subrange(i, i + size), le) + shift) as u64,
        size,
        le,
        anchor: usize::MAX,
        insert: usize::MAX,
        enabled: true,
        old_pos: 0,
        old_anchor: 0,
        old_insert: 0,
        old_value: 0,
    }
}

/// What trying shape `k` at offset `i` does to the relations `rels`, with the
/// probes of `trace` from `at` on: a candidate field that no relation's field
/// touches is corrupted; when that loses at least `threshold` focus entries,
/// its anchors are tried (the inflection points too for a field of four or
/// eight bytes that found none), and the last anchor taken makes a relation.
pub open spec fn candidate_step(
    seed: Seq<u8>,
    focus: Seq<usize>,
    threshold: int,
    recover: Ratio,
    trace: Seq<(Seq<u8>, Seq<u8>)>,
    rels: Seq<Relation>,
    at: int,
    i: int,
    k: int,
) -> (Seq<Relation>, int) {
    let size = shapes()[k].0;
    let le = shapes()[k].1;
    if !is_candidate(seed, i, size, le) || field_taken(rels, i, size as int) {
        (rels, at)
    } else {
        let cur = decode(seed.subrange(i, i + size), le);
        let shift = shift_of(size, cur as u64)->0 as int;
        match loss_gate(focus, trace[at].1, threshold) {
            None => (rels, at + 1),
            Some(lost) => {
                let st0 = (
                    pushed_candidate(seed, i, size, le, shift),
                    recover,
                    Seq::new(seed.len(), |q: int| 0u8),
                    at + 1,
                );
                let st1 = anchors_run(
                    seed,
                    rels,
                    trace,
                    lost,
                    shift,
                    cur as int,
                    st0,
                    anchor_list(i as usize, size),
                );
                let st2 = if size >= 4 && st1.0.insert == usize::MAX {
                    anchors_run(seed, rels, trace, lost, shift, cur as int, st1,
                        inflection_seq(rels))
                } else {
                    st1
                };
                if st2.0.insert == usize::MAX {
                    (rels, st2.3)
                } else {
                    (rels.push(Relation { value: cur as u64, ..st2.0 }.saved()), st2.3)
                }
            },
        }
    }
}

/// The first `n` steps of a pass, offset by offset and shape by shape.
pub open spec fn pass_upto(
    seed: Seq<u8>,
    focus: Seq<usize>,
    threshold: int,
    recover: Ratio,
    trace: Seq<(Seq<u8>, Seq<u8>)>,
    rels: Seq<Relation>,
    at: int,
    n: nat,
) -> (Seq<Relation>, int)
    decreases n,
{
    if n == 0 {
        (rels, at)
    } else {
        let prev = pass_upto(seed, focus, threshold, recover, trace, rels, at, (n - 1) as nat);
        candidate_step(
            seed,
            focus,
            threshold,
            recover,
            trace,
            prev.0,
            prev.1,
            (n - 1) / 7,
            (n - 1) % 7,
        )
    }
}

/// One pass over the seed, starting from the relations `rels` with their
/// snapshots taken and the probes of `trace` from `at` on: the relations
/// afterwards and how many probes were made by then.
pub open spec fn one_pass(
    seed: Seq<u8>,
    focus: Seq<usize>,
    threshold: int,
    recover: Ratio,
    trace: Seq<(Seq<u8>, Seq<u8>)>,
    rels: Seq<Relation>,
    at: int,
) -> (Seq<Relation>, int) {
    pass_upto(
        seed,
        focus,
        threshold,
        recover,
        trace,
        rels.map_values(|r: Relation| r.saved()),
        at,
        (seed.len() * 7) as nat,
    )
}

/// Up to `m` passes, stopping after the first that adds nothing.
pub open spec fn passes(
    seed: Seq<u8>,
    focus: Seq<usize>,
    threshold: int,
    recover: Ratio,
    trace: Seq<(Seq<u8>, Seq<u8>)>,
    rels: Seq<Relation>,
    at: int,
    m: nat,
) -> (Seq<Relation>, int)
    decreases m,
{
    if m == 0 {
        (rels, at)
    } else {
        let r1 = one_pass(seed, focus, threshold, recover, trace, rels, at);
        if r1.0.len() > rels.len() {
            passes(seed, focus, threshold, recover, trace, r1.0, r1.1, (m - 1) as nat)
        } else {
            r1
        }
    }
}

proof fn lemma_prefix_trans(
    a: Seq<(Seq<u8>, Seq<u8>)>,
    b: Seq<(Seq<u8>, Seq<u8>)>,
    c: Seq<(Seq<u8>, Seq<u8>)>,
)
    requires
        prefix_of(a, b),
        prefix_of(b, c),
    ensures
        prefix_of(a, c),
{
    assert forall|t: int| 0 <= t < a.len() implies #[trigger] c[t] == a[t] by {
        assert(c[t] == b[t]);
    }
}

proof fn lemma_div7(i: int, s: int)
    requires
        0 <= i,
        0 <= s < 7,
    ensures
        (i * 7 + s) / 7 == i,
        (i * 7 + s) % 7 == s,
{
    assert((i * 7 + s) / 7 == i && (i * 7 + s) % 7 == s) by (nonlinear_arith)
        requires
            0 <= i,
            0 <= s < 7,
    ;
}

/// One more anchor tried, for every trace that extends the one seen so far.
proof fn lemma_run_next(
    seed: Seq<u8>,
    rels: Seq<Relation>,
    t_old: Seq<(Seq<u8>, Seq<u8>)>,
    t_new: Seq<(Seq<u8>, Seq<u8>)>,
    lost: Seq<usize>,
    shift: int,
    cur_val: int,
    st0: AnchorState,
    anchors: Seq<usize>,
    a: int,
    mid: AnchorState,
    out: AnchorState,
)
    requires
        0 <= a < anchors.len(),
        forall|t2: Seq<(Seq<u8>, Seq<u8>)>|
            #[trigger] prefix_of(t_old, t2) ==> anchors_run(
                seed,
                rels,
                t2,
                lost,
                shift,
                cur_val,
                st0,
                anchors.subrange(0, a),
            ) == mid,
        mid.3 == t_old.len(),
        prefix_of(t_old, t_new),
        out == anchor_step(seed, rels, t_new, lost, shift, cur_val, mid, anchors[a]),
        out.3 == t_new.len(),
    ensures
        forall|t2: Seq<(Seq<u8>, Seq<u8>)>|
            #[trigger] prefix_of(t_new, t2) ==> anchors_run(
                seed,
                rels,
                t2,
                lost,
                shift,
                cur_val,
                st0,
                anchors.subrange(0, a + 1),
            ) == out,
{
    assert forall|t2: Seq<(Seq<u8>, Seq<u8>)>| #[trigger] prefix_of(t_new, t2) implies anchors_run(
        seed,
        rels,
        t2,
        lost,
        shift,
        cur_val,
        st0,
        anchors.subrange(0, a + 1),
    ) == out by {
        lemma_prefix_trans(t_old, t_new, t2);
        let sub = anchors.subrange(0, a + 1);
        assert(sub.drop_last() =~= anchors.subrange(0, a));
        assert(sub.last() == anchors[a]);
        if mid.3 < t_new.len() {
            assert(t2[mid.3] == t_new[mid.3]);
        }
    }
}

/// One more step of a pass, for every trace that extends the one seen so far.
proof fn lemma_pass_next(
    seed: Seq<u8>,
    focus: Seq<usize>,
    threshold: int,
    recover: Ratio,
    start: Seq<Relation>,
    at0: int,
    i: int,
    s: int,
    t_head: Seq<(Seq<u8>, Seq<u8>)>,
    t_now: Seq<(Seq<u8>, Seq<u8>)>,
    rels_head: Seq<Relation>,
    rels_now: Seq<Relation>,
)
    requires
        0 <= i,
        0 <= s < 7,
        forall|t2: Seq<(Seq<u8>, Seq<u8>)>|
            #[trigger] prefix_of(t_head, t2) ==> pass_upto(
                seed,
                focus,
                threshold,
                recover,
                t2,
                start,
                at0,
                (i * 7 + s) as nat,
            ) == (rels_head, t_head.len() as int),
        prefix_of(t_head, t_now),
        forall|t2: Seq<(Seq<u8>, Seq<u8>)>|
            #[trigger] prefix_of(t_now, t2) ==> candidate_step(
                seed,
                focus,
                threshold,
                recover,
                t2,
                rels_head,
                t_head.len() as int,
                i,
                s,
            ) == (rels_now, t_now.len() as int),
    ensures
        forall|t2: Seq<(Seq<u8>, Seq<u8>)>|
            #[trigger] prefix_of(t_now, t2) ==> pass_upto(
                seed,
                focus,
                threshold,
                recover,
                t2,
                start,
                at0,
                (i * 7 + s + 1) as nat,
            ) == (rels_now, t_now.len() as int),
{
    lemma_div7(i, s);
    assert forall|t2: Seq<(Seq<u8>, Seq<u8>)>| #[trigger] prefix_of(t_now, t2) implies pass_upto(
        seed,
        focus,
        threshold,
        recover,
        t2,
        start,
        at0,
        (i * 7 + s + 1) as nat,
    ) == (rels_now, t_now.len() as int) by {
        lemma_prefix_trans(t_head, t_now, t2);
        assert(pass_upto(seed, focus, threshold, recover, t2, start, at0, (i * 7 + s) as nat) == (
        rels_head, t_head.len() as int));
    }
}

proof fn lemma_skip(
    seed: Seq<u8>,
    focus: Seq<usize>,
    threshold: int,
    recover: Ratio,
    rels: Seq<Relation>,
    t: Seq<(Seq<u8>, Seq<u8>)>,
    i: int,
    s: int,
)
    requires
        !is_candidate(seed, i, shapes()[s].0, shapes()[s].1) || field_taken(
            rels,
            i,
            shapes()[s].0 as int,
        ),
    ensures
        forall|t2: Seq<(Seq<u8>, Seq<u8>)>|
            #[trigger] prefix_of(t, t2) ==> candidate_step(
                seed,
                focus,
                threshold,
                recover,
                t2,
                rels,
                t.len() as int,
                i,
                s,
            ) == (rels, t.len() as int),
{
}

proof fn lemma_gate_closed(
    seed: Seq<u8>,
    focus: Seq<usize>,
    threshold: int,
    recover: Ratio,
    rels: Seq<Relation>,
    t_head: Seq<(Seq<u8>, Seq<u8>)>,
    t_now: Seq<(Seq<u8>, Seq<u8>)>,
    i: int,
    s: int,
)
    requires
        is_candidate(seed, i, shapes()[s].0, shapes()[s].1),
        !field_taken(rels, i, shapes()[s].0 as int),
        t_now.len() == t_head.len() + 1,
        loss_gate(focus, t_now[t_head.len() as int].1, threshold) is None,
    ensures
        forall|t2: Seq<(Seq<u8>, Seq<u8>)>|
            #[trigger] prefix_of(t_now, t2) ==> candidate_step(
                seed,
                focus,
                threshold,
                recover,
                t2,
                rels,
                t_head.len() as int,
                i,
                s,
            ) == (rels, t_now.len() as int),
{
    assert forall|t2: Seq<(Seq<u8>, Seq<u8>)>| #[trigger] prefix_of(t_now, t2)
        implies candidate_step(
        seed,
        focus,
        threshold,
        recover,
        t2,
        rels,
        t_head.len() as int,
        i,
        s,
    ) == (rels, t_now.len() as int) by {
        assert(t2[t_head.len() as int] == t_now[t_head.len() as int]);
    }
}

/// The anchors tried for the candidate at `i` of shape `s`, both rounds.
pub open spec fn anchor_rounds(
    seed: Seq<u8>,
    rels: Seq<Relation>,
    trace: Seq<(Seq<u8>, Seq<u8>)>,
    lost: Seq<usize>,
    shift: int,
    cur: int,
    st0: AnchorState,
    i: int,
    size: usize,
) -> AnchorState {
    let st1 = anchors_run(seed, rels, trace, lost, shift, cur, st0, anchor_list(i as usize, size));
    if size >= 4 && st1.0.insert == usize::MAX {
        anchors_run(seed, rels, trace, lost, shift, cur, st1, inflection_seq(rels))
    } else {
        st1
    }
}

proof fn lemma_candidate_result(
    seed: Seq<u8>,
    focus: Seq<usize>,
    threshold: int,
    recover: Ratio,
    rels: Seq<Relation>,
    t_head: Seq<(Seq<u8>, Seq<u8>)>,
    t_now: Seq<(Seq<u8>, Seq<u8>)>,
    i: int,
    s: int,
    lost: Seq<usize>,
    st2: AnchorState,
)
    requires
        0 <= s < 7,
        is_candidate(seed, i, shapes()[s].0, shapes()[s].1),
        !field_taken(rels, i, shapes()[s].0 as int),
        t_now.len() > t_head.len(),
        loss_gate(focus, t_now[t_head.len() as int].1, threshold) == Some(lost),
        forall|t2: Seq<(Seq<u8>, Seq<u8>)>|
            #[trigger] prefix_of(t_now, t2) ==> anchor_rounds(
                seed,
                rels,
                t2,
                lost,
                shift_of(shapes()[s].0,
                    decode(seed.subrange(i, i + shapes()[s].0), shapes()[s].1) as u64)->0 as int,
                decode(seed.subrange(i, i + shapes()[s].0), shapes()[s].1) as int,
                (
                    pushed_candidate(
                        seed,
                        i,
                        shapes()[s].0,
                        shapes()[s].1,
                        shift_of(shapes()[s].0,
                            decode(seed.subrange(i, i + shapes()[s].0),
                                shapes()[s].1) as u64)->0 as int,
                    ),
                    recover,
                    Seq::new(seed.len(), |q: int| 0u8),
                    (t_head.len() + 1) as int,
                ),
                i,
                shapes()[s].0,
            ) == st2,
    ensures
        forall|t2: Seq<(Seq<u8>, Seq<u8>)>|
            #[trigger] prefix_of(t_now, t2) ==> candidate_step(
                seed,
                focus,
                threshold,
                recover,
                t2,
                rels,
                t_head.len() as int,
                i,
                s,
            ) == if st2.0.insert == usize::MAX {
                (rels, st2.3)
            } else {
                (
                    rels.push(
                        Relation {
                            value: decode(seed.subrange(i, i + shapes()[s].0),
                                shapes()[s].1) as u64,
                            ..st2.0
                        }.saved(),
                    ),
                    st2.3,
                )
            },
{
    assert forall|t2: Seq<(Seq<u8>, Seq<u8>)>| #[trigger] prefix_of(t_now, t2)
        implies candidate_step(
        seed,
        focus,
        threshold,
        recover,
        t2,
        rels,
        t_head.len() as int,
        i,
        s,
    ) == if st2.0.insert == usize::MAX {
        (rels, st2.3)
    } else {
        (
            rels.push(
                Relation {
                    value: decode(seed.subrange(i, i + shapes()[s].0), shapes()[s].1) as u64,
                    ..st2.0
                }.saved(),
            ),
            st2.3,
        )
    } by {
        assert(t2[t_head.len() as int] == t_now[t_head.len() as int]);
    }
}

/// How many entries of `vis` are set.
pub open spec fn marked(vis: Seq<u8>) -> nat
    decreases vis.len(),
{
    if vis.len() == 0 {
        0
    } else {
        marked(vis.drop_last()) + if vis.last() != 0 {
            1nat
        } else {
            0nat
        }
    }
}

proof fn lemma_marked_bound(vis: Seq<u8>)
    ensures
        marked(vis) <= vis.len(),
    decreases vis.len(),
{
    if vis.len() > 0 {
        lemma_marked_bound(vis.drop_last());
    }
}

proof fn lemma_marked_zero(n: nat)
    ensures
        marked(Seq::new(n, |q: int| 0u8)) == 0,
    decreases n,
{
    if n > 0 {
        let z = Seq::new(n, |q: int| 0u8);
        assert(z.drop_last() =~= Seq::new((n - 1) as nat, |q: int| 0u8));
        lemma_marked_zero((n - 1) as nat);
    }
}

proof fn lemma_marked_update(vis: Seq<u8>, a: int)
    requires
        0 <= a < vis.len(),
        vis[a] == 0,
    ensures
        marked(vis.update(a, 1)) == marked(vis) + 1,
    decreases vis.len(),
{
    let u = vis.update(a, 1);
    if a == vis.len() - 1 {
        assert(u.drop_last() =~= vis.drop_last());
    } else {
        assert(u.drop_last() =~= vis.drop_last().update(a, 1));
        lemma_marked_update(vis.drop_last(), a);
    }
}

proof fn lemma_run_count(
    seed: Seq<u8>,
    rels: Seq<Relation>,
    trace: Seq<(Seq<u8>, Seq<u8>)>,
    lost: Seq<usize>,
    shift: int,
    cur_val: int,
    st: AnchorState,
    anchors: Seq<usize>,
)
    requires
        st.2.len() == seed.len(),
    ensures
        ({
            let r = anchors_run(seed, rels, trace, lost, shift, cur_val, st, anchors);
            &&& r.2.len() == seed.len()
            &&& st.3 <= r.3
            &&& r.3 - st.3 <= marked(r.2) - marked(st.2)
        }),
    decreases anchors.len(),
{
    if anchors.len() > 0 {
        lemma_run_count(seed, rels, trace, lost, shift, cur_val, st, anchors.drop_last());
        let m = anchors_run(seed, rels, trace, lost, shift, cur_val, st, anchors.drop_last());
        let anchor = anchors.last();
        let ins = anchor + cur_val;
        if anchor < seed.len() && ins <= seed.len() && m.2[anchor as int] == 0 {
            lemma_marked_update(m.2, anchor as int);
        }
    }
}

proof fn lemma_candidate_count(
    seed: Seq<u8>,
    focus: Seq<usize>,
    threshold: int,
    recover: Ratio,
    trace: Seq<(Seq<u8>, Seq<u8>)>,
    rels: Seq<Relation>,
    at: int,
    i: int,
    k: int,
)
    requires
        0 <= k < 7,
    ensures
        at <= candidate_step(seed, focus, threshold, recover, trace, rels, at, i, k).1 <= at + 1
            + seed.len(),
{
    let size = shapes()[k].0;
    let le = shapes()[k].1;
    if is_candidate(seed, i, size, le) && !field_taken(rels, i, size as int) {
        let cur = decode(seed.subrange(i, i + size), le);
        let shift = shift_of(size, cur as u64)->0 as int;
        if let Some(lost) = loss_gate(focus, trace[at].1, threshold) {
            let st0 = (
                pushed_candidate(seed, i, size, le, shift),
                recover,
                Seq::new(seed.len(), |q: int| 0u8),
                at + 1,
            );
            lemma_marked_zero(seed.len());
            lemma_run_count(seed, rels, trace, lost, shift, cur as int, st0,
                anchor_list(i as usize, size));
            let st1 = anchors_run(seed, rels, trace, lost, shift, cur as int, st0,
                anchor_list(i as usize, size));
            lemma_run_count(seed, rels, trace, lost, shift, cur as int, st1, inflection_seq(rels));
            let st2 = anchors_run(seed, rels, trace, lost, shift, cur as int, st1,
                inflection_seq(rels));
            lemma_marked_bound(st1.2);
            lemma_marked_bound(st2.2);
        }
    }
}

proof fn lemma_pass_count(
    seed: Seq<u8>,
    focus: Seq<usize>,
    threshold: int,
    recover: Ratio,
    trace: Seq<(Seq<u8>, Seq<u8>)>,
    rels: Seq<Relation>,
    at: int,
    n: nat,
)
    ensures
        at <= pass_upto(seed, focus, threshold, recover, trace, rels, at, n).1 <= at + n * (1
            + seed.len()),
    decreases n,
{
    if n > 0 {
        lemma_pass_count(seed, focus, threshold, recover, trace, rels, at, (n - 1) as nat);
        let prev = pass_upto(seed, focus, threshold, recover, trace, rels, at, (n - 1) as nat);
        lemma_candidate_count(
            seed,
            focus,
            threshold,
            recover,
            trace,
            prev.0,
            prev.1,
            (n - 1) / 7,
            (n - 1) % 7,
        );
        assert((n - 1) * (1 + seed.len()) + (1 + seed.len()) == n * (1 + seed.len())) by (
        nonlinear_arith);
    }
}

/// The number of probes the passes make: at most `m` passes of at most
/// `7 * len * (len + 1)` probes each, for a seed of `len` bytes.
pub proof fn lemma_passes_count(
    seed: Seq<u8>,
    focus: Seq<usize>,
    threshold: int,
    recover: Ratio,
    trace: Seq<(Seq<u8>, Seq<u8>)>,
    rels: Seq<Relation>,
    at: int,
    m: nat,
)
    ensures
        at <= passes(seed, focus, threshold, recover, trace, rels, at, m).1 <= at + m * 7
            * seed.len() * (seed.len() + 1),
    decreases m,
{
    if m > 0 {
        let n = (seed.len() * 7) as nat;
        lemma_pass_count(
            seed,
            focus,
            threshold,
            recover,
            trace,
            rels.map_values(|r: Relation| r.saved()),
            at,
            n,
        );
        let r1 = one_pass(seed, focus, threshold, recover, trace, rels, at);
        assert(n * (1 + seed.len()) == 7 * seed.len() * (seed.len() + 1)) by (nonlinear_arith)
            requires
                n == seed.len() * 7,
        ;
        if r1.0.len() > rels.len() {
            lemma_passes_count(seed, focus, threshold, recover, trace, r1.0, r1.1, (m - 1) as nat);
            assert((m - 1) * 7 * seed.len() * (seed.len() + 1) + 7 * seed.len() * (seed.len() + 1)
                == m * 7 * seed.len() * (seed.len() + 1)) by (nonlinear_arith);
        } else {
            assert(7 * seed.len() * (seed.len() + 1) <= m * 7 * seed.len() * (seed.len() + 1)) by (
            nonlinear_arith)
                requires
                    m >= 1,
            ;
        }
    }
}

/// Every set byte of `blocked` lies in the field of some relation of `rels`.
pub open spec fn blocks_sound(blocked: Seq<u8>, rels: Seq<Relation>) -> bool {
    forall|q: int|
        0 <= q < blocked.len() && #[trigger] blocked[q] != 0 ==> exists|j: int|
            0 <= j < rels.len() && #[trigger] rels[j].pos <= q < rels[j].pos + rels[j].size
}

proof fn lemma_fields_kept(
    ra: Seq<Relation>,
    rb: Seq<Relation>,
    blocked: Seq<u8>,
    seed: Seq<u8>,
    trace: Seq<(Seq<u8>, Seq<u8>)>,
    i: int,
    t: int,
)
    requires
        ra.len() <= rb.len(),
        forall|j: int| 0 <= j < ra.len() ==> #[trigger] rb[j].pos == ra[j].pos && rb[j].size
            == ra[j].size,
    ensures
        blocks_sound(blocked, ra) ==> blocks_sound(blocked, rb),
        tried_before(seed, ra, trace, i, t) ==> tried_before(seed, rb, trace, i, t),
{
    if blocks_sound(blocked, ra) {
        assert forall|q: int| 0 <= q < blocked.len() && #[trigger] blocked[q] != 0
            implies exists|j: int|
            0 <= j < rb.len() && #[trigger] rb[j].pos <= q < rb[j].pos + rb[j].size by {
            let j = choose|j: int| 0 <= j < ra.len() && #[trigger] ra[j].pos <= q < ra[j].pos
                + ra[j].size;
            assert(rb[j].pos == ra[j].pos && rb[j].size == ra[j].size);
        }
    }
    if tried_before(seed, ra, trace, i, t) {
        assert forall|p: int, k: int|
            0 <= k < 7 && (p < i || (p == i && k < t)) && #[trigger] is_candidate(
                seed,
                p,
                shapes()[k].0,
                shapes()[k].1,
            ) && !meets(rb, p, shapes()[k].0 as int) implies probed(
            trace,
            corruption(seed, p, shapes()[k].0, shapes()[k].1),
        ) by {
            if meets(ra, p, shapes()[k].0 as int) {
                let j = choose|j: int|
                    0 <= j < ra.len() && #[trigger] ra[j].pos < p + shapes()[k].0 && p < ra[j].pos
                        + ra[j].size;
                assert(rb[j].pos == ra[j].pos && rb[j].size == ra[j].size);
                assert(meets(rb, p, shapes()[k].0 as int));
            }
        }
    }
}

proof fn lemma_tried_step(
    seed: Seq<u8>,
    rels: Seq<Relation>,
    ta: Seq<(Seq<u8>, Seq<u8>)>,
    tb: Seq<(Seq<u8>, Seq<u8>)>,
    i: int,
    t: int,
)
    requires
        tried_before(seed, rels, ta, i, t),
        prefix_of(ta, tb),
        0 <= t < 7,
        is_candidate(seed, i, shapes()[t].0, shapes()[t].1) && !meets(rels, i, shapes()[t].0 as int)
            ==> probed(tb, corruption(seed, i, shapes()[t].0, shapes()[t].1)),
    ensures
        tried_before(seed, rels, tb, i, t + 1),
{
    assert forall|p: int, k: int|
        0 <= k < 7 && (p < i || (p == i && k < t + 1)) && #[trigger] is_candidate(
            seed,
            p,
            shapes()[k].0,
            shapes()[k].1,
        ) && !meets(rels, p, shapes()[k].0 as int) implies probed(
        tb,
        corruption(seed, p, shapes()[k].0, shapes()[k].1),
    ) by {
        if p < i || k < t {
            let x = corruption(seed, p, shapes()[k].0, shapes()[k].1);
            let w = choose|w: int| 0 <= w < ta.len() && #[trigger] ta[w].0 == x;
            assert(tb[w] == ta[w]);
        }
    }
}

proof fn lemma_tried_next(
    seed: Seq<u8>,
    rels: Seq<Relation>,
    trace: Seq<(Seq<u8>, Seq<u8>)>,
    i: int,
)
    requires
        tried_before(seed, rels, trace, i, 7),
    ensures
        tried_before(seed, rels, trace, i + 1, 0),
{
    assert forall|p: int, k: int|
        0 <= k < 7 && (p < i + 1 || (p == i + 1 && k < 0)) && #[trigger] is_candidate(
            seed,
            p,
            shapes()[k].0,
            shapes()[k].1,
        ) && !meets(rels, p, shapes()[k].0 as int) implies probed(
        trace,
        corruption(seed, p, shapes()[k].0, shapes()[k].1),
    ) by {
    }
}

proof fn lemma_evidence_kept(
    ra: Seq<Relation>,
    rb: Seq<Relation>,
    from: int,
    seed: Seq<u8>,
    ta: Seq<(Seq<u8>, Seq<u8>)>,
    tb: Seq<(Seq<u8>, Seq<u8>)>,
    focus: Seq<usize>,
    threshold: int,
    recover: Ratio,
)
    requires
        0 <= from,
        evidenced_from(ra, from, seed, ta, focus, threshold, recover),
        prefix_of(ta, tb),
        ra.len() <= rb.len(),
        forall|k: int| from <= k < ra.len() ==> #[trigger] rb[k].saved() == ra[k].saved(),
        forall|k: int|
            ra.len() <= k < rb.len()
                ==> evidenced(#[trigger] rb[k], seed, tb, focus, threshold, recover),
    ensures
        evidenced_from(rb, from, seed, tb, focus, threshold, recover),
{
    assert forall|k: int| from <= k < rb.len() implies evidenced(
        #[trigger] rb[k],
        seed,
        tb,
        focus,
        threshold,
        recover,
    ) by {
        if k < ra.len() {
            assert(rb[k].saved() == ra[k].saved());
            let (t1, t2) = choose|t1: int, t2: int|
                witnessed(ra[k], seed, ta, focus, threshold, recover, t1, t2);
            let r = ra[k];
            let shift = shift_of(r.size, r.value)->0;
            let pushed = Relation { value: (r.value + shift) as u64, ..r };
            let sh = choose|shifted: Seq<Relation>|
                ta[t2].0 == #[trigger] padded(seed, shifted, pushed, r.insert as int, shift as int);
            let q = rb[k];
            let qpushed = Relation { value: (q.value + shift) as u64, ..q };
            assert(padded(seed, sh, qpushed, q.insert as int, shift as int) == padded(
                seed,
                sh,
                pushed,
                r.insert as int,
                shift as int,
            ));
            assert(tb[t1] == ta[t1] && tb[t2] == ta[t2]);
            assert(witnessed(rb[k], seed, tb, focus, threshold, recover, t1, t2));
        }
    }
}

proof fn lemma_count_reached_bound(idxs: Seq<usize>, cov: Seq<u8>)
    ensures
        count_reached(idxs, cov) <= idxs.len(),
    decreases idxs.len(),
{
    if idxs.len() > 0 {
        lemma_count_reached_bound(idxs.drop_last(), cov);
    }
}

proof fn lemma_share_at_least(rec: int, len: int, cur: Ratio, floor: Ratio)
    requires
        0 <= rec,
        0 < len,
        cur.wf(),
        floor.wf(),
        rec * cur.den >= cur.num * len,
        cur.num * floor.den >= floor.num * cur.den,
    ensures
        rec * floor.den >= floor.num * len,
{
    let cd = cur.den as int;
    let cn = cur.num as int;
    let fd = floor.den as int;
    let fnum = floor.num as int;
    assert(rec * cd * fd >= cn * len * fd) by (nonlinear_arith)
        requires
            rec * cd >= cn * len,
            fd > 0,
    ;
    assert(cn * fd * len >= fnum * cd * len) by (nonlinear_arith)
        requires
            cn * fd >= fnum * cd,
            len > 0,
    ;
    assert(rec * fd >= fnum * len) by (nonlinear_arith)
        requires
            rec * cd * fd >= cn * len * fd,
            cn * fd * len >= fnum * cd * len,
            cd > 0,
    ;
}

/// The share of `lost` that `cov` brings back, when it is at least `cur`;
/// none otherwise.
pub fn takes_anchor(lost: &Vec<usize>, cov: &[u8], cur: Ratio) -> (r: Option<Ratio>)
    requires
        lost@.len() > 0,
    ensures
        r == share_taken(lost@, cov@, cur),
        r is Some ==> r->0.wf(),
{
    let recovered = reached_count(lost, cov);
    let lost_len = lost.len();
    proof {
        lemma_product_fits(recovered as int, cur.den as int);
        lemma_product_fits(cur.num as int, lost_len as int);
    }
    if (recovered as u128) * (cur.den as u128) >= (cur.num as u128) * (lost_len as u128) {
        Some(Ratio { num: recovered as u64, den: lost_len as u64 })
    } else {
        None
    }
}

/// The focus entries that `cov` misses, when they are at least `threshold`
/// and at least one; none otherwise.
pub fn lost_entries(focus: &Vec<usize>, cov: &[u8], threshold: usize) -> (r: Option<Vec<usize>>)
    ensures
        r is Some <==> loss_gate(focus@, cov@, threshold as int) is Some,
        r is Some ==> r->0@ == loss_gate(focus@, cov@, threshold as int)->0,
{
    let lost = missed_indices(focus, cov);
    if lost.len() < threshold || lost.len() == 0 {
        None
    } else {
        Some(lost)
    }
}

/// The probe that corrupts a field: `seed` with `field`'s value written in.
pub fn corrupted_probe(seed: &[u8], field: &Relation) -> (r: Vec<u8>)
    requires
        supported_size(field.size),
        field.pos + field.size <= seed@.len(),
    ensures
        r@ == field.applied(seed@),
{
    let mut buf = copy_bytes(seed);
    field.apply(buf.as_mut_slice());
    buf
}

/// The probe that tests the insertion of `shift` bytes at `ins` for the
/// candidate `field`, where `shifted` holds the relations already moved by it.
pub fn padded_probe(
    seed: &Vec<u8>,
    shifted: &Structured,
    field: &Relation,
    ins: usize,
    shift: usize,
) -> (r: Vec<u8>)
    requires
        ins <= seed@.len(),
        seed@.len() + shift <= usize::MAX,
        supported_size(field.size),
        field.pos + field.size <= seed@.len(),
        fields_fit(shifted.relations@, seed@.len() + shift),
    ensures
        r@ == padded(seed@, shifted.relations@, *field, ins as int, shift as int),
{
    let ghost fill_spec = Seq::new(shift as nat, |i: int| 0x41u8);
    let fill = fill_bytes(0x41, shift);
    let mut buf = bytes_inserted(seed, ins, fill.as_slice());
    let mut moved = *field;
    if ins < field.pos {
        moved.pos = field.pos + shift;
    }
    moved.apply(buf.as_mut_slice());
    shifted.sanitize_buffer(buf.as_mut_slice());
    buf
}

#[verifier::external_type_specification]
#[verifier::external_body]
pub struct ExInstant(std::time::Instant);

/// Relies on `std::time::Instant::now`: the current instant.
#[verifier::external_body]
fn now() -> (r: std::time::Instant) {
    std::time::Instant::now()
}

/// Relies on `std::time::Instant::elapsed`: the time since `start`.
#[verifier::external_body]
fn elapsed(start: &std::time::Instant) -> (r: std::time::Duration) {
    start.elapsed()
}

/// Relies on `std::time::Duration::as_millis`: the whole milliseconds of `d`,
/// cut to 64 bits.
#[verifier::external_body]
fn whole_millis(d: &std::time::Duration) -> (r: u64) {
    d.as_millis() as u64
}

fn millis_since(start: &std::time::Instant) -> u64 {
    let d = elapsed(start);
    whole_millis(&d)
}

proof fn lemma_product_fits(a: int, b: int)
    requires
        0 <= a <= 0xffff_ffff_ffff_ffff,
        0 <= b <= 0xffff_ffff_ffff_ffff,
    ensures
        0 <= a * b <= 0xffff_ffff_ffff_ffff * 0xffff_ffff_ffff_ffff,
{
    assert(0 <= a * b <= 0xffff_ffff_ffff_ffff * 0xffff_ffff_ffff_ffff) by (nonlinear_arith)
        requires
            0 <= a <= 0xffff_ffff_ffff_ffff,
            0 <= b <= 0xffff_ffff_ffff_ffff,
    ;
}

/// `count` is the number of probes in `trace`, stopped at the largest `usize`.
pub open spec fn probes_counted(count: usize, trace: Seq<(Seq<u8>, Seq<u8>)>) -> bool {
    count as int == if trace.len() > usize::MAX {
        usize::MAX as int
    } else {
        trace.len() as int
    }
}

/// Every relation equals its own snapshot.
pub open spec fn settled(rels: Seq<Relation>) -> bool {
    forall|i: int| 0 <= i < rels.len() ==> #[trigger] rels[i].restored() == rels[i]
}

/// What the search states of each relation it adds to a buffer whose bytes are
/// `seed`: a field of one of the tried shapes that holds a nonzero value no
/// larger than the buffer, measuring the bytes from an anchor inside the buffer
/// up to `anchor + value`. A field of one or two bytes has one of the first
/// anchors tried for it.
pub open spec fn found_in(r: Relation, seed: Seq<u8>) -> bool {
    &&& r.enabled
    &&& r.size <= 2 ==> anchor_candidates(r.pos as int, r.size as int).contains(r.anchor as int)
    &&& exists|k: int| 0 <= k < 7 && #[trigger] shapes()[k] == (r.size, r.le)
    &&& r.pos + r.size <= seed.len()
    &&& r.value == decode(seed.subrange(r.pos as int, r.pos + r.size), r.le)
    &&& 0 < r.value <= seed.len()
    &&& r.anchor < seed.len()
    &&& r.insert == r.anchor + r.value
    &&& r.insert <= seed.len()
}

/// The fields of `a` and `b` share no byte.
pub open spec fn separate(a: Relation, b: Relation) -> bool {
    a.size == 0 || b.size == 0 || a.pos + a.size <= b.pos || b.pos + b.size <= a.pos
}

/// The fields of the relations from index `from` on share no byte with the
/// field of any other relation of `rels`.
pub open spec fn fresh_apart(rels: Seq<Relation>, from: int) -> bool {
    forall|i: int, j: int|
        0 <= i < rels.len() && from <= j < rels.len() && i != j ==> separate(
            #[trigger] rels[i],
            #[trigger] rels[j],
        )
}

/// Every byte of `blocked` that lies in the field of some relation of `rels`
/// is set.
pub open spec fn covers(blocked: Seq<u8>, rels: Seq<Relation>) -> bool {
    forall|i: int, k: int|
        #![trigger rels[i], blocked[k]]
        0 <= i < rels.len() && rels[i].pos <= k < rels[i].pos + rels[i].size && 0 <= k
            < blocked.len() ==> blocked[k] != 0
}

/// The relations `after` keep those of `before`, snapshots aside, and add only
/// relations found in `seed`.
pub open spec fn extends(before: Seq<Relation>, after: Seq<Relation>, seed: Seq<u8>) -> bool {
    &&& before.len() <= after.len()
    &&& forall|k: int| 0 <= k < before.len() ==> #[trigger] after[k].saved() == before[k].saved()
    &&& forall|k: int| before.len() <= k < after.len() ==> found_in(#[trigger] after[k], seed)
}

proof fn lemma_extends_trans(a: Seq<Relation>, b: Seq<Relation>, c: Seq<Relation>, seed: Seq<u8>)
    requires
        extends(a, b, seed),
        extends(b, c, seed),
    ensures
        extends(a, c, seed),
{
    assert forall|k: int| 0 <= k < a.len() implies #[trigger] c[k].saved() == a[k].saved() by {
        assert(c[k].saved() == b[k].saved());
    }
    assert forall|k: int| a.len() <= k < c.len() implies found_in(#[trigger] c[k], seed) by {
        if k < b.len() {
            assert(c[k].saved() == b[k].saved());
            assert(found_in(b[k], seed));
        }
    }
}

proof fn lemma_fresh_apart_trans(mid: Seq<Relation>, c: Seq<Relation>, from: int, seed: Seq<u8>)
    requires
        0 <= from <= mid.len(),
        fresh_apart(mid, from),
        fresh_apart(c, mid.len() as int),
        extends(mid, c, seed),
    ensures
        fresh_apart(c, from),
{
    assert forall|i: int, j: int|
        0 <= i < c.len() && from <= j < c.len() && i != j implies separate(
        #[trigger] c[i],
        #[trigger] c[j],
    ) by {
        if j >= mid.len() {
        } else if i >= mid.len() {
            assert(separate(c[j], c[i]));
        } else {
            assert(c[i].saved() == mid[i].saved());
            assert(c[j].saved() == mid[j].saved());
            assert(separate(mid[i], mid[j]));
        }
    }
}

fn copy_relations(v: &Vec<Relation>) -> (r: Vec<Relation>)
    ensures
        r@ == v@,
{
    let mut r: Vec<Relation> = Vec::new();
    let mut k: usize = 0;
    while k < v.len()
        invariant
            k <= v@.len(),
            r@ == v@.subrange(0, k as int),
        decreases v@.len() - k,
    {
        r.push(v[k]);
        k = k + 1;
    }
    assert(v@.subrange(0, k as int) =~= v@);
    r
}

/// The outcome of a search.
pub struct SearchResult {
    /// The buffer with the relations found.
    pub input: Structured,
    /// How many times the oracle ran.
    pub test_count: usize,
    /// Milliseconds spent in the oracle.
    pub target_test_ms: u64,
    /// Milliseconds spent in the whole search.
    pub total_test_ms: u64,
    /// The buffer has at least one relation.
    pub found_any: bool,
    /// Every probe of the search: the input handed to the oracle and the
    /// coverage it returned.
    pub trace: Ghost<Seq<(Seq<u8>, Seq<u8>)>>,
}

/// Totals over the searches of a campaign.
#[derive(Clone, Copy, Debug)]
pub struct SearchMetadata {
    /// Entries searched.
    pub num_searched: usize,
    /// Entries in which at least one relation was found.
    pub num_found: usize,
    /// Oracle runs.
    pub search_tests: usize,
    /// Milliseconds spent in the oracle.
    pub target_time_ms: u64,
    /// Milliseconds spent searching.
    pub total_time_ms: u64,
}

/// `a + b`, or the largest `usize` when that is smaller.
pub open spec fn sat_usize(a: int, b: int) -> usize {
    if a + b > usize::MAX {
        usize::MAX
    } else {
        (a + b) as usize
    }
}

/// `a + b`, or the largest `u64` when that is smaller.
pub open spec fn sat_u64(a: int, b: int) -> u64 {
    if a + b > u64::MAX {
        u64::MAX
    } else {
        (a + b) as u64
    }
}

impl SearchMetadata {
    /// All totals at zero.
    pub fn new() -> (r: Self)
        ensures
            r.num_searched == 0,
            r.num_found == 0,
            r.search_tests == 0,
            r.target_time_ms == 0,
            r.total_time_ms == 0,
    {
        SearchMetadata {
            num_searched: 0,
            num_found: 0,
            search_tests: 0,
            target_time_ms: 0,
            total_time_ms: 0,
        }
    }

    /// Adds one finished search to the totals; each total stops at its
    /// type's maximum.
    pub fn record(&mut self, res: &SearchResult)
        ensures
            final(self).num_searched == sat_usize(old(self).num_searched as int, 1),
            final(self).num_found == sat_usize(
                old(self).num_found as int,
                if res.found_any {
                    1
                } else {
                    0
                },
            ),
            final(self).search_tests == sat_usize(
                old(self).search_tests as int,
                res.test_count as int,
            ),
            final(self).target_time_ms == sat_u64(
                old(self).target_time_ms as int,
                res.target_test_ms as int,
            ),
            final(self).total_time_ms == sat_u64(
                old(self).total_time_ms as int,
                res.total_test_ms as int,
            ),
    {
        self.num_searched = add_usize(self.num_searched, 1);
        self.num_found = add_usize(
            self.num_found,
            if res.found_any {
                1
            } else {
                0
            },
        );
        self.search_tests = add_usize(self.search_tests, res.test_count);
        self.target_time_ms = add_u64(self.target_time_ms, res.target_test_ms);
        self.total_time_ms = add_u64(self.total_time_ms, res.total_test_ms);
    }
}

fn add_usize(a: usize, b: usize) -> (r: usize)
    ensures
        r == sat_usize(a as int, b as int),
{
    if a > usize::MAX - b {
        usize::MAX
    } else {
        a + b
    }
}

fn add_u64(a: u64, b: u64) -> (r: u64)
    ensures
        r == sat_u64(a as int, b as int),
{
    if a > u64::MAX - b {
        u64::MAX
    } else {
        a + b
    }
}

/// A search in progress over one seed.
pub struct SearchContext<O> {
    pub oracle: O,
    pub options: SearchOptions,
    /// Coverage entries that the seed reaches and an empty input does not.
    pub focus_indices: Vec<usize>,
    /// How many focus entries corrupting a field must lose.
    pub loss_threshold: usize,
    pub test_count: usize,
    pub target_test_ms: u64,
    /// Every probe so far: the input handed to the oracle and the coverage
    /// it returned.
    pub trace: Ghost<Seq<(Seq<u8>, Seq<u8>)>>,
}

fn fill_bytes(b: u8, n: usize) -> (r: Vec<u8>)
    ensures
        r@ == Seq::new(n as nat, |i: int| b),
{
    let mut r: Vec<u8> = Vec::new();
    let mut k: usize = 0;
    while k < n
        invariant
            k <= n,
            r@ == Seq::new(k as nat, |i: int| b),
        decreases n - k,
    {
        r.push(b);
        k = k + 1;
        assert(r@ =~= Seq::new(k as nat, |i: int| b));
    }
    r
}

fn copy_bytes(b: &[u8]) -> (r: Vec<u8>)
    ensures
        r@ == b@,
{
    let mut r: Vec<u8> = Vec::new();
    let mut k: usize = 0;
    while k < b.len()
        invariant
            k <= b@.len(),
            r@ == b@.subrange(0, k as int),
        decreases b@.len() - k,
    {
        r.push(b[k]);
        k = k + 1;
    }
    assert(b@.subrange(0, k as int) =~= b@);
    r
}

fn copy_usizes(v: &Vec<usize>) -> (r: Vec<usize>)
    ensures
        r@ == v@,
{
    let mut r: Vec<usize> = Vec::new();
    let mut k: usize = 0;
    while k < v.len()
        invariant
            k <= v@.len(),
            r@ == v@.subrange(0, k as int),
        decreases v@.len() - k,
    {
        r.push(v[k]);
        k = k + 1;
    }
    assert(v@.subrange(0, k as int) =~= v@);
    r
}

fn any_blocked(blocked: &Vec<u8>, pos: usize, size: usize) -> (r: bool)
    requires
        pos + size <= blocked@.len(),
    ensures
        r <==> exists|k: int| pos <= k < pos + size && blocked@[k] != 0,
{
    let len = blocked.len();
    let end = pos + size;
    let mut k: usize = pos;
    while k < end
        invariant
            pos <= k <= end,
            end == pos + size,
            pos + size <= blocked@.len(),
            forall|j: int| pos <= j < k ==> blocked@[j] == 0,
        decreases pos + size - k,
    {
        if blocked[k] != 0 {
            return true;
        }
        k = k + 1;
    }
    false
}

fn mark_blocked(blocked: &mut Vec<u8>, pos: usize, size: usize)
    requires
        pos + size <= old(blocked)@.len(),
    ensures
        final(blocked)@.len() == old(blocked)@.len(),
        forall|k: int|
            0 <= k < final(blocked)@.len() ==> #[trigger] final(blocked)@[k] == if pos <= k < pos
                + size {
                1
            } else {
                old(blocked)@[k]
            },
{
    let len = blocked.len();
    let end = pos + size;
    let mut k: usize = pos;
    while k < end
        invariant
            pos <= k <= end,
            end == pos + size,
            pos + size <= blocked@.len(),
            blocked@.len() == old(blocked)@.len(),
            forall|j: int|
                0 <= j < blocked@.len() ==> #[trigger] blocked@[j] == if pos <= j < k {
                    1
                } else {
                    old(blocked)@[j]
                },
        decreases pos + size - k,
    {
        blocked.set(k, 1);
        k = k + 1;
    }
}

impl<O: CoverageOracle> SearchContext<O> {
    /// Runs the oracle once, counting the run and its time.
    fn test(&mut self, data: &[u8]) -> (r: &[u8])
        ensures
            final(self).test_count == sat_usize(old(self).test_count as int, 1),
            final(self).trace@ == old(self).trace@.push((data@, r@)),
            probes_counted(old(self).test_count, old(self).trace@) ==> probes_counted(
                final(self).test_count,
                final(self).trace@,
            ),
            final(self).options == old(self).options,
            final(self).focus_indices@ == old(self).focus_indices@,
            final(self).loss_threshold == old(self).loss_threshold,
    {
        self.test_count = add_usize(self.test_count, 1);
        let start = now();
        let res = self.oracle.probe(data);
        let ms = millis_since(&start);
        self.target_test_ms = add_u64(self.target_test_ms, ms);
        self.trace = Ghost(self.trace@.push((data@, res@)));
        res
    }

    /// Tries `anchor` for the corrupted field `potential`, which holds
    /// `cur_val + shift` at `field_pos`: pads the seed with `shift` bytes at
    /// `anchor + cur_val`, runs the oracle, and takes the anchor when at least
    /// the share `cur_recover` of the lost entries comes back. The relations of
    /// `input` are left as they were.
    fn check_anchor(
        &mut self,
        input: &mut Structured,
        anchor: usize,
        cur_val: usize,
        shift: usize,
        seed: &Vec<u8>,
        lost: &Vec<usize>,
        cur_recover: &mut Ratio,
        potential: &mut Relation,
        visited: &mut Vec<u8>,
    )
        requires
            old(input).wf(),
            settled(old(input).relations@),
            old(input).raw@ == seed@,
            seed@.len() + 0x200 <= usize::MAX,
            old(visited)@.len() == seed@.len(),
            supported_size(old(potential).size),
            old(potential).pos + old(potential).size <= seed@.len(),
            cur_val <= seed@.len(),
            shift <= 0xff,
            old(cur_recover).wf(),
            lost@.len() > 0,
        ensures
            final(input).raw@ == old(input).raw@,
            final(input).relations@ == old(input).relations@,
            final(cur_recover).wf(),
            final(self).options == old(self).options,
            final(self).focus_indices@ == old(self).focus_indices@,
            final(self).loss_threshold == old(self).loss_threshold,
            final(self).test_count >= old(self).test_count,
            probes_counted(old(self).test_count, old(self).trace@) ==> probes_counted(
                final(self).test_count,
                final(self).trace@,
            ),
            ({
                let len = seed@.len() as int;
                let ins = anchor + cur_val;
                let tried = anchor < len && ins <= len && old(visited)@[anchor as int] == 0;
                let probed = tried && all_accept_insert(old(input).relations@, ins, shift as int);
                &&& final(visited)@ == if tried {
                    old(visited)@.update(anchor as int, 1)
                } else {
                    old(visited)@
                }
                &&& !probed ==> final(self).trace@ == old(self).trace@ && *final(potential)
                    == *old(potential) && *final(cur_recover) == *old(cur_recover)
                &&& probed ==> final(self).trace@.len() == old(self).trace@.len() + 1
                    && final(self).trace@.drop_last() == old(self).trace@
                    && final(self).trace@.last().0 == padded(
                    seed@,
                    shifted_by_insert(old(input).relations@, ins, shift as int),
                    *old(potential),
                    ins,
                    shift as int,
                ) && match share_taken(lost@, final(self).trace@.last().1, *old(cur_recover)) {
                    Some(c) => *final(cur_recover) == c && *final(potential) == (Relation {
                        anchor,
                        insert: ins as usize,
                        ..*old(potential)
                    }),
                    None => *final(potential) == *old(potential) && *final(cur_recover)
                        == *old(cur_recover),
                }
            }),
    {
        if anchor >= seed.len() {
            return;
        }
        if cur_val > seed.len() - anchor {
            return;
        }
        let ins = anchor + cur_val;
        if visited[anchor] != 0 {
            return;
        }
        visited.set(anchor, 1);
        let ghost rels = input.relations@;
        if input.on_insert(ins, shift).is_err() {
            return;
        }
        proof {
            lemma_fit_fields(input.relations@, seed@.len() + shift);
        }
        let buf = padded_probe(seed, input, potential, ins, shift);
        input.restore_relations();
        proof {
            assert forall|i: int| 0 <= i < rels.len() implies input.relations@[i] == rels[i] by {
                assert(rels[i].restored() == rels[i]);
            }
            assert(input.relations@ =~= rels);
        }
        let ghost before = self.trace@;
        let cov = self.test(buf.as_slice());
        let taken = takes_anchor(lost, cov, *cur_recover);
        proof {
            assert(self.trace@.drop_last() =~= before);
        }
        if let Some(c) = taken {
            potential.insert = ins;
            potential.anchor = anchor;
            *cur_recover = c;
        }
    }

    /// Tries the candidate field of shape `(size, le)` at `i`: corrupts it and,
    /// when that loses enough focus entries, tries its anchors; the last anchor
    /// taken makes a relation, which is appended. Returns whether one was.
    #[verifier::rlimit(100)]
    fn try_candidate(
        &mut self,
        input: &mut Structured,
        seed: &Vec<u8>,
        focus: &Vec<usize>,
        inflection: &Vec<usize>,
        visited: &mut Vec<u8>,
        i: usize,
        size: usize,
        le: bool,
        cur: u64,
        shift: usize,
        shape_index: Ghost<int>,
    ) -> (added: bool)
        requires
            old(input).wf(),
            settled(old(input).relations@),
            old(input).raw@ == seed@,
            seed@.len() + 0x200 <= usize::MAX,
            old(visited)@.len() == seed@.len(),
            old(self).options.wf(),
            focus@ == old(self).focus_indices@,
            inflection@ == inflection_seq(old(input).relations@),
            forall|x: usize| #[trigger] inflection@.contains(x)
                ==> is_inflection_point(old(input).relations@, x),
            0 <= shape_index@ < 7,
            shapes()[shape_index@] == (size, le),
            is_candidate(seed@, i as int, size, le),
            !field_taken(old(input).relations@, i as int, size as int),
            cur as int == decode(seed@.subrange(i as int, i + size), le),
            shift_of(size, cur) == Some(shift),
        ensures
            final(input).raw@ == old(input).raw@,
            final(input).wf(),
            settled(final(input).relations@),
            final(visited)@.len() == old(visited)@.len(),
            final(self).options == old(self).options,
            final(self).focus_indices@ == old(self).focus_indices@,
            final(self).loss_threshold == old(self).loss_threshold,
            final(self).test_count >= old(self).test_count,
            probes_counted(old(self).test_count, old(self).trace@) ==> probes_counted(
                final(self).test_count,
                final(self).trace@,
            ),
            prefix_of(old(self).trace@, final(self).trace@),
            final(self).trace@.len() > old(self).trace@.len(),
            final(self).trace@[old(self).trace@.len() as int].0
                == corruption(seed@, i as int, size, le),
            forall|t2: Seq<(Seq<u8>, Seq<u8>)>|
                #[trigger] prefix_of(final(self).trace@, t2) ==> candidate_step(
                    seed@,
                    focus@,
                    old(self).loss_threshold as int,
                    old(self).options.recover_threshold,
                    t2,
                    old(input).relations@,
                    old(self).trace@.len() as int,
                    i as int,
                    shape_index@,
                ) == (final(input).relations@, final(self).trace@.len() as int),
            !added ==> final(input).relations@ == old(input).relations@,
            added ==> final(input).relations@ == old(input).relations@.push(
                final(input).relations@.last(),
            ) && found_in(final(input).relations@.last(), seed@)
                && final(input).relations@.last().pos == i
                && final(input).relations@.last().size == size
                && anchor_allowed(old(input).relations@, final(input).relations@.last())
                && evidenced(
                final(input).relations@.last(),
                seed@,
                final(self).trace@,
                focus@,
                old(self).loss_threshold as int,
                old(self).options.recover_threshold,
            ),
    {
        let ghost shape_index = shape_index@;
        let len = seed.len();
        let ghost t_head = self.trace@;
        let ghost rels_head = input.relations@;
        let cur_val = cur as usize;
        let mut potential = Relation {
            pos: i,
            value: cur + shift as u64,
            size,
            le,
            anchor: usize::MAX,
            insert: usize::MAX,
            enabled: true,
            old_pos: 0,
            old_anchor: 0,
            old_insert: 0,
            old_value: 0,
        };
        let buf = corrupted_probe(seed.as_slice(), &potential);
        let ghost tsnap = self.trace@;
        let ghost t1 = tsnap.len() as int;
        let threshold = self.loss_threshold;
        let cov = self.test(buf.as_slice());
        let gate = lost_entries(focus, cov, threshold);
        proof {
            assert(potential.applied(seed@) == corruption(seed@, i as int, size, le));
            assert(probed(self.trace@, corruption(seed@, i as int, size, le))) by {
                assert(self.trace@[t1].0 == corruption(seed@, i as int, size, le));
            }
        }
        let lost = match gate {
            Some(l) => l,
            None => {
                proof {
                    lemma_gate_closed(seed@, focus@, self.loss_threshold as int,
                        self.options.recover_threshold, rels_head, t_head,
                        self.trace@, i as int, shape_index);
                }
                return false;
            },
        };
        let lost_len = lost.len();
        let ghost mut t2g: int = 0;
        let ghost mut shg: Seq<Relation> = Seq::empty();
        *visited = fill_bytes(0, len);
        let ghost visited_zero = visited@;
        let mut cur_recover = self.options.recover_threshold;
        let anchors = anchors_for(i, size);
        let ghost fixed = potential;
        let ghost st0: AnchorState = (potential, cur_recover, visited@, self.trace@.len() as int);
        proof {
            assert(anchors@ =~= anchor_list(i, size));
            assert(t_head == tsnap);
            assert(loss_gate(focus@, self.trace@[t1].1, self.loss_threshold as int) == Some(lost@));
            assert forall|t2: Seq<(Seq<u8>, Seq<u8>)>| #[trigger] prefix_of(self.trace@, t2)
                implies anchors_run(seed@, rels_head, t2, lost@, shift as int, cur_val as int, st0,
                    anchors@.subrange(0, 0)) == st0 by {
                assert(anchors@.subrange(0, 0) =~= Seq::<usize>::empty());
            }
        }
        let mut a: usize = 0;
        while a < anchors.len()
            invariant
                i < len,
                len == seed@.len(),
                len + 0x200 <= usize::MAX,
                input.raw@ == seed@,
                input.wf(),
                settled(input.relations@),
                visited@.len() == len,
                self.options == old(self).options,
                self.options.wf(),
                self.focus_indices@ == old(self).focus_indices@,
                self.loss_threshold == old(self).loss_threshold,
                self.test_count >= old(self).test_count,
                probes_counted(old(self).test_count, old(self).trace@) ==> probes_counted(
                    self.test_count,
                    self.trace@,
                ),
                cur_recover.wf(),
                lost@.len() > 0,
                lost_len == lost@.len(),
                supported_size(size),
                i + size <= len,
                cur_val <= len,
                focus@ == old(self).focus_indices@,
                prefix_of(old(self).trace@, tsnap),
                prefix_of(tsnap, self.trace@),
                0 <= shape_index < 7,
                shapes()[shape_index] == (size, le),
                t1 == tsnap.len(),
                self.trace@.len() > t1,
                loss_gate(focus@, self.trace@[t1].1, self.loss_threshold as int) is Some,
                lost@ == loss_gate(focus@, self.trace@[t1].1,
                    self.loss_threshold as int)->0,
                self.trace@[t1].0 == fixed.applied(seed@),
                at_least(cur_recover, self.options.recover_threshold),
                potential.insert == usize::MAX
                    || (t1 < t2g < self.trace@.len() && self.trace@[t2g].0
                        == padded(seed@, shg, potential, potential.insert as int,
                            shift as int)
                                && count_reached(lost@,
                                    self.trace@[t2g].1) * cur_recover.den
                                        >= cur_recover.num * lost@.len()),
                shift <= 0xff,
                fixed.pos == i && fixed.size == size,
                potential.pos == fixed.pos && potential.size == fixed.size
                    && potential.le == fixed.le && potential.value == fixed.value
                    && potential.enabled,
                potential.insert == usize::MAX || (potential.anchor < len
                    && potential.insert == potential.anchor + cur_val && potential.insert
                    <= len),
                potential.insert == usize::MAX || anchor_candidates(
                    i as int,
                    size as int,
                ).contains(potential.anchor as int),
                anchors@.len() == anchor_candidates(i as int, size as int).len(),
                inflection@ == inflection_seq(input.relations@),
                input.relations@ == rels_head,
                prefix_of(t_head, self.trace@),
                t_head == tsnap,
                is_candidate(seed@, i as int, size, le),
                !field_taken(rels_head, i as int, size as int),
                cur as int == decode(seed@.subrange(i as int, i + size), le),
                shift_of(size, cur) == Some(shift),
                cur_val as int == cur as int,
                loss_gate(focus@, self.trace@[t1].1, self.loss_threshold as int) == Some(lost@),
                0 <= i,
                anchors@ == anchor_list(i, size),
                a <= anchors@.len(),
                forall|t2: Seq<(Seq<u8>, Seq<u8>)>| #[trigger] prefix_of(self.trace@, t2)
                    ==> anchors_run(seed@, rels_head, t2, lost@, shift as int, cur_val as int, st0,
                        anchors@.subrange(0, a as int))
                            == (potential, cur_recover, visited@, self.trace@.len() as int),
                forall|q: int|
                    0 <= q < anchors@.len() ==> anchors@[q] == anchor_candidates(
                        i as int,
                        size as int,
                    )[q],
            decreases anchors@.len() - a,
        {
            proof {
                let c = anchor_candidates(i as int, size as int);
                assert(c[a as int] == anchors@[a as int]);
            }
            let ghost t_before = self.trace@;
            let ghost cur_before = cur_recover;
            let ghost pot_before = potential;
            let ghost rels_before = input.relations@;
            let ghost vis_before = visited@;
            let ghost anchor_now = anchors@[a as int];
            self.check_anchor(
                input,
                anchors[a],
                cur_val,
                shift,
                seed,
                &lost,
                &mut cur_recover,
                &mut potential,
                visited,
            );
            proof {
                let ins = anchor_now + cur_val;
                if self.trace@.len() == t_before.len() + 1 {
                    assert(self.trace@.drop_last() == t_before);
                    if share_taken(lost@, self.trace@.last().1, cur_before) is Some {
                        t2g = t_before.len() as int;
                        shg = shifted_by_insert(rels_before, ins, shift as int);
                        assert(padded(seed@, shg, potential, ins, shift as int)
                            == padded(seed@, shg, pot_before, ins, shift as int));
                        lemma_share_at_least(count_reached(lost@,
                            self.trace@.last().1) as int, lost@.len() as int, cur_before,
                                self.options.recover_threshold);
                        lemma_count_reached_bound(lost@, self.trace@.last().1);
                        let rec = count_reached(lost@, self.trace@.last().1);
                        assert(share_taken(lost@, self.trace@.last().1, cur_before)
                            == Some(Ratio { num: rec as u64, den: lost@.len() as u64 }));
                        assert(cur_recover
                            == share_taken(lost@, self.trace@.last().1, cur_before)->0);
                        assert(cur_recover.num as int
                            == count_reached(lost@, self.trace@.last().1));
                        assert(cur_recover.den as int == lost@.len());
                        assert(at_least(cur_recover, self.options.recover_threshold));
                    }
                    assert(self.trace@[t1] == t_before[t1]);
                    if 0 <= t2g < t_before.len() {
                        assert(self.trace@[t2g] == self.trace@.drop_last()[t2g]);
                    }
                }
                assert(prefix_of(tsnap, self.trace@)) by {
                    if self.trace@.len() == t_before.len() + 1 {
                        assert forall|t: int| 0 <= t < tsnap.len()
                            implies #[trigger] self.trace@[t] == tsnap[t] by {
                            assert(self.trace@[t] == self.trace@.drop_last()[t]);
                        }
                    }
                }
            }
            proof {
                assert(prefix_of(t_before, self.trace@)) by {
                    if self.trace@.len() == t_before.len() + 1 {
                        assert forall|t: int| 0 <= t < t_before.len()
                            implies #[trigger] self.trace@[t] == t_before[t] by {
                            assert(self.trace@[t] == self.trace@.drop_last()[t]);
                        }
                    }
                }
                lemma_run_next(seed@, rels_head, t_before, self.trace@, lost@, shift as int,
                    cur_val as int,
                    st0, anchors@, a as int,
                        (pot_before, cur_before, vis_before, t_before.len() as int),
                    (potential, cur_recover, visited@, self.trace@.len() as int));
                lemma_prefix_trans(t_head, t_before, self.trace@);
            }
            a = a + 1;
        }
        let ghost st1: AnchorState = (potential, cur_recover, visited@, self.trace@.len() as int);
        let ghost t_l1 = self.trace@;
        proof {
            assert(anchors@.subrange(0, anchors@.len() as int) =~= anchors@);
            assert(prefix_of(t_l1, t_l1));
            assert forall|t2: Seq<(Seq<u8>, Seq<u8>)>| #[trigger] prefix_of(t_l1, t2)
                implies anchors_run(
                seed@, rels_head, t2, lost@, shift as int, cur_val as int, st0,
                    anchor_list(i, size),
            ) == st1 by {
                assert(anchors@.subrange(0, anchors@.len() as int) == anchor_list(i, size));
            }
        }
        if size >= 4 && potential.insert == usize::MAX {
            let mut a: usize = 0;
            while a < inflection.len()
                invariant
                    i < len,
                    len == seed@.len(),
                    len + 0x200 <= usize::MAX,
                    input.raw@ == seed@,
                    input.wf(),
                    settled(input.relations@),
                    visited@.len() == len,
                    self.options == old(self).options,
                    self.options.wf(),
                    self.focus_indices@ == old(self).focus_indices@,
                    self.loss_threshold == old(self).loss_threshold,
                    self.test_count >= old(self).test_count,
                    probes_counted(old(self).test_count, old(self).trace@) ==> probes_counted(
                        self.test_count,
                        self.trace@,
                    ),
                    cur_recover.wf(),
                    lost@.len() > 0,
                    lost_len == lost@.len(),
                    supported_size(size),
                    i + size <= len,
                    cur_val <= len,
                    focus@ == old(self).focus_indices@,
                    prefix_of(old(self).trace@, tsnap),
                    prefix_of(tsnap, self.trace@),
                    self.trace@.len() > t1,
                    loss_gate(focus@, self.trace@[t1].1,
                        self.loss_threshold as int) is Some,
                lost@ == loss_gate(focus@, self.trace@[t1].1,
                    self.loss_threshold as int)->0,
                    self.trace@[t1].0 == fixed.applied(seed@),
                    at_least(cur_recover, self.options.recover_threshold),
                    potential.insert == usize::MAX
                        || (t1 < t2g < self.trace@.len() && self.trace@[t2g].0
                            == padded(seed@, shg, potential, potential.insert as int,
                                shift as int)
                                    && count_reached(lost@,
                                        self.trace@[t2g].1) * cur_recover.den
                                            >= cur_recover.num * lost@.len()),
                    shift <= 0xff,
                    fixed.pos == i && fixed.size == size,
                    potential.pos == fixed.pos && potential.size == fixed.size
                        && potential.le == fixed.le && potential.value == fixed.value
                        && potential.enabled,
                    potential.insert == usize::MAX || (potential.anchor < len
                        && potential.insert == potential.anchor + cur_val
                        && potential.insert <= len),
                    size >= 4,
                    a <= inflection@.len(),
                    forall|x: usize| #[trigger] inflection@.contains(x)
                        ==> is_inflection_point(input.relations@, x),
                    potential.insert == usize::MAX || is_inflection_point(
                        input.relations@,
                        potential.anchor,
                    ),
                    t1 == tsnap.len(),
                    0 <= shape_index < 7,
                    shapes()[shape_index] == (size, le),
                    inflection@ == inflection_seq(input.relations@),
                    input.relations@ == rels_head,
                    prefix_of(t_head, self.trace@),
                    t_head == tsnap,
                    is_candidate(seed@, i as int, size, le),
                    !field_taken(rels_head, i as int, size as int),
                    cur as int == decode(seed@.subrange(i as int, i + size), le),
                    shift_of(size, cur) == Some(shift),
                    cur_val as int == cur as int,
                    loss_gate(focus@, self.trace@[t1].1, self.loss_threshold as int) == Some(lost@),
                    0 <= i,
                    st1.0.insert == usize::MAX,
                    forall|t2: Seq<(Seq<u8>, Seq<u8>)>| #[trigger] prefix_of(t_l1, t2)
                        ==> anchors_run(seed@, rels_head, t2, lost@, shift as int, cur_val as int,
                            st0, anchor_list(i, size)) == st1,
                    prefix_of(t_l1, self.trace@),
                    forall|t2: Seq<(Seq<u8>, Seq<u8>)>| #[trigger] prefix_of(self.trace@, t2)
                        ==> anchors_run(seed@, rels_head, t2, lost@, shift as int, cur_val as int,
                            st1, inflection@.subrange(0, a as int))
                                == (potential, cur_recover, visited@, self.trace@.len() as int),
                decreases inflection@.len() - a,
            {
                let ghost t_before = self.trace@;
                let ghost cur_before = cur_recover;
                let ghost pot_before = potential;
                let ghost rels_before = input.relations@;
                let ghost vis_before = visited@;
                let ghost anchor_now = inflection@[a as int];
                proof {
                    assert(inflection@.contains(anchor_now));
                }
                self.check_anchor(
                    input,
                    inflection[a],
                    cur_val,
                    shift,
                    seed,
                    &lost,
                    &mut cur_recover,
                    &mut potential,
                    visited,
                );
                proof {
                    let ins = anchor_now + cur_val;
                    if self.trace@.len() == t_before.len() + 1 {
                        assert(self.trace@.drop_last() == t_before);
                        if share_taken(lost@, self.trace@.last().1, cur_before) is Some {
                            t2g = t_before.len() as int;
                            shg = shifted_by_insert(rels_before, ins, shift as int);
                            assert(padded(seed@, shg, potential, ins, shift as int)
                                == padded(seed@, shg, pot_before, ins, shift as int));
                            lemma_share_at_least(count_reached(lost@,
                                self.trace@.last().1) as int, lost@.len() as int, cur_before,
                                    self.options.recover_threshold);
                            lemma_count_reached_bound(lost@, self.trace@.last().1);
                            let rec = count_reached(lost@, self.trace@.last().1);
                            assert(share_taken(lost@, self.trace@.last().1, cur_before)
                                == Some(Ratio { num: rec as u64, den: lost@.len() as u64 }));
                            assert(cur_recover
                                == share_taken(lost@, self.trace@.last().1, cur_before)->0);
                            assert(cur_recover.num as int
                                == count_reached(lost@, self.trace@.last().1));
                            assert(cur_recover.den as int == lost@.len());
                            assert(at_least(cur_recover, self.options.recover_threshold));
                        }
                        assert(self.trace@[t1] == t_before[t1]);
                        if 0 <= t2g < t_before.len() {
                            assert(self.trace@[t2g] == self.trace@.drop_last()[t2g]);
                        }
                    }
                    assert(prefix_of(tsnap, self.trace@)) by {
                        if self.trace@.len() == t_before.len() + 1 {
                            assert forall|t: int| 0 <= t < tsnap.len()
                                implies #[trigger] self.trace@[t] == tsnap[t] by {
                                assert(self.trace@[t] == self.trace@.drop_last()[t]);
                            }
                        }
                    }
                }
                proof {
                    assert(prefix_of(t_before, self.trace@)) by {
                        if self.trace@.len() == t_before.len() + 1 {
                            assert forall|t: int| 0 <= t < t_before.len()
                                implies #[trigger] self.trace@[t] == t_before[t] by {
                                assert(self.trace@[t] == self.trace@.drop_last()[t]);
                            }
                        }
                    }
                    lemma_run_next(seed@, rels_head, t_before, self.trace@, lost@, shift as int,
                        cur_val as int,
                        st1, inflection@, a as int,
                            (pot_before, cur_before, vis_before, t_before.len() as int),
                        (potential, cur_recover, visited@, self.trace@.len() as int));
                    lemma_prefix_trans(t_head, t_before, self.trace@);
                }
                a = a + 1;
            }
                            proof {
                assert forall|t2: Seq<(Seq<u8>, Seq<u8>)>| #[trigger] prefix_of(self.trace@, t2)
                    implies anchor_rounds(seed@, rels_head, t2, lost@, shift as int, cur as int,
                        st0, i as int, size)
                            == (potential, cur_recover, visited@, self.trace@.len() as int) by {
                    lemma_prefix_trans(t_l1, self.trace@, t2);
                    assert(inflection@.subrange(0, inflection@.len() as int) =~= inflection@);
                }
            }
        } else {
            proof {
                assert forall|t2: Seq<(Seq<u8>, Seq<u8>)>| #[trigger] prefix_of(self.trace@, t2)
                    implies anchor_rounds(seed@, rels_head, t2, lost@, shift as int, cur as int,
                        st0, i as int, size)
                            == (potential, cur_recover, visited@, self.trace@.len() as int) by {
                    lemma_prefix_trans(t_l1, self.trace@, t2);
                    assert(inflection@.subrange(0, inflection@.len() as int) =~= inflection@);
                }
            }
        }
        proof {
            assert(probed(self.trace@, corruption(seed@, i as int, size, le))) by {
                assert(self.trace@[t1].0 == corruption(seed@, i as int, size, le));
            }
        }
        let ghost st2: AnchorState = (potential, cur_recover, visited@, self.trace@.len() as int);
        proof {
            assert(visited_zero =~= Seq::new(seed@.len(), |q: int| 0u8));
            lemma_candidate_result(seed@, focus@, self.loss_threshold as int,
                self.options.recover_threshold, rels_head, t_head,
                self.trace@, i as int, shape_index, lost@, st2);
        }
        if potential.insert == usize::MAX {
            return false;
        }
        let ghost pushed = potential;
        potential.value = cur;
        proof {
            assert(shapes()[shape_index] == (size, le));
            assert(found_in(potential, seed@));
            let rr = self.options.recover_threshold;
            lemma_share_at_least(
                count_reached(lost@, self.trace@[t2g].1) as int,
                lost@.len() as int,
                cur_recover,
                rr,
            );
            assert(Relation { value: (potential.value + shift) as u64, ..potential }
                == pushed);
            assert(self.trace@[t2g].0
                == padded(seed@, shg, pushed, potential.insert as int, shift as int));
            assert(witnessed(potential, seed@, self.trace@, focus@,
                self.loss_threshold as int, rr, t1, t2g));
        }
        let ghost unsaved = potential;
        potential.save();
        proof {
            let shift_i = shift as int;
            let pu = Relation { value: (unsaved.value + shift) as u64, ..unsaved };
            let ps = Relation { value: (potential.value + shift) as u64, ..potential };
            assert(padded(seed@, shg, ps, potential.insert as int, shift_i) == padded(
                seed@,
                shg,
                pu,
                unsaved.insert as int,
                shift_i,
            ));
            assert(ps.applied(seed@) == pu.applied(seed@));
            assert(witnessed(
                potential,
                seed@,
                self.trace@,
                focus@,
                self.loss_threshold as int,
                self.options.recover_threshold,
                t1,
                t2g,
            ));
            assert(found_in(potential, seed@));
        }
        let ghost pre_add = input.relations@;
        input.add_relation(potential);
        proof {
            let r = input.relations@;
            assert(r == rels_head.push(potential));
            assert(evidenced(potential, seed@, self.trace@, focus@, self.loss_threshold as int,
                self.options.recover_threshold));
        }
        true
    }

    /// One pass over the seed: at each offset, and for each shape in turn,
    /// tries the field found there. Returns whether a relation was added.
    /// The relations afterwards are exactly those `one_pass` computes from the
    /// trace; the ones added stand at rising offsets, each with its evidence in
    /// the trace and an allowed anchor.
    #[verifier::rlimit(100)]
    fn find_relations_inner(&mut self, input: &mut Structured) -> (found: bool)
        requires
            old(input).wf(),
            old(input).raw@.len() + 0x200 <= usize::MAX,
            old(self).options.wf(),
        ensures
            final(input).raw@ == old(input).raw@,
            final(input).wf(),
            extends(old(input).relations@, final(input).relations@, old(input).raw@),
            fresh_apart(final(input).relations@, old(input).relations@.len() as int),
            found == (final(input).relations@.len() > old(input).relations@.len()),
            final(self).options == old(self).options,
            final(self).focus_indices@ == old(self).focus_indices@,
            final(self).loss_threshold == old(self).loss_threshold,
            final(self).test_count >= old(self).test_count,
            probes_counted(old(self).test_count, old(self).trace@) ==> probes_counted(
                final(self).test_count,
                final(self).trace@,
            ),
            prefix_of(old(self).trace@, final(self).trace@),
            evidenced_from(
                final(input).relations@,
                old(input).relations@.len() as int,
                old(input).raw@,
                final(self).trace@,
                old(self).focus_indices@,
                old(self).loss_threshold as int,
                old(self).options.recover_threshold,
            ),
            rising_from(final(input).relations@, old(input).relations@.len() as int),
            anchors_allowed(final(input).relations@, old(input).relations@.len() as int),
            forall|t2: Seq<(Seq<u8>, Seq<u8>)>|
                #[trigger] prefix_of(final(self).trace@, t2) ==> one_pass(
                    old(input).raw@,
                    old(self).focus_indices@,
                    old(self).loss_threshold as int,
                    old(self).options.recover_threshold,
                    t2,
                    old(input).relations@,
                    old(self).trace@.len() as int,
                ) == (final(input).relations@, final(self).trace@.len() as int),
            tried_before(
                old(input).raw@,
                final(input).relations@,
                final(self).trace@,
                old(input).raw@.len() as int,
                0,
            ),
    {
        let len = input.raw.len();
        let seed = copy_bytes(input.raw.as_slice());
        let focus = copy_usizes(&self.focus_indices);
        let mut visited = fill_bytes(0, len);
        let mut blocked = fill_bytes(0, len);
        let ghost orig = input.relations@;
        input.save_relations();
        let ghost rels0 = input.relations@;
        let mut k: usize = 0;
        while k < input.relations.len()
            invariant
                blocked@.len() == len,
                rels0 == input.relations@,
                k <= rels0.len(),
                covers(blocked@, rels0.subrange(0, k as int)),
                blocks_sound(blocked@, rels0),
            decreases input.relations@.len() - k,
        {
            let rel = input.relations[k];
            let ghost pre = blocked@;
            if rel.pos < len {
                let width = if rel.size <= len - rel.pos {
                    rel.size
                } else {
                    len - rel.pos
                };
                mark_blocked(&mut blocked, rel.pos, width);
            }
            proof {
                assert forall|q: int| 0 <= q < blocked@.len() && #[trigger] blocked@[q] != 0
                    implies exists|j: int|
                    0 <= j < rels0.len() && #[trigger] rels0[j].pos <= q < rels0[j].pos
                        + rels0[j].size by {
                    if pre[q] == 0 {
                        assert(rels0[k as int].pos <= q < rels0[k as int].pos
                            + rels0[k as int].size);
                    }
                }
                let cur = rels0.subrange(0, k + 1);
                let prev = rels0.subrange(0, k as int);
                assert forall|a: int, b: int|
                    #![trigger cur[a], blocked@[b]]
                    0 <= a < cur.len() && cur[a].pos <= b < cur[a].pos + cur[a].size && 0 <= b
                        < blocked@.len() implies blocked@[b] != 0 by {
                    if a < k {
                        assert(cur[a] == prev[a]);
                        assert(pre[b] != 0);
                    }
                }
            }
            k = k + 1;
        }
        assert(rels0.subrange(0, k as int) =~= rels0);
        let ghost start = input.relations@;
        let ghost at0 = self.trace@.len() as int;
        proof {
            assert(start =~= orig.map_values(|r: Relation| r.saved()));
            assert forall|t2: Seq<(Seq<u8>, Seq<u8>)>| #[trigger] prefix_of(self.trace@, t2)
                implies pass_upto(
                seed@, focus@, self.loss_threshold as int, self.options.recover_threshold, t2,
                    start, at0, (0 * 7) as nat) == (input.relations@, self.trace@.len() as int) by {
            }
        }
        let mut found = false;
        let mut inflection = input.inflection_points();
        let mut i: usize = 0;
        while i < len
            invariant
                len == seed@.len(),
                len + 0x200 <= usize::MAX,
                input.raw@ == seed@,
                input.wf(),
                extends(start, input.relations@, seed@),
                found == (input.relations@.len() > start.len()),
                settled(input.relations@),
                visited@.len() == len,
                blocked@.len() == len,
                covers(blocked@, input.relations@),
                fresh_apart(input.relations@, start.len() as int),
                self.options == old(self).options,
                self.options.wf(),
                self.focus_indices@ == old(self).focus_indices@,
                self.loss_threshold == old(self).loss_threshold,
                self.test_count >= old(self).test_count,
                probes_counted(old(self).test_count, old(self).trace@) ==> probes_counted(
                    self.test_count,
                    self.trace@,
                ),
                focus@ == old(self).focus_indices@,
                prefix_of(old(self).trace@, self.trace@),
                evidenced_from(input.relations@, start.len() as int, seed@, self.trace@, focus@,
                    self.loss_threshold as int, self.options.recover_threshold),
                rising_from(input.relations@, start.len() as int),
                anchors_allowed(input.relations@, start.len() as int),
                forall|x: usize| #[trigger] inflection@.contains(x)
                    ==> is_inflection_point(input.relations@, x),
                forall|q: int| start.len() <= q < input.relations@.len()
                    ==> #[trigger] input.relations@[q].pos < i,
                blocks_sound(blocked@, input.relations@),
                tried_before(seed@, input.relations@, self.trace@, i as int, 0),
                i <= len,
                start == orig.map_values(|r: Relation| r.saved()),
                at0 == old(self).trace@.len(),
                inflection@ == inflection_seq(input.relations@),
                forall|t2: Seq<(Seq<u8>, Seq<u8>)>|
                    #[trigger] prefix_of(self.trace@, t2)
                        ==> pass_upto(seed@, focus@, self.loss_threshold as int,
                        self.options.recover_threshold, t2, start, at0, (i * 7) as nat)
                            == (input.relations@,
                        self.trace@.len() as int),
            decreases len - i,
        {
            let mut t: usize = 0;
            while t < 7
                invariant
                    i < len,
                    len == seed@.len(),
                    len + 0x200 <= usize::MAX,
                    input.raw@ == seed@,
                    input.wf(),
                    extends(start, input.relations@, seed@),
                    found == (input.relations@.len() > start.len()),
                    settled(input.relations@),
                    visited@.len() == len,
                    blocked@.len() == len,
                    covers(blocked@, input.relations@),
                    fresh_apart(input.relations@, start.len() as int),
                    self.options == old(self).options,
                    self.options.wf(),
                    self.focus_indices@ == old(self).focus_indices@,
                    self.loss_threshold == old(self).loss_threshold,
                    self.test_count >= old(self).test_count,
                    probes_counted(old(self).test_count, old(self).trace@) ==> probes_counted(
                        self.test_count,
                        self.trace@,
                    ),
                    focus@ == old(self).focus_indices@,
                    prefix_of(old(self).trace@, self.trace@),
                    evidenced_from(input.relations@, start.len() as int, seed@, self.trace@, focus@,
                        self.loss_threshold as int, self.options.recover_threshold),
                    rising_from(input.relations@, start.len() as int),
                    anchors_allowed(input.relations@, start.len() as int),
                    forall|x: usize| #[trigger] inflection@.contains(x)
                        ==> is_inflection_point(input.relations@, x),
                    forall|q: int| start.len() <= q < input.relations@.len()
                        ==> #[trigger] input.relations@[q].pos < i
                            || (input.relations@[q].pos == i && blocked@[i as int] != 0),
                    blocks_sound(blocked@, input.relations@),
                    tried_before(seed@, input.relations@, self.trace@, i as int, t as int),
                    t <= 7,
                    inflection@ == inflection_seq(input.relations@),
                    forall|t2: Seq<(Seq<u8>, Seq<u8>)>|
                        #[trigger] prefix_of(self.trace@, t2)
                            ==> pass_upto(seed@, focus@, self.loss_threshold as int,
                            self.options.recover_threshold, t2, start, at0, (i * 7 + t) as nat)
                                == (input.relations@,
                            self.trace@.len() as int),
                decreases 7 - t,
            {
                let (size, le) = shape(t);
                let ghost shape_index = t as int;
                let ghost t_head = self.trace@;
                let ghost rels_head = input.relations@;
                t = t + 1;
                proof {
                    assert(prefix_of(self.trace@, self.trace@));
                    assert(shapes()[shape_index] == (size, le));
                }
                if size > len - i {
                    proof {
                        lemma_skip(seed@, focus@, self.loss_threshold as int,
                            self.options.recover_threshold, rels_head, t_head, i as int,
                                shape_index);
                        lemma_pass_next(seed@, focus@, self.loss_threshold as int,
                            self.options.recover_threshold, start, at0, i as int, shape_index,
                            t_head, self.trace@, rels_head, input.relations@);

                        lemma_tried_step(seed@, input.relations@, self.trace@, self.trace@,
                            i as int, shape_index);
                    }
                    continue;
                }
                let cur = load(seed.as_slice(), i, size, le);
                if cur == 0 || cur > len as u64 {
                    proof {
                        lemma_skip(seed@, focus@, self.loss_threshold as int,
                            self.options.recover_threshold, rels_head, t_head, i as int,
                                shape_index);
                        lemma_pass_next(seed@, focus@, self.loss_threshold as int,
                            self.options.recover_threshold, start, at0, i as int, shape_index,
                            t_head, self.trace@, rels_head, input.relations@);

                        lemma_tried_step(seed@, input.relations@, self.trace@, self.trace@,
                            i as int, shape_index);
                    }
                    continue;
                }
                let shift = match shift_amount(size, cur) {
                    Some(s) => s,
                    None => {
                        proof {
                            lemma_skip(seed@, focus@, self.loss_threshold as int,
                                self.options.recover_threshold, rels_head, t_head, i as int,
                                    shape_index);
                            lemma_pass_next(seed@, focus@, self.loss_threshold as int,
                                self.options.recover_threshold, start, at0, i as int, shape_index,
                                t_head, self.trace@, rels_head, input.relations@);
                            lemma_tried_step(seed@, input.relations@, self.trace@, self.trace@,
                                i as int, shape_index);
                        }
                        continue;
                    },
                };
                if any_blocked(&blocked, i, size) {
                    proof {
                        let q = choose|q: int| i <= q < i + size && blocked@[q] != 0;
                        assert(blocked@[q] != 0);
                        let j = choose|j: int| 0 <= j < input.relations@.len()
                            && #[trigger] input.relations@[j].pos <= q < input.relations@[j].pos
                                + input.relations@[j].size;
                        assert(meets(input.relations@, i as int, size as int));
                        assert(covered(input.relations@, q));
                        assert(field_taken(input.relations@, i as int, size as int));
                        lemma_skip(seed@, focus@, self.loss_threshold as int,
                            self.options.recover_threshold, rels_head, t_head, i as int,
                                shape_index);
                        lemma_pass_next(seed@, focus@, self.loss_threshold as int,
                            self.options.recover_threshold, start, at0, i as int, shape_index,
                            t_head, self.trace@, rels_head, input.relations@);
                    }
                    proof {
                        lemma_tried_step(seed@, input.relations@, self.trace@, self.trace@,
                            i as int, shape_index);
                    }
                    continue;
                }
                assert(forall|q: int| i <= q < i + size ==> blocked@[q] == 0);
                proof {
                    if field_taken(input.relations@, i as int, size as int) {
                        let q = choose|q: int| i <= q < i + size
                            && #[trigger] covered(input.relations@, q);
                        let j = choose|j: int| 0 <= j < input.relations@.len()
                            && #[trigger] input.relations@[j].pos <= q < input.relations@[j].pos
                                + input.relations@[j].size;
                        assert(blocked@[q] != 0);
                    }
                    assert(is_candidate(seed@, i as int, size, le));
                }
                let ghost pre_add = input.relations@;
                let ghost t_pre = self.trace@;
                let added = self.try_candidate(
                    input,
                    &seed,
                    &focus,
                    &inflection,
                    &mut visited,
                    i,
                    size,
                    le,
                    cur,
                    shift,
                    Ghost(shape_index),
                );
                let ghost tsnap = t_pre;
                proof {
                    assert(probed(self.trace@, corruption(seed@, i as int, size, le)));
                    lemma_tried_step(seed@, pre_add, t_pre, self.trace@, i as int,
                        shape_index);
                    lemma_pass_next(seed@, focus@, self.loss_threshold as int,
                        self.options.recover_threshold, start, at0, i as int,
                        shape_index, t_head, self.trace@, rels_head, input.relations@);
                }
                if !added {
                    proof {
                        lemma_evidence_kept(input.relations@, input.relations@, start.len() as int,
                            seed@, t_pre, self.trace@, focus@, self.loss_threshold as int,
                                self.options.recover_threshold);
                    }
                    continue;
                }
                let ghost potential = input.relations@.last();
                proof {
                    let r = input.relations@;
                    assert(evidenced(potential, seed@, self.trace@, focus@,
                        self.loss_threshold as int, self.options.recover_threshold));
                    assert(r[r.len() - 1] == potential);
                    assert forall|k: int| start.len() <= k < pre_add.len()
                        implies #[trigger] r[k].saved() == pre_add[k].saved() by {
                        assert(r[k] == pre_add[k]);
                    }
                    assert forall|j: int| 0 <= j < pre_add.len() implies #[trigger] r[j].pos
                        == pre_add[j].pos && r[j].size == pre_add[j].size by {
                        assert(r[j] == pre_add[j]);
                    }
                    lemma_fields_kept(pre_add, r, blocked@, seed@, self.trace@, i as int, t as int);
                    assert(r.subrange(0, pre_add.len() as int) =~= pre_add);
                    assert(anchor_allowed(r.subrange(0, pre_add.len() as int),
                        r[pre_add.len() as int]));
                    assert forall|k: int| start.len() <= k < r.len() implies anchor_allowed(
                        r.subrange(0, k),
                        #[trigger] r[k],
                    ) by {
                        if k < pre_add.len() {
                            assert(r.subrange(0, k) =~= pre_add.subrange(0, k));
                            assert(r[k] == pre_add[k]);
                        }
                    }
                    lemma_evidence_kept(
                        pre_add,
                        r,
                        start.len() as int,
                        seed@,
                        tsnap,
                        self.trace@,
                        focus@,
                        self.loss_threshold as int,
                        self.options.recover_threshold,
                    );
                    assert forall|j: int| 0 <= j < start.len() implies #[trigger] r[j].saved()
                        == start[j].saved() by {
                        assert(r[j] == pre_add[j]);
                    }
                    assert forall|j: int| start.len() <= j < r.len() implies found_in(
                        #[trigger] r[j],
                        seed@,
                    ) by {
                        if j < pre_add.len() {
                            assert(r[j] == pre_add[j]);
                        }
                    }
                    assert forall|j: int| 0 <= j < r.len() && #[trigger] r[j].enabled implies r[
                        j
                    ].fits(len as int) by {
                        if j < pre_add.len() {
                            assert(r[j] == pre_add[j]);
                        }
                    }
                }
                inflection = input.inflection_points();
                let ghost pre_mark = blocked@;
                mark_blocked(&mut blocked, i, size);
                proof {
                    let rl = input.relations@;
                    assert forall|q: int| 0 <= q < blocked@.len() && #[trigger] blocked@[q] != 0
                        implies exists|j: int|
                        0 <= j < rl.len() && #[trigger] rl[j].pos <= q < rl[j].pos + rl[j].size by {
                        if pre_mark[q] == 0 {
                            assert(rl[rl.len() - 1].pos <= q < rl[rl.len() - 1].pos
                                + rl[rl.len() - 1].size);
                        }
                    }
                    let r = input.relations@;
                    let last = r.len() - 1;
                    assert(r[last] == potential);
                    assert forall|a: int, b: int|
                        #![trigger r[a], blocked@[b]]
                        0 <= a < r.len() && r[a].pos <= b < r[a].pos + r[a].size && 0 <= b
                            < blocked@.len() implies blocked@[b] != 0 by {
                        if a < last {
                            assert(r[a] == pre_add[a]);
                            assert(pre_mark[b] != 0);
                        }
                    }
                    assert forall|a: int, b: int|
                        0 <= a < r.len() && start.len() <= b < r.len() && a != b implies separate(
                            #[trigger] r[a],
                            #[trigger] r[b],
                        ) by {
                        if a < last && b < last {
                            assert(r[a] == pre_add[a] && r[b] == pre_add[b]);
                        } else {
                            let o = if a == last {
                                b
                            } else {
                                a
                            };
                            assert(r[o] == pre_add[o]);
                            if !separate(r[o], potential) {
                                let q = if r[o].pos > i {
                                    r[o].pos as int
                                } else {
                                    i as int
                                };
                                assert(pre_mark[q] != 0);
                            }
                        }
                    }
                }
                found = true;
            }
            proof {
                lemma_tried_next(seed@, input.relations@, self.trace@, i as int);
            }
            i = i + 1;
        }
        found
    }

    /// Passes over the seed until a pass adds nothing, at most `max_iters` times.
    fn find_relations(&mut self, input: &mut Structured)
        requires
            old(input).wf(),
            old(input).raw@.len() + 0x200 <= usize::MAX,
            old(self).options.wf(),
        ensures
            final(input).raw@ == old(input).raw@,
            final(input).wf(),
            extends(old(input).relations@, final(input).relations@, old(input).raw@),
            fresh_apart(final(input).relations@, old(input).relations@.len() as int),
            final(self).test_count >= old(self).test_count,
            probes_counted(old(self).test_count, old(self).trace@) ==> probes_counted(
                final(self).test_count,
                final(self).trace@,
            ),
            final(self).options == old(self).options,
            final(self).focus_indices@ == old(self).focus_indices@,
            final(self).loss_threshold == old(self).loss_threshold,
            prefix_of(old(self).trace@, final(self).trace@),
            anchors_allowed(final(input).relations@, old(input).relations@.len() as int),
            forall|t2: Seq<(Seq<u8>, Seq<u8>)>|
                #[trigger] prefix_of(final(self).trace@, t2)
                    ==> passes(old(input).raw@, old(self).focus_indices@,
                        old(self).loss_threshold as int, old(self).options.recover_threshold, t2,
                            old(input).relations@, old(self).trace@.len() as int,
                                old(self).options.max_iters as nat)
                                    == (final(input).relations@, final(self).trace@.len() as int),
            old(self).options.max_iters > 0 ==> tried_before(
                old(input).raw@,
                final(input).relations@,
                final(self).trace@,
                old(input).raw@.len() as int,
                0,
            ),
            evidenced_from(
                final(input).relations@,
                old(input).relations@.len() as int,
                old(input).raw@,
                final(self).trace@,
                old(self).focus_indices@,
                old(self).loss_threshold as int,
                old(self).options.recover_threshold,
            ),
    {
        let ghost start = input.relations@;
        proof {
            assert(extends(start, start, input.raw@));
        }
        let mut iter: usize = 0;
        while iter < self.options.max_iters
            invariant_except_break
                forall|t2: Seq<(Seq<u8>, Seq<u8>)>|
                    #[trigger] prefix_of(self.trace@, t2)
                        ==> passes(old(input).raw@, old(self).focus_indices@,
                            old(self).loss_threshold as int, old(self).options.recover_threshold,
                                t2, old(input).relations@, old(self).trace@.len() as int,
                                    old(self).options.max_iters as nat)
                                        == passes(old(input).raw@, old(self).focus_indices@,
                                            old(self).loss_threshold as int,
                                                old(self).options.recover_threshold, t2,
                                                    input.relations@, self.trace@.len() as int,
                                                        (self.options.max_iters - iter) as nat),
            invariant
                input.raw@ == old(input).raw@,
                input.wf(),
                old(input).raw@.len() + 0x200 <= usize::MAX,
                extends(start, input.relations@, old(input).raw@),
                fresh_apart(input.relations@, start.len() as int),
                self.options.wf(),
                self.test_count >= old(self).test_count,
                probes_counted(old(self).test_count, old(self).trace@) ==> probes_counted(
                    self.test_count,
                    self.trace@,
                ),
                self.options == old(self).options,
                self.focus_indices@ == old(self).focus_indices@,
                self.loss_threshold == old(self).loss_threshold,
                prefix_of(old(self).trace@, self.trace@),
                anchors_allowed(input.relations@, start.len() as int),
                evidenced_from(
                    input.relations@,
                    start.len() as int,
                    old(input).raw@,
                    self.trace@,
                    old(self).focus_indices@,
                    old(self).loss_threshold as int,
                    old(self).options.recover_threshold,
                ),
                iter > 0 ==> tried_before(
                    old(input).raw@,
                    input.relations@,
                    self.trace@,
                    old(input).raw@.len() as int,
                    0,
                ),
                iter <= self.options.max_iters,
            ensures
                iter > 0 || self.options.max_iters == 0,
                forall|t2: Seq<(Seq<u8>, Seq<u8>)>|
                    #[trigger] prefix_of(self.trace@, t2)
                        ==> passes(old(input).raw@, old(self).focus_indices@,
                            old(self).loss_threshold as int, old(self).options.recover_threshold,
                                t2, old(input).relations@, old(self).trace@.len() as int,
                                    old(self).options.max_iters as nat)
                                        == (input.relations@, self.trace@.len() as int),
            decreases self.options.max_iters - iter,
        {
            iter = iter + 1;
            let ghost mid = input.relations@;
            let ghost mid_trace = self.trace@;
            let found = self.find_relations_inner(input);
            proof {
                if found {
                    assert forall|t2: Seq<(Seq<u8>, Seq<u8>)>| #[trigger] prefix_of(self.trace@, t2)
                        implies passes(old(input).raw@, old(self).focus_indices@,
                            old(self).loss_threshold as int, old(self).options.recover_threshold,
                                t2, old(input).relations@, old(self).trace@.len() as int,
                                    old(self).options.max_iters as nat)
                                        == passes(old(input).raw@, old(self).focus_indices@,
                                            old(self).loss_threshold as int,
                                                old(self).options.recover_threshold, t2,
                                                    input.relations@, self.trace@.len() as int,
                                                        (self.options.max_iters - iter) as nat) by {
                        lemma_prefix_trans(mid_trace, self.trace@, t2);
                        assert(passes(old(input).raw@, old(self).focus_indices@,
                            old(self).loss_threshold as int, old(self).options.recover_threshold,
                                t2, mid, mid_trace.len() as int,
                                    (self.options.max_iters - (iter - 1)) as nat)
                                        == passes(old(input).raw@, old(self).focus_indices@,
                                            old(self).loss_threshold as int,
                                                old(self).options.recover_threshold, t2,
                                                    input.relations@, self.trace@.len() as int,
                                                        (self.options.max_iters - iter) as nat));
                    }
                }
                assert forall|k: int| start.len() <= k < mid.len()
                    implies #[trigger] input.relations@[k].saved() == mid[k].saved() by {
                    assert(extends(mid, input.relations@, old(input).raw@));
                }
                lemma_evidence_kept(
                    mid,
                    input.relations@,
                    start.len() as int,
                    old(input).raw@,
                    mid_trace,
                    self.trace@,
                    old(self).focus_indices@,
                    old(self).loss_threshold as int,
                    old(self).options.recover_threshold,
                );
                assert(prefix_of(old(self).trace@, self.trace@)) by {
                    assert forall|t: int| 0 <= t < old(self).trace@.len()
                        implies #[trigger] self.trace@[t] == old(self).trace@[t] by {
                        assert(self.trace@[t] == mid_trace[t]);
                    }
                }
                lemma_anchors_kept(mid, input.relations@, start.len() as int, old(input).raw@);
                lemma_extends_trans(start, mid, input.relations@, old(input).raw@);
                lemma_fresh_apart_trans(mid, input.relations@, start.len() as int, old(input).raw@);
            }
            if !found {
                proof {
                    assert forall|t2: Seq<(Seq<u8>, Seq<u8>)>| #[trigger] prefix_of(self.trace@, t2)
                        implies passes(old(input).raw@, old(self).focus_indices@,
                            old(self).loss_threshold as int, old(self).options.recover_threshold,
                                t2, old(input).relations@, old(self).trace@.len() as int,
                                    old(self).options.max_iters as nat)
                                        == (input.relations@, self.trace@.len() as int) by {
                        lemma_prefix_trans(mid_trace, self.trace@, t2);
                    }
                }
                break;
            }
        }
    }

    /// Searches `testcase` for length and offset fields, asking `oracle` for
    /// coverage. The result holds the seed's bytes unchanged, its relations,
    /// and after them the relations found, with the trace of every probe: the
    /// seed and the empty input come first. The relations found are exactly
    /// those that `passes` computes from the seed and the coverage the trace
    /// records, so a field whose corruption loses enough and whose padding
    /// brings enough back is added, with the last anchor taken. Further: every
    /// candidate field that meets no relation's field was corrupted in some
    /// probe, each relation found has its evidence in the trace, and the
    /// number of probes is bounded by the passes and the seed's length.
    pub fn search(testcase: &Structured, oracle: O, options: SearchOptions) -> (r: SearchResult)
        requires
            testcase.wf(),
            testcase.raw@.len() + 0x200 <= usize::MAX,
            options.wf(),
        ensures
            r.input.raw@ == testcase.raw@,
            r.input.wf(),
            extends(testcase.relations@, r.input.relations@, testcase.raw@),
            fresh_apart(r.input.relations@, testcase.relations@.len() as int),
            r.found_any == (r.input.relations@.len() > 0),
            r.test_count >= 2,
            r.trace@.len() >= 2,
            probes_counted(r.test_count, r.trace@),
            r.trace@[0].0 == testcase.raw@,
            r.trace@[1].0 == Seq::<u8>::empty(),
            anchors_allowed(r.input.relations@, testcase.relations@.len() as int),
            passes(
                testcase.raw@,
                missed(hits(r.trace@[0].1), r.trace@[1].1),
                loss_threshold_of(
                    options.loss_threshold,
                    missed(hits(r.trace@[0].1), r.trace@[1].1).len() as nat,
                ) as int,
                options.recover_threshold,
                r.trace@,
                testcase.relations@,
                2,
                options.max_iters as nat,
            ) == (r.input.relations@, r.trace@.len() as int),
            r.trace@.len() <= 2 + options.max_iters * 7 * testcase.raw@.len() * (
            testcase.raw@.len() + 1),
            r.test_count <= 2 + options.max_iters * 7 * testcase.raw@.len() * (
            testcase.raw@.len() + 1),
            options.max_iters == 0 ==> r.input.relations@ == testcase.relations@
                && r.trace@.len() == 2 && r.test_count == 2,
            options.max_iters > 0 ==> tried_before(
                testcase.raw@,
                r.input.relations@,
                r.trace@,
                testcase.raw@.len() as int,
                0,
            ),
            evidenced_from(
                r.input.relations@,
                testcase.relations@.len() as int,
                testcase.raw@,
                r.trace@,
                missed(hits(r.trace@[0].1), r.trace@[1].1),
                loss_threshold_of(
                    options.loss_threshold,
                    missed(hits(r.trace@[0].1), r.trace@[1].1).len() as nat,
                ) as int,
                options.recover_threshold,
            ),
    {
        let start = now();
        let mut search = Self::new(testcase, oracle, options);
        let ghost first = search.trace@;
        let mut input = Structured {
            raw: copy_bytes(testcase.raw.as_slice()),
            relations: copy_relations(&testcase.relations),
        };
        let ghost raw0 = input.raw@;
        proof {
            assert(raw0 == testcase.raw@);
            assert(search.options == options);
        }
        search.find_relations(&mut input);
        proof {
            assert(search.trace@[0] == first[0] && search.trace@[1] == first[1]);
            if options.max_iters > 0 {
                assert(tried_before(raw0, input.relations@, search.trace@, raw0.len() as int, 0));
            }
            assert(prefix_of(search.trace@, search.trace@));
            let focus0 = missed(hits(search.trace@[0].1), search.trace@[1].1);
            lemma_passes_count(
                testcase.raw@,
                focus0,
                loss_threshold_of(options.loss_threshold, focus0.len() as nat) as int,
                options.recover_threshold,
                search.trace@,
                testcase.relations@,
                2,
                options.max_iters as nat,
            );
        }
        let total_test_ms = millis_since(&start);
        let found_any = input.relations.len() > 0;
        SearchResult {
            input,
            test_count: search.test_count,
            target_test_ms: search.target_test_ms,
            total_test_ms,
            found_any,
            trace: Ghost(search.trace@),
        }
    }

    /// Sets up a search over `testcase`: finds the coverage entries that the
    /// seed reaches and an empty input does not, and the loss threshold.
    pub fn new(testcase: &Structured, oracle: O, options: SearchOptions) -> (r: Self)
        requires
            options.wf(),
        ensures
            r.options == options,
            r.loss_threshold == loss_threshold_of(
                options.loss_threshold,
                r.focus_indices@.len() as nat,
            ),
            r.loss_threshold >= 1,
            r.test_count == 2,
            r.trace@.len() == 2,
            probes_counted(r.test_count, r.trace@),
            r.trace@[0].0 == testcase.raw@,
            r.trace@[1].0 == Seq::<u8>::empty(),
            r.focus_indices@ == missed(hits(r.trace@[0].1), r.trace@[1].1),
    {
        let mut ctx = SearchContext {
            oracle,
            options,
            focus_indices: Vec::new(),
            loss_threshold: 1,
            test_count: 0,
            target_test_ms: 0,
            trace: Ghost(Seq::empty()),
        };
        let seed_cov = ctx.test(testcase.raw.as_slice());
        let seed_indices = hit_indices(seed_cov);
        let empty: Vec<u8> = Vec::new();
        let base_cov = ctx.test(empty.as_slice());
        let focus = missed_indices(&seed_indices, base_cov);
        ctx.loss_threshold = loss_threshold_for(options.loss_threshold, focus.len());
        ctx.focus_indices = focus;
        ctx
    }
}

} // verus!
