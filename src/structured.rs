//! A byte buffer together with the length and offset fields found in it.

use crate::field::overwrite;
use crate::relation::{lemma_insert_fits, lemma_remove_fits, supported_size, Relation};
use vstd::prelude::*;

verus! {

/// Every enabled relation of `rels` fits a buffer of `len` bytes.
pub open spec fn all_fit(rels: Seq<Relation>, len: int) -> bool {
    forall|i: int| 0 <= i < rels.len() && #[trigger] rels[i].enabled ==> rels[i].fits(len)
}

/// Every enabled relation of `rels` has a supported width and its field lies
/// inside a buffer of `len` bytes.
pub open spec fn fields_fit(rels: Seq<Relation>, len: int) -> bool {
    forall|i: int|
        0 <= i < rels.len() && #[trigger] rels[i].enabled ==> supported_size(rels[i].size)
            && rels[i].pos + rels[i].size <= len
}

/// Relations that fit a buffer have their fields inside it.
pub proof fn lemma_fit_fields(rels: Seq<Relation>, len: int)
    requires
        all_fit(rels, len),
    ensures
        fields_fit(rels, len),
{
    assert forall|i: int| 0 <= i < rels.len() && #[trigger] rels[i].enabled implies supported_size(
        rels[i].size,
    ) && rels[i].pos + rels[i].size <= len by {
        assert(rels[i].fits(len));
    }
}

/// `buf` once every enabled relation of `rels` has been applied, in order.
pub open spec fn sanitized(buf: Seq<u8>, rels: Seq<Relation>) -> Seq<u8>
    decreases rels.len(),
{
    if rels.len() == 0 {
        buf
    } else {
        let prev = sanitized(buf, rels.drop_last());
        if rels.last().enabled {
            rels.last().applied(prev)
        } else {
            prev
        }
    }
}

/// The fields of two distinct enabled relations never share a byte.
pub open spec fn disjoint_fields(rels: Seq<Relation>) -> bool {
    forall|i: int, j: int|
        0 <= i < rels.len() && 0 <= j < rels.len() && i != j && #[trigger] rels[i].enabled
            && #[trigger] rels[j].enabled ==> rels[i].pos + rels[i].size <= rels[j].pos
            || rels[j].pos + rels[j].size <= rels[i].pos
}

/// Applying any enabled relation of `rels` leaves `buf` as it is.
pub open spec fn consistent(buf: Seq<u8>, rels: Seq<Relation>) -> bool {
    forall|i: int| 0 <= i < rels.len() && #[trigger] rels[i].enabled ==> rels[i].applied(buf) == buf
}

/// Byte `j` lies in the field of no enabled relation of `rels`.
pub open spec fn outside_fields(rels: Seq<Relation>, j: int) -> bool {
    forall|i: int|
        0 <= i < rels.len() && #[trigger] rels[i].enabled ==> !(rels[i].pos <= j < rels[i].pos
            + rels[i].size)
}

/// Sanitizing keeps the length, and changes no byte outside the enabled fields.
pub proof fn lemma_sanitized_frame(buf: Seq<u8>, rels: Seq<Relation>)
    requires
        all_fit(rels, buf.len() as int),
    ensures
        sanitized(buf, rels).len() == buf.len(),
        forall|j: int|
            0 <= j < buf.len() && outside_fields(rels, j) ==> #[trigger] sanitized(buf, rels)[j]
                == buf[j],
    decreases rels.len(),
{
    if rels.len() > 0 {
        let pre = rels.drop_last();
        assert forall|i: int| 0 <= i < pre.len() && #[trigger] pre[i].enabled implies pre[i].fits(
            buf.len() as int,
        ) by {
            assert(rels[i] == pre[i]);
        }
        lemma_sanitized_frame(buf, pre);
        assert forall|j: int| 0 <= j < buf.len() && outside_fields(rels, j)
            implies #[trigger] sanitized(
            buf,
            rels,
        )[j] == buf[j] by {
            assert forall|i: int|
                0 <= i < pre.len() && #[trigger] pre[i].enabled implies !(pre[i].pos <= j
                < pre[i].pos + pre[i].size) by {
                assert(rels[i] == pre[i]);
            }
            assert(outside_fields(pre, j));
            if rels.last().enabled {
                assert(rels[rels.len() - 1].enabled);
            }
        }
    }
}

/// With pairwise disjoint fields, every enabled relation agrees with the
/// sanitized buffer.
pub proof fn lemma_sanitized_consistent(buf: Seq<u8>, rels: Seq<Relation>)
    requires
        all_fit(rels, buf.len() as int),
        disjoint_fields(rels),
    ensures
        consistent(sanitized(buf, rels), rels),
    decreases rels.len(),
{
    if rels.len() > 0 {
        let pre = rels.drop_last();
        let last = rels.last();
        assert forall|i: int| 0 <= i < pre.len() && #[trigger] pre[i].enabled implies pre[i].fits(
            buf.len() as int,
        ) by {
            assert(rels[i] == pre[i]);
        }
        assert forall|i: int, j: int|
            0 <= i < pre.len() && 0 <= j < pre.len() && i != j && #[trigger] pre[i].enabled
                && #[trigger] pre[j].enabled implies pre[i].pos + pre[i].size <= pre[j].pos
            || pre[j].pos + pre[j].size <= pre[i].pos by {
            assert(rels[i] == pre[i] && rels[j] == pre[j]);
        }
        lemma_sanitized_consistent(buf, pre);
        lemma_sanitized_frame(buf, pre);
        let prev = sanitized(buf, pre);
        let out = sanitized(buf, rels);
        assert forall|i: int| 0 <= i < rels.len() && #[trigger] rels[i].enabled implies rels[
            i
        ].applied(out) == out by {
            if i == rels.len() - 1 {
                assert(rels[i].applied(out) =~= out);
            } else {
                assert(pre[i] == rels[i]);
                assert(pre[i].applied(prev) == prev);
                if last.enabled {
                    assert(rels[rels.len() - 1].enabled);
                    assert forall|j: int| 0 <= j < out.len() implies #[trigger] rels[i].applied(
                        out,
                    )[j] == out[j] by {
                        if rels[i].pos <= j < rels[i].pos + rels[i].size {
                            assert(rels[i].applied(prev)[j] == prev[j]);
                        }
                    }
                    assert(rels[i].applied(out) =~= out);
                }
            }
        }
    }
}

fn apply_all(relations: &Vec<Relation>, buf: &mut [u8])
    requires
        fields_fit(relations@, old(buf)@.len() as int),
    ensures
        final(buf)@ == sanitized(old(buf)@, relations@),
{
    let ghost rels = relations@;
    let mut k: usize = 0;
    while k < relations.len()
        invariant
            k <= rels.len(),
            rels == relations@,
            fields_fit(rels, old(buf)@.len() as int),
            buf@ == sanitized(old(buf)@, rels.subrange(0, k as int)),
            buf@.len() == old(buf)@.len(),
        decreases rels.len() - k,
    {
        let rel = relations[k];
        assert(rels.subrange(0, k + 1).drop_last() =~= rels.subrange(0, k as int));
        if rel.enabled {
            rel.apply(buf);
        }
        k = k + 1;
    }
    assert(rels.subrange(0, rels.len() as int) =~= rels);
}

/// `rels` after `n` bytes were inserted at `idx`: every enabled relation that
/// accepts the insertion follows it, the others stay as they were.
pub open spec fn shifted_by_insert(rels: Seq<Relation>, idx: int, n: int) -> Seq<Relation> {
    Seq::new(
        rels.len(),
        |i: int|
            if rels[i].enabled && rels[i].accepts_insert(idx, n) {
                rels[i].after_insert(idx, n)
            } else {
                rels[i]
            },
    )
}

/// `rels` after `n` bytes at `idx` were removed: every enabled relation that
/// accepts the removal follows it, the others stay as they were.
pub open spec fn shifted_by_remove(rels: Seq<Relation>, idx: int, n: int) -> Seq<Relation> {
    Seq::new(
        rels.len(),
        |i: int|
            if rels[i].enabled && rels[i].accepts_remove(idx, n) {
                rels[i].after_remove(idx, n)
            } else {
                rels[i]
            },
    )
}

/// Every enabled relation accepts the insertion.
pub open spec fn all_accept_insert(rels: Seq<Relation>, idx: int, n: int) -> bool {
    forall|i: int|
        0 <= i < rels.len() && #[trigger] rels[i].enabled ==> rels[i].accepts_insert(idx, n)
}

/// Every enabled relation accepts the removal.
pub open spec fn all_accept_remove(rels: Seq<Relation>, idx: int, n: int) -> bool {
    forall|i: int|
        0 <= i < rels.len() && #[trigger] rels[i].enabled ==> rels[i].accepts_remove(idx, n)
}

/// Which relations refuse the insertion: the enabled ones that do not accept it.
pub open spec fn refusing_insert(rels: Seq<Relation>, idx: int, n: int) -> Seq<bool> {
    Seq::new(rels.len(), |i: int| rels[i].enabled && !rels[i].accepts_insert(idx, n))
}

/// Which relations refuse the removal: the enabled ones that do not accept it.
pub open spec fn refusing_remove(rels: Seq<Relation>, idx: int, n: int) -> Seq<bool> {
    Seq::new(rels.len(), |i: int| rels[i].enabled && !rels[i].accepts_remove(idx, n))
}

/// The indices at which `flags` is set, in increasing order.
pub open spec fn flagged(flags: Seq<bool>) -> Seq<usize>
    decreases flags.len(),
{
    if flags.len() == 0 {
        Seq::empty()
    } else {
        let prev = flagged(flags.drop_last());
        if flags.last() {
            prev.push((flags.len() - 1) as usize)
        } else {
            prev
        }
    }
}

/// The relations left once `n` bytes were inserted at `idx` by `insert_disabling`.
pub open spec fn after_insert_disabling(rels: Seq<Relation>, idx: int, n: int) -> Seq<Relation> {
    swap_out_all(shifted_by_insert(rels, idx, n), flagged(refusing_insert(rels, idx, n)))
}

/// The relations left once `n` bytes at `idx` were removed by `remove_disabling`.
pub open spec fn after_remove_disabling(rels: Seq<Relation>, idx: int, n: int) -> Seq<Relation> {
    swap_out_all(shifted_by_remove(rels, idx, n), flagged(refusing_remove(rels, idx, n)))
}

/// `s` with the element at `i` replaced by the last one, which is then dropped.
pub open spec fn swap_out(s: Seq<Relation>, i: int) -> Seq<Relation> {
    s.update(i, s.last()).drop_last()
}

/// `s` with the elements at `idxs` swapped out, the highest index first.
pub open spec fn swap_out_all(s: Seq<Relation>, idxs: Seq<usize>) -> Seq<Relation>
    decreases idxs.len(),
{
    if idxs.len() == 0 {
        s
    } else {
        swap_out_all(swap_out(s, idxs.last() as int), idxs.drop_last())
    }
}

/// `s` rises strictly and stays below `bound`.
pub open spec fn rising_below(s: Seq<usize>, bound: int) -> bool {
    &&& forall|a: int, b: int| 0 <= a < b < s.len() ==> s[a] < s[b]
    &&& forall|a: int| 0 <= a < s.len() ==> s[a] < bound
}

proof fn lemma_flagged(flags: Seq<bool>)
    requires
        flags.len() <= usize::MAX,
    ensures
        rising_below(flagged(flags), flags.len() as int),
        forall|j: int|
            0 <= j < flags.len() ==> (flags[j] <==> exists|t: int|
                0 <= t < flagged(flags).len() && #[trigger] flagged(flags)[t] == j),
    decreases flags.len(),
{
    if flags.len() > 0 {
        let pre = flags.drop_last();
        lemma_flagged(pre);
        let d = flagged(flags);
        let p = flagged(pre);
        assert forall|j: int| 0 <= j < flags.len() implies (flags[j] <==> exists|t: int|
            0 <= t < d.len() && #[trigger] d[t] == j) by {
            if j < flags.len() - 1 {
                assert(pre[j] == flags[j]);
                if flags[j] {
                    let t = choose|t: int| 0 <= t < p.len() && #[trigger] p[t] == j;
                    assert(d[t] == j);
                }
                if exists|t: int| 0 <= t < d.len() && #[trigger] d[t] == j {
                    let t = choose|t: int| 0 <= t < d.len() && #[trigger] d[t] == j;
                    if t < p.len() {
                        assert(p[t] == j);
                    }
                }
            } else {
                if flags[j] {
                    assert(d[d.len() - 1] == j);
                }
                if exists|t: int| 0 <= t < d.len() && #[trigger] d[t] == j {
                    let t = choose|t: int| 0 <= t < d.len() && #[trigger] d[t] == j;
                    if t < p.len() {
                        assert(p[t] == d[t]);
                    }
                }
            }
        }
    }
}

proof fn lemma_rising_gap(d: Seq<usize>, bound: int, a: int, b: int)
    requires
        rising_below(d, bound),
        0 <= a <= b < d.len(),
    ensures
        d[b] - d[a] >= b - a,
    decreases b - a,
{
    if a < b {
        lemma_rising_gap(d, bound, a, b - 1);
    }
}

/// Where each element of `swap_out_all(s, d)` came from in `s`: distinct
/// positions, none of them in `d`.
proof fn lemma_swap_out_all(s: Seq<Relation>, d: Seq<usize>) -> (src: Seq<int>)
    requires
        rising_below(d, s.len() as int),
    ensures
        swap_out_all(s, d).len() == s.len() - d.len(),
        src.len() == swap_out_all(s, d).len(),
        forall|k: int|
            0 <= k < src.len() ==> 0 <= #[trigger] src[k] < s.len() && swap_out_all(s, d)[k]
                == s[src[k]] && forall|t: int| 0 <= t < d.len() ==> d[t] != src[k],
        forall|k1: int, k2: int|
            0 <= k1 < src.len() && 0 <= k2 < src.len() && k1 != k2 ==> #[trigger] src[k1]
                != #[trigger] src[k2],
    decreases d.len(),
{
    if d.len() == 0 {
        Seq::new(s.len(), |k: int| k)
    } else {
        let l = d.last() as int;
        let s1 = swap_out(s, l);
        let d1 = d.drop_last();
        assert(rising_below(d1, s1.len() as int)) by {
            assert forall|a: int| 0 <= a < d1.len() implies d1[a] < s1.len() by {
                assert(d[a] < d[d.len() - 1]);
            }
        }
        let src1 = lemma_swap_out_all(s1, d1);
        let last = s.len() - 1;
        let src = Seq::new(src1.len(), |k: int| if src1[k] == l { last } else { src1[k] });
        assert forall|k: int| 0 <= k < src.len() implies 0 <= #[trigger] src[k] < s.len()
            && swap_out_all(s, d)[k] == s[src[k]] && forall|t: int|
            0 <= t < d.len() ==> d[t] != src[k] by {
            assert forall|t: int| 0 <= t < d.len() implies d[t] != src[k] by {
                if t < d.len() - 1 {
                    assert(d1[t] == d[t]);
                    assert(d[t] < d[d.len() - 1]);
                }
            }
        }
        src
    }
}

/// `raw` with `data` inserted at `idx`.
pub open spec fn insert_bytes(raw: Seq<u8>, idx: int, data: Seq<u8>) -> Seq<u8> {
    raw.subrange(0, idx) + data + raw.subrange(idx, raw.len() as int)
}

/// `raw` without the `n` bytes at `idx`.
pub open spec fn remove_bytes(raw: Seq<u8>, idx: int, n: int) -> Seq<u8> {
    raw.subrange(0, idx) + raw.subrange(idx + n, raw.len() as int)
}

pub(crate) fn bytes_inserted(raw: &Vec<u8>, idx: usize, data: &[u8]) -> (r: Vec<u8>)
    requires
        idx <= raw@.len(),
    ensures
        r@ == insert_bytes(raw@, idx as int, data@),
{
    let mut r: Vec<u8> = Vec::new();
    let mut k: usize = 0;
    while k < idx
        invariant
            k <= idx <= raw@.len(),
            r@ == raw@.subrange(0, k as int),
        decreases idx - k,
    {
        r.push(raw[k]);
        k = k + 1;
    }
    let mut k: usize = 0;
    while k < data.len()
        invariant
            k <= data@.len(),
            r@ == raw@.subrange(0, idx as int) + data@.subrange(0, k as int),
        decreases data@.len() - k,
    {
        r.push(data[k]);
        k = k + 1;
    }
    let mut k: usize = idx;
    while k < raw.len()
        invariant
            idx <= k <= raw@.len(),
            r@ == raw@.subrange(0, idx as int) + data@ + raw@.subrange(idx as int, k as int),
        decreases raw@.len() - k,
    {
        r.push(raw[k]);
        k = k + 1;
    }
    r
}

fn bytes_removed(raw: &Vec<u8>, idx: usize, n: usize) -> (r: Vec<u8>)
    requires
        idx + n <= raw@.len(),
    ensures
        r@ == remove_bytes(raw@, idx as int, n as int),
{
    let mut r: Vec<u8> = Vec::new();
    let mut k: usize = 0;
    while k < idx
        invariant
            k <= idx,
            idx + n <= raw@.len(),
            r@ == raw@.subrange(0, k as int),
        decreases idx - k,
    {
        r.push(raw[k]);
        k = k + 1;
    }
    let len = raw.len();
    let mut k: usize = idx + n;
    while k < len
        invariant
            idx + n <= k <= raw@.len(),
            len == raw@.len(),
            r@ == raw@.subrange(0, idx as int) + raw@.subrange(idx + n, k as int),
        decreases raw@.len() - k,
    {
        r.push(raw[k]);
        k = k + 1;
    }
    r
}

/// The relations after an insertion, and the indices of those that refuse it.
fn follow_insert(relations: &Vec<Relation>, len: usize, idx: usize, n: usize) -> (r: (
    Vec<Relation>,
    Vec<usize>,
))
    requires
        all_fit(relations@, len as int),
        len + n <= usize::MAX,
    ensures
        r.0@ == shifted_by_insert(relations@, idx as int, n as int),
        r.1@ == flagged(refusing_insert(relations@, idx as int, n as int)),
{
    let ghost rels = relations@;
    let ghost flags = refusing_insert(rels, idx as int, n as int);
    let mut updated: Vec<Relation> = Vec::new();
    let mut refused: Vec<usize> = Vec::new();
    let mut k: usize = 0;
    while k < relations.len()
        invariant
            k <= rels.len(),
            rels == relations@,
            all_fit(rels, len as int),
            len + n <= usize::MAX,
            flags == refusing_insert(rels, idx as int, n as int),
            updated@ == shifted_by_insert(rels, idx as int, n as int).subrange(0, k as int),
            refused@ == flagged(flags.subrange(0, k as int)),
        decreases rels.len() - k,
    {
        let mut rel = relations[k];
        assert(flags.subrange(0, k + 1).drop_last() =~= flags.subrange(0, k as int));
        if rel.enabled {
            if rel.on_insert(idx, n).is_err() {
                refused.push(k);
            }
        }
        updated.push(rel);
        k = k + 1;
        assert(updated@ =~= shifted_by_insert(rels, idx as int, n as int).subrange(0, k as int));
    }
    assert(updated@ =~= shifted_by_insert(rels, idx as int, n as int));
    assert(flags.subrange(0, k as int) =~= flags);
    (updated, refused)
}

/// The relations after a removal, and the indices of those that refuse it.
fn follow_remove(relations: &Vec<Relation>, len: usize, idx: usize, n: usize) -> (r: (
    Vec<Relation>,
    Vec<usize>,
))
    requires
        all_fit(relations@, len as int),
        idx + n <= len,
    ensures
        r.0@ == shifted_by_remove(relations@, idx as int, n as int),
        r.1@ == flagged(refusing_remove(relations@, idx as int, n as int)),
{
    let ghost rels = relations@;
    let ghost flags = refusing_remove(rels, idx as int, n as int);
    let mut updated: Vec<Relation> = Vec::new();
    let mut refused: Vec<usize> = Vec::new();
    let mut k: usize = 0;
    while k < relations.len()
        invariant
            k <= rels.len(),
            rels == relations@,
            all_fit(rels, len as int),
            idx + n <= len,
            flags == refusing_remove(rels, idx as int, n as int),
            updated@ == shifted_by_remove(rels, idx as int, n as int).subrange(0, k as int),
            refused@ == flagged(flags.subrange(0, k as int)),
        decreases rels.len() - k,
    {
        let mut rel = relations[k];
        assert(flags.subrange(0, k + 1).drop_last() =~= flags.subrange(0, k as int));
        if rel.enabled {
            if rel.on_remove(idx, n).is_err() {
                refused.push(k);
            }
        }
        updated.push(rel);
        k = k + 1;
        assert(updated@ =~= shifted_by_remove(rels, idx as int, n as int).subrange(0, k as int));
    }
    assert(updated@ =~= shifted_by_remove(rels, idx as int, n as int));
    assert(flags.subrange(0, k as int) =~= flags);
    (updated, refused)
}

/// Swaps out the relations at `idxs`, the highest index first.
fn swap_out_each(relations: &mut Vec<Relation>, idxs: &Vec<usize>)
    requires
        rising_below(idxs@, old(relations)@.len() as int),
    ensures
        final(relations)@ == swap_out_all(old(relations)@, idxs@),
{
    let ghost start = relations@;
    let mut t: usize = idxs.len();
    assert(idxs@.subrange(0, t as int) =~= idxs@);
    while t > 0
        invariant
            t <= idxs@.len(),
            rising_below(idxs@, start.len() as int),
            relations@.len() == start.len() - (idxs@.len() - t),
            swap_out_all(relations@, idxs@.subrange(0, t as int)) == swap_out_all(start, idxs@),
        decreases t,
    {
        t = t - 1;
        let i = idxs[t];
        proof {
            lemma_rising_gap(idxs@, start.len() as int, t as int, idxs@.len() - 1);
            let sub = idxs@.subrange(0, t + 1);
            assert(sub.drop_last() =~= idxs@.subrange(0, t as int));
        }
        relations.swap_remove(i);
    }
    assert(idxs@.subrange(0, 0) =~= Seq::<usize>::empty());
}

proof fn lemma_insert_keeps_fit(rels: Seq<Relation>, len: int, idx: int, n: int)
    requires
        all_fit(rels, len),
        0 <= idx <= len,
        0 <= n,
        len + n <= usize::MAX,
    ensures
        all_fit(shifted_by_insert(rels, idx, n), len + n),
{
    let s = shifted_by_insert(rels, idx, n);
    assert forall|i: int|
        0 <= i < s.len() && #[trigger] s[i].enabled implies s[i].fits(len + n) by {
        assert(rels[i].enabled);
        if rels[i].accepts_insert(idx, n) {
            lemma_insert_fits(rels[i], len, idx, n);
        }
    }
}

proof fn lemma_flagged_empty(flags: Seq<bool>)
    requires
        flags.len() <= usize::MAX,
    ensures
        flagged(flags).len() == 0 <==> forall|j: int| 0 <= j < flags.len() ==> !#[trigger] flags[j],
{
    lemma_flagged(flags);
    let d = flagged(flags);
    if d.len() > 0 {
        assert(flags[d[0] as int]);
    }
    if exists|j: int| 0 <= j < flags.len() && #[trigger] flags[j] {
        let j = choose|j: int| 0 <= j < flags.len() && #[trigger] flags[j];
        assert(exists|t: int| 0 <= t < d.len() && #[trigger] d[t] == j);
    }
}

proof fn lemma_none_refuse_insert(rels: Seq<Relation>, idx: int, n: int)
    requires
        rels.len() <= usize::MAX,
    ensures
        flagged(refusing_insert(rels, idx, n)).len() == 0 <==> all_accept_insert(rels, idx, n),
{
    let flags = refusing_insert(rels, idx, n);
    lemma_flagged_empty(flags);
    if all_accept_insert(rels, idx, n) {
        assert forall|j: int| 0 <= j < flags.len() implies !#[trigger] flags[j] by {
            if rels[j].enabled {
            }
        }
    }
    if flagged(flags).len() == 0 {
        assert forall|i: int| 0 <= i < rels.len() && #[trigger] rels[i].enabled implies rels[
            i
        ].accepts_insert(idx, n) by {
            assert(!flags[i]);
        }
    }
}

proof fn lemma_none_refuse_remove(rels: Seq<Relation>, idx: int, n: int)
    requires
        rels.len() <= usize::MAX,
    ensures
        flagged(refusing_remove(rels, idx, n)).len() == 0 <==> all_accept_remove(rels, idx, n),
{
    let flags = refusing_remove(rels, idx, n);
    lemma_flagged_empty(flags);
    if all_accept_remove(rels, idx, n) {
        assert forall|j: int| 0 <= j < flags.len() implies !#[trigger] flags[j] by {
            if rels[j].enabled {
            }
        }
    }
    if flagged(flags).len() == 0 {
        assert forall|i: int| 0 <= i < rels.len() && #[trigger] rels[i].enabled implies rels[
            i
        ].accepts_remove(idx, n) by {
            assert(!flags[i]);
        }
    }
}

/// The relations left by swapping out the refusing ones all come from
/// `shifted` at positions that do not refuse.
proof fn lemma_survivors(shifted: Seq<Relation>, flags: Seq<bool>) -> (src: Seq<int>)
    requires
        flags.len() == shifted.len(),
        flags.len() <= usize::MAX,
    ensures
        swap_out_all(shifted, flagged(flags)).len() + flagged(flags).len() == shifted.len(),
        src.len() == swap_out_all(shifted, flagged(flags)).len(),
        forall|k: int|
            0 <= k < src.len() ==> 0 <= #[trigger] src[k] < shifted.len() && swap_out_all(
                shifted,
                flagged(flags),
            )[k] == shifted[src[k]] && !flags[src[k]],
        forall|k1: int, k2: int|
            0 <= k1 < src.len() && 0 <= k2 < src.len() && k1 != k2 ==> #[trigger] src[k1]
                != #[trigger] src[k2],
{
    lemma_flagged(flags);
    let d = flagged(flags);
    let src = lemma_swap_out_all(shifted, d);
    assert forall|k: int| 0 <= k < src.len() implies !flags[#[trigger] src[k]] by {
        if flags[src[k]] {
            let t = choose|t: int| 0 <= t < d.len() && #[trigger] d[t] == src[k];
        }
    }
    src
}

/// Appends `x` unless `v` holds it already.
fn push_unique(v: &mut Vec<usize>, x: usize)
    ensures
        final(v)@ == if old(v)@.contains(x) {
            old(v)@
        } else {
            old(v)@.push(x)
        },
        forall|y: usize| #[trigger] final(v)@.contains(y) <==> old(v)@.contains(y) || y == x,
        old(v)@.no_duplicates() ==> final(v)@.no_duplicates(),
{
    let mut k: usize = 0;
    while k < v.len()
        invariant
            k <= v@.len(),
            v@ == old(v)@,
            forall|j: int| 0 <= j < k ==> v@[j] != x,
        decreases v@.len() - k,
    {
        if v[k] == x {
            return;
        }
        k = k + 1;
    }
    v.push(x);
    proof {
        assert forall|y: usize| #[trigger] v@.contains(y) <==> old(v)@.contains(y) || y == x by {
            if y == x {
                assert(v@[v@.len() - 1] == x);
            }
            if old(v)@.contains(y) {
                let j = choose|j: int| 0 <= j < old(v)@.len() && old(v)@[j] == y;
                assert(v@[j] == y);
            }
            if v@.contains(y) {
                let j = choose|j: int| 0 <= j < v@.len() && v@[j] == y;
                if j < old(v)@.len() {
                    assert(old(v)@[j] == y);
                }
            }
        }
    }
}

/// `s` with `x` appended unless it holds it already.
pub open spec fn push_new(s: Seq<usize>, x: usize) -> Seq<usize> {
    if s.contains(x) {
        s
    } else {
        s.push(x)
    }
}

/// The positions, anchors and insert points of the relations of width 4 or
/// 8, each once, in the order the relations name them.
pub open spec fn inflection_seq(rels: Seq<Relation>) -> Seq<usize>
    decreases rels.len(),
{
    if rels.len() == 0 {
        Seq::empty()
    } else {
        let prev = inflection_seq(rels.drop_last());
        let r = rels.last();
        if r.size == 4 || r.size == 8 {
            push_new(push_new(push_new(prev, r.pos), r.anchor), r.insert)
        } else {
            prev
        }
    }
}

/// An offset that some relation of width 4 or 8 names as its position, anchor
/// or insert point.
pub open spec fn is_inflection_point(rels: Seq<Relation>, x: usize) -> bool {
    exists|i: int|
        0 <= i < rels.len() && (rels[i].size == 4 || rels[i].size == 8) && (#[trigger] rels[i].pos
            == x || rels[i].anchor == x || rels[i].insert == x)
}

/// The end of the buffer, or the insert point of some relation.
pub open spec fn is_insertion_point(len: int, rels: Seq<Relation>, x: usize) -> bool {
    x == len || exists|i: int| 0 <= i < rels.len() && #[trigger] rels[i].insert == x
}

/// The fields of `a` and `b` share no byte.
pub open spec fn apart(a: Relation, b: Relation) -> bool {
    a.pos + a.size <= b.pos || b.pos + b.size <= a.pos
}

proof fn lemma_apart(rels: Seq<Relation>, i: int, j: int)
    requires
        disjoint_fields(rels),
        0 <= i < rels.len(),
        0 <= j < rels.len(),
        i != j,
        rels[i].enabled,
        rels[j].enabled,
    ensures
        apart(rels[i], rels[j]),
{
}

proof fn lemma_insert_disjoint(rels: Seq<Relation>, len: int, idx: int, n: int)
    requires
        disjoint_fields(rels),
        all_fit(rels, len),
        0 <= idx,
        0 <= n,
        len + n <= usize::MAX,
        rels.len() <= usize::MAX,
    ensures
        disjoint_fields(after_insert_disabling(rels, idx, n)),
        all_accept_insert(rels, idx, n) ==> disjoint_fields(shifted_by_insert(rels, idx, n)),
{
    let sh = shifted_by_insert(rels, idx, n);
    let flags = refusing_insert(rels, idx, n);
    let src = lemma_survivors(sh, flags);
    let left = after_insert_disabling(rels, idx, n);
    assert forall|a: int, b: int|
        0 <= a < left.len() && 0 <= b < left.len() && a != b && #[trigger] left[a].enabled
            && #[trigger] left[b].enabled implies left[a].pos + left[a].size <= left[b].pos
        || left[b].pos + left[b].size <= left[a].pos by {
        let i = src[a];
        let j = src[b];
        assert(sh[i].enabled && sh[j].enabled);
        assert(!flags[i] && !flags[j]);
        lemma_apart(rels, i, j);
    }
    if all_accept_insert(rels, idx, n) {
        assert forall|i: int, j: int|
            0 <= i < sh.len() && 0 <= j < sh.len() && i != j && #[trigger] sh[i].enabled
                && #[trigger] sh[j].enabled implies sh[i].pos + sh[i].size <= sh[j].pos
            || sh[j].pos + sh[j].size <= sh[i].pos by {
            assert(rels[i].enabled && rels[j].enabled);
            lemma_apart(rels, i, j);
        }
    }
}

proof fn lemma_remove_disjoint(rels: Seq<Relation>, len: int, idx: int, n: int)
    requires
        disjoint_fields(rels),
        all_fit(rels, len),
        0 <= idx,
        0 <= n,
        idx + n <= len,
        rels.len() <= usize::MAX,
    ensures
        disjoint_fields(after_remove_disabling(rels, idx, n)),
        all_accept_remove(rels, idx, n) ==> disjoint_fields(shifted_by_remove(rels, idx, n)),
{
    let sh = shifted_by_remove(rels, idx, n);
    let flags = refusing_remove(rels, idx, n);
    let src = lemma_survivors(sh, flags);
    let left = after_remove_disabling(rels, idx, n);
    assert forall|a: int, b: int|
        0 <= a < left.len() && 0 <= b < left.len() && a != b && #[trigger] left[a].enabled
            && #[trigger] left[b].enabled implies left[a].pos + left[a].size <= left[b].pos
        || left[b].pos + left[b].size <= left[a].pos by {
        let i = src[a];
        let j = src[b];
        assert(sh[i].enabled && sh[j].enabled);
        assert(!flags[i] && !flags[j]);
        lemma_apart(rels, i, j);
    }
    if all_accept_remove(rels, idx, n) {
        assert forall|i: int, j: int|
            0 <= i < sh.len() && 0 <= j < sh.len() && i != j && #[trigger] sh[i].enabled
                && #[trigger] sh[j].enabled implies sh[i].pos + sh[i].size <= sh[j].pos
            || sh[j].pos + sh[j].size <= sh[i].pos by {
            assert(rels[i].enabled && rels[j].enabled);
            lemma_apart(rels, i, j);
        }
    }
}

/// Each element `k` of `left` is element `src[k]` of `shifted`, at a place
/// not flagged, and no two elements come from the same place.
pub open spec fn drawn_from(
    left: Seq<Relation>,
    shifted: Seq<Relation>,
    flags: Seq<bool>,
    src: Seq<int>,
) -> bool {
    &&& src.len() == left.len()
    &&& forall|k: int|
        0 <= k < src.len() ==> 0 <= #[trigger] src[k] < shifted.len() && !flags[src[k]]
            && left[k] == shifted[src[k]]
    &&& forall|k1: int, k2: int|
        0 <= k1 < src.len() && 0 <= k2 < src.len() && k1 != k2 ==> #[trigger] src[k1]
            != #[trigger] src[k2]
}

/// The loss-tolerant removal always goes through. Each relation it leaves is
/// one held before, disabled or moved by a removal it accepted, and no two
/// come from the same one; none that refused the removal is left, and no
/// more are left than there were.
/// The buffer loses exactly the `n` bytes at `idx`: it is `n` bytes shorter,
/// and outside the fields left it holds the old bytes without those.
pub proof fn lemma_remove_disabling_subset(s: Structured, idx: int, n: int)
    requires
        s.wf(),
        s.relations@.len() <= usize::MAX,
        0 <= idx,
        0 <= n,
        idx + n <= s.raw@.len(),
    ensures
        after_remove_disabling(s.relations@, idx, n).len() <= s.relations@.len(),
        exists|src: Seq<int>|
            #[trigger] drawn_from(
                after_remove_disabling(s.relations@, idx, n),
                shifted_by_remove(s.relations@, idx, n),
                refusing_remove(s.relations@, idx, n),
                src,
            ),
        forall|k: int|
            0 <= k < after_remove_disabling(s.relations@, idx, n).len() ==> exists|j: int|
                0 <= j < s.relations@.len() && !refusing_remove(s.relations@, idx, n)[j]
                    && #[trigger] after_remove_disabling(s.relations@, idx, n)[k]
                    == shifted_by_remove(s.relations@, idx, n)[j],
        sanitized(
            remove_bytes(s.raw@, idx, n),
            after_remove_disabling(s.relations@, idx, n),
        ).len() == s.raw@.len() - n,
        forall|j: int|
            0 <= j < s.raw@.len() - n
                && outside_fields(after_remove_disabling(s.relations@, idx, n), j)
                ==> #[trigger] sanitized(
                remove_bytes(s.raw@, idx, n),
                after_remove_disabling(s.relations@, idx, n),
            )[j] == remove_bytes(s.raw@, idx, n)[j],
{
    let rels = s.relations@;
    let len = s.raw@.len() as int;
    let sh = shifted_by_remove(rels, idx, n);
    let flags = refusing_remove(rels, idx, n);
    let left = after_remove_disabling(rels, idx, n);
    let src = lemma_survivors(sh, flags);
    assert(drawn_from(left, sh, flags, src));
    assert forall|k: int| 0 <= k < left.len() implies exists|j: int|
        0 <= j < rels.len() && !flags[j] && #[trigger] left[k] == sh[j] by {
        assert(left[k] == sh[src[k]]);
    }
    assert forall|i: int| 0 <= i < left.len() && #[trigger] left[i].enabled implies left[i].fits(
        len - n,
    ) by {
        let j = src[i];
        assert(sh[j].enabled);
        assert(!flags[j]);
        lemma_remove_fits(rels[j], len, idx, n);
    }
    lemma_sanitized_frame(remove_bytes(s.raw@, idx, n), left);
}

/// Self-healing: once the mutation primitives ran on a buffer whose enabled
/// fields are pairwise disjoint, the fields stay disjoint, and applying any
/// enabled relation to the new bytes changes nothing.
pub proof fn lemma_edits_self_heal(s: Structured, idx: int, n: int, data: Seq<u8>)
    requires
        s.wf(),
        s.relations@.len() <= usize::MAX,
        disjoint_fields(s.relations@),
        0 <= idx,
        0 <= n,
    ensures
        idx + data.len() <= s.raw@.len() ==> consistent(
            sanitized(overwrite(s.raw@, idx, data), s.relations@),
            s.relations@,
        ),
        idx <= s.raw@.len() && s.raw@.len() + data.len() <= usize::MAX ==> disjoint_fields(
            after_insert_disabling(s.relations@, idx, data.len() as int),
        ) && consistent(
            sanitized(
                insert_bytes(s.raw@, idx, data),
                after_insert_disabling(s.relations@, idx, data.len() as int),
            ),
            after_insert_disabling(s.relations@, idx, data.len() as int),
        ),
        idx + n <= s.raw@.len() ==> disjoint_fields(after_remove_disabling(s.relations@, idx, n))
            && consistent(
            sanitized(remove_bytes(s.raw@, idx, n), after_remove_disabling(s.relations@, idx, n)),
            after_remove_disabling(s.relations@, idx, n),
        ),
{
    let rels = s.relations@;
    let len = s.raw@.len() as int;
    if idx + data.len() <= len {
        lemma_sanitized_consistent(overwrite(s.raw@, idx, data), rels);
    }
    if idx <= len && len + data.len() <= usize::MAX {
        let m = data.len() as int;
        lemma_insert_disjoint(rels, len, idx, m);
        let sh = shifted_by_insert(rels, idx, m);
        let flags = refusing_insert(rels, idx, m);
        let src = lemma_survivors(sh, flags);
        let left = after_insert_disabling(rels, idx, m);
        assert forall|i: int| 0 <= i < left.len() && #[trigger] left[i].enabled implies left[
            i
        ].fits(len + m) by {
            let j = src[i];
            assert(sh[j].enabled);
            assert(!flags[j]);
            lemma_insert_fits(rels[j], len, idx, m);
        }
        lemma_sanitized_consistent(insert_bytes(s.raw@, idx, data), left);
    }
    if idx + n <= len {
        lemma_remove_disjoint(rels, len, idx, n);
        lemma_remove_disabling_subset(s, idx, n);
        let sh = shifted_by_remove(rels, idx, n);
        let flags = refusing_remove(rels, idx, n);
        let src = lemma_survivors(sh, flags);
        let left = after_remove_disabling(rels, idx, n);
        assert forall|i: int| 0 <= i < left.len() && #[trigger] left[i].enabled implies left[
            i
        ].fits(len - n) by {
            let j = src[i];
            assert(sh[j].enabled);
            assert(!flags[j]);
            lemma_remove_fits(rels[j], len, idx, n);
        }
        lemma_sanitized_consistent(remove_bytes(s.raw@, idx, n), left);
    }
}

/// A raw buffer and the relations found in it.
#[derive(Clone, Debug, PartialEq, Eq)]
pub struct Structured {
    pub raw: Vec<u8>,
    pub relations: Vec<Relation>,
}

impl Structured {
    /// Every enabled relation fits the buffer.
    pub open spec fn wf(&self) -> bool {
        all_fit(self.relations@, self.raw@.len() as int)
    }

    /// Whether every enabled relation fits the buffer.
    pub fn is_well_formed(&self) -> (r: bool)
        ensures
            r == self.wf(),
    {
        let len = self.raw.len();
        let mut k: usize = 0;
        while k < self.relations.len()
            invariant
                k <= self.relations@.len(),
                len == self.raw@.len(),
                forall|i: int|
                    0 <= i < k && #[trigger] self.relations@[i].enabled ==> self.relations@[
                        i
                    ].fits(len as int),
            decreases self.relations@.len() - k,
        {
            let r = self.relations[k];
            if r.enabled {
                let sized = r.size == 1 || r.size == 2 || r.size == 3 || r.size == 4 || r.size == 8;
                if !sized || r.pos > len || r.size > len - r.pos || r.anchor > r.insert
                    || r.insert > len {
                    return false;
                }
            }
            k = k + 1;
        }
        true
    }

    /// A buffer with no relations.
    pub fn raw(raw: Vec<u8>) -> (r: Self)
        ensures
            r.raw@ == raw@,
            r.relations@ == Seq::<Relation>::empty(),
    {
        Structured { raw, relations: Vec::new() }
    }

    /// Appends a relation.
    pub fn add_relation(&mut self, rel: Relation)
        ensures
            final(self).raw@ == old(self).raw@,
            final(self).relations@ == old(self).relations@.push(rel),
    {
        self.relations.push(rel);
    }

    /// The raw bytes, for writing in place.
    pub fn get_raw_mut(&mut self) -> (r: &mut [u8])
        ensures
            r@ == old(self).raw@,
            final(self).raw@ == final(r)@,
            final(self).relations@ == old(self).relations@,
    {
        self.raw.as_mut_slice()
    }

    /// The raw bytes.
    pub fn get_raw(&self) -> (r: &[u8])
        ensures
            r@ == self.raw@,
    {
        self.raw.as_slice()
    }

    /// Applies every enabled relation to `raw`.
    pub fn sanitize(&mut self)
        requires
            old(self).wf(),
        ensures
            final(self).relations@ == old(self).relations@,
            final(self).raw@ == sanitized(old(self).raw@, old(self).relations@),
            final(self).raw@.len() == old(self).raw@.len(),
            final(self).wf(),
            disjoint_fields(final(self).relations@) ==> consistent(
                final(self).raw@,
                final(self).relations@,
            ),
    {
        let ghost rels = self.relations@;
        proof {
            lemma_sanitized_frame(self.raw@, rels);
            if disjoint_fields(rels) {
                lemma_sanitized_consistent(self.raw@, rels);
            }
            lemma_fit_fields(rels, self.raw@.len() as int);
        }
        apply_all(&self.relations, self.raw.as_mut_slice());
    }

    /// Applies every enabled relation to `buf`.
    pub fn sanitize_buffer(&self, buf: &mut [u8])
        requires
            fields_fit(self.relations@, old(buf)@.len() as int),
        ensures
            final(buf)@ == sanitized(old(buf)@, self.relations@),
    {
        apply_all(&self.relations, buf);
    }

    /// Overwrites `data.len()` bytes at `idx`, then applies the relations again.
    pub fn write(&mut self, idx: usize, data: &[u8])
        requires
            old(self).wf(),
            idx + data@.len() <= old(self).raw@.len(),
        ensures
            final(self).raw@.len() == old(self).raw@.len(),
            final(self).relations@ == old(self).relations@,
            final(self).raw@ == sanitized(
                overwrite(old(self).raw@, idx as int, data@),
                old(self).relations@,
            ),
            final(self).wf(),
            disjoint_fields(final(self).relations@) ==> consistent(
                final(self).raw@,
                final(self).relations@,
            ),
    {
        let n = self.raw.len();
        let mut k: usize = 0;
        while k < data.len()
            invariant
                k <= data@.len(),
                idx + data@.len() <= self.raw@.len(),
                self.raw@.len() == old(self).raw@.len(),
                n == self.raw@.len(),
                self.relations@ == old(self).relations@,
                forall|j: int|
                    0 <= j < self.raw@.len() ==> #[trigger] self.raw@[j] == if idx <= j < idx + k {
                        data@[j - idx]
                    } else {
                        old(self).raw@[j]
                    },
            decreases data@.len() - k,
        {
            self.raw.set(idx + k, data[k]);
            k = k + 1;
        }
        assert(self.raw@ =~= overwrite(old(self).raw@, idx as int, data@));
        self.sanitize();
    }

    /// The positions, anchors and insert points of the relations of width 4 or 8,
    /// each once, in the order the relations name them.
    pub fn inflection_points(&self) -> (r: Vec<usize>)
        ensures
            r@ == inflection_seq(self.relations@),
            r@.no_duplicates(),
            forall|x: usize| r@.contains(x) <==> is_inflection_point(self.relations@, x),
    {
        let ghost rels = self.relations@;
        let mut points: Vec<usize> = Vec::new();
        let mut k: usize = 0;
        while k < self.relations.len()
            invariant
                k <= rels.len(),
                rels == self.relations@,
                points@ == inflection_seq(rels.subrange(0, k as int)),
                points@.no_duplicates(),
                forall|x: usize|
                    points@.contains(x) <==> is_inflection_point(rels.subrange(0, k as int), x),
            decreases rels.len() - k,
        {
            let rel = self.relations[k];
            let ghost before = points@;
            if rel.size == 4 || rel.size == 8 {
                push_unique(&mut points, rel.pos);
                push_unique(&mut points, rel.anchor);
                push_unique(&mut points, rel.insert);
            }
            proof {
                let pre = rels.subrange(0, k as int);
                let cur = rels.subrange(0, k + 1);
                assert(cur.drop_last() =~= pre);
                assert(cur.last() == rel);
                assert forall|x: usize|
                    points@.contains(x) <==> is_inflection_point(cur, x) by {
                    if is_inflection_point(cur, x) {
                        let i = choose|i: int|
                            0 <= i < cur.len() && (cur[i].size == 4 || cur[i].size == 8) && (
                            #[trigger] cur[i].pos == x || cur[i].anchor == x || cur[i].insert
                                == x);
                        if i < k {
                            assert(pre[i] == cur[i]);
                        }
                    }
                    if is_inflection_point(pre, x) {
                        let i = choose|i: int|
                            0 <= i < pre.len() && (pre[i].size == 4 || pre[i].size == 8) && (
                            #[trigger] pre[i].pos == x || pre[i].anchor == x || pre[i].insert
                                == x);
                        assert(cur[i] == pre[i]);
                    }
                    assert(cur[k as int] == rel);
                    assert(before.contains(x) <==> is_inflection_point(pre, x));
                }
            }
            k = k + 1;
        }
        assert(rels.subrange(0, rels.len() as int) =~= rels);
        points
    }

    /// The end of the buffer followed by the insert points of the relations,
    /// each once.
    pub fn insertion_points(&self) -> (r: Vec<usize>)
        ensures
            r@.no_duplicates(),
            r@.len() > 0 && r@[0] == self.raw@.len(),
            forall|x: usize|
                r@.contains(x) <==> is_insertion_point(self.raw@.len() as int, self.relations@, x),
    {
        let ghost rels = self.relations@;
        let ghost len = self.raw@.len() as int;
        let mut points: Vec<usize> = Vec::new();
        points.push(self.raw.len());
        let mut k: usize = 0;
        while k < self.relations.len()
            invariant
                k <= rels.len(),
                rels == self.relations@,
                len == self.raw@.len(),
                points@.no_duplicates(),
                points@.len() > 0 && points@[0] == len,
                forall|x: usize|
                    points@.contains(x) <==> is_insertion_point(len, rels.subrange(0, k as int), x),
            decreases rels.len() - k,
        {
            let rel = self.relations[k];
            let ghost before = points@;
            push_unique(&mut points, rel.insert);
            proof {
                let pre = rels.subrange(0, k as int);
                let cur = rels.subrange(0, k + 1);
                assert forall|x: usize|
                    points@.contains(x) <==> is_insertion_point(len, cur, x) by {
                    if exists|i: int| 0 <= i < cur.len() && #[trigger] cur[i].insert == x {
                        let i = choose|i: int| 0 <= i < cur.len() && #[trigger] cur[i].insert == x;
                        if i < k {
                            assert(pre[i] == cur[i]);
                        }
                    }
                    if exists|i: int| 0 <= i < pre.len() && #[trigger] pre[i].insert == x {
                        let i = choose|i: int| 0 <= i < pre.len() && #[trigger] pre[i].insert == x;
                        assert(cur[i] == pre[i]);
                    }
                    assert(cur[k as int] == rel);
                    assert(before.contains(x) <==> is_insertion_point(len, pre, x));
                }
            }
            k = k + 1;
        }
        assert(rels.subrange(0, rels.len() as int) =~= rels);
        points
    }

    /// Turns the relation at `idx` on or off.
    pub fn set_relation_enabled(&mut self, idx: usize, enabled: bool)
        requires
            idx < old(self).relations@.len(),
        ensures
            final(self).raw@ == old(self).raw@,
            final(self).relations@ == old(self).relations@.update(
                idx as int,
                Relation { enabled, ..old(self).relations@[idx as int] },
            ),
            old(self).wf() && !enabled ==> final(self).wf(),
    {
        let mut rel = self.relations[idx];
        rel.enabled = enabled;
        self.relations.set(idx, rel);
    }

    /// Takes a snapshot of every relation.
    pub fn save_relations(&mut self)
        ensures
            final(self).raw@ == old(self).raw@,
            final(self).relations@ == old(self).relations@.map_values(|r: Relation| r.saved()),
            old(self).wf() ==> final(self).wf(),
    {
        let ghost rels = self.relations@;
        let mut k: usize = 0;
        while k < self.relations.len()
            invariant
                k <= rels.len(),
                self.raw@ == old(self).raw@,
                rels == old(self).relations@,
                self.relations@.len() == rels.len(),
                forall|j: int| 0 <= j < k ==> self.relations@[j] == rels[j].saved(),
                forall|j: int| k <= j < rels.len() ==> self.relations@[j] == rels[j],
            decreases rels.len() - k,
        {
            let mut rel = self.relations[k];
            rel.save();
            self.relations.set(k, rel);
            k = k + 1;
        }
        assert(self.relations@ =~= rels.map_values(|r: Relation| r.saved()));
    }

    /// Returns every relation to its snapshot.
    pub fn restore_relations(&mut self)
        ensures
            final(self).raw@ == old(self).raw@,
            final(self).relations@ == old(self).relations@.map_values(|r: Relation| r.restored()),
    {
        let ghost rels = self.relations@;
        let mut k: usize = 0;
        while k < self.relations.len()
            invariant
                k <= rels.len(),
                self.raw@ == old(self).raw@,
                rels == old(self).relations@,
                self.relations@.len() == rels.len(),
                forall|j: int| 0 <= j < k ==> self.relations@[j] == rels[j].restored(),
                forall|j: int| k <= j < rels.len() ==> self.relations@[j] == rels[j],
            decreases rels.len() - k,
        {
            let mut rel = self.relations[k];
            rel.restore();
            self.relations.set(k, rel);
            k = k + 1;
        }
        assert(self.relations@ =~= rels.map_values(|r: Relation| r.restored()));
    }

    /// Inserts `data` at `idx`, moving every enabled relation along.
    ///
    /// When some enabled relation refuses the insertion nothing changes and
    /// `Err` comes back.
    pub fn insert(&mut self, idx: usize, data: &[u8]) -> (r: Result<(), ()>)
        requires
            old(self).wf(),
            idx <= old(self).raw@.len(),
            old(self).raw@.len() + data@.len() <= usize::MAX,
        ensures
            r is Ok && disjoint_fields(old(self).relations@) ==> disjoint_fields(
                final(self).relations@,
            ),
            r is Ok ==> final(self).raw@.len() == old(self).raw@.len() + data@.len(),
            r is Ok <==> all_accept_insert(old(self).relations@, idx as int, data@.len() as int),
            r is Ok ==> final(self).relations@ == shifted_by_insert(
                old(self).relations@,
                idx as int,
                data@.len() as int,
            ) && final(self).raw@ == sanitized(
                insert_bytes(old(self).raw@, idx as int, data@),
                final(self).relations@,
            ),
            r is Err ==> *final(self) == *old(self),
            final(self).wf(),
            r is Ok && disjoint_fields(final(self).relations@) ==> consistent(
                final(self).raw@,
                final(self).relations@,
            ),
    {
        let ghost rels = self.relations@;
        let count = self.relations.len();
        let (updated, refused) = follow_insert(&self.relations, self.raw.len(), idx, data.len());
        proof {
            lemma_none_refuse_insert(rels, idx as int, data@.len() as int);
            if disjoint_fields(rels) {
                lemma_insert_disjoint(rels, self.raw@.len() as int, idx as int, data@.len() as int);
            }
            lemma_insert_keeps_fit(rels, self.raw@.len() as int, idx as int, data@.len() as int);
        }
        if refused.len() > 0 {
            return Err(());
        }
        self.relations = updated;
        self.raw = bytes_inserted(&self.raw, idx, data);
        self.sanitize();
        Ok(())
    }

    /// Moves every enabled relation along as if `n` bytes were inserted at
    /// `idx`, leaving the bytes alone.
    ///
    /// When some enabled relation refuses the insertion nothing changes and
    /// `Err` comes back.
    pub fn on_insert(&mut self, idx: usize, n: usize) -> (r: Result<(), ()>)
        requires
            old(self).wf(),
            old(self).raw@.len() + n <= usize::MAX,
        ensures
            r is Ok <==> all_accept_insert(old(self).relations@, idx as int, n as int),
            r is Ok ==> final(self).relations@ == shifted_by_insert(
                old(self).relations@,
                idx as int,
                n as int,
            ),
            r is Err ==> final(self).relations@ == old(self).relations@,
            final(self).raw@ == old(self).raw@,
            all_fit(final(self).relations@, old(self).raw@.len() + n),
    {
        let ghost rels = self.relations@;
        let count = self.relations.len();
        let (updated, refused) = follow_insert(&self.relations, self.raw.len(), idx, n);
        proof {
            lemma_none_refuse_insert(rels, idx as int, n as int);
            assert forall|i: int| 0 <= i < rels.len() && #[trigger] rels[i].enabled implies rels[
                i
            ].fits(self.raw@.len() + n) by {
                assert(rels[i].fits(self.raw@.len() as int));
            }
        }
        if refused.len() > 0 {
            return Err(());
        }
        proof {
            if idx <= self.raw@.len() {
                lemma_insert_keeps_fit(rels, self.raw@.len() as int, idx as int, n as int);
            } else {
                let s = shifted_by_insert(rels, idx as int, n as int);
                assert forall|i: int| 0 <= i < s.len() && #[trigger] s[i].enabled implies s[i].fits(
                    self.raw@.len() + n,
                ) by {
                    assert(rels[i].enabled);
                }
            }
        }
        self.relations = updated;
        Ok(())
    }

    /// Inserts `data` at `idx`; the enabled relations that accept the insertion
    /// move along, the ones that refuse it stay as they were.
    pub fn insert_ignore_invalid(&mut self, idx: usize, data: &[u8])
        requires
            old(self).wf(),
            idx <= old(self).raw@.len(),
            old(self).raw@.len() + data@.len() <= usize::MAX,
        ensures
            final(self).raw@.len() == old(self).raw@.len() + data@.len(),
            final(self).relations@ == shifted_by_insert(
                old(self).relations@,
                idx as int,
                data@.len() as int,
            ),
            final(self).raw@ == sanitized(
                insert_bytes(old(self).raw@, idx as int, data@),
                final(self).relations@,
            ),
            final(self).wf(),
            disjoint_fields(final(self).relations@) ==> consistent(
                final(self).raw@,
                final(self).relations@,
            ),
    {
        let ghost rels = self.relations@;
        let (updated, _refused) = follow_insert(&self.relations, self.raw.len(), idx, data.len());
        proof {
            lemma_insert_keeps_fit(rels, self.raw@.len() as int, idx as int, data@.len() as int);
        }
        self.relations = updated;
        self.raw = bytes_inserted(&self.raw, idx, data);
        self.sanitize();
    }

    /// Removes the `n` bytes at `idx`, moving every enabled relation along.
    ///
    /// When some enabled relation refuses the removal nothing changes and
    /// `Err` comes back.
    pub fn remove(&mut self, idx: usize, n: usize) -> (r: Result<(), ()>)
        requires
            old(self).wf(),
            idx + n <= old(self).raw@.len(),
        ensures
            r is Ok && disjoint_fields(old(self).relations@) ==> disjoint_fields(
                final(self).relations@,
            ),
            r is Ok ==> final(self).raw@.len() == old(self).raw@.len() - n,
            r is Ok <==> all_accept_remove(old(self).relations@, idx as int, n as int),
            r is Ok ==> final(self).relations@ == shifted_by_remove(
                old(self).relations@,
                idx as int,
                n as int,
            ) && final(self).raw@ == sanitized(
                remove_bytes(old(self).raw@, idx as int, n as int),
                final(self).relations@,
            ),
            r is Err ==> *final(self) == *old(self),
            final(self).wf(),
            r is Ok && disjoint_fields(final(self).relations@) ==> consistent(
                final(self).raw@,
                final(self).relations@,
            ),
    {
        let ghost rels = self.relations@;
        let ghost len = self.raw@.len() as int;
        let count = self.relations.len();
        let (updated, refused) = follow_remove(&self.relations, self.raw.len(), idx, n);
        proof {
            if disjoint_fields(rels) {
                lemma_remove_disjoint(rels, len, idx as int, n as int);
            }
            lemma_none_refuse_remove(rels, idx as int, n as int);
        }
        if refused.len() > 0 {
            return Err(());
        }
        proof {
            let s = updated@;
            assert forall|i: int| 0 <= i < s.len() && #[trigger] s[i].enabled implies s[i].fits(
                len - n,
            ) by {
                assert(rels[i].enabled);
                assert(!refusing_remove(rels, idx as int, n as int)[i]);
                lemma_remove_fits(rels[i], len, idx as int, n as int);
            }
        }
        self.relations = updated;
        self.raw = bytes_removed(&self.raw, idx, n);
        self.sanitize();
        Ok(())
    }

    /// Inserts `data` at `idx`. The enabled relations that accept the insertion
    /// move along; the ones that refuse it are swapped out of the list.
    pub fn insert_disabling(&mut self, idx: usize, data: &[u8])
        requires
            old(self).wf(),
            idx <= old(self).raw@.len(),
            old(self).raw@.len() + data@.len() <= usize::MAX,
        ensures
            disjoint_fields(old(self).relations@) ==> disjoint_fields(final(self).relations@),
            final(self).raw@.len() == old(self).raw@.len() + data@.len(),
            final(self).relations@ == after_insert_disabling(
                old(self).relations@,
                idx as int,
                data@.len() as int,
            ),
            final(self).raw@ == sanitized(
                insert_bytes(old(self).raw@, idx as int, data@),
                final(self).relations@,
            ),
            final(self).wf(),
            disjoint_fields(final(self).relations@) ==> consistent(
                final(self).raw@,
                final(self).relations@,
            ),
    {
        let ghost rels = self.relations@;
        let ghost len = self.raw@.len() as int;
        let ghost n = data@.len() as int;
        let count = self.relations.len();
        let (mut updated, refused) = follow_insert(
            &self.relations,
            self.raw.len(),
            idx,
            data.len(),
        );
        proof {
            let flags = refusing_insert(rels, idx as int, n);
            lemma_flagged(flags);
            if disjoint_fields(rels) {
                lemma_insert_disjoint(rels, len, idx as int, n);
            }
            lemma_insert_keeps_fit(rels, len, idx as int, n);
        }
        swap_out_each(&mut updated, &refused);
        proof {
            let src = lemma_survivors(
                shifted_by_insert(rels, idx as int, n),
                refusing_insert(rels, idx as int, n),
            );
            let s = updated@;
            assert forall|i: int| 0 <= i < s.len() && #[trigger] s[i].enabled implies s[i].fits(
                len + n,
            ) by {
                assert(shifted_by_insert(rels, idx as int, n)[src[i]].enabled);
            }
        }
        self.relations = updated;
        self.raw = bytes_inserted(&self.raw, idx, data);
        self.sanitize();
    }

    /// Removes the `n` bytes at `idx`. The enabled relations that accept the
    /// removal move along; the ones that refuse it are swapped out of the list.
    pub fn remove_disabling(&mut self, idx: usize, n: usize)
        requires
            old(self).wf(),
            idx + n <= old(self).raw@.len(),
        ensures
            disjoint_fields(old(self).relations@) ==> disjoint_fields(final(self).relations@),
            final(self).raw@.len() == old(self).raw@.len() - n,
            final(self).relations@ == after_remove_disabling(
                old(self).relations@,
                idx as int,
                n as int,
            ),
            final(self).raw@ == sanitized(
                remove_bytes(old(self).raw@, idx as int, n as int),
                final(self).relations@,
            ),
            final(self).wf(),
            disjoint_fields(final(self).relations@) ==> consistent(
                final(self).raw@,
                final(self).relations@,
            ),
    {
        let ghost rels = self.relations@;
        let ghost len = self.raw@.len() as int;
        let count = self.relations.len();
        let (mut updated, refused) = follow_remove(&self.relations, self.raw.len(), idx, n);
        proof {
            if disjoint_fields(rels) {
                lemma_remove_disjoint(rels, len, idx as int, n as int);
            }
            lemma_flagged(refusing_remove(rels, idx as int, n as int));
        }
        swap_out_each(&mut updated, &refused);
        proof {
            let src = lemma_survivors(
                shifted_by_remove(rels, idx as int, n as int),
                refusing_remove(rels, idx as int, n as int),
            );
            let s = updated@;
            assert forall|i: int| 0 <= i < s.len() && #[trigger] s[i].enabled implies s[i].fits(
                len - n,
            ) by {
                let j = src[i];
                assert(shifted_by_remove(rels, idx as int, n as int)[j].enabled);
                assert(!refusing_remove(rels, idx as int, n as int)[j]);
                lemma_remove_fits(rels[j], len, idx as int, n as int);
            }
        }
        self.relations = updated;
        self.raw = bytes_removed(&self.raw, idx, n);
        self.sanitize();
    }
}

} // verus!
