//! A corpus entry: a structured buffer with its search status, and the byte
//! edits that a mutator makes on it.

use crate::field::overwrite;
use crate::structured::{
    after_insert_disabling, after_remove_disabling, insert_bytes, is_insertion_point,
    remove_bytes, sanitized, Structured,
};
use crate::search::{sat_u64, sat_usize, SearchMetadata, SearchResult};
use vstd::prelude::*;

verus! {

#[verifier::external_type_specification]
#[verifier::external_body]
pub struct ExStdRng(rand::rngs::StdRng);

/// Relies on `rand::SeedableRng::seed_from_u64` for `StdRng`: a generator
/// seeded with `seed`.
#[verifier::external_body]
fn seeded_rng(seed: u64) -> (r: rand::rngs::StdRng) {
    <rand::rngs::StdRng as rand::SeedableRng>::seed_from_u64(seed)
}

/// Relies on `rand::Rng::gen_range` over `0..n`: a number below `n`; the range
/// must not be empty.
#[verifier::external_body]
fn draw_below(rng: &mut rand::rngs::StdRng, n: usize) -> (r: usize)
    requires
        n > 0,
    ensures
        r < n,
{
    rand::Rng::gen_range(rng, 0..n)
}

/// Where an entry stands with the search.
#[derive(Clone, Copy, Debug, PartialEq, Eq, Structural)]
pub enum InputStatus {
    /// Not searched yet.
    New,
    /// Mutated from a searched entry.
    Mutated,
    /// A search began and did not finish: the target crashed or hung.
    InProgress,
    /// Searched while it stood at the given corpus index.
    Searched(usize),
}

/// Whether the entry at corpus index `id` with `status` is to be searched.
pub open spec fn wants_search(status: InputStatus, id: usize) -> bool {
    match status {
        InputStatus::Searched(at) => at != id,
        InputStatus::New | InputStatus::Mutated => true,
        InputStatus::InProgress => false,
    }
}

/// Whether the entry at corpus index `id` with `status` is to be searched: new
/// and mutated entries are, entries searched at another index are again, and
/// entries whose search never finished are skipped.
pub fn needs_search(status: InputStatus, id: usize) -> (r: bool)
    ensures
        r == wants_search(status, id),
{
    match status {
        InputStatus::Searched(at) => at != id,
        InputStatus::New | InputStatus::Mutated => true,
        InputStatus::InProgress => false,
    }
}

/// Makes the first corpus entry when there is no seed: eight `a` bytes.
pub struct GrammarGenerator;

impl GrammarGenerator {
    /// A new entry of eight `a` bytes with no relations.
    pub fn generate(&mut self) -> (r: StructuredInput)
        ensures
            r.input.raw@ == seq![0x61u8, 0x61, 0x61, 0x61, 0x61, 0x61, 0x61, 0x61],
            r.input.relations@.len() == 0,
            r.status == InputStatus::New,
    {
        let bytes: Vec<u8> = vec![0x61, 0x61, 0x61, 0x61, 0x61, 0x61, 0x61, 0x61];
        StructuredInput::new_raw(bytes.as_slice())
    }
}

/// Makes the first plain input when there is no seed: eight `a` bytes.
pub struct BytesGenerator;

impl BytesGenerator {
    /// Eight `a` bytes.
    pub fn generate(&mut self) -> (r: Vec<u8>)
        ensures
            r@ == seq![0x61u8, 0x61, 0x61, 0x61, 0x61, 0x61, 0x61, 0x61],
    {
        vec![0x61, 0x61, 0x61, 0x61, 0x61, 0x61, 0x61, 0x61]
    }
}

/// A corpus entry.
pub struct StructuredInput {
    pub input: Structured,
    pub status: InputStatus,
    /// Seeds the choice of insertion point when the entry grows.
    pub seed: u64,
}

fn sub_bytes(s: &[u8], from: usize, to: usize) -> (r: Vec<u8>)
    requires
        from <= to <= s@.len(),
    ensures
        r@ == s@.subrange(from as int, to as int),
{
    let mut r: Vec<u8> = Vec::new();
    let mut k: usize = from;
    while k < to
        invariant
            from <= k <= to <= s@.len(),
            r@ == s@.subrange(from as int, k as int),
        decreases to - k,
    {
        r.push(s[k]);
        k = k + 1;
    }
    r
}

impl StructuredInput {
    /// The entry holds a well-formed buffer.
    pub open spec fn wf(&self) -> bool {
        self.input.wf()
    }

    /// A new entry with `bytes` and no relations.
    pub fn new_raw(bytes: &[u8]) -> (r: Self)
        ensures
            r.input.raw@ == bytes@,
            r.input.relations@.len() == 0,
            r.status == InputStatus::New,
            r.seed == 0,
            r.wf(),
    {
        let mut raw: Vec<u8> = Vec::new();
        let mut k: usize = 0;
        while k < bytes.len()
            invariant
                k <= bytes@.len(),
                raw@ == bytes@.subrange(0, k as int),
            decreases bytes@.len() - k,
        {
            raw.push(bytes[k]);
            k = k + 1;
        }
        assert(bytes@.subrange(0, k as int) =~= bytes@);
        StructuredInput { input: Structured::raw(raw), status: InputStatus::New, seed: 0 }
    }

    /// A new entry holding `input`.
    pub fn new_structured(input: Structured) -> (r: Self)
        ensures
            r.input == input,
            r.status == InputStatus::New,
            r.seed == 0,
    {
        StructuredInput { input, status: InputStatus::New, seed: 0 }
    }

    /// Starts the search stage on this entry at corpus index `id`. When the
    /// entry is to be searched it is marked in progress, so that a search that
    /// never returns is not tried again, and `true` comes back; otherwise
    /// nothing changes.
    pub fn begin_search(&mut self, id: usize) -> (r: bool)
        ensures
            r == wants_search(old(self).status, id),
            final(self).status == if r {
                InputStatus::InProgress
            } else {
                old(self).status
            },
            final(self).input == old(self).input,
            final(self).seed == old(self).seed,
    {
        if needs_search(self.status, id) {
            self.status = InputStatus::InProgress;
            true
        } else {
            false
        }
    }

    /// Ends the search stage on this entry at corpus index `id`: keeps the
    /// buffer with the relations found, marks the entry searched there, and
    /// adds the search to `totals`.
    pub fn finish_search(&mut self, id: usize, res: SearchResult, totals: &mut SearchMetadata)
        ensures
            final(self).input == res.input,
            final(self).status == InputStatus::Searched(id),
            final(self).seed == old(self).seed,
            final(totals).num_searched == sat_usize(old(totals).num_searched as int, 1),
            final(totals).num_found == sat_usize(
                old(totals).num_found as int,
                if res.found_any {
                    1
                } else {
                    0
                },
            ),
            final(totals).search_tests == sat_usize(
                old(totals).search_tests as int,
                res.test_count as int,
            ),
            final(totals).target_time_ms == sat_u64(
                old(totals).target_time_ms as int,
                res.target_test_ms as int,
            ),
            final(totals).total_time_ms == sat_u64(
                old(totals).total_time_ms as int,
                res.total_test_ms as int,
            ),
    {
        totals.record(&res);
        self.input = res.input;
        self.status = InputStatus::Searched(id);
    }

    /// Sets the seed of the next growth.
    pub fn set_seed(&mut self, seed: u64)
        ensures
            final(self).seed == seed,
            final(self).input == old(self).input,
            final(self).status == old(self).status,
    {
        self.seed = seed;
    }

    /// The number of bytes.
    pub fn len(&self) -> (r: usize)
        ensures
            r == self.input.raw@.len(),
    {
        self.input.raw.len()
    }

    /// The bytes.
    pub fn bytes(&self) -> (r: &[u8])
        ensures
            r@ == self.input.raw@,
    {
        self.input.get_raw()
    }

    /// Appends `data`, through `insert_disabling`.
    pub fn extend(&mut self, data: &[u8])
        requires
            old(self).wf(),
            old(self).input.raw@.len() + data@.len() <= usize::MAX,
        ensures
            final(self).wf(),
            final(self).input.relations@ == after_insert_disabling(
                old(self).input.relations@,
                old(self).input.raw@.len() as int,
                data@.len() as int,
            ),
            final(self).input.raw@ == sanitized(
                old(self).input.raw@ + data@,
                final(self).input.relations@,
            ),
    {
        let end = self.input.raw.len();
        self.input.insert_disabling(end, data);
        assert(insert_bytes(old(self).input.raw@, end as int, data@) =~= old(self).input.raw@
            + data@);
    }

    /// Grows the buffer to `new_len` bytes of `value`, inserted at an insertion
    /// point drawn with the entry's seed, or cuts it down to `new_len` bytes.
    /// An insertion point past the end, which only a disabled relation can
    /// name, stands for the end.
    pub fn resize(&mut self, new_len: usize, value: u8)
        requires
            old(self).wf(),
        ensures
            final(self).wf(),
            final(self).input.raw@.len() == new_len,
            new_len < old(self).input.raw@.len() ==> final(self).input.relations@
                == after_remove_disabling(
                old(self).input.relations@,
                new_len as int,
                old(self).input.raw@.len() - new_len,
            ),
            new_len > old(self).input.raw@.len() ==> exists|p: usize|
                p <= old(self).input.raw@.len() && (p == old(self).input.raw@.len()
                    || is_insertion_point(
                    old(self).input.raw@.len() as int,
                    old(self).input.relations@,
                    p,
                )) && #[trigger] after_insert_disabling(
                    old(self).input.relations@,
                    p as int,
                    new_len - old(self).input.raw@.len(),
                ) == final(self).input.relations@ && final(self).input.raw@ == sanitized(
                    insert_bytes(
                        old(self).input.raw@,
                        p as int,
                        Seq::new((new_len - old(self).input.raw@.len()) as nat, |i: int| value),
                    ),
                    final(self).input.relations@,
                ),
            new_len == old(self).input.raw@.len() ==> final(self).input == old(self).input,
    {
        let prev_len = self.input.raw.len();
        if new_len > prev_len {
            let diff = new_len - prev_len;
            let mut data: Vec<u8> = Vec::new();
            let mut k: usize = 0;
            while k < diff
                invariant
                    k <= diff,
                    data@ == Seq::new(k as nat, |i: int| value),
                decreases diff - k,
            {
                data.push(value);
                k = k + 1;
                assert(data@ =~= Seq::new(k as nat, |i: int| value));
            }
            let points = self.input.insertion_points();
            let mut rng = seeded_rng(self.seed);
            let pick = draw_below(&mut rng, points.len());
            let mut at = points[pick];
            if at > prev_len {
                at = prev_len;
            }
            proof {
                assert(points@.contains(points@[pick as int]));
            }
            self.input.insert_disabling(at, data.as_slice());
        } else if new_len < prev_len {
            self.input.remove_disabling(new_len, prev_len - new_len);
            assert(remove_bytes(old(self).input.raw@, new_len as int, prev_len - new_len).len()
                == new_len);
        }
    }

    /// Replaces the bytes `start .. end` with `replace_with`: the common length
    /// is overwritten, the rest inserted or removed through the disabling edits.
    pub fn splice(&mut self, start: usize, end: usize, replace_with: &[u8])
        requires
            old(self).wf(),
            start <= end <= old(self).input.raw@.len(),
            old(self).input.raw@.len() + replace_with@.len() <= usize::MAX,
        ensures
            final(self).wf(),
            final(self).input.raw@.len() == old(self).input.raw@.len() - (end - start)
                + replace_with@.len(),
            ({
                let rels = old(self).input.relations@;
                let raw = old(self).input.raw@;
                let prev = end - start;
                let new = replace_with@.len() as int;
                if prev == new {
                    final(self).input.relations@ == rels && final(self).input.raw@ == sanitized(
                        overwrite(raw, start as int, replace_with@),
                        rels,
                    )
                } else if prev > new {
                    final(self).input.relations@ == after_remove_disabling(
                        rels,
                        start + new,
                        prev - new,
                    ) && final(self).input.raw@ == sanitized(
                        remove_bytes(
                            sanitized(overwrite(raw, start as int, replace_with@), rels),
                            start + new,
                            prev - new,
                        ),
                        final(self).input.relations@,
                    )
                } else {
                    final(self).input.relations@ == after_insert_disabling(
                        rels,
                        end as int,
                        new - prev,
                    ) && final(self).input.raw@ == sanitized(
                        insert_bytes(
                            sanitized(
                                overwrite(raw, start as int, replace_with@.subrange(0, prev)),
                                rels,
                            ),
                            end as int,
                            replace_with@.subrange(prev, new),
                        ),
                        final(self).input.relations@,
                    )
                }
            }),
    {
        let prev_size = end - start;
        let new_size = replace_with.len();
        if prev_size == new_size {
            self.input.write(start, replace_with);
        } else if prev_size > new_size {
            self.input.write(start, replace_with);
            self.input.remove_disabling(start + new_size, prev_size - new_size);
        } else {
            let head = sub_bytes(replace_with, 0, prev_size);
            let tail = sub_bytes(replace_with, prev_size, new_size);
            self.input.write(start, head.as_slice());
            self.input.insert_disabling(end, tail.as_slice());
        }
    }

    /// Removes the bytes `start .. end`, through `remove_disabling`.
    pub fn drain(&mut self, start: usize, end: usize)
        requires
            old(self).wf(),
            start <= end <= old(self).input.raw@.len(),
        ensures
            final(self).wf(),
            final(self).input.relations@ == after_remove_disabling(
                old(self).input.relations@,
                start as int,
                end - start,
            ),
            final(self).input.raw@ == sanitized(
                remove_bytes(old(self).input.raw@, start as int, end - start),
                final(self).input.relations@,
            ),
    {
        self.input.remove_disabling(start, end - start);
    }
}

} // verus!
