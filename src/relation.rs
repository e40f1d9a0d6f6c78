//! One length or offset field, and how it follows edits of the buffer around it.

use crate::field::{decode, encode, lemma_decode_encode_exact, overwrite, store};
use vstd::arithmetic::power::pow;
use vstd::prelude::*;

verus! {

/// Widths, in bytes, that a field may have.
pub open spec fn supported_size(size: usize) -> bool {
    size == 1 || size == 2 || size == 3 || size == 4 || size == 8
}

/// The largest value that a field of `size` bytes holds.
pub open spec fn field_max(size: usize) -> int {
    if size == 1 {
        0xff
    } else if size == 2 {
        0xffff
    } else if size == 3 {
        0xff_ffff
    } else if size == 4 {
        0xffff_ffff
    } else {
        0xffff_ffff_ffff_ffff
    }
}

/// `x` once the `n` bytes from `idx` on are taken out: offsets past the removed
/// range move back by `n`, offsets inside it land on `idx`.
pub open spec fn shift_back(x: int, idx: int, n: int) -> int {
    if x <= idx {
        x
    } else if x - idx < n {
        idx
    } else {
        x - n
    }
}

/// A length or offset field stored at `pos` in a buffer.
///
/// The field holds `value` in `size` bytes; it measures the bytes from `anchor`
/// up to `insert`. The `old_*` fields hold one snapshot taken by `save`.
#[derive(Clone, Copy, Debug, PartialEq, Eq, Structural)]
pub struct Relation {
    pub pos: usize,
    pub value: u64,
    pub size: usize,
    pub le: bool,
    pub anchor: usize,
    pub insert: usize,
    /// A disabled relation is neither applied nor moved by edits.
    pub enabled: bool,
    pub old_pos: usize,
    pub old_anchor: usize,
    pub old_insert: usize,
    pub old_value: u64,
}

fn max_value(size: usize) -> (r: u64)
    requires
        supported_size(size),
    ensures
        r as int == field_max(size),
{
    if size == 1 {
        0xff
    } else if size == 2 {
        0xffff
    } else if size == 3 {
        0xff_ffff
    } else if size == 4 {
        0xffff_ffff
    } else {
        0xffff_ffff_ffff_ffff
    }
}

impl Relation {
    /// The field's own bytes, `pos .. pos + size`, lie inside a buffer of `len` bytes,
    /// and so does the measured range.
    pub open spec fn fits(self, len: int) -> bool {
        &&& supported_size(self.size)
        &&& self.pos + self.size <= len
        &&& self.anchor <= self.insert <= len
    }

    /// An insertion at `idx` would land strictly inside the field's bytes.
    pub open spec fn splits(self, idx: int) -> bool {
        self.pos < idx < self.pos + self.size
    }

    /// An insertion at `idx` lands in the measured range.
    pub open spec fn grows(self, idx: int) -> bool {
        self.anchor <= idx <= self.insert
    }

    /// The relation can absorb `n` bytes inserted at `idx`.
    pub open spec fn accepts_insert(self, idx: int, n: int) -> bool {
        &&& !self.splits(idx)
        &&& self.grows(idx) ==> self.value + n <= field_max(self.size)
    }

    /// The relation after `n` bytes were inserted at `idx`.
    pub open spec fn after_insert(self, idx: int, n: int) -> Relation {
        Relation {
            pos: if idx <= self.pos { (self.pos + n) as usize } else { self.pos },
            value: if self.grows(idx) { (self.value + n) as u64 } else { self.value },
            anchor: if idx < self.anchor { (self.anchor + n) as usize } else { self.anchor },
            insert: if idx <= self.insert { (self.insert + n) as usize } else { self.insert },
            ..self
        }
    }

    /// Offsets stay representable when `n` bytes are inserted.
    pub open spec fn room_for(self, n: int) -> bool {
        &&& self.pos + self.size + n <= usize::MAX
        &&& self.anchor + n <= usize::MAX
        &&& self.insert + n <= usize::MAX
    }

    /// Removing `n` bytes at `idx` would take bytes of the field itself.
    pub open spec fn cuts(self, idx: int, n: int) -> bool {
        idx < self.pos + self.size && idx + n > self.pos
    }

    /// How many of the measured bytes a removal of `n` bytes at `idx` takes.
    pub open spec fn covered(self, idx: int, n: int) -> int {
        let lo = if idx > self.anchor { idx } else { self.anchor as int };
        let hi = if idx + n < self.insert { idx + n } else { self.insert as int };
        if hi > lo {
            hi - lo
        } else {
            0
        }
    }

    /// The relation can absorb the removal of `n` bytes at `idx`.
    pub open spec fn accepts_remove(self, idx: int, n: int) -> bool {
        &&& !self.cuts(idx, n)
        &&& self.covered(idx, n) <= self.value
    }

    /// The relation after `n` bytes at `idx` were removed.
    pub open spec fn after_remove(self, idx: int, n: int) -> Relation {
        Relation {
            pos: shift_back(self.pos as int, idx, n) as usize,
            value: (self.value - self.covered(idx, n)) as u64,
            anchor: shift_back(self.anchor as int, idx, n) as usize,
            insert: shift_back(self.insert as int, idx, n) as usize,
            ..self
        }
    }

    /// The bytes that encode the field's value.
    pub open spec fn encoded(self) -> Seq<u8> {
        encode(self.value as nat, self.size as nat, self.le)
    }

    /// `buf` with the field's value written at its position.
    pub open spec fn applied(self, buf: Seq<u8>) -> Seq<u8> {
        overwrite(buf, self.pos as int, self.encoded())
    }

    /// The relation with its snapshot taken.
    pub open spec fn saved(self) -> Relation {
        Relation {
            old_pos: self.pos,
            old_anchor: self.anchor,
            old_insert: self.insert,
            old_value: self.value,
            ..self
        }
    }

    /// The relation returned to its snapshot.
    pub open spec fn restored(self) -> Relation {
        Relation {
            pos: self.old_pos,
            anchor: self.old_anchor,
            insert: self.old_insert,
            value: self.old_value,
            ..self
        }
    }

    /// An enabled relation whose snapshot equals its current state.
    pub fn new(pos: usize, value: u64, size: usize, le: bool, anchor: usize, insert: usize) -> (r:
        Self)
        ensures
            r == (Relation {
                pos,
                value,
                size,
                le,
                anchor,
                insert,
                enabled: true,
                old_pos: pos,
                old_anchor: anchor,
                old_insert: insert,
                old_value: value,
            }),
    {
        Relation {
            pos,
            value,
            size,
            le,
            anchor,
            insert,
            enabled: true,
            old_pos: pos,
            old_anchor: anchor,
            old_insert: insert,
            old_value: value,
        }
    }

    /// Follows the insertion of `n` bytes at `idx`.
    ///
    /// Fails, and leaves the relation as it was, when the insertion splits the
    /// field or makes the value too large for the field's width.
    pub fn on_insert(&mut self, idx: usize, n: usize) -> (r: Result<(), ()>)
        requires
            supported_size(old(self).size),
            old(self).room_for(n as int),
        ensures
            r is Ok <==> old(self).accepts_insert(idx as int, n as int),
            r is Ok ==> *final(self) == old(self).after_insert(idx as int, n as int),
            r is Err ==> *final(self) == *old(self),
    {
        if idx > self.pos && idx < self.pos + self.size {
            return Err(());
        }
        let grows = idx >= self.anchor && idx <= self.insert;
        if grows {
            let max = max_value(self.size);
            if self.value > max || n as u64 > max - self.value {
                return Err(());
            }
            self.value = self.value + n as u64;
        }
        if idx <= self.pos {
            self.pos = self.pos + n;
        }
        // An anchor at 0 never moves: offsets from the start stay rooted there.
        if idx < self.anchor {
            self.anchor = self.anchor + n;
        }
        if idx <= self.insert {
            self.insert = self.insert + n;
        }
        Ok(())
    }

    /// Follows the removal of `n` bytes at `idx`.
    ///
    /// Fails, and leaves the relation as it was, when the removal takes bytes of
    /// the field or more measured bytes than the value counts.
    pub fn on_remove(&mut self, idx: usize, n: usize) -> (r: Result<(), ()>)
        requires
            old(self).pos + old(self).size <= usize::MAX,
            idx + n <= usize::MAX,
        ensures
            r is Ok <==> old(self).accepts_remove(idx as int, n as int),
            r is Ok ==> *final(self) == old(self).after_remove(idx as int, n as int),
            r is Err ==> *final(self) == *old(self),
    {
        if idx < self.pos + self.size && idx + n > self.pos {
            return Err(());
        }
        let lo = if idx > self.anchor { idx } else { self.anchor };
        let hi = if idx + n < self.insert { idx + n } else { self.insert };
        let covered: usize = if hi > lo { hi - lo } else { 0 };
        if covered as u64 > self.value {
            return Err(());
        }
        self.value = self.value - covered as u64;
        self.pos = shift_back_exec(self.pos, idx, n);
        self.anchor = shift_back_exec(self.anchor, idx, n);
        self.insert = shift_back_exec(self.insert, idx, n);
        Ok(())
    }

    /// Writes the value into the field's bytes of `input`.
    pub fn apply(&self, input: &mut [u8])
        requires
            supported_size(self.size),
            self.pos + self.size <= old(input)@.len(),
        ensures
            final(input)@ == self.applied(old(input)@),
    {
        store(input, self.pos, self.value, self.size, self.le);
    }

    /// Takes a snapshot of the position, anchor, insert point and value.
    pub fn save(&mut self)
        ensures
            *final(self) == old(self).saved(),
    {
        self.old_pos = self.pos;
        self.old_anchor = self.anchor;
        self.old_insert = self.insert;
        self.old_value = self.value;
    }

    /// Returns the position, anchor, insert point and value to the snapshot.
    pub fn restore(&mut self)
        ensures
            *final(self) == old(self).restored(),
    {
        self.pos = self.old_pos;
        self.anchor = self.old_anchor;
        self.insert = self.old_insert;
        self.value = self.old_value;
    }
}

fn shift_back_exec(x: usize, idx: usize, n: usize) -> (r: usize)
    ensures
        r == shift_back(x as int, idx as int, n as int),
{
    if x <= idx {
        x
    } else if x - idx < n {
        idx
    } else {
        x - n
    }
}

/// A relation that fits a buffer still fits it once an insertion it accepts went in.
pub proof fn lemma_insert_fits(r: Relation, len: int, idx: int, n: int)
    requires
        r.fits(len),
        0 <= idx <= len,
        0 <= n,
        r.room_for(n),
        r.accepts_insert(idx, n),
    ensures
        r.after_insert(idx, n).fits(len + n),
{
}

/// A relation that fits a buffer still fits it once a removal it accepts took place.
pub proof fn lemma_remove_fits(r: Relation, len: int, idx: int, n: int)
    requires
        r.fits(len),
        0 <= idx,
        0 <= n,
        idx + n <= len,
        r.accepts_remove(idx, n),
    ensures
        r.after_remove(idx, n).fits(len - n),
{
}

/// Removing what was just inserted gives the relation back.
pub proof fn lemma_insert_remove_round_trip(r: Relation, idx: int, n: int)
    requires
        0 <= idx,
        0 <= n,
        supported_size(r.size),
        r.room_for(n),
        r.accepts_insert(idx, n),
    ensures
        r.after_insert(idx, n).accepts_remove(idx, n),
        r.after_insert(idx, n).after_remove(idx, n) == r,
{
}

/// An insertion strictly inside the field's bytes is refused, whatever its length.
pub proof fn lemma_split_rejected(r: Relation, idx: int, n: int)
    requires
        r.pos < idx < r.pos + r.size,
    ensures
        !r.accepts_insert(idx, n),
{
}

/// An anchor at 0 stays at 0 through every insertion.
pub proof fn lemma_anchor_pinned(r: Relation, idx: int, n: int)
    requires
        r.anchor == 0,
        0 <= idx,
    ensures
        r.after_insert(idx, n).anchor == 0,
{
}

/// Applying a relation changes exactly its `size` bytes, and reading them back in
/// the same byte order gives its value, when the value fits the width.
pub proof fn lemma_apply_round_trip(r: Relation, buf: Seq<u8>)
    requires
        supported_size(r.size),
        r.pos + r.size <= buf.len(),
        r.value <= field_max(r.size),
    ensures
        r.applied(buf).len() == buf.len(),
        forall|j: int|
            0 <= j < buf.len() && !(r.pos <= j < r.pos + r.size) ==> #[trigger] r.applied(buf)[j]
                == buf[j],
        decode(r.applied(buf).subrange(r.pos as int, r.pos + r.size), r.le) == r.value,
{
    let out = r.applied(buf);
    assert(out.subrange(r.pos as int, r.pos + r.size) =~= r.encoded());
    reveal_with_fuel(pow, 9);
    lemma_decode_encode_exact(r.value as nat, r.size as nat, r.le);
}

} // verus!
