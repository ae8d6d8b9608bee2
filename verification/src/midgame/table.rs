//! A table of bounds on searched positions: buckets of four slots.

use vstd::prelude::*;

use crate::bits::lemma_masked;
use crate::board::Board;
use crate::midgame::value::{discs, ground, knows_end, lemma_nn_bound, nn_value, view_hash};
use crate::search::{INF, LeafEval};

verus! {

/// Slots of a bucket.
pub const TT_WAYS: usize = 4;

/// No move.
pub const NO_MOVE: u8 = 64;

/// Bounds on a position's value, and the moves to try first.
#[derive(Clone, Copy, Debug)]
pub struct TtEntry {
    pub key: u64,
    pub lower: i32,
    pub upper: i32,
    pub best: u8,
    /// The move that the best one displaced.
    pub best2: u8,
    pub depth: u8,
    /// How accurately the position was searched: higher cuts less.
    pub relax: u8,
    pub used: bool,
}

/// How much a slot is worth: depth first, accuracy among equals.
pub open spec fn level(depth: u8, relax: u8) -> int {
    depth * 256 + relax
}

/// How much a slot is worth: depth first, accuracy among equals.
pub fn tt_level(depth: u8, relax: u8) -> (n: u32)
    ensures
        n == level(depth, relax),
{
    depth as u32 * 256 + relax as u32
}

impl TtEntry {
    /// An unused slot.
    pub open spec fn blank() -> TtEntry {
        TtEntry {
            key: 0,
            lower: (-INF) as i32,
            upper: INF,
            best: NO_MOVE,
            best2: NO_MOVE,
            depth: 0,
            relax: 0,
            used: false,
        }
    }

    /// An unused slot.
    pub fn empty() -> (t: TtEntry)
        ensures
            t == TtEntry::blank(),
    {
        TtEntry {
            key: 0,
            lower: -INF,
            upper: INF,
            best: NO_MOVE,
            best2: NO_MOVE,
            depth: 0,
            relax: 0,
            used: false,
        }
    }

    /// The bounds are values.
    pub open spec fn in_bounds(self) -> bool {
        -INF <= self.lower <= INF && -INF <= self.upper <= INF
    }

    /// The slot holds the position with this key.
    pub open spec fn is_for(self, hash: u64) -> bool {
        self.used && self.key == hash
    }

    /// What the slot says of the positions of `set` is right for searches up to
    /// the horizon `h`.
    pub open spec fn right<E: LeafEval>(self, set: Set<Board>, e: E, h: int) -> bool {
        self.used ==> forall|b: Board| #[trigger]
            set.contains(b) && view_hash(b) == self.key ==> {
                &&& discs(b) + self.depth <= h
                &&& discs(b) + self.depth == h && knows_end(set, e, h) ==> self.lower <= nn_value(e, b, self.depth as nat)
                    <= self.upper
                &&& self.best < 64 ==> b.legal(self.best as int)
            }
    }
}

/// What was found about a position: its key, how deep and how accurately it
/// was searched, the window, the value and the best move.
#[derive(Clone, Copy, Debug)]
pub struct Finding {
    pub hash: u64,
    pub depth: u8,
    pub relax: u8,
    pub alpha: i32,
    pub beta: i32,
    pub value: i32,
    pub best: u8,
}

impl Finding {
    /// The bound from below that the value is, the window being what it was.
    pub open spec fn lower(self) -> i32 {
        if self.value > self.alpha {
            self.value
        } else {
            (-INF) as i32
        }
    }

    /// The bound from above that the value is.
    pub open spec fn upper(self) -> i32 {
        if self.value < self.beta {
            self.value
        } else {
            INF
        }
    }

    /// The slot with bounds of the same level brought together. Each bound
    /// mends the other where they would cross.
    pub open spec fn joined(self, t: TtEntry) -> TtEntry {
        let high = self.value < self.beta && self.value < t.upper;
        let t1 = if high {
            TtEntry {
                upper: self.value,
                lower: if self.value > self.alpha && self.value < t.lower {
                    self.value
                } else {
                    t.lower
                },
                ..t
            }
        } else {
            t
        };
        if self.value > self.alpha && t1.lower < self.value {
            TtEntry {
                lower: self.value,
                upper: if self.value < self.beta && t1.upper < self.value {
                    self.value
                } else {
                    t1.upper
                },
                ..t1
            }
        } else {
            t1
        }
    }

    /// The slot after the finding about the same position, unless the slot is
    /// worth more: bounds of the same level are brought together, others
    /// replaced; a new best move displaces the old one.
    pub open spec fn merged(self, t: TtEntry) -> TtEntry {
        let u = if level(t.depth, t.relax) == level(self.depth, self.relax) {
            self.joined(t)
        } else {
            TtEntry {
                lower: self.lower(),
                upper: self.upper(),
                depth: self.depth,
                relax: self.relax,
                ..t
            }
        };
        if self.value > self.alpha && self.best < 64 && u.best != self.best {
            TtEntry { best2: u.best, best: self.best, ..u }
        } else {
            u
        }
    }

    /// The move that a slot of its own keeps: none where the search failed low,
    /// since nothing was shown of it.
    pub open spec fn kept_move(self) -> u8 {
        if self.value > self.alpha {
            self.best
        } else {
            NO_MOVE
        }
    }

    /// A slot that holds the finding alone.
    pub open spec fn fresh(self) -> TtEntry {
        TtEntry {
            key: self.hash,
            lower: self.lower(),
            upper: self.upper(),
            best: self.kept_move(),
            best2: NO_MOVE,
            depth: self.depth,
            relax: self.relax,
            used: true,
        }
    }

}

/// The first slot from `i` on that holds the position, or the number of slots.
pub open spec fn slot_for(bucket: Seq<TtEntry>, hash: u64, i: int) -> int
    decreases bucket.len() - i,
{
    if i < 0 || i >= bucket.len() {
        bucket.len() as int
    } else if bucket[i].is_for(hash) {
        i
    } else {
        slot_for(bucket, hash, i + 1)
    }
}

/// The first slot from `i` on that is free or worth no more than `n`, or the
/// number of slots.
pub open spec fn slot_below(bucket: Seq<TtEntry>, n: int, i: int) -> int
    decreases bucket.len() - i,
{
    if i < 0 || i >= bucket.len() {
        bucket.len() as int
    } else if !bucket[i].used || level(bucket[i].depth, bucket[i].relax) <= n {
        i
    } else {
        slot_below(bucket, n, i + 1)
    }
}

/// The bucket after a finding. The position's own slot takes it, unless it is
/// worth more; else the first slot that is worth no more; else it is dropped.
pub open spec fn put_in(bucket: Seq<TtEntry>, f: Finding) -> Seq<TtEntry> {
    let n = level(f.depth, f.relax);
    let i = slot_for(bucket, f.hash, 0);
    let j = slot_below(bucket, n, 0);
    if i < bucket.len() {
        if level(bucket[i].depth, bucket[i].relax) > n {
            bucket
        } else {
            bucket.update(i, f.merged(bucket[i]))
        }
    } else if j < bucket.len() {
        bucket.update(j, f.fresh())
    } else {
        bucket
    }
}

/// The bucket with a move to try first: the position's own slot takes it, and
/// where it has none, the first slot that is free or was not searched. Bounds
/// stay as they are.
pub open spec fn seeded(bucket: Seq<TtEntry>, hash: u64, mv: u8) -> Seq<TtEntry> {
    let i = slot_for(bucket, hash, 0);
    let j = slot_below(bucket, 0, 0);
    if i < bucket.len() {
        let t = bucket[i];
        bucket.update(
            i,
            TtEntry {
                best: mv,
                best2: if t.best != mv {
                    t.best
                } else {
                    t.best2
                },
                ..t
            },
        )
    } else if j < bucket.len() {
        bucket.update(j, TtEntry { key: hash, best: mv, used: true, ..TtEntry::blank() })
    } else {
        bucket
    }
}

/// Where the slot of a position is looked for.
pub proof fn lemma_slot_for(bucket: Seq<TtEntry>, hash: u64, i: int)
    requires
        0 <= i <= bucket.len(),
    ensures
        i <= slot_for(bucket, hash, i) <= bucket.len(),
        slot_for(bucket, hash, i) < bucket.len() ==> bucket[slot_for(bucket, hash, i)].is_for(hash),
        forall|k: int| i <= k < slot_for(bucket, hash, i) ==> !(#[trigger] bucket[k]).is_for(hash),
    decreases bucket.len() - i,
{
    if i < bucket.len() && !bucket[i].is_for(hash) {
        lemma_slot_for(bucket, hash, i + 1);
    }
}

/// Where room is looked for.
pub proof fn lemma_slot_below(bucket: Seq<TtEntry>, n: int, i: int)
    requires
        0 <= i <= bucket.len(),
    ensures
        i <= slot_below(bucket, n, i) <= bucket.len(),
        slot_below(bucket, n, i) < bucket.len() ==> ({
            let t = bucket[slot_below(bucket, n, i)];
            !t.used || level(t.depth, t.relax) <= n
        }),
        forall|k: int|
            i <= k < slot_below(bucket, n, i) ==> (#[trigger] bucket[k]).used && level(
                bucket[k].depth,
                bucket[k].relax,
            ) > n,
    decreases bucket.len() - i,
{
    if i < bucket.len() {
        lemma_slot_below(bucket, n, i + 1);
    }
}

/// Every slot is right.
pub open spec fn slots_right<E: LeafEval>(slots: Seq<TtEntry>, set: Set<Board>, e: E, h: int) -> bool {
    forall|i: int| 0 <= i < slots.len() ==> (#[trigger] slots[i]).right(set, e, h)
}

/// Having a legal move tried first leaves a right bucket right: no bound comes
/// or goes.
pub proof fn law_seed_keeps_right<E: LeafEval>(
    bucket: Seq<TtEntry>,
    set: Set<Board>,
    e: E,
    h: int,
    hash: u64,
    mv: u8,
)
    requires
        e.valid(),
        ground(set, e, h),
        slots_right(bucket, set, e, h),
        forall|b: Board| #[trigger]
            set.contains(b) && view_hash(b) == hash ==> b.legal(mv as int) && discs(b) <= h,
    ensures
        slots_right(seeded(bucket, hash, mv), set, e, h),
{
    let i = slot_for(bucket, hash, 0);
    let j = slot_below(bucket, 0, 0);
    lemma_slot_for(bucket, hash, 0);
    lemma_slot_below(bucket, 0, 0);
    let after = seeded(bucket, hash, mv);
    assert forall|k: int| 0 <= k < after.len() implies (#[trigger] after[k]).right(set, e, h) by {
        assert(bucket[k].right(set, e, h));
        if i < bucket.len() {
            if k == i {
                assert forall|b: Board| #[trigger]
                    set.contains(b) && view_hash(b) == after[k].key implies {
                    &&& discs(b) + after[k].depth <= h
                    &&& discs(b) + after[k].depth == h && knows_end(set, e, h) ==> after[k].lower <= nn_value(
                        e,
                        b,
                        after[k].depth as nat,
                    ) <= after[k].upper
                    &&& after[k].best < 64 ==> b.legal(after[k].best as int)
                } by {
                }
            }
        } else if j < bucket.len() && k == j {
            assert forall|b: Board| #[trigger]
                set.contains(b) && view_hash(b) == after[k].key implies {
                &&& discs(b) + after[k].depth <= h
                &&& discs(b) + after[k].depth == h && knows_end(set, e, h) ==> after[k].lower <= nn_value(
                    e,
                    b,
                    after[k].depth as nat,
                ) <= after[k].upper
                &&& after[k].best < 64 ==> b.legal(after[k].best as int)
            } by {
                lemma_nn_bound(e, b, 0);
            }
        }
    }
}

/// Of two slots the one that is worth more; the first among equals.
pub open spec fn worth_more(a: TtEntry, b: TtEntry) -> TtEntry {
    if b.used && (!a.used || level(a.depth, a.relax) < level(b.depth, b.relax)) {
        b
    } else {
        a
    }
}

/// Two tables brought together, slot by slot.
pub open spec fn joined_slots(a: Seq<TtEntry>, b: Seq<TtEntry>) -> Seq<TtEntry> {
    Seq::new(a.len(), |i: int| worth_more(a[i], b[i]))
}

/// Tables that are right are right together.
pub proof fn law_join_keeps_right<E: LeafEval>(
    a: Seq<TtEntry>,
    b: Seq<TtEntry>,
    set: Set<Board>,
    e: E,
    h: int,
)
    requires
        slots_right(a, set, e, h),
        slots_right(b, set, e, h),
        a.len() == b.len(),
    ensures
        slots_right(joined_slots(a, b), set, e, h),
{
    assert forall|i: int| 0 <= i < a.len() implies (#[trigger] joined_slots(a, b)[i]).right(
        set,
        e,
        h,
    ) by {
        assert(a[i].right(set, e, h));
        assert(b[i].right(set, e, h));
    }
}

/// The table.
#[derive(Debug)]
pub struct SharedTt {
    pub slots: Vec<TtEntry>,
    pub mask: u64,
}

impl SharedTt {
    /// Every masked key has a bucket.
    pub open spec fn wf(self) -> bool {
        &&& self.slots@.len() == 4 * (self.mask + 1)
        &&& self.mask < 0x8000_0000
        &&& forall|i: int|
            0 <= i < self.slots@.len() ==> (#[trigger] self.slots@[i]).in_bounds()
    }

    /// Where the bucket of a key starts.
    pub open spec fn base(self, hash: u64) -> int {
        4 * (hash & self.mask)
    }

    /// The bucket of a key.
    pub open spec fn bucket(self, hash: u64) -> Seq<TtEntry> {
        self.slots@.subrange(self.base(hash), self.base(hash) + 4)
    }

    /// What the table holds of the position with this key.
    pub open spec fn entry(self, hash: u64) -> TtEntry {
        let i = slot_for(self.bucket(hash), hash, 0);
        if i < 4 {
            self.bucket(hash)[i]
        } else {
            TtEntry::blank()
        }
    }

    /// A table of `2^bits` slots, and at least one bucket.
    pub fn new(bits: u32) -> (t: SharedTt)
        requires
            bits <= 31,
        ensures
            t.wf(),
            bits >= 2 ==> t.mask + 1 == (1u64 << ((bits - 2) as u64)),
            bits < 2 ==> t.mask == 0,
            forall|i: int| 0 <= i < t.slots@.len() ==> #[trigger] t.slots@[i] == TtEntry::blank(),
    {
        let n: u64 = if bits >= 2 {
            proof {
                lemma_power_small((bits - 2) as u64);
            }
            1u64 << ((bits - 2) as u64)
        } else {
            1
        };
        let total: usize = 4 * (n as usize);
        let mut slots: Vec<TtEntry> = Vec::new();
        let mut i: usize = 0;
        while i < total
            invariant
                i <= total,
                slots@.len() == i,
                forall|k: int| 0 <= k < i ==> #[trigger] slots@[k] == TtEntry::blank(),
            decreases total - i,
        {
            slots.push(TtEntry::empty());
            i = i + 1;
        }
        SharedTt { slots, mask: n - 1 }
    }

    /// Take over what is worth more in another table of the same size, slot by
    /// slot.
    pub fn join(&mut self, other: &SharedTt)
        requires
            old(self).wf(),
            other.wf(),
            other.mask == old(self).mask,
        ensures
            final(self).wf(),
            final(self).mask == old(self).mask,
            final(self).slots@ == joined_slots(old(self).slots@, other.slots@),
    {
        let ghost before = self.slots@;
        let len: usize = self.slots.len();
        let mut i: usize = 0;
        while i < len
            invariant
                self.wf(),
                other.wf(),
                other.mask == self.mask,
                self.mask == old(self).mask,
                len == self.slots@.len(),
                len == before.len(),
                i <= len,
                forall|k: int|
                    0 <= k < i ==> #[trigger] self.slots@[k] == worth_more(
                        before[k],
                        other.slots@[k],
                    ),
                forall|k: int| i <= k < len ==> #[trigger] self.slots@[k] == before[k],
            decreases len - i,
        {
            let (a, b): (TtEntry, TtEntry) = (self.slots[i], other.slots[i]);
            if b.used && (!a.used || tt_level(a.depth, a.relax) < tt_level(b.depth, b.relax)) {
                self.slots.set(i, b);
            }
            i = i + 1;
        }
        assert(self.slots@ =~= joined_slots(before, other.slots@));
    }

    /// What the table holds of the position with this key.
    pub fn get(&self, hash: u64) -> (t: TtEntry)
        requires
            self.wf(),
        ensures
            t == self.entry(hash),
            t.in_bounds(),
    {
        let mask: u64 = self.mask;
        proof {
            lemma_masked(hash, mask);
        }
        let len: usize = self.slots.len();
        let base: usize = 4 * ((hash & mask) as usize);
        let ghost bucket = self.bucket(hash);
        let mut i: usize = 0;
        while i < 4
            invariant
                self.wf(),
                i <= 4,
                base == self.base(hash),
                base + 4 <= self.slots@.len(),
                bucket == self.bucket(hash),
                slot_for(bucket, hash, 0) == slot_for(bucket, hash, i as int),
            decreases 4 - i,
        {
            let t: TtEntry = self.slots[base + i];
            assert(t == bucket[i as int]);
            if t.used && t.key == hash {
                return t;
            }
            i = i + 1;
        }
        TtEntry::empty()
    }

    /// Store a finding.
    pub fn put(&mut self, f: Finding)
        requires
            old(self).wf(),
            -INF <= f.value <= INF,
        ensures
            final(self).wf(),
            final(self).mask == old(self).mask,
            final(self).bucket(f.hash) == put_in(old(self).bucket(f.hash), f),
            forall|k: int|
                0 <= k < old(self).slots@.len() && !(old(self).base(f.hash) <= k < old(self).base(
                    f.hash,
                ) + 4) ==> #[trigger] final(self).slots@[k] == old(self).slots@[k],
    {
        let mask: u64 = self.mask;
        proof {
            lemma_masked(f.hash, mask);
        }
        let len: usize = self.slots.len();
        let base: usize = 4 * ((f.hash & mask) as usize);
        let n: u32 = tt_level(f.depth, f.relax);
        let ghost bucket = self.bucket(f.hash);
        let mut i: usize = 0;
        while i < 4
            invariant
                *self == *old(self),
                self.wf(),
                -INF <= f.value <= INF,
                i <= 4,
                n == level(f.depth, f.relax),
                base == self.base(f.hash),
                base + 4 <= self.slots@.len(),
                bucket == self.bucket(f.hash),
                slot_for(bucket, f.hash, 0) == slot_for(bucket, f.hash, i as int),
            decreases 4 - i,
        {
            let t: TtEntry = self.slots[base + i];
            assert(t == bucket[i as int]);
            if t.used && t.key == f.hash {
                if tt_level(t.depth, t.relax) <= n {
                    let u: TtEntry = merge(t, f);
                    self.slots.set(base + i, u);
                    assert(self.bucket(f.hash) =~= bucket.update(i as int, u));
                }
                return;
            }
            i = i + 1;
        }
        let mut j: usize = 0;
        while j < 4
            invariant
                *self == *old(self),
                self.wf(),
                -INF <= f.value <= INF,
                j <= 4,
                n == level(f.depth, f.relax),
                base == self.base(f.hash),
                base + 4 <= self.slots@.len(),
                bucket == self.bucket(f.hash),
                slot_for(bucket, f.hash, 0) == 4,
                slot_below(bucket, n as int, 0) == slot_below(bucket, n as int, j as int),
            decreases 4 - j,
        {
            let t: TtEntry = self.slots[base + j];
            assert(t == bucket[j as int]);
            if !t.used || tt_level(t.depth, t.relax) <= n {
                let u: TtEntry = first_entry(f);
                self.slots.set(base + j, u);
                assert(self.bucket(f.hash) =~= bucket.update(j as int, u));
                return;
            }
            j = j + 1;
        }
    }

    /// The move that the table would try first in the position with this key.
    pub fn best_move(&self, hash: u64) -> (m: Option<u8>)
        requires
            self.wf(),
        ensures
            m == if self.entry(hash).used && self.entry(hash).best < 64 {
                Some(self.entry(hash).best)
            } else {
                None
            },
    {
        let t: TtEntry = self.get(hash);
        if t.used && t.best < 64 {
            Some(t.best)
        } else {
            None
        }
    }

    /// Have a move tried first in the position with this key.
    pub fn seed_move(&mut self, hash: u64, mv: u8)
        requires
            old(self).wf(),
        ensures
            final(self).wf(),
            final(self).mask == old(self).mask,
            final(self).bucket(hash) == seeded(old(self).bucket(hash), hash, mv),
            forall|k: int|
                0 <= k < old(self).slots@.len() && !(old(self).base(hash) <= k < old(self).base(
                    hash,
                ) + 4) ==> #[trigger] final(self).slots@[k] == old(self).slots@[k],
    {
        let mask: u64 = self.mask;
        proof {
            lemma_masked(hash, mask);
        }
        let len: usize = self.slots.len();
        let base: usize = 4 * ((hash & mask) as usize);
        let ghost bucket = self.bucket(hash);
        let mut i: usize = 0;
        while i < 4
            invariant
                *self == *old(self),
                self.wf(),
                i <= 4,
                base == self.base(hash),
                base + 4 <= self.slots@.len(),
                bucket == self.bucket(hash),
                slot_for(bucket, hash, 0) == slot_for(bucket, hash, i as int),
            decreases 4 - i,
        {
            let t: TtEntry = self.slots[base + i];
            assert(t == bucket[i as int]);
            if t.used && t.key == hash {
                let mut u: TtEntry = t;
                if t.best != mv {
                    u.best2 = t.best;
                }
                u.best = mv;
                self.slots.set(base + i, u);
                assert(self.bucket(hash) =~= bucket.update(i as int, u));
                return;
            }
            i = i + 1;
        }
        let mut j: usize = 0;
        while j < 4
            invariant
                *self == *old(self),
                self.wf(),
                j <= 4,
                base == self.base(hash),
                base + 4 <= self.slots@.len(),
                bucket == self.bucket(hash),
                slot_for(bucket, hash, 0) == 4,
                slot_below(bucket, 0, 0) == slot_below(bucket, 0, j as int),
            decreases 4 - j,
        {
            let t: TtEntry = self.slots[base + j];
            assert(t == bucket[j as int]);
            if !t.used || tt_level(t.depth, t.relax) == 0 {
                let mut u: TtEntry = TtEntry::empty();
                u.key = hash;
                u.best = mv;
                u.used = true;
                self.slots.set(base + j, u);
                assert(self.bucket(hash) =~= bucket.update(j as int, u));
                return;
            }
            j = j + 1;
        }
    }

    /// Forget every position.
    pub fn clear(&mut self)
        requires
            old(self).wf(),
        ensures
            final(self).wf(),
            final(self).mask == old(self).mask,
            forall|i: int|
                0 <= i < final(self).slots@.len() ==> #[trigger] final(self).slots@[i] == (TtEntry {
                    used: false,
                    ..old(self).slots@[i]
                }),
    {
        let n: usize = self.slots.len();
        let mut i: usize = 0;
        while i < n
            invariant
                old(self).wf(),
                self.mask == old(self).mask,
                n == self.slots@.len() == old(self).slots@.len(),
                i <= n,
                forall|k: int|
                    0 <= k < n ==> #[trigger] self.slots@[k] == if k < i {
                        TtEntry { used: false, ..old(self).slots@[k] }
                    } else {
                        old(self).slots@[k]
                    },
            decreases n - i,
        {
            let mut t: TtEntry = self.slots[i];
            t.used = false;
            self.slots.set(i, t);
            i = i + 1;
        }
    }
}

/// Powers of two below the thirtieth.
proof fn lemma_power_small(n: u64)
    requires
        n <= 29,
    ensures
        1 <= (1u64 << n) <= 0x2000_0000,
{
    assert(n <= 29 ==> 1 <= (1u64 << n) <= 0x2000_0000) by (bit_vector);
}

/// The slot after a finding about the same position.
fn merge(t: TtEntry, f: Finding) -> (u: TtEntry)
    ensures
        u == f.merged(t),
{
    let mut u: TtEntry = t;
    if tt_level(t.depth, t.relax) == tt_level(f.depth, f.relax) {
        if f.value < f.beta && f.value < u.upper {
            u.upper = f.value;
            if f.value > f.alpha && f.value < u.lower {
                u.lower = f.value;
            }
        }
        if f.value > f.alpha && u.lower < f.value {
            u.lower = f.value;
            if f.value < f.beta && u.upper < f.value {
                u.upper = f.value;
            }
        }
    } else {
        let e: TtEntry = first_entry(f);
        u.lower = e.lower;
        u.upper = e.upper;
        u.depth = f.depth;
        u.relax = f.relax;
    }
    if f.value > f.alpha && f.best < 64 && u.best != f.best {
        u.best2 = u.best;
        u.best = f.best;
    }
    u
}

/// A slot that holds the finding alone.
fn first_entry(f: Finding) -> (t: TtEntry)
    ensures
        t == f.fresh(),
{
    TtEntry {
        key: f.hash,
        lower: if f.value > f.alpha {
            f.value
        } else {
            -INF
        },
        upper: if f.value < f.beta {
            f.value
        } else {
            INF
        },
        best: if f.value > f.alpha {
            f.best
        } else {
            NO_MOVE
        },
        best2: NO_MOVE,
        depth: f.depth,
        relax: f.relax,
        used: true,
    }
}

/// What a finding says of a value: it is above the window's lower end by what was
/// found where it was found above it, and below likewise. Bounds of the same level
/// that are brought together leave no value out that both admit, and admit none
/// that one of them leaves out.
pub proof fn law_findings_narrow(f: Finding, t: TtEntry, x: int)
    requires
        -INF <= x <= INF,
        f.alpha < f.beta,
        t.lower <= t.upper,
        level(t.depth, t.relax) == level(f.depth, f.relax),
        f.lower() <= x <= f.upper(),
        t.lower <= x <= t.upper,
    ensures
        f.merged(t).lower <= x <= f.merged(t).upper,
        f.merged(t).lower >= t.lower && f.merged(t).upper <= t.upper,
        f.value > f.alpha ==> f.merged(t).lower >= f.value,
        f.value < f.beta ==> f.merged(t).upper <= f.value,
        f.merged(t).depth == t.depth && f.merged(t).key == t.key,
{
}

/// A value that was found inside the window is exact; one at its upper end or above
/// is a bound from below alone, one at its lower end or below a bound from above
/// alone.
pub proof fn law_window_makes_bounds(f: Finding)
    requires
        f.alpha < f.beta,
        -INF < f.value < INF,
    ensures
        f.alpha < f.value < f.beta ==> f.fresh().lower == f.value && f.fresh().upper == f.value,
        f.value >= f.beta ==> f.fresh().lower == f.value && f.fresh().upper == INF,
        f.value <= f.alpha ==> f.fresh().lower == -INF && f.fresh().upper == f.value,
        f.value <= f.alpha ==> f.fresh().best == NO_MOVE,
        f.value > f.alpha ==> f.fresh().best == f.best,
        f.fresh().is_for(f.hash) && f.fresh().depth == f.depth,
{
}

/// A finding changes one slot at most: its position's, and where the bucket has
/// none, one that is free or worth no more. Nothing that is worth more is lost. It
/// is in the bucket afterwards where the position has a slot that is worth no more,
/// or none and some slot is free or worth no more.
pub proof fn law_put_loses_nothing_better(bucket: Seq<TtEntry>, f: Finding)
    ensures
        put_in(bucket, f).len() == bucket.len(),
        forall|i: int|
            0 <= i < bucket.len() && bucket[i].used && level(bucket[i].depth, bucket[i].relax) > level(
                f.depth,
                f.relax,
            ) ==> #[trigger] put_in(bucket, f)[i] == bucket[i],
        forall|i: int, j: int|
            0 <= i < bucket.len() && 0 <= j < bucket.len() && #[trigger] put_in(bucket, f)[i]
                != bucket[i] && #[trigger] put_in(bucket, f)[j] != bucket[j] ==> i == j,
        forall|i: int|
            0 <= i < bucket.len() && #[trigger] put_in(bucket, f)[i] != bucket[i] ==> put_in(bucket, f)[i].is_for(
                f.hash,
            ) && put_in(bucket, f)[i].depth == f.depth && put_in(bucket, f)[i].relax == f.relax,
        (forall|i: int| 0 <= i < bucket.len() ==> !(#[trigger] bucket[i]).is_for(f.hash)) && (exists|i: int|
            0 <= i < bucket.len() && (!(#[trigger] bucket[i]).used || level(
                bucket[i].depth,
                bucket[i].relax,
            ) <= level(f.depth, f.relax))) ==> put_in(bucket, f).contains(f.fresh()),
{
    let n = level(f.depth, f.relax);
    lemma_slot_for(bucket, f.hash, 0);
    lemma_slot_below(bucket, n, 0);
    let (i, j) = (slot_for(bucket, f.hash, 0), slot_below(bucket, n, 0));
    let after = put_in(bucket, f);
    if i < bucket.len() {
        assert(bucket[i].is_for(f.hash));
    } else if j < bucket.len() {
        assert(after[j] == f.fresh());
    }
}

/// A move that is to be tried first is the one that its position's slot then holds;
/// the bounds and depths of all used slots stay.
pub proof fn law_seed_changes_moves_alone(bucket: Seq<TtEntry>, hash: u64, mv: u8)
    ensures
        seeded(bucket, hash, mv).len() == bucket.len(),
        forall|i: int|
            0 <= i < bucket.len() && bucket[i].used && level(bucket[i].depth, bucket[i].relax) > 0
                ==> ({
                let (t, u) = (bucket[i], #[trigger] seeded(bucket, hash, mv)[i]);
                u.key == t.key && u.lower == t.lower && u.upper == t.upper && u.depth == t.depth
            }),
        (exists|i: int| 0 <= i < bucket.len() && (#[trigger] bucket[i]).is_for(hash)) ==> ({
            let i = slot_for(seeded(bucket, hash, mv), hash, 0);
            i < bucket.len() && seeded(bucket, hash, mv)[i].best == mv
        }),
{
    lemma_slot_for(bucket, hash, 0);
    lemma_slot_below(bucket, 0, 0);
    lemma_slot_for(seeded(bucket, hash, mv), hash, 0);
    let i = slot_for(bucket, hash, 0);
    if i < bucket.len() {
        let after = seeded(bucket, hash, mv);
        assert(after[i].is_for(hash));
        let j = slot_for(after, hash, 0);
        if j < i {
            assert(after[j] == bucket[j]);
        }
    }
}

/// Tables that are brought together keep of each place what was searched deepest.
pub proof fn law_join_keeps_the_deeper(a: Seq<TtEntry>, b: Seq<TtEntry>, i: int)
    requires
        0 <= i < a.len(),
        a.len() == b.len(),
    ensures
        joined_slots(a, b).len() == a.len(),
        joined_slots(a, b)[i] == a[i] || joined_slots(a, b)[i] == b[i],
        a[i].used || b[i].used ==> joined_slots(a, b)[i].used,
        a[i].used ==> joined_slots(a, b)[i].depth >= a[i].depth,
        b[i].used ==> joined_slots(a, b)[i].depth >= b[i].depth,
{
}

} // verus!
