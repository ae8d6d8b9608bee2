//! The opening book: candidate moves of positions that were looked at before.
//!
//! Symmetric positions share an entry. An entry belongs to the form of the
//! position with the lowest key, and its moves are those of that form. Values
//! are hundredths of a disc to the side to move.

use vstd::prelude::*;

use crate::bitboard::{symmetric, symmetry_of};
use crate::board::Board;
use crate::position::Position;
use crate::symmetry::{composed, inverse, inverse_form, lemma_composed, lemma_inverse, lemma_mapped, lemma_symmetry_composed, lemma_symmetry_inverse, map_square, mapped};

verus! {

/// A candidate move of an entry.
#[derive(Clone, Copy, Debug, PartialEq, Eq, Structural)]
pub struct Candidate {
    pub mv: Position,
    pub value: i32,
    pub games: u32,
}

/// What the book holds of a position.
#[derive(Debug)]
pub struct Entry {
    pub moves: Vec<Candidate>,
    /// Depth of the searches behind the values.
    pub depth: u8,
    pub games: u32,
}

/// An entry, as contracts speak of it.
pub struct EntryView {
    pub moves: Seq<Candidate>,
    pub depth: u8,
    pub games: u32,
}

impl View for Entry {
    type V = EntryView;

    open spec fn view(&self) -> EntryView {
        EntryView { moves: self.moves@, depth: self.depth, games: self.games }
    }
}

/// The first candidate from `i` on with the move, or the number of candidates.
pub open spec fn move_at(moves: Seq<Candidate>, mv: Position, i: int) -> int
    decreases moves.len() - i,
{
    if i < 0 || i >= moves.len() {
        moves.len() as int
    } else if moves[i].mv == mv {
        i
    } else {
        move_at(moves, mv, i + 1)
    }
}

/// The first of the first `n` candidates with the highest value.
pub open spec fn best_of(moves: Seq<Candidate>, n: int) -> int
    decreases n,
{
    if n <= 1 {
        0
    } else {
        let b = best_of(moves, n - 1);
        if moves[n - 1].value > moves[b].value {
            n - 1
        } else {
            b
        }
    }
}

/// The candidates without those of the move.
pub open spec fn moves_without(moves: Seq<Candidate>, mv: Position) -> Seq<Candidate>
    decreases moves.len(),
{
    if moves.len() == 0 {
        moves
    } else if moves.last().mv == mv {
        moves_without(moves.drop_last(), mv)
    } else {
        moves_without(moves.drop_last(), mv).push(moves.last())
    }
}

impl EntryView {
    /// Moves are squares of the board, and values can be turned round.
    pub open spec fn wf(self) -> bool {
        forall|i: int|
            0 <= i < self.moves.len() ==> (#[trigger] self.moves[i]).mv.wf() && self.moves[i].value
                > i32::MIN
    }

    /// The entry with a move's value replaced, or the move added.
    pub open spec fn updated(self, mv: Position, value: i32) -> EntryView {
        let i = move_at(self.moves, mv, 0);
        EntryView {
            moves: if i < self.moves.len() {
                self.moves.update(i, Candidate { value, ..self.moves[i] })
            } else {
                self.moves.push(Candidate { mv, value, games: 0 })
            },
            ..self
        }
    }

    /// The entry without a move.
    pub open spec fn without(self, mv: Position) -> EntryView {
        EntryView { moves: moves_without(self.moves, mv), ..self }
    }

    /// The value of a move, if it is a candidate.
    pub open spec fn value_of(self, mv: Position) -> Option<i32> {
        let i = move_at(self.moves, mv, 0);
        if i < self.moves.len() {
            Some(self.moves[i].value)
        } else {
            None
        }
    }

    /// The candidate with the highest value, the first among equals.
    pub open spec fn best(self) -> Option<Candidate> {
        if self.moves.len() == 0 {
            None
        } else {
            Some(self.moves[best_of(self.moves, self.moves.len() as int)])
        }
    }
}

/// Where a move is looked for.
pub proof fn lemma_move_at(moves: Seq<Candidate>, mv: Position, i: int)
    requires
        0 <= i <= moves.len(),
    ensures
        i <= move_at(moves, mv, i) <= moves.len(),
        move_at(moves, mv, i) < moves.len() ==> moves[move_at(moves, mv, i)].mv == mv,
        forall|k: int| i <= k < move_at(moves, mv, i) ==> (#[trigger] moves[k]).mv != mv,
    decreases moves.len() - i,
{
    if i < moves.len() && moves[i].mv != mv {
        lemma_move_at(moves, mv, i + 1);
    }
}

/// No candidate is worth more than the best.
pub proof fn lemma_best_of(moves: Seq<Candidate>, n: int)
    requires
        0 < n <= moves.len(),
    ensures
        0 <= best_of(moves, n) < n,
        forall|k: int| 0 <= k < n ==> (#[trigger] moves[k]).value <= moves[best_of(moves, n)].value,
    decreases n,
{
    if n > 1 {
        lemma_best_of(moves, n - 1);
    }
}

/// Taking out a move that is no candidate changes nothing.
pub proof fn lemma_without_absent(moves: Seq<Candidate>, mv: Position)
    requires
        forall|k: int| 0 <= k < moves.len() ==> (#[trigger] moves[k]).mv != mv,
    ensures
        moves_without(moves, mv) == moves,
    decreases moves.len(),
{
    if moves.len() > 0 {
        lemma_without_absent(moves.drop_last(), mv);
        assert(moves.last() == moves[moves.len() - 1]);
        assert(moves.drop_last().push(moves.last()) =~= moves);
    }
}

impl Entry {
    /// The candidate with the highest value, the first among equals.
    pub fn best(&self) -> (c: Option<Candidate>)
        ensures
            c == self@.best(),
    {
        let n: usize = self.moves.len();
        if n == 0 {
            return None;
        }
        let mut b: usize = 0;
        let mut i: usize = 1;
        proof {
            lemma_best_of(self.moves@, 1);
        }
        while i < n
            invariant
                n == self.moves@.len(),
                1 <= i <= n,
                b == best_of(self.moves@, i as int),
                b < i,
            decreases n - i,
        {
            if self.moves[i].value > self.moves[b].value {
                b = i;
            }
            i = i + 1;
        }
        Some(self.moves[b])
    }

    /// Where the move's candidate stands, if there is one.
    fn find(&self, mv: Position) -> (i: usize)
        ensures
            i == move_at(self.moves@, mv, 0),
            i <= self.moves@.len(),
    {
        let n: usize = self.moves.len();
        let mut i: usize = 0;
        while i < n
            invariant
                n == self.moves@.len(),
                i <= n,
                move_at(self.moves@, mv, 0) == move_at(self.moves@, mv, i as int),
            decreases n - i,
        {
            if self.moves[i].mv.0 == mv.0 {
                return i;
            }
            i = i + 1;
        }
        n
    }

    /// The value of a move, if it is a candidate.
    pub fn value(&self, mv: Position) -> (v: Option<i32>)
        ensures
            v == self@.value_of(mv),
    {
        let i: usize = self.find(mv);
        if i < self.moves.len() {
            Some(self.moves[i].value)
        } else {
            None
        }
    }

    /// Replace a move's value, or add the move.
    pub fn update_move(&mut self, mv: Position, value: i32)
        ensures
            final(self)@ == old(self)@.updated(mv, value),
    {
        let i: usize = self.find(mv);
        if i < self.moves.len() {
            let mut c: Candidate = self.moves[i];
            c.value = value;
            self.moves.set(i, c);
        } else {
            self.moves.push(Candidate { mv, value, games: 0 });
        }
    }

    /// Take a move out.
    pub fn remove_move(&mut self, mv: Position)
        ensures
            final(self)@ == old(self)@.without(mv),
    {
        let mut kept: Vec<Candidate> = Vec::new();
        let n: usize = self.moves.len();
        let mut i: usize = 0;
        assert(self.moves@.take(0) =~= Seq::empty());
        while i < n
            invariant
                *self == *old(self),
                n == self.moves@.len(),
                i <= n,
                kept@ == moves_without(self.moves@.take(i as int), mv),
            decreases n - i,
        {
            let ghost part = self.moves@.take(i + 1);
            assert(part.drop_last() =~= self.moves@.take(i as int));
            assert(part.last() == self.moves@[i as int]);
            if self.moves[i].mv.0 != mv.0 {
                kept.push(self.moves[i]);
            }
            i = i + 1;
        }
        assert(self.moves@.take(n as int) =~= self.moves@);
        self.moves = kept;
    }

    /// The same entry once more.
    pub fn copied(&self) -> (e: Entry)
        ensures
            e@ == self@,
    {
        let mut moves: Vec<Candidate> = Vec::new();
        let n: usize = self.moves.len();
        let mut i: usize = 0;
        while i < n
            invariant
                n == self.moves@.len(),
                i <= n,
                moves@ == self.moves@.take(i as int),
            decreases n - i,
        {
            moves.push(self.moves[i]);
            i = i + 1;
            assert(moves@ =~= self.moves@.take(i as int));
        }
        assert(moves@ =~= self.moves@);
        Entry { moves, depth: self.depth, games: self.games }
    }
}

/// The two sides' discs as one number.
pub open spec fn packed(own: u64, opp: u64) -> int {
    own * 0x1_0000_0000_0000_0000 + opp
}

/// The key of the `i`-th form of a position.
pub open spec fn form_key(b: Board, i: int) -> int {
    packed(symmetry_of(b.own(), i), symmetry_of(b.opp(), i))
}

/// The first of the first `n` forms with the lowest key.
pub open spec fn lowest_form(b: Board, n: int) -> int
    decreases n,
{
    if n <= 1 {
        0
    } else {
        let j = lowest_form(b, n - 1);
        if form_key(b, n - 1) < form_key(b, j) {
            n - 1
        } else {
            j
        }
    }
}

/// The form of a position to which its entry belongs.
pub open spec fn form_of(b: Board) -> int {
    lowest_form(b, 8)
}

/// The key under which a position is held.
pub open spec fn key_of(b: Board) -> int {
    form_key(b, form_of(b))
}

/// No form has a lower key.
pub proof fn lemma_lowest_form(b: Board, n: int)
    requires
        0 < n <= 8,
    ensures
        0 <= lowest_form(b, n) < n,
        forall|i: int| 0 <= i < n ==> form_key(b, lowest_form(b, n)) <= #[trigger] form_key(b, i),
    decreases n,
{
    if n > 1 {
        lemma_lowest_form(b, n - 1);
    }
}

/// Symmetric positions are held under one key.
pub proof fn law_symmetric_key(b: Board, j: int)
    requires
        0 <= j < 8,
    ensures
        key_of(b.symmetry(j)) == key_of(b),
{
    let c = b.symmetry(j);
    lemma_lowest_form(b, 8);
    lemma_lowest_form(c, 8);
    let i = form_of(c);
    lemma_symmetry_composed(b.own(), j, i);
    lemma_symmetry_composed(b.opp(), j, i);
    lemma_composed(0, j, i);
    assert(form_key(c, i) == form_key(b, composed(j, i)));
    let k = form_of(b);
    assert(0 <= inverse(j) < 8);
    lemma_symmetry_inverse(b.own(), j);
    lemma_symmetry_inverse(b.opp(), j);
    lemma_symmetry_composed(c.own(), inverse(j), k);
    lemma_symmetry_composed(c.opp(), inverse(j), k);
    lemma_composed(0, inverse(j), k);
    assert(form_key(b, k) == form_key(c, composed(inverse(j), k)));
}

/// What the entries hold, key by key.
pub open spec fn held(entries: Seq<(u128, Entry)>) -> Map<u128, EntryView>
    decreases entries.len(),
{
    if entries.len() == 0 {
        Map::empty()
    } else {
        held(entries.drop_last()).insert(entries.last().0, entries.last().1@)
    }
}

/// The keys ascend.
pub open spec fn ascending(entries: Seq<(u128, Entry)>) -> bool {
    forall|i: int, j: int| 0 <= i < j < entries.len() ==> entries[i].0 < entries[j].0
}

/// What is held under a key.
pub proof fn lemma_held(entries: Seq<(u128, Entry)>, key: u128)
    requires
        ascending(entries),
    ensures
        held(entries).dom().contains(key) == exists|i: int|
            0 <= i < entries.len() && (#[trigger] entries[i]).0 == key,
        forall|i: int|
            0 <= i < entries.len() && (#[trigger] entries[i]).0 == key ==> held(entries)[key]
                == entries[i].1@,
    decreases entries.len(),
{
    if entries.len() > 0 {
        let init = entries.drop_last();
        lemma_held(init, key);
        assert(entries.last() == entries[entries.len() - 1]);
        if held(init).dom().contains(key) {
            let i = choose|i: int| 0 <= i < init.len() && (#[trigger] init[i]).0 == key;
            assert(entries[i].0 == key);
        }
        if exists|i: int| 0 <= i < entries.len() && (#[trigger] entries[i]).0 == key {
            let i = choose|i: int| 0 <= i < entries.len() && (#[trigger] entries[i]).0 == key;
            if i < init.len() {
                assert(init[i].0 == key);
            }
        }
    }
}

/// Two lists that agree under every key hold the same.
proof fn lemma_held_equal(entries: Seq<(u128, Entry)>, m: Map<u128, EntryView>)
    requires
        ascending(entries),
        forall|k: u128|
            #![trigger m.dom().contains(k)]
            m.dom().contains(k) == exists|i: int|
                0 <= i < entries.len() && (#[trigger] entries[i]).0 == k,
        forall|i: int|
            0 <= i < entries.len() ==> m[(#[trigger] entries[i]).0] == entries[i].1@,
    ensures
        held(entries) == m,
{
    assert forall|k: u128| held(entries).dom().contains(k) == m.dom().contains(k) by {
        lemma_held(entries, k);
    }
    assert forall|k: u128| #[trigger] m.dom().contains(k) implies held(entries)[k] == m[k] by {
        lemma_held(entries, k);
        let i = choose|i: int| 0 <= i < entries.len() && (#[trigger] entries[i]).0 == k;
        assert(m[entries[i].0] == entries[i].1@);
    }
    assert(held(entries) =~= m);
}

/// The book.
#[derive(Debug)]
pub struct Book {
    pub entries: Vec<(u128, Entry)>,
}

/// A candidate move of a position, as the position shows it.
#[derive(Clone, Copy, Debug)]
pub struct BookCandidate {
    pub pos: Position,
    pub value: i32,
    pub games: u32,
}

impl View for Book {
    type V = Map<u128, EntryView>;

    open spec fn view(&self) -> Map<u128, EntryView> {
        held(self.entries@)
    }
}

impl Book {
    /// The keys ascend, and the entries are well-formed.
    pub open spec fn wf(self) -> bool {
        &&& ascending(self.entries@)
        &&& forall|i: int| 0 <= i < self.entries@.len() ==> (#[trigger] self.entries@[i]).1@.wf()
    }

    /// An empty book.
    pub fn new() -> (b: Book)
        ensures
            b.wf(),
            b@ == Map::<u128, EntryView>::empty(),
    {
        Book { entries: Vec::new() }
    }

    /// Positions in the book.
    pub fn len(&self) -> (n: usize)
        ensures
            n == self.entries@.len(),
    {
        self.entries.len()
    }

    /// The book is empty.
    pub fn is_empty(&self) -> (yes: bool)
        requires
            self.wf(),
        ensures
            yes == (self@ == Map::<u128, EntryView>::empty()),
    {
        proof {
            if self.entries@.len() > 0 {
                let k = self.entries@[0].0;
                lemma_held(self.entries@, k);
                assert(self@.dom().contains(k));
            }
        }
        self.entries.len() == 0
    }

    /// The first place whose key is not below the given one.
    fn place(&self, key: u128) -> (at: usize)
        requires
            self.wf(),
        ensures
            at <= self.entries@.len(),
            forall|i: int| 0 <= i < at ==> (#[trigger] self.entries@[i]).0 < key,
            forall|i: int| at <= i < self.entries@.len() ==> (#[trigger] self.entries@[i]).0 >= key,
    {
        let mut lo: usize = 0;
        let mut hi: usize = self.entries.len();
        while lo < hi
            invariant
                self.wf(),
                lo <= hi <= self.entries@.len(),
                forall|i: int| 0 <= i < lo ==> (#[trigger] self.entries@[i]).0 < key,
                forall|i: int|
                    hi <= i < self.entries@.len() ==> (#[trigger] self.entries@[i]).0 >= key,
            decreases hi - lo,
        {
            let mid: usize = lo + (hi - lo) / 2;
            if self.entries[mid].0 < key {
                lo = mid + 1;
            } else {
                hi = mid;
            }
        }
        lo
    }

    /// The entry under a key.
    pub fn get_raw(&self, key: u128) -> (e: Option<&Entry>)
        requires
            self.wf(),
        ensures
            e is Some == self@.dom().contains(key),
            e matches Some(e) ==> e@ == self@[key] && e@.wf(),
    {
        let at: usize = self.place(key);
        proof {
            lemma_held(self.entries@, key);
        }
        if at < self.entries.len() && self.entries[at].0 == key {
            Some(&self.entries[at].1)
        } else {
            None
        }
    }

    /// Hold an entry under a key, in place of the one that was there.
    pub fn insert_raw(&mut self, key: u128, e: Entry)
        requires
            old(self).wf(),
            e@.wf(),
        ensures
            final(self).wf(),
            final(self)@ == old(self)@.insert(key, e@),
    {
        let at: usize = self.place(key);
        let ghost before = self.entries@;
        let ghost view = e@;
        proof {
            lemma_held(before, key);
        }
        if at < self.entries.len() && self.entries[at].0 == key {
            self.entries.set(at, (key, e));
            proof {
                let after = self.entries@;
                assert forall|k: u128| #![trigger held(before).insert(key, view).dom().contains(k)]
                    held(before).insert(key, view).dom().contains(k) == exists|i: int|
                    0 <= i < after.len() && (#[trigger] after[i]).0 == k by {
                    lemma_held(before, k);
                    if exists|i: int| 0 <= i < before.len() && (#[trigger] before[i]).0 == k {
                        let i = choose|i: int|
                            0 <= i < before.len() && (#[trigger] before[i]).0 == k;
                        assert(after[i].0 == k);
                    }
                    if exists|i: int| 0 <= i < after.len() && (#[trigger] after[i]).0 == k {
                        let i = choose|i: int|
                            0 <= i < after.len() && (#[trigger] after[i]).0 == k;
                        assert(before[i].0 == k);
                    }
                    if k == key {
                        assert(after[at as int].0 == k);
                    }
                }
                assert forall|i: int| 0 <= i < after.len() implies held(before).insert(key, view)[(
                #[trigger] after[i]).0] == after[i].1@ by {
                    lemma_held(before, after[i].0);
                    if i != at {
                        assert(before[i].0 != key);
                        assert(before[i].0 == after[i].0);
                    }
                }
                lemma_held_equal(after, held(before).insert(key, view));
            }
        } else {
            self.entries.insert(at, (key, e));
            proof {
                let after = self.entries@;
                assert(after == before.insert(at as int, (key, e)));
                assert forall|k: u128| #![trigger held(before).insert(key, view).dom().contains(k)]
                    held(before).insert(key, view).dom().contains(k) == exists|i: int|
                    0 <= i < after.len() && (#[trigger] after[i]).0 == k by {
                    lemma_held(before, k);
                    if exists|i: int| 0 <= i < before.len() && (#[trigger] before[i]).0 == k {
                        let i = choose|i: int|
                            0 <= i < before.len() && (#[trigger] before[i]).0 == k;
                        if i < at {
                            assert(after[i].0 == k);
                        } else {
                            assert(after[i + 1].0 == k);
                        }
                    }
                    if exists|i: int| 0 <= i < after.len() && (#[trigger] after[i]).0 == k {
                        let i = choose|i: int|
                            0 <= i < after.len() && (#[trigger] after[i]).0 == k;
                        if i < at {
                            assert(before[i].0 == k);
                        } else if i > at {
                            assert(before[i - 1].0 == k);
                        }
                    }
                    if k == key {
                        assert(after[at as int].0 == k);
                    }
                }
                assert forall|i: int| 0 <= i < after.len() implies held(before).insert(key, view)[(
                #[trigger] after[i]).0] == after[i].1@ by {
                    lemma_held(before, after[i].0);
                    if i < at {
                        assert(before[i].0 < key);
                        assert(before[i].0 == after[i].0);
                    } else if i > at {
                        assert(before[i - 1].0 >= key);
                        assert(before[i - 1].0 == after[i].0);
                    }
                }
                assert(ascending(after));
                lemma_held_equal(after, held(before).insert(key, view));
                assert forall|i: int| 0 <= i < after.len() implies (
                #[trigger] after[i]).1@.wf() by {
                    if i < at {
                        assert(before[i].1@.wf());
                    } else if i > at {
                        assert(before[i - 1].1@.wf());
                    }
                }
            }
        }
    }

    /// Take the entry under a key out.
    pub fn remove_raw(&mut self, key: u128) -> (e: Option<Entry>)
        requires
            old(self).wf(),
        ensures
            final(self).wf(),
            final(self)@ == old(self)@.remove(key),
            e is Some == old(self)@.dom().contains(key),
            e matches Some(e) ==> e@ == old(self)@[key] && e@.wf(),
    {
        let at: usize = self.place(key);
        let ghost before = self.entries@;
        proof {
            lemma_held(before, key);
        }
        if at < self.entries.len() && self.entries[at].0 == key {
            let (_, e) = self.entries.remove(at);
            proof {
                let after = self.entries@;
                assert(after == before.remove(at as int));
                assert forall|k: u128| #![trigger held(before).remove(key).dom().contains(k)]
                    held(before).remove(key).dom().contains(k) == exists|i: int|
                    0 <= i < after.len() && (#[trigger] after[i]).0 == k by {
                    lemma_held(before, k);
                    if exists|i: int| 0 <= i < before.len() && (#[trigger] before[i]).0 == k {
                        let i = choose|i: int|
                            0 <= i < before.len() && (#[trigger] before[i]).0 == k;
                        if i < at {
                            assert(after[i].0 == k);
                        } else if i > at {
                            assert(after[i - 1].0 == k);
                        }
                    }
                    if exists|i: int| 0 <= i < after.len() && (#[trigger] after[i]).0 == k {
                        let i = choose|i: int|
                            0 <= i < after.len() && (#[trigger] after[i]).0 == k;
                        if i < at {
                            assert(before[i].0 == k);
                        } else {
                            assert(before[i + 1].0 == k);
                        }
                    }
                }
                assert forall|i: int| 0 <= i < after.len() implies held(before).remove(key)[(
                #[trigger] after[i]).0] == after[i].1@ by {
                    lemma_held(before, after[i].0);
                    if i < at {
                        assert(before[i].0 == after[i].0);
                        assert(before[i].0 < before[at as int].0);
                    } else {
                        assert(before[i + 1].0 == after[i].0);
                        assert(before[i + 1].0 > before[at as int].0);
                    }
                }
                assert(ascending(after));
                lemma_held_equal(after, held(before).remove(key));
                assert forall|i: int| 0 <= i < after.len() implies (
                #[trigger] after[i]).1@.wf() by {
                    if i < at {
                        assert(before[i].1@.wf());
                    } else {
                        assert(before[i + 1].1@.wf());
                    }
                }
            }
            Some(e)
        } else {
            assert(self@ =~= old(self)@.remove(key));
            None
        }
    }
}

/// The entry that a position has in the book.
pub open spec fn entry_for(book: Map<u128, EntryView>, b: Board) -> Option<EntryView> {
    let k = key_of(b) as u128;
    if book.dom().contains(k) {
        Some(book[k])
    } else {
        None
    }
}

/// A candidate of an entry, as the position shows it.
pub open spec fn shown(c: Candidate, b: Board) -> Position {
    Position(mapped(c.mv.0 as int, inverse(form_of(b))) as u8)
}

/// Candidates among the first `n` that are worth at least `floor`.
pub open spec fn close_ones(moves: Seq<Candidate>, floor: int, n: int) -> Seq<int>
    decreases n,
{
    if n <= 0 {
        Seq::empty()
    } else if moves[n - 1].value >= floor {
        close_ones(moves, floor, n - 1).push(n - 1)
    } else {
        close_ones(moves, floor, n - 1)
    }
}

proof fn lemma_close_ones(moves: Seq<Candidate>, floor: int, n: int)
    requires
        0 <= n <= moves.len(),
    ensures
        close_ones(moves, floor, n).len() <= n,
        forall|k: int|
            0 <= k < close_ones(moves, floor, n).len() ==> 0 <= #[trigger] close_ones(
                moves,
                floor,
                n,
            )[k] < n && moves[close_ones(moves, floor, n)[k]].value >= floor,
        forall|i: int|
            0 <= i < n && (#[trigger] moves[i]).value >= floor ==> close_ones(moves, floor, n).len()
                > 0,
    decreases n,
{
    if n > 0 {
        lemma_close_ones(moves, floor, n - 1);
    }
}

impl Book {
    /// The key under which a position is held, and the form to which its
    /// moves are mapped there.
    pub fn key(board: &Board) -> (r: (u128, u8))
        ensures
            r.0 == key_of(*board),
            r.1 == form_of(*board),
            r.1 < 8,
    {
        let own: u64 = board.player_bb();
        let opp: u64 = board.opponent_bb();
        let mut best: u128 = own as u128 * 0x1_0000_0000_0000_0000 + opp as u128;
        let mut form: u8 = 0;
        let mut i: u8 = 1;
        proof {
            reveal_with_fuel(crate::bitboard::turned, 2);
            lemma_lowest_form(*board, 8);
            assert(symmetry_of(own, 0) == own);
        }
        while i < 8
            invariant
                own == board.own(),
                opp == board.opp(),
                1 <= i <= 8,
                form == lowest_form(*board, i as int),
                form < i,
                best == form_key(*board, form as int),
            decreases 8 - i,
        {
            let a: u64 = symmetric(own, i);
            let c: u64 = symmetric(opp, i);
            let k: u128 = a as u128 * 0x1_0000_0000_0000_0000 + c as u128;
            if k < best {
                best = k;
                form = i;
            }
            i = i + 1;
        }
        (best, form)
    }

    /// A move under the `i`-th symmetry.
    pub fn map_move(pos: Position, i: u8) -> (p: Position)
        requires
            pos.wf(),
            i < 8,
        ensures
            p.wf(),
            p.0 == mapped(pos.0 as int, i as int),
    {
        Position(map_square(pos.0, i))
    }

    /// The move of which `map_move` makes the given one.
    pub fn unmap_move(pos: Position, i: u8) -> (p: Position)
        requires
            pos.wf(),
            i < 8,
        ensures
            p.wf(),
            p.0 == mapped(pos.0 as int, inverse(i as int)),
            mapped(p.0 as int, i as int) == pos.0,
    {
        proof {
            lemma_inverse(pos.0 as int, i as int);
        }
        Position(map_square(pos.0, inverse_form(i)))
    }

    /// The position is in the book.
    pub fn has(&self, board: &Board) -> (yes: bool)
        requires
            self.wf(),
        ensures
            yes == (entry_for(self@, *board) is Some),
    {
        let (key, _) = Book::key(board);
        self.get_raw(key).is_some()
    }

    /// The candidates of a position with their values and how often they were
    /// played.
    pub fn candidates_detailed(&self, board: &Board) -> (r: Option<Vec<BookCandidate>>)
        requires
            self.wf(),
        ensures
            r is Some == (entry_for(self@, *board) is Some),
            r matches Some(v) ==> {
                let e = entry_for(self@, *board)->Some_0;
                &&& v@.len() == e.moves.len()
                &&& forall|i: int|
                    0 <= i < v@.len() ==> (#[trigger] v@[i]) == (BookCandidate {
                        pos: shown(e.moves[i], *board),
                        value: e.moves[i].value,
                        games: e.moves[i].games,
                    })
            },
    {
        let (key, form) = Book::key(board);
        match self.get_raw(key) {
            None => None,
            Some(e) => {
                let mut v: Vec<BookCandidate> = Vec::new();
                let n: usize = e.moves.len();
                let mut i: usize = 0;
                while i < n
                    invariant
                        n == e.moves@.len(),
                        e@.wf(),
                        form == form_of(*board),
                        form < 8,
                        i <= n,
                        v@.len() == i,
                        forall|k: int|
                            0 <= k < i ==> (#[trigger] v@[k]) == (BookCandidate {
                                pos: shown(e@.moves[k], *board),
                                value: e@.moves[k].value,
                                games: e@.moves[k].games,
                            }),
                    decreases n - i,
                {
                    let c: Candidate = e.moves[i];
                    assert(e@.moves[i as int].mv.wf());
                    v.push(
                        BookCandidate {
                            pos: Book::unmap_move(c.mv, form),
                            value: c.value,
                            games: c.games,
                        },
                    );
                    i = i + 1;
                }
                Some(v)
            },
        }
    }

    /// The candidates of a position with their values.
    pub fn candidates(&self, board: &Board) -> (r: Option<Vec<(Position, i32)>>)
        requires
            self.wf(),
        ensures
            r is Some == (entry_for(self@, *board) is Some),
            r matches Some(v) ==> {
                let e = entry_for(self@, *board)->Some_0;
                &&& v@.len() == e.moves.len()
                &&& forall|i: int|
                    0 <= i < v@.len() ==> (#[trigger] v@[i]) == (
                        shown(e.moves[i], *board),
                        e.moves[i].value,
                    )
            },
    {
        match self.candidates_detailed(board) {
            None => None,
            Some(list) => {
                let mut v: Vec<(Position, i32)> = Vec::new();
                let n: usize = list.len();
                let mut i: usize = 0;
                while i < n
                    invariant
                        n == list@.len(),
                        i <= n,
                        v@.len() == i,
                        forall|k: int|
                            0 <= k < i ==> (#[trigger] v@[k]) == (list@[k].pos, list@[k].value),
                    decreases n - i,
                {
                    v.push((list[i].pos, list[i].value));
                    i = i + 1;
                }
                Some(v)
            },
        }
    }

    /// The best candidate of a position, its value and the depth behind it.
    pub fn probe(&self, board: &Board) -> (r: Option<(Position, i32, u8)>)
        requires
            self.wf(),
        ensures
            r == match entry_for(self@, *board) {
                Some(e) => match e.best() {
                    Some(c) => Some((shown(c, *board), c.value, e.depth)),
                    None => None,
                },
                None => None,
            },
    {
        let (key, form) = Book::key(board);
        match self.get_raw(key) {
            None => None,
            Some(e) => match e.best() {
                None => None,
                Some(c) => {
                    proof {
                        lemma_best_of(e@.moves, e@.moves.len() as int);
                        let i = best_of(e@.moves, e@.moves.len() as int);
                        assert(e@.moves[i].mv.wf());
                    }
                    Some((Book::unmap_move(c.mv, form), c.value, e.depth))
                },
            },
        }
    }

    /// One of the candidates that are at most `tolerance` worse than the best,
    /// chosen by the number `pick`.
    pub fn probe_varied(&self, board: &Board, tolerance: u32, pick: u64) -> (r: Option<
        (Position, i32, u8),
    >)
        requires
            self.wf(),
        ensures
            r == match entry_for(self@, *board) {
                Some(e) => match e.best() {
                    Some(c) => {
                        let near = close_ones(
                            e.moves,
                            c.value - tolerance,
                            e.moves.len() as int,
                        );
                        let d = e.moves[near[(pick % (near.len() as u64)) as int]];
                        Some((shown(d, *board), d.value, e.depth))
                    },
                    None => None,
                },
                None => None,
            },
    {
        let (key, form) = Book::key(board);
        match self.get_raw(key) {
            None => None,
            Some(e) => match e.best() {
                None => None,
                Some(c) => {
                    let floor: i64 = c.value as i64 - tolerance as i64;
                    let mut near: Vec<usize> = Vec::new();
                    let n: usize = e.moves.len();
                    let mut i: usize = 0;
                    while i < n
                        invariant
                            n == e.moves@.len(),
                            i <= n,
                            near@.len() == close_ones(e@.moves, floor as int, i as int).len(),
                            forall|k: int|
                                0 <= k < near@.len() ==> #[trigger] near@[k] == close_ones(
                                    e@.moves,
                                    floor as int,
                                    i as int,
                                )[k],
                        decreases n - i,
                    {
                        if e.moves[i].value as i64 >= floor {
                            near.push(i);
                        }
                        i = i + 1;
                    }
                    proof {
                        lemma_best_of(e@.moves, n as int);
                        lemma_close_ones(e@.moves, floor as int, n as int);
                        assert(e@.moves[best_of(e@.moves, n as int)].value >= floor);
                    }
                    let count: u64 = near.len() as u64;
                    let at: usize = (pick % count) as usize;
                    let d: Candidate = e.moves[near[at]];
                    assert(e@.moves[near@[at as int] as int].mv.wf());
                    Some((Book::unmap_move(d.mv, form), d.value, e.depth))
                },
            },
        }
    }
}

/// The best candidate is one of the entry's; none is worth more, and those that
/// stand before it are worth less. An entry with a candidate has a best one.
pub proof fn law_best_candidate(e: EntryView)
    ensures
        e.moves.len() > 0 ==> e.best() is Some,
        e.best() matches Some(c) ==> exists|k: int|
            0 <= k < e.moves.len() && #[trigger] e.moves[k] == c && (forall|j: int|
                0 <= j < e.moves.len() ==> (#[trigger] e.moves[j]).value <= c.value) && (forall|j: int|
                0 <= j < k ==> (#[trigger] e.moves[j]).value < c.value),
{
    if e.moves.len() > 0 {
        let n = e.moves.len() as int;
        lemma_best_of(e.moves, n);
        lemma_first_best(e.moves, n);
        assert(e.moves[best_of(e.moves, n)] == e.best()->Some_0);
    }
}

proof fn lemma_first_best(moves: Seq<Candidate>, n: int)
    requires
        0 < n <= moves.len(),
    ensures
        forall|k: int|
            0 <= k < best_of(moves, n) ==> (#[trigger] moves[k]).value < moves[best_of(moves, n)].value,
    decreases n,
{
    if n > 1 {
        lemma_best_of(moves, n - 1);
        lemma_first_best(moves, n - 1);
    }
}

/// A candidate is among the close ones exactly when it is worth enough, each once
/// and as they stand.
pub proof fn law_close_ones(moves: Seq<Candidate>, floor: int, n: int)
    requires
        0 <= n <= moves.len(),
    ensures
        forall|i: int|
            0 <= i < n ==> ((#[trigger] moves[i]).value >= floor <==> close_ones(
                moves,
                floor,
                n,
            ).contains(i)),
        forall|k: int|
            0 <= k < close_ones(moves, floor, n).len() ==> 0 <= #[trigger] close_ones(
                moves,
                floor,
                n,
            )[k] < n,
        forall|j: int, k: int|
            0 <= j < k < close_ones(moves, floor, n).len() ==> #[trigger] close_ones(
                moves,
                floor,
                n,
            )[j] < #[trigger] close_ones(moves, floor, n)[k],
    decreases n,
{
    if n > 0 {
        law_close_ones(moves, floor, n - 1);
        lemma_close_ones(moves, floor, n);
        let before = close_ones(moves, floor, n - 1);
        let near = close_ones(moves, floor, n);
        assert forall|i: int| 0 <= i < n implies ((#[trigger] moves[i]).value >= floor
            <==> near.contains(i)) by {
            if i < n - 1 && before.contains(i) {
                let k = choose|k: int| 0 <= k < before.len() && before[k] == i;
                assert(near[k] == i);
            }
            if i == n - 1 && moves[i].value >= floor {
                assert(near[near.len() - 1] == i);
            }
            if near.contains(i) {
                let k = choose|k: int| 0 <= k < near.len() && near[k] == i;
                assert(moves[near[k]].value >= floor);
            }
        }
    }
}

/// A move that is given a value has that value afterwards, and a move that is taken
/// out has none; the others keep theirs.
pub proof fn law_entry_keeps_values(e: EntryView, mv: Position, value: i32, other: Position)
    ensures
        e.updated(mv, value).value_of(mv) == Some(value),
        other != mv ==> e.updated(mv, value).value_of(other) == e.value_of(other),
        e.without(mv).value_of(mv) is None,
        other != mv ==> e.without(mv).value_of(other) == e.value_of(other),
        e.updated(mv, value).depth == e.depth && e.updated(mv, value).games == e.games,
        e.without(mv).depth == e.depth && e.without(mv).games == e.games,
{
    let m = e.moves;
    let u = e.updated(mv, value).moves;
    let w = e.without(mv).moves;
    lemma_move_at(m, mv, 0);
    lemma_move_at(u, mv, 0);
    lemma_move_at(m, other, 0);
    lemma_move_at(u, other, 0);
    let i = move_at(m, mv, 0);
    assert(u[i].mv == mv && u[i].value == value);
    let j = move_at(u, mv, 0);
    if j < i {
        assert(u[j].mv == m[j].mv);
    }
    assert(j == i);
    if other != mv {
        let a = move_at(m, other, 0);
        let c = move_at(u, other, 0);
        if a < m.len() {
            assert(u[a] == m[a]);
            assert(c <= a);
            assert(u[c].mv == m[c].mv);
        }
        if c < u.len() {
            assert(c < m.len());
            assert(u[c].mv == m[c].mv);
        }
    }
    lemma_without(m, mv, mv);
    lemma_without(m, mv, other);
}

/// Taking a move out leaves the first candidates of the others as they were.
proof fn lemma_without(moves: Seq<Candidate>, mv: Position, other: Position)
    ensures
        ({
            let w = moves_without(moves, mv);
            let (i, j) = (move_at(moves, other, 0), move_at(w, other, 0));
            &&& other == mv ==> j == w.len()
            &&& other != mv ==> (i < moves.len() <==> j < w.len())
            &&& other != mv && i < moves.len() ==> moves[i] == w[j]
        }),
    decreases moves.len(),
{
    let w = moves_without(moves, mv);
    lemma_move_at(moves, other, 0);
    lemma_move_at(w, other, 0);
    if moves.len() > 0 {
        let init = moves.drop_last();
        let v = moves_without(init, mv);
        lemma_without(init, mv, other);
        lemma_move_at(init, other, 0);
        lemma_move_at(v, other, 0);
        let (i, j) = (move_at(moves, other, 0), move_at(w, other, 0));
        let (a, c) = (move_at(init, other, 0), move_at(v, other, 0));
        if a < init.len() {
            assert(moves[a] == init[a]);
            if i < a {
                assert(moves[i] == init[i]);
            }
            assert(i == a);
        } else {
            assert forall|k: int| 0 <= k < init.len() implies (#[trigger] moves[k]).mv != other by {
                assert(moves[k] == init[k]);
            }
            assert(i >= init.len());
        }
        if c < v.len() {
            assert(w[c] == v[c]);
            if j < c {
                assert(w[j] == v[j]);
            }
            assert(j == c);
        } else {
            assert forall|k: int| 0 <= k < v.len() implies (#[trigger] w[k]).mv != other by {
                assert(w[k] == v[k]);
            }
            assert(j >= v.len());
        }
        let last = moves.len() - 1;
        assert(moves.last() == moves[last]);
        if moves[last].mv != mv {
            assert(w == v.push(moves[last]));
            assert(w[v.len() as int] == moves[last]);
        } else {
            assert(w == v);
        }
    }
}

/// Positions under one key are forms of each other, and a candidate is shown on the
/// square that the entry's form has in its place.
pub proof fn law_key_tells_positions_apart(a: Board, b: Board, c: Candidate)
    requires
        key_of(a) == key_of(b),
        c.mv.wf(),
    ensures
        symmetry_of(a.own(), form_of(a)) == symmetry_of(b.own(), form_of(b)),
        symmetry_of(a.opp(), form_of(a)) == symmetry_of(b.opp(), form_of(b)),
        shown(c, a).wf(),
        mapped(shown(c, a).0 as int, form_of(a)) == c.mv.0,
        mapped(shown(c, b).0 as int, form_of(b)) == c.mv.0,
{
    lemma_lowest_form(a, 8);
    lemma_lowest_form(b, 8);
    lemma_inverse(c.mv.0 as int, form_of(a));
    lemma_inverse(c.mv.0 as int, form_of(b));
    lemma_mapped(c.mv.0 as int, inverse(form_of(a)));
    lemma_mapped(c.mv.0 as int, inverse(form_of(b)));
}

} // verus!
