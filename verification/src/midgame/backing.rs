//! What a search can say of a position, and by what.
//!
//! A search says that a position, searched to some depth, is worth at least or
//! at most so much. It may say so by an evaluation or a finished game, by the
//! positions after the moves, by its table, or by a reduced search that cleared
//! its margin; and by nothing else.

use vstd::prelude::*;

use crate::board::{Board, lemma_after_wf, lemma_passed_wf, lemma_wf_sides};
use crate::facts::{Fact, beyond, comes_from, family, lemma_comes_from, lemma_comes_next};
use crate::search::{INF, LeafEval, final_score_of};
use super::probe_bounds_of;
use super::table::{Finding, TtEntry, lemma_slot_below, lemma_slot_for, level, put_in, slot_below, slot_for, slots_right};
use super::value::{FINISHED, central, discs, ground, knows_end, lemma_nn_reached, lemma_same_value, nn_move, nn_value, same_view, view_hash};

verus! {

/// A bound of the positions with one key, as a table holds it.
pub struct Note {
    pub key: u64,
    pub depth: int,
    pub low: bool,
    pub bound: int,
}

impl Note {
    /// The lower bound of a slot, or the upper one.
    pub open spec fn of(t: TtEntry, low: bool) -> Note {
        Note {
            key: t.key,
            depth: t.depth as int,
            low,
            bound: if low {
                t.lower as int
            } else {
                t.upper as int
            },
        }
    }

    /// The note says all that the other does.
    pub open spec fn implies_note(self, n: Note) -> bool {
        &&& self.key == n.key
        &&& self.depth >= n.depth
        &&& self.low == n.low
        &&& beyond(n.low, n.bound, self.bound)
    }
}

/// The fact as a table holds it.
pub open spec fn noted(f: Fact) -> Note {
    Note { key: view_hash(f.board), depth: f.depth, low: f.low, bound: f.bound }
}

/// The slot says so of the positions with its key.
pub open spec fn says(t: TtEntry, relax: u8, n: Note) -> bool {
    &&& t.used
    &&& t.relax >= relax
    &&& if n.low {
        t.lower > -INF
    } else {
        t.upper < INF
    }
    &&& Note::of(t, n.low).implies_note(n)
}

/// By what a search of `root` may say something of a position: the evaluation,
/// the table that it started with, its margins and from which depth on it makes
/// reduced searches; how deep these nest, and how many discs are on the board
/// where it ends.
pub struct Rules<E> {
    pub e: E,
    pub slots: Seq<TtEntry>,
    pub relax: u8,
    pub margins: Seq<i32>,
    /// Reduced searches make reduced searches, and the position's own value is
    /// not asked before them.
    pub nested: bool,
    pub least: int,
    pub cuts: int,
    pub root: Board,
    pub h: int,
}

impl<E: LeafEval> Rules<E> {
    /// The fact is about a position that the search may come to.
    pub open spec fn covers(self, f: Fact) -> bool {
        &&& 0 <= f.cuts <= self.cuts
        &&& f.board.wf()
        &&& comes_from(self.root, f.board)
        &&& 0 <= f.depth
        &&& discs(f.board) + f.depth <= self.h
    }

    /// The game is finished, or no depth is left: the result or the evaluation
    /// tells.
    pub open spec fn known(self, f: Fact) -> bool {
        if f.board.finished() {
            f.met_by(final_score_of(f.board) * FINISHED)
        } else {
            f.depth == 0 && f.met_by(self.e.leaf(f.board))
        }
    }

    /// The side to move has to pass, and what follows tells.
    pub open spec fn passes(self, p: spec_fn(Fact) -> bool, f: Fact) -> bool {
        f.depth > 0 && !f.board.can_move() && f.board.passed().can_move() && p(f.passed())
    }

    /// Some move tells that it is at least so much, or all of them that it is at
    /// most.
    pub open spec fn moved(self, p: spec_fn(Fact) -> bool, f: Fact) -> bool {
        &&& f.depth > 0
        &&& f.board.can_move()
        &&& if f.low {
            exists|s: int| 0 <= s < 64 && #[trigger] f.board.legal(s) && p(f.after(s))
        } else {
            forall|s: int| 0 <= s < 64 && #[trigger] f.board.legal(s) ==> p(f.after(s))
        }
    }

    /// One ply from the end the evaluation of the positions after the moves
    /// tells, whether they are finished or not, and moves to the middle are left
    /// out.
    pub open spec fn swept(self, f: Fact) -> bool {
        &&& f.depth == 1
        &&& f.board.can_move()
        &&& if f.low {
            exists|s: int|
                0 <= s < 64 && #[trigger] f.board.legal(s) && -self.e.leaf(f.board.after(s))
                    >= f.bound
        } else {
            forall|s: int|
                0 <= s < 64 && #[trigger] f.board.legal(s) && !central(s) ==> -self.e.leaf(
                    f.board.after(s),
                ) <= f.bound
        }
    }

    /// The table held so at the start.
    pub open spec fn held(self, n: Note) -> bool {
        exists|i: int| 0 <= i < self.slots.len() && #[trigger] says(self.slots[i], self.relax, n)
    }

    /// The moves of a position with the same key told so, to no less depth: that
    /// is what a search puts into the table.
    pub open spec fn put(self, p: spec_fn(Fact) -> bool, n: Note) -> bool {
        exists|g: Fact| #[trigger]
            self.moved(p, g) && self.covers(g) && noted(g).implies_note(n)
    }

    /// The bound that a reduced search has to reach for the fact, if one is
    /// tried.
    pub open spec fn probed(self, f: Fact) -> Option<int> {
        let own = if self.nested {
            None
        } else {
            Some(self.e.leaf(f.board))
        };
        let m = self.margins[(if f.depth <= 64 {
            f.depth
        } else {
            64
        }) * 65 + f.board.empty_count] as int;
        if f.low {
            probe_bounds_of(own, f.bound - 1, f.bound, m).0
        } else {
            probe_bounds_of(own, f.bound, f.bound + 1, m).1
        }
    }

    /// A reduced search cleared its margin. It made no reduced searches itself,
    /// unless they nest.
    pub open spec fn cut(self, p: spec_fn(Fact) -> bool, f: Fact) -> bool {
        &&& f.cuts > 0
        &&& f.depth >= 3
        &&& f.depth >= self.least
        &&& self.probed(f) matches Some(w) && p(
            Fact {
                cuts: if self.nested {
                    f.cuts - 1
                } else {
                    0
                },
                depth: 2 * (f.depth / 4) + f.depth % 2,
                bound: w,
                ..f
            },
        )
    }

    /// What was told tells more.
    pub open spec fn weaker(self, p: spec_fn(Fact) -> bool, f: Fact) -> bool {
        exists|w: int| #[trigger] p(Fact { bound: w, ..f }) && f.met_by(w)
    }

    /// The fact follows from facts of `p` in one step.
    pub open spec fn step(self, p: spec_fn(Fact) -> bool, f: Fact) -> bool {
        &&& self.covers(f)
        &&& {
            ||| self.known(f)
            ||| self.passes(p, f)
            ||| self.moved(p, f)
            ||| self.swept(f)
            ||| f.depth > 0 && self.held(noted(f))
            ||| f.depth > 0 && self.put(p, noted(f))
            ||| self.cut(p, f)
            ||| self.weaker(p, f)
        }
    }

    /// What follows from facts of `p` is one of them.
    pub open spec fn closed(self, p: spec_fn(Fact) -> bool) -> bool {
        forall|f: Fact| #[trigger] self.step(p, f) ==> p(f)
    }

    /// A search may say so: the fact is one of those that follow step by step.
    #[verifier::opaque]
    pub open spec fn shown(self, f: Fact) -> bool {
        forall|p: spec_fn(Fact) -> bool| #[trigger] self.closed(p) ==> p(f)
    }

    /// What a search may say.
    pub open spec fn all_shown(self) -> spec_fn(Fact) -> bool {
        |f: Fact| self.shown(f)
    }

    /// The table held so at the start, or a search may have put it there.
    #[verifier::opaque]
    pub open spec fn vouched(self, n: Note) -> bool {
        self.held(n) || self.put(self.all_shown(), n)
    }

    /// What the slot says of positions is vouched for.
    pub open spec fn backs(self, t: TtEntry) -> bool {
        t.used && t.relax >= self.relax ==> {
            &&& t.lower > -INF ==> self.vouched(Note::of(t, true))
            &&& t.upper < INF ==> self.vouched(Note::of(t, false))
        }
    }

    /// What every slot says is vouched for.
    pub open spec fn backs_all(self, slots: Seq<TtEntry>) -> bool {
        forall|i: int| 0 <= i < slots.len() ==> self.backs(#[trigger] slots[i])
    }

    /// A result of a search with a window is backed: above the lower end it is a
    /// bound from below, and under the upper end one from above.
    pub open spec fn backed(
        self,
        cuts: int,
        b: Board,
        depth: int,
        alpha: int,
        beta: int,
        v: int,
    ) -> bool {
        &&& v > alpha ==> self.shown(Fact { cuts, board: b, depth, low: true, bound: v })
        &&& v < beta ==> self.shown(Fact { cuts, board: b, depth, low: false, bound: v })
    }

    /// Nothing that these rules tell is beyond the others, which may vouch for
    /// the table.
    pub open spec fn under(self, r: Rules<E>) -> bool {
        &&& self.e == r.e
        &&& self.relax == r.relax
        &&& self.margins == r.margins
        &&& self.nested == r.nested
        &&& self.least == r.least
        &&& self.cuts <= r.cuts
        &&& self.h <= r.h
        &&& comes_from(r.root, self.root)
        &&& r.backs_all(self.slots)
    }
}

impl<E: LeafEval> Rules<E> {
    /// More facts, more follows.
    proof fn lemma_more(self, p: spec_fn(Fact) -> bool, q: spec_fn(Fact) -> bool, f: Fact)
        requires
            forall|g: Fact| #[trigger] p(g) ==> q(g),
        ensures
            self.moved(p, f) ==> self.moved(q, f),
            self.step(p, f) ==> self.step(q, f),
    {
        assert forall|g: Fact| #[trigger] self.moved(p, g) implies self.moved(q, g) by {
            if g.low {
                let s = choose|s: int|
                    0 <= s < 64 && #[trigger] g.board.legal(s) && p(g.after(s));
                assert(g.board.legal(s) && q(g.after(s)));
            } else {
                assert forall|s: int| 0 <= s < 64 && #[trigger] g.board.legal(s) implies q(
                    g.after(s),
                ) by {
                    assert(p(g.after(s)));
                }
            }
        }
        if self.put(p, noted(f)) {
            let g = choose|g: Fact| #[trigger]
                self.moved(p, g) && self.covers(g) && noted(g).implies_note(noted(f));
            assert(self.moved(q, g));
        }
        if self.weaker(p, f) {
            let w = choose|w: int| #[trigger] p(Fact { bound: w, ..f }) && f.met_by(w);
            assert(q(Fact { bound: w, ..f }));
        }
    }

    /// What follows from what may be said may be said.
    pub proof fn lemma_take(self, f: Fact)
        requires
            self.step(self.all_shown(), f),
        ensures
            self.shown(f),
    {
        reveal(Rules::shown);
        assert forall|p: spec_fn(Fact) -> bool| #[trigger] self.closed(p) implies p(f) by {
            let all = self.all_shown();
            assert forall|g: Fact| #[trigger] all(g) implies p(g) by {
                assert(self.shown(g));
            }
            self.lemma_more(all, p, f);
            assert(self.step(p, f));
        }
    }

    /// Less may be said too.
    pub proof fn lemma_weaker(self, f: Fact, w: int)
        requires
            self.covers(f),
            self.shown(Fact { bound: w, ..f }),
            f.met_by(w),
        ensures
            self.shown(f),
    {
        let all = self.all_shown();
        assert(all(Fact { bound: w, ..f }));
        assert(self.weaker(all, f));
        self.lemma_take(f);
    }

    /// What the table is vouched for may be said of a position with the key.
    pub proof fn lemma_from_table(self, n: Note, f: Fact)
        requires
            self.vouched(n),
            n.implies_note(noted(f)),
            self.covers(f),
            f.depth > 0,
        ensures
            self.shown(f),
            self.vouched(noted(f)),
    {
        reveal(Rules::vouched);
        self.lemma_note(n, noted(f));
        self.lemma_take(f);
    }

    /// Less is vouched for too.
    pub proof fn lemma_note(self, n: Note, m: Note)
        requires
            self.vouched(n),
            n.implies_note(m),
        ensures
            self.vouched(m),
    {
        reveal(Rules::vouched);
        let all = self.all_shown();
        if self.held(n) {
            let i = choose|i: int|
                0 <= i < self.slots.len() && #[trigger] says(self.slots[i], self.relax, n);
            assert(says(self.slots[i], self.relax, m));
        } else {
            let g = choose|g: Fact| #[trigger]
                self.moved(all, g) && self.covers(g) && noted(g).implies_note(n);
            assert(self.moved(all, g) && noted(g).implies_note(m));
        }
    }

    /// What the moves tell may be said, and be put into the table.
    pub proof fn lemma_from_moves(self, f: Fact)
        requires
            self.covers(f),
            self.moved(self.all_shown(), f),
        ensures
            self.shown(f),
            self.vouched(noted(f)),
    {
        reveal(Rules::vouched);
        let all = self.all_shown();
        assert(self.moved(all, f) && noted(f).implies_note(noted(f)));
        self.lemma_take(f);
    }

    /// The table that a search starts with backs itself.
    pub proof fn lemma_start(self)
        ensures
            self.backs_all(self.slots),
    {
        reveal(Rules::vouched);
        assert forall|i: int| 0 <= i < self.slots.len() implies self.backs(
            #[trigger] self.slots[i],
        ) by {
            let t = self.slots[i];
            if t.used && t.relax >= self.relax {
                if t.lower > -INF {
                    assert(says(self.slots[i], self.relax, Note::of(t, true)));
                }
                if t.upper < INF {
                    assert(says(self.slots[i], self.relax, Note::of(t, false)));
                }
            }
        }
    }

    /// What smaller rules tell, larger ones do.
    proof fn lemma_under_step(self, r: Rules<E>, p: spec_fn(Fact) -> bool, f: Fact)
        requires
            self.under(r),
            r.closed(p),
            self.step(p, f),
        ensures
            p(f),
    {
        reveal(Rules::shown);
        reveal(Rules::vouched);
        lemma_comes_from(r.root, self.root, f.board);
        assert(r.covers(f));
        let n = noted(f);
        if f.depth > 0 && self.put(p, n) {
            let g = choose|g: Fact| #[trigger]
                self.moved(p, g) && self.covers(g) && noted(g).implies_note(n);
            lemma_comes_from(r.root, self.root, g.board);
            assert(r.moved(p, g) && r.covers(g));
            assert(r.put(p, n));
            assert(r.step(p, f));
        } else if f.depth > 0 && self.held(n) {
            let i = choose|i: int|
                0 <= i < self.slots.len() && #[trigger] says(self.slots[i], self.relax, n);
            let t = self.slots[i];
            assert(r.backs(t));
            let m = Note::of(t, n.low);
            r.lemma_note(m, n);
            if r.held(n) {
                assert(r.step(p, f));
            } else {
                let all = r.all_shown();
                let g = choose|g: Fact| #[trigger]
                    r.moved(all, g) && r.covers(g) && noted(g).implies_note(n);
                assert forall|q: Fact| #[trigger] all(q) implies p(q) by {
                    assert(r.shown(q));
                }
                r.lemma_more(all, p, g);
                assert(r.moved(p, g));
                assert(r.put(p, n));
                assert(r.step(p, f));
            }
        } else {
            if self.weaker(p, f) {
                assert(r.weaker(p, f));
            }
            assert(r.step(p, f));
        }
    }

    /// What may be said by smaller rules may be said by larger ones.
    pub proof fn lemma_under(self, r: Rules<E>, slots: Seq<TtEntry>)
        requires
            self.under(r),
        ensures
            forall|f: Fact| #[trigger] self.shown(f) ==> r.shown(f),
            self.backs_all(slots) ==> r.backs_all(slots),
    {
        reveal(Rules::shown);
        assert forall|f: Fact| #[trigger] self.shown(f) implies r.shown(f) by {
            assert forall|p: spec_fn(Fact) -> bool| #[trigger] r.closed(p) implies p(f) by {
                assert forall|g: Fact| #[trigger] self.step(p, g) implies p(g) by {
                    self.lemma_under_step(r, p, g);
                }
                assert(self.closed(p));
            }
        }
        if self.backs_all(slots) {
            assert forall|i: int| 0 <= i < slots.len() implies r.backs(#[trigger] slots[i]) by {
                let t = slots[i];
                assert(self.backs(t));
                if t.used && t.relax >= self.relax {
                    if t.lower > -INF {
                        self.lemma_under_vouched(r, Note::of(t, true));
                    }
                    if t.upper < INF {
                        self.lemma_under_vouched(r, Note::of(t, false));
                    }
                }
            }
        }
    }

    proof fn lemma_under_vouched(self, r: Rules<E>, n: Note)
        requires
            self.under(r),
            self.vouched(n),
            forall|f: Fact| #[trigger] self.shown(f) ==> r.shown(f),
        ensures
            r.vouched(n),
    {
        reveal(Rules::vouched);
        if self.held(n) {
            let i = choose|i: int|
                0 <= i < self.slots.len() && #[trigger] says(self.slots[i], self.relax, n);
            let t = self.slots[i];
            assert(r.backs(t));
            r.lemma_note(Note::of(t, n.low), n);
        } else {
            let (mine, all) = (self.all_shown(), r.all_shown());
            let g = choose|g: Fact| #[trigger]
                self.moved(mine, g) && self.covers(g) && noted(g).implies_note(n);
            lemma_comes_from(r.root, self.root, g.board);
            assert forall|q: Fact| #[trigger] mine(q) implies all(q) by {
                assert(self.shown(q));
            }
            self.lemma_more(mine, all, g);
            assert(r.moved(all, g) && r.covers(g));
        }
    }

    /// No reduced search is made before the end.
    pub open spec fn uncut(self) -> bool {
        let depth = self.h - discs(self.root);
        self.cuts == 0 || depth < 3 || depth < self.least
    }

    /// What may be said without reduced searches is right, where the table is: if
    /// some set of positions has keys that tell them apart.
    pub proof fn law_shown_is_right(self, set: Set<Board>, f: Fact)
        requires
            self.e.valid(),
            self.uncut(),
            ground(set, self.e, self.h),
            knows_end(set, self.e, self.h),
            set.contains(self.root),
            slots_right(self.slots, set, self.e, self.h),
            self.shown(f),
            self.covers(f),
            discs(f.board) + f.depth == self.h,
        ensures
            f.met_by(nn_value(self.e, f.board, f.depth as nat)),
    {
        reveal(Rules::shown);
        let p = |g: Fact|
            self.covers(g) && discs(g.board) + g.depth == self.h ==> g.met_by(
                nn_value(self.e, g.board, g.depth as nat),
            );
        assert forall|g: Fact| #[trigger] self.step(p, g) implies p(g) by {
            if discs(g.board) + g.depth == self.h {
                self.lemma_right_step(set, p, g);
            }
        }
        assert(self.closed(p));
        assert(p(f));
    }

    /// The positions that a search comes to are in the set.
    proof fn lemma_in_set(self, set: Set<Board>, b: Board)
        requires
            ground(set, self.e, self.h),
            set.contains(self.root),
            comes_from(self.root, b),
            discs(b) <= self.h,
        ensures
            set.contains(b),
            discs(self.root) <= discs(b),
    {
        let low = discs(self.root);
        let all = Set::new(
            |c: Board| low <= discs(c) && (set.contains(c) || discs(c) > self.h),
        );
        assert forall|c: Board, s: int|
            all.contains(c) && c.wf() && 0 <= s < 64 && c.legal(s) implies all.contains(
            #[trigger] c.after(s),
        ) by {
            lemma_after_wf(c, s);
        }
        assert forall|c: Board| #[trigger] all.contains(c) implies all.contains(c.passed()) by {
            if set.contains(c) {
                assert(set.contains(c.passed()));
            }
        }
        assert(family(all));
        assert(all.contains(b));
    }

    #[verifier::spinoff_prover]
    proof fn lemma_right_step(self, set: Set<Board>, p: spec_fn(Fact) -> bool, f: Fact)
        requires
            self.e.valid(),
            self.uncut(),
            ground(set, self.e, self.h),
            knows_end(set, self.e, self.h),
            set.contains(self.root),
            slots_right(self.slots, set, self.e, self.h),
            forall|g: Fact| #[trigger]
                p(g) && self.covers(g) && discs(g.board) + g.depth == self.h ==> g.met_by(
                    nn_value(self.e, g.board, g.depth as nat),
                ),
            self.step(p, f),
            discs(f.board) + f.depth == self.h,
        ensures
            f.met_by(nn_value(self.e, f.board, f.depth as nat)),
    {
        let (b, d, e) = (f.board, f.depth as nat, self.e);
        self.lemma_in_set(set, b);
        lemma_wf_sides(b);
        lemma_passed_wf(b);
        lemma_comes_next(self.root, b);
        if self.known(f) {
        } else if self.passes(p, f) {
            assert(self.covers(f.passed()));
        } else if self.moved(p, f) {
            self.lemma_right_moves(set, p, f);
        } else if self.swept(f) {
            lemma_nn_reached(e, b, d);
            assert forall|s: int| 0 <= s < 64 && #[trigger] b.legal(s) implies nn_move(e, b, 1, s)
                == -e.leaf(b.after(s)) && !central(s) by {
                let c = b.after(s);
                assert(set.contains(c));
                lemma_after_wf(b, s);
            }
        } else if f.depth > 0 && self.held(noted(f)) {
            let i = choose|i: int|
                0 <= i < self.slots.len() && #[trigger] says(self.slots[i], self.relax, noted(f));
            assert(self.slots[i].right(set, e, self.h));
        } else if f.depth > 0 && self.put(p, noted(f)) {
            let g = choose|g: Fact| #[trigger]
                self.moved(p, g) && self.covers(g) && noted(g).implies_note(noted(f));
            self.lemma_in_set(set, g.board);
            assert(same_view(g.board, b));
            assert(g.depth == f.depth);
            self.lemma_right_moves(set, p, g);
            lemma_same_value(set, e, self.h, g.board, b, d);
        } else if self.cut(p, f) {
            assert(false);
        } else {
            let w = choose|w: int| #[trigger] p(Fact { bound: w, ..f }) && f.met_by(w);
            assert(self.covers(Fact { bound: w, ..f }));
        }
    }

    proof fn lemma_right_moves(self, set: Set<Board>, p: spec_fn(Fact) -> bool, f: Fact)
        requires
            self.e.valid(),
            ground(set, self.e, self.h),
            set.contains(self.root),
            forall|g: Fact| #[trigger]
                p(g) && self.covers(g) && discs(g.board) + g.depth == self.h ==> g.met_by(
                    nn_value(self.e, g.board, g.depth as nat),
                ),
            self.covers(f),
            self.moved(p, f),
            discs(f.board) + f.depth == self.h,
        ensures
            f.met_by(nn_value(self.e, f.board, f.depth as nat)),
    {
        let (b, d, e) = (f.board, f.depth as nat, self.e);
        lemma_wf_sides(b);
        lemma_comes_next(self.root, b);
        lemma_nn_reached(e, b, d);
        let s = if f.low {
            choose|s: int| 0 <= s < 64 && #[trigger] b.legal(s) && p(f.after(s))
        } else {
            choose|s: int|
                0 <= s < 64 && #[trigger] b.legal(s) && nn_move(e, b, d, s) == nn_value(e, b, d)
        };
        lemma_after_wf(b, s);
        assert(self.covers(f.after(s)));
        assert(p(f.after(s)));
        assert(nn_move(e, b, d, s) == -nn_value(e, f.after(s).board, f.after(s).depth as nat));
    }

    /// The search may come to what follows.
    pub proof fn lemma_covers_next(self, f: Fact)
        requires
            self.covers(f),
        ensures
            self.covers(f.passed()),
            forall|s: int|
                f.depth > 0 && 0 <= s < 64 && f.board.legal(s) ==> self.covers(
                    #[trigger] f.after(s),
                ),
    {
        let b = f.board;
        lemma_passed_wf(b);
        lemma_wf_sides(b);
        lemma_comes_next(self.root, b);
        assert forall|s: int| f.depth > 0 && 0 <= s < 64 && b.legal(s) implies self.covers(
            #[trigger] f.after(s),
        ) by {
            lemma_after_wf(b, s);
            assert(comes_from(self.root, b.after(s)));
        }
    }

    /// A result or an evaluation is backed.
    pub proof fn lemma_known(self, cuts: int, b: Board, depth: int, alpha: int, beta: int, v: int)
        requires
            self.covers(Fact { cuts, board: b, depth, low: true, bound: v }),
            depth == 0 || b.finished(),
            v == nn_value(self.e, b, 0),
        ensures
            self.backed(cuts, b, depth, alpha, beta, v),
    {
        self.lemma_take(Fact { cuts, board: b, depth, low: true, bound: v });
        self.lemma_take(Fact { cuts, board: b, depth, low: false, bound: v });
    }

    /// What is backed after a pass is backed before it.
    pub proof fn lemma_passed(
        self,
        cuts: int,
        b: Board,
        depth: int,
        alpha: int,
        beta: int,
        raw: int,
    )
        requires
            self.covers(Fact { cuts, board: b, depth, low: true, bound: 0 }),
            depth > 0,
            !b.can_move(),
            b.passed().can_move(),
            self.backed(cuts, b.passed(), depth, -beta, -alpha, raw),
        ensures
            self.backed(cuts, b, depth, alpha, beta, -raw),
    {
        let all = self.all_shown();
        let (low, high) = (
            Fact { cuts, board: b, depth, low: true, bound: -raw },
            Fact { cuts, board: b, depth, low: false, bound: -raw },
        );
        if -raw > alpha {
            assert(all(low.passed()));
            self.lemma_take(low);
        }
        if -raw < beta {
            assert(all(high.passed()));
            self.lemma_take(high);
        }
    }

    /// A reduced search that cleared its margin backs a cut.
    pub proof fn lemma_cut(self, f: Fact, cuts: int, w: int)
        requires
            self.covers(f),
            f.cuts > 0,
            f.depth >= 3,
            f.depth >= self.least,
            self.probed(f) == Some(w),
            cuts == if self.nested {
                f.cuts - 1
            } else {
                0
            },
            self.shown(Fact { cuts, depth: 2 * (f.depth / 4) + f.depth % 2, bound: w, ..f }),
        ensures
            self.shown(f),
    {
        let all = self.all_shown();
        assert(all(Fact { cuts, depth: 2 * (f.depth / 4) + f.depth % 2, bound: w, ..f }));
        self.lemma_take(f);
    }

    /// A finding that is vouched for leaves a slot that is.
    proof fn lemma_slot_backed(self, f: Finding, t: TtEntry, u: TtEntry)
        requires
            self.backs(t),
            f.relax == self.relax,
            f.value > f.alpha >= -INF ==> self.vouched(f.note(true)),
            f.value < f.beta <= INF ==> self.vouched(f.note(false)),
            -INF <= f.alpha,
            f.beta <= INF,
            u == f.fresh() || t.is_for(f.hash) && level(t.depth, t.relax) <= level(f.depth, f.relax)
                && u == f.merged(t),
        ensures
            self.backs(u),
    {
    }

    /// A finding that is vouched for leaves a bucket that is.
    pub proof fn lemma_put_backed(self, bucket: Seq<TtEntry>, f: Finding)
        requires
            self.backs_all(bucket),
            f.relax == self.relax,
            f.value > f.alpha >= -INF ==> self.vouched(f.note(true)),
            f.value < f.beta <= INF ==> self.vouched(f.note(false)),
            -INF <= f.alpha,
            f.beta <= INF,
        ensures
            self.backs_all(put_in(bucket, f)),
    {
        let n = level(f.depth, f.relax);
        let i = slot_for(bucket, f.hash, 0);
        let j = slot_below(bucket, n, 0);
        lemma_slot_for(bucket, f.hash, 0);
        lemma_slot_below(bucket, n, 0);
        let after = put_in(bucket, f);
        if i < bucket.len() {
            assert(self.backs(bucket[i]));
            if level(bucket[i].depth, bucket[i].relax) <= n {
                self.lemma_slot_backed(f, bucket[i], f.merged(bucket[i]));
            }
        } else if j < bucket.len() {
            assert(self.backs(bucket[j]));
            self.lemma_slot_backed(f, bucket[j], f.fresh());
        }
        assert forall|k: int| 0 <= k < after.len() implies self.backs(#[trigger] after[k]) by {
            assert(self.backs(bucket[k]));
        }
    }
}

impl Finding {
    /// The bound from below that the finding is, or the one from above.
    pub open spec fn note(self, low: bool) -> Note {
        Note { key: self.hash, depth: self.depth as int, low, bound: self.value as int }
    }
}

/// What a reduced search tells, it tells by a margin: a bound of the same position
/// and the same side, searched to less depth of the same parity, that lies beyond
/// the bound that is told by the whole margin. Where reduced searches do not nest,
/// the position's own value lies beyond the bound too.
pub proof fn law_cut_clears_the_margin<E: LeafEval>(r: Rules<E>, p: spec_fn(Fact) -> bool, f: Fact)
    requires
        r.cut(p, f),
        f.depth <= 64,
    ensures
        exists|g: Fact|
            {
                let m = r.margins[f.depth * 65 + f.board.empty_count] as int;
                &&& #[trigger] p(g)
                &&& g.board == f.board
                &&& g.low == f.low
                &&& 0 <= g.cuts < f.cuts
                &&& 0 < g.depth < f.depth
                &&& g.depth % 2 == f.depth % 2
                &&& -3 <= 2 * g.depth - f.depth <= 3
                &&& f.low ==> g.bound == f.bound + m
                &&& !f.low ==> g.bound == f.bound - m
            },
        !r.nested && f.low ==> r.e.leaf(f.board) > f.bound,
        !r.nested && !f.low ==> r.e.leaf(f.board) < f.bound,
{
    let g = Fact {
        cuts: if r.nested {
            f.cuts - 1
        } else {
            0
        },
        depth: 2 * (f.depth / 4) + f.depth % 2,
        bound: r.probed(f)->Some_0,
        ..f
    };
    assert(p(g));
}

/// A position that is seen from the other side is asked the same of reduced
/// searches, the other way round. A value that points further past the window is
/// asked no more.
pub proof fn law_probe_bounds_turn_round(v: int, more: int, alpha: int, beta: int, margin: int)
    requires
        more >= 0,
    ensures
        ({
            let (above, below) = probe_bounds_of(Some(v), alpha, beta, margin);
            let (up, down) = probe_bounds_of(Some(-v), -beta, -alpha, margin);
            &&& above is Some == down is Some
            &&& below is Some == up is Some
            &&& above matches Some(x) ==> down == Some(-x) && x == beta + margin
            &&& below matches Some(x) ==> up == Some(-x) && x == alpha - margin
            &&& above is Some ==> probe_bounds_of(Some(v + more), alpha, beta, margin).0 == above
            &&& below is Some ==> probe_bounds_of(Some(v - more), alpha, beta, margin).1 == below
            &&& above is Some ==> probe_bounds_of(None, alpha, beta, margin).0 == above
            &&& below is Some ==> probe_bounds_of(None, alpha, beta, margin).1 == below
        }),
{
}

/// What may be said of a position to no depth is right, however deep reduced searches
/// nest and whatever the table holds: the evaluation tells, or the result of a finished
/// game.
pub proof fn law_no_depth_is_the_evaluation<E: LeafEval>(r: Rules<E>, f: Fact)
    requires
        r.shown(f),
        f.depth == 0,
    ensures
        f.board.finished() ==> f.met_by(final_score_of(f.board) * FINISHED),
        !f.board.finished() ==> f.met_by(r.e.leaf(f.board)),
{
    reveal(Rules::shown);
    let p = |g: Fact|
        g.depth == 0 ==> g.met_by(
            if g.board.finished() {
                final_score_of(g.board) * FINISHED
            } else {
                r.e.leaf(g.board)
            },
        );
    assert forall|g: Fact| #[trigger] r.step(p, g) implies p(g) by {
        if g.depth == 0 && !r.known(g) {
            let w = choose|w: int| #[trigger] p(Fact { bound: w, ..g }) && g.met_by(w);
            assert(p(Fact { bound: w, ..g }));
        }
    }
    assert(r.closed(p));
    assert(p(f));
}

} // verus!
