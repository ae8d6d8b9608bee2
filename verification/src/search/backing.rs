//! What a search can say of a position, and by what.
//!
//! A search says that a position, searched to some depth, is worth at least or
//! at most so much. It may say so by an evaluation or a finished game, by the
//! positions after the moves, by its table, or by a reduced search that cleared
//! its margin; and by nothing else.

use vstd::prelude::*;

use crate::board::{Board, lemma_after_wf, lemma_passed_wf, lemma_wf_sides};
use crate::facts::{Fact, comes_from, family, lemma_comes_from, lemma_comes_next};
use super::{Bound, LeafEval, SIGMA_UNIT, TERMINAL_SCALE, TtEntry, best_below, final_score_of, lemma_best_below, lemma_final_score, lemma_value_bound, move_value, probe_margin_of, probe_windows_of, reach, sigma, table_within, value_of};

verus! {

/// The entry says so of its position.
pub open spec fn says(t: TtEntry, f: Fact) -> bool {
    &&& t.used
    &&& t.board() == f.board
    &&& t.depth >= f.depth
    &&& t.bound != (if f.low {
        Bound::Upper
    } else {
        Bound::Lower
    })
    &&& f.met_by(t.value as int)
}

/// What an entry says at the most.
pub open spec fn entry_fact(t: TtEntry, low: bool) -> Fact {
    Fact { cuts: 0, board: t.board(), depth: t.depth as int, low, bound: t.value as int }
}

/// The fact says all that the other does of the same position.
pub open spec fn implies_fact(g: Fact, f: Fact) -> bool {
    &&& g.board == f.board
    &&& g.depth >= f.depth
    &&& g.low == f.low
    &&& f.met_by(g.bound)
}

/// By what a search of `root` may say something of a position: the evaluation,
/// the table that it started with, how sure reduced searches have to be and from
/// which depth on they are made; how deep they nest, and how many discs are on
/// the board where it ends.
pub struct Rules<E> {
    pub e: E,
    pub entries: Seq<TtEntry>,
    pub t: int,
    pub least: int,
    pub cuts: int,
    pub root: Board,
    pub h: int,
}

impl<E: LeafEval> Rules<E> {
    /// The fact is about a position that the search may come to.
    pub open spec fn covers(self, f: Fact) -> bool {
        &&& 0 <= f.cuts <= self.cuts
        &&& f.board.wf()
        &&& comes_from(self.root, f.board)
        &&& 0 <= f.depth
        &&& reach(f.board, f.depth) <= self.h
    }

    /// The game is finished, or no depth is left: the result or the evaluation
    /// tells.
    pub open spec fn known(self, f: Fact) -> bool {
        if f.board.finished() {
            f.met_by(final_score_of(f.board) * TERMINAL_SCALE)
        } else {
            f.depth == 0 && f.board.can_move() && f.met_by(self.e.leaf(f.board))
        }
    }

    /// The side to move has to pass, and what follows tells.
    pub open spec fn passes(self, p: spec_fn(Fact) -> bool, f: Fact) -> bool {
        !f.board.can_move() && p(f.passed())
    }

    /// Some move tells that it is at least so much, or all of them that it is at
    /// most.
    pub open spec fn moved(self, p: spec_fn(Fact) -> bool, f: Fact) -> bool {
        &&& f.depth > 0
        &&& f.board.can_move()
        &&& if f.low {
            exists|s: int| 0 <= s < 64 && #[trigger] f.board.legal(s) && p(f.after(s))
        } else {
            forall|s: int| 0 <= s < 64 && #[trigger] f.board.legal(s) ==> p(f.after(s))
        }
    }

    /// The table held so at the start.
    pub open spec fn held(self, f: Fact) -> bool {
        exists|i: int| 0 <= i < self.entries.len() && #[trigger] says(self.entries[i], f)
    }

    /// The moves told so, to no less depth: that is what a search puts into the
    /// table.
    pub open spec fn put(self, p: spec_fn(Fact) -> bool, f: Fact) -> bool {
        exists|g: Fact| #[trigger] self.moved(p, g) && self.covers(g) && implies_fact(g, f)
    }

    /// The bound that a reduced search has to reach for the fact, if one is
    /// tried.
    pub open spec fn probed(self, f: Fact) -> Option<int> {
        let (own, empties) = (self.e.leaf(f.board), f.board.empty_count as int);
        if f.low {
            probe_windows_of(own, f.bound - 1, f.bound, self.t, empties, f.depth).0
        } else {
            probe_windows_of(own, f.bound, f.bound + 1, self.t, empties, f.depth).1
        }
    }

    /// A reduced search cleared its margin.
    pub open spec fn cut(self, p: spec_fn(Fact) -> bool, f: Fact) -> bool {
        &&& f.cuts > 0
        &&& f.depth >= self.least
        &&& self.probed(f) matches Some(w) && p(
            Fact {
                cuts: f.cuts - 1,
                depth: 2 * (f.depth / 4) + f.depth % 2,
                bound: w,
                ..f
            },
        )
    }

    /// What was told tells more.
    pub open spec fn weaker(self, p: spec_fn(Fact) -> bool, f: Fact) -> bool {
        exists|w: int| #[trigger] p(Fact { bound: w, ..f }) && f.met_by(w)
    }

    /// The fact follows from facts of `p` in one step.
    pub open spec fn step(self, p: spec_fn(Fact) -> bool, f: Fact) -> bool {
        &&& self.covers(f)
        &&& {
            ||| self.known(f)
            ||| self.passes(p, f)
            ||| self.moved(p, f)
            ||| f.depth > 0 && self.held(f)
            ||| f.depth > 0 && self.put(p, f)
            ||| self.cut(p, f)
            ||| self.weaker(p, f)
        }
    }

    /// What follows from facts of `p` is one of them.
    pub open spec fn closed(self, p: spec_fn(Fact) -> bool) -> bool {
        forall|f: Fact| #[trigger] self.step(p, f) ==> p(f)
    }

    /// A search may say so: the fact is one of those that follow step by step.
    #[verifier::opaque]
    pub open spec fn shown(self, f: Fact) -> bool {
        forall|p: spec_fn(Fact) -> bool| #[trigger] self.closed(p) ==> p(f)
    }

    /// What a search may say.
    pub open spec fn all_shown(self) -> spec_fn(Fact) -> bool {
        |f: Fact| self.shown(f)
    }

    /// The table held so at the start, or a search may have put it there.
    #[verifier::opaque]
    pub open spec fn vouched(self, f: Fact) -> bool {
        self.held(f) || self.put(self.all_shown(), f)
    }

    /// What the entry says of its position is vouched for.
    pub open spec fn backs(self, t: TtEntry) -> bool {
        t.used ==> {
            &&& t.bound != Bound::Upper ==> self.vouched(entry_fact(t, true))
            &&& t.bound != Bound::Lower ==> self.vouched(entry_fact(t, false))
        }
    }

    /// What every entry says is vouched for.
    pub open spec fn backs_all(self, entries: Seq<TtEntry>) -> bool {
        forall|i: int| 0 <= i < entries.len() ==> self.backs(#[trigger] entries[i])
    }

    /// A result of a search with a window is backed: above the lower end it is a
    /// bound from below, and under the upper end one from above.
    pub open spec fn backed(
        self,
        cuts: int,
        b: Board,
        depth: int,
        alpha: int,
        beta: int,
        v: int,
    ) -> bool {
        &&& v > alpha ==> self.shown(Fact { cuts, board: b, depth, low: true, bound: v })
        &&& v < beta ==> self.shown(Fact { cuts, board: b, depth, low: false, bound: v })
    }

    /// Nothing that these rules tell is beyond the others, which may vouch for
    /// the table.
    pub open spec fn under(self, r: Rules<E>) -> bool {
        &&& self.e == r.e
        &&& self.t == r.t
        &&& self.least == r.least
        &&& self.cuts <= r.cuts
        &&& self.h <= r.h
        &&& comes_from(r.root, self.root)
        &&& r.backs_all(self.entries)
    }

    /// More facts, more follows.
    proof fn lemma_more(self, p: spec_fn(Fact) -> bool, q: spec_fn(Fact) -> bool, f: Fact)
        requires
            forall|g: Fact| #[trigger] p(g) ==> q(g),
        ensures
            self.moved(p, f) ==> self.moved(q, f),
            self.step(p, f) ==> self.step(q, f),
    {
        assert forall|g: Fact| #[trigger] self.moved(p, g) implies self.moved(q, g) by {
            if g.low {
                let s = choose|s: int|
                    0 <= s < 64 && #[trigger] g.board.legal(s) && p(g.after(s));
                assert(g.board.legal(s) && q(g.after(s)));
            } else {
                assert forall|s: int| 0 <= s < 64 && #[trigger] g.board.legal(s) implies q(
                    g.after(s),
                ) by {
                    assert(p(g.after(s)));
                }
            }
        }
        if self.put(p, f) {
            let g = choose|g: Fact| #[trigger]
                self.moved(p, g) && self.covers(g) && implies_fact(g, f);
            assert(self.moved(q, g));
        }
        if self.weaker(p, f) {
            let w = choose|w: int| #[trigger] p(Fact { bound: w, ..f }) && f.met_by(w);
            assert(q(Fact { bound: w, ..f }));
        }
    }

    /// What follows from what may be said may be said.
    pub proof fn lemma_take(self, f: Fact)
        requires
            self.step(self.all_shown(), f),
        ensures
            self.shown(f),
    {
        reveal(Rules::shown);
        assert forall|p: spec_fn(Fact) -> bool| #[trigger] self.closed(p) implies p(f) by {
            let all = self.all_shown();
            assert forall|g: Fact| #[trigger] all(g) implies p(g) by {
                assert(self.shown(g));
            }
            self.lemma_more(all, p, f);
            assert(self.step(p, f));
        }
    }

    /// Less may be said too.
    pub proof fn lemma_weaker(self, f: Fact, w: int)
        requires
            self.covers(f),
            self.shown(Fact { bound: w, ..f }),
            f.met_by(w),
        ensures
            self.shown(f),
    {
        let all = self.all_shown();
        assert(all(Fact { bound: w, ..f }));
        assert(self.weaker(all, f));
        self.lemma_take(f);
    }

    /// Less is vouched for too.
    pub proof fn lemma_vouched(self, g: Fact, f: Fact)
        requires
            self.vouched(g),
            implies_fact(g, f),
        ensures
            self.vouched(f),
    {
        reveal(Rules::vouched);
        let all = self.all_shown();
        if self.held(g) {
            let i = choose|i: int|
                0 <= i < self.entries.len() && #[trigger] says(self.entries[i], g);
            assert(says(self.entries[i], f));
        } else {
            let k = choose|k: Fact| #[trigger]
                self.moved(all, k) && self.covers(k) && implies_fact(k, g);
            assert(self.moved(all, k) && implies_fact(k, f));
        }
    }

    /// What the table is vouched for may be said.
    pub proof fn lemma_from_table(self, g: Fact, f: Fact)
        requires
            self.vouched(g),
            implies_fact(g, f),
            self.covers(f),
            f.depth > 0,
        ensures
            self.shown(f),
            self.vouched(f),
    {
        reveal(Rules::vouched);
        self.lemma_vouched(g, f);
        self.lemma_take(f);
    }

    /// What the moves tell may be said, and be put into the table.
    pub proof fn lemma_from_moves(self, f: Fact)
        requires
            self.covers(f),
            self.moved(self.all_shown(), f),
        ensures
            self.shown(f),
            self.vouched(f),
    {
        reveal(Rules::vouched);
        let all = self.all_shown();
        assert(self.moved(all, f) && implies_fact(f, f));
        self.lemma_take(f);
    }

    /// The table that a search starts with backs itself.
    pub proof fn lemma_start(self)
        ensures
            self.backs_all(self.entries),
    {
        reveal(Rules::vouched);
        assert forall|i: int| 0 <= i < self.entries.len() implies self.backs(
            #[trigger] self.entries[i],
        ) by {
            let t = self.entries[i];
            if t.used {
                if t.bound != Bound::Upper {
                    assert(says(self.entries[i], entry_fact(t, true)));
                }
                if t.bound != Bound::Lower {
                    assert(says(self.entries[i], entry_fact(t, false)));
                }
            }
        }
    }

    /// What smaller rules tell, larger ones do.
    proof fn lemma_under_step(self, r: Rules<E>, p: spec_fn(Fact) -> bool, f: Fact)
        requires
            self.under(r),
            r.closed(p),
            self.step(p, f),
        ensures
            p(f),
    {
        reveal(Rules::shown);
        reveal(Rules::vouched);
        lemma_comes_from(r.root, self.root, f.board);
        assert(r.covers(f));
        if f.depth > 0 && self.put(p, f) {
            let g = choose|g: Fact| #[trigger]
                self.moved(p, g) && self.covers(g) && implies_fact(g, f);
            lemma_comes_from(r.root, self.root, g.board);
            assert(r.moved(p, g) && r.covers(g));
            assert(r.put(p, f));
            assert(r.step(p, f));
        } else if f.depth > 0 && self.held(f) {
            let i = choose|i: int|
                0 <= i < self.entries.len() && #[trigger] says(self.entries[i], f);
            let t = self.entries[i];
            assert(r.backs(t));
            r.lemma_vouched(entry_fact(t, f.low), f);
            if r.held(f) {
                assert(r.step(p, f));
            } else {
                let all = r.all_shown();
                let g = choose|g: Fact| #[trigger]
                    r.moved(all, g) && r.covers(g) && implies_fact(g, f);
                assert forall|q: Fact| #[trigger] all(q) implies p(q) by {
                    assert(r.shown(q));
                }
                r.lemma_more(all, p, g);
                assert(r.moved(p, g));
                assert(r.put(p, f));
                assert(r.step(p, f));
            }
        } else {
            if self.weaker(p, f) {
                assert(r.weaker(p, f));
            }
            assert(r.step(p, f));
        }
    }

    /// What may be said by smaller rules may be said by larger ones.
    pub proof fn lemma_under(self, r: Rules<E>, entries: Seq<TtEntry>)
        requires
            self.under(r),
        ensures
            forall|f: Fact| #[trigger] self.shown(f) ==> r.shown(f),
            self.backs_all(entries) ==> r.backs_all(entries),
    {
        reveal(Rules::shown);
        assert forall|f: Fact| #[trigger] self.shown(f) implies r.shown(f) by {
            assert forall|p: spec_fn(Fact) -> bool| #[trigger] r.closed(p) implies p(f) by {
                assert forall|g: Fact| #[trigger] self.step(p, g) implies p(g) by {
                    self.lemma_under_step(r, p, g);
                }
                assert(self.closed(p));
            }
        }
        if self.backs_all(entries) {
            assert forall|i: int| 0 <= i < entries.len() implies r.backs(#[trigger] entries[i]) by {
                let t = entries[i];
                assert(self.backs(t));
                if t.used {
                    if t.bound != Bound::Upper {
                        self.lemma_under_vouched(r, entry_fact(t, true));
                    }
                    if t.bound != Bound::Lower {
                        self.lemma_under_vouched(r, entry_fact(t, false));
                    }
                }
            }
        }
    }

    proof fn lemma_under_vouched(self, r: Rules<E>, f: Fact)
        requires
            self.under(r),
            self.vouched(f),
            forall|g: Fact| #[trigger] self.shown(g) ==> r.shown(g),
        ensures
            r.vouched(f),
    {
        reveal(Rules::vouched);
        if self.held(f) {
            let i = choose|i: int|
                0 <= i < self.entries.len() && #[trigger] says(self.entries[i], f);
            let t = self.entries[i];
            assert(r.backs(t));
            r.lemma_vouched(entry_fact(t, f.low), f);
        } else {
            let (mine, all) = (self.all_shown(), r.all_shown());
            let g = choose|g: Fact| #[trigger]
                self.moved(mine, g) && self.covers(g) && implies_fact(g, f);
            lemma_comes_from(r.root, self.root, g.board);
            assert forall|q: Fact| #[trigger] mine(q) implies all(q) by {
                assert(self.shown(q));
            }
            self.lemma_more(mine, all, g);
            assert(r.moved(all, g) && r.covers(g));
        }
    }

    /// The search may come to what follows.
    pub proof fn lemma_covers_next(self, f: Fact)
        requires
            self.covers(f),
        ensures
            self.covers(f.passed()),
            forall|s: int|
                f.depth > 0 && 0 <= s < 64 && f.board.legal(s) ==> self.covers(
                    #[trigger] f.after(s),
                ),
    {
        let b = f.board;
        lemma_passed_wf(b);
        lemma_wf_sides(b);
        lemma_comes_next(self.root, b);
        assert forall|s: int| f.depth > 0 && 0 <= s < 64 && b.legal(s) implies self.covers(
            #[trigger] f.after(s),
        ) by {
            lemma_after_wf(b, s);
            assert(comes_from(self.root, b.after(s)));
        }
    }

    /// A result or an evaluation is backed, the other side's as well where the
    /// side to move has to pass.
    pub proof fn lemma_known(self, cuts: int, b: Board, depth: int, alpha: int, beta: int, v: int)
        requires
            self.covers(Fact { cuts, board: b, depth, low: true, bound: v }),
            depth == 0 || b.finished(),
            v == value_of(self.e, b, 0, false),
        ensures
            self.backed(cuts, b, depth, alpha, beta, v),
    {
        reveal_with_fuel(value_of, 2);
        let all = self.all_shown();
        let (low, high) = (
            Fact { cuts, board: b, depth, low: true, bound: v },
            Fact { cuts, board: b, depth, low: false, bound: v },
        );
        lemma_final_score(b);
        self.lemma_covers_next(low);
        self.lemma_covers_next(high);
        if !b.can_move() && b.passed().can_move() {
            self.lemma_take(low.passed());
            self.lemma_take(high.passed());
            assert(all(low.passed()) && all(high.passed()));
        }
        self.lemma_take(low);
        self.lemma_take(high);
    }

    /// What is backed after a pass is backed before it.
    pub proof fn lemma_passed(
        self,
        cuts: int,
        b: Board,
        depth: int,
        alpha: int,
        beta: int,
        raw: int,
    )
        requires
            self.covers(Fact { cuts, board: b, depth, low: true, bound: 0 }),
            !b.can_move(),
            self.backed(cuts, b.passed(), depth, -beta, -alpha, raw),
        ensures
            self.backed(cuts, b, depth, alpha, beta, -raw),
    {
        let all = self.all_shown();
        let (low, high) = (
            Fact { cuts, board: b, depth, low: true, bound: -raw },
            Fact { cuts, board: b, depth, low: false, bound: -raw },
        );
        if -raw > alpha {
            assert(all(low.passed()));
            self.lemma_take(low);
        }
        if -raw < beta {
            assert(all(high.passed()));
            self.lemma_take(high);
        }
    }

    /// A reduced search that cleared its margin backs a cut.
    pub proof fn lemma_cut(self, f: Fact, w: int)
        requires
            self.covers(f),
            f.cuts > 0,
            f.depth >= self.least,
            self.probed(f) == Some(w),
            self.shown(
                Fact { cuts: f.cuts - 1, depth: 2 * (f.depth / 4) + f.depth % 2, bound: w, ..f },
            ),
        ensures
            self.shown(f),
    {
        let all = self.all_shown();
        assert(all(
            Fact { cuts: f.cuts - 1, depth: 2 * (f.depth / 4) + f.depth % 2, bound: w, ..f },
        ));
        self.lemma_take(f);
    }

    /// No reduced search is made before the end.
    pub open spec fn uncut(self) -> bool {
        self.cuts == 0 || self.h - reach(self.root, 0) < self.least
    }

    /// What may be said without reduced searches is right, where the table is.
    pub proof fn law_shown_is_right(self, f: Fact)
        requires
            self.e.valid(),
            self.uncut(),
            table_within(self.entries, self.e, self.h),
            self.shown(f),
            self.covers(f),
            reach(f.board, f.depth) == self.h,
        ensures
            f.met_by(value_of(self.e, f.board, f.depth as nat, false)),
    {
        reveal(Rules::shown);
        let p = |g: Fact|
            self.covers(g) && reach(g.board, g.depth) == self.h ==> g.met_by(
                value_of(self.e, g.board, g.depth as nat, false),
            );
        assert forall|g: Fact| #[trigger] self.step(p, g) implies p(g) by {
            if reach(g.board, g.depth) == self.h {
                self.lemma_right_step(p, g);
            }
        }
        assert(self.closed(p));
        assert(p(f));
    }

    /// What follows has no fewer discs.
    proof fn lemma_no_fewer(self, b: Board)
        requires
            comes_from(self.root, b),
        ensures
            reach(self.root, 0) <= reach(b, 0),
    {
        let low = reach(self.root, 0);
        let all = Set::new(|c: Board| low <= reach(c, 0));
        assert forall|c: Board, s: int|
            all.contains(c) && c.wf() && 0 <= s < 64 && c.legal(s) implies all.contains(
            #[trigger] c.after(s),
        ) by {
            lemma_after_wf(c, s);
        }
        assert forall|c: Board| #[trigger] all.contains(c) implies all.contains(c.passed()) by {}
        assert(family(all));
        assert(all.contains(b));
    }

    #[verifier::spinoff_prover]
    proof fn lemma_right_step(self, p: spec_fn(Fact) -> bool, f: Fact)
        requires
            self.e.valid(),
            self.uncut(),
            table_within(self.entries, self.e, self.h),
            forall|g: Fact| #[trigger]
                p(g) && self.covers(g) && reach(g.board, g.depth) == self.h ==> g.met_by(
                    value_of(self.e, g.board, g.depth as nat, false),
                ),
            self.step(p, f),
            reach(f.board, f.depth) == self.h,
        ensures
            f.met_by(value_of(self.e, f.board, f.depth as nat, false)),
    {
        let (b, d, e) = (f.board, f.depth as nat, self.e);
        self.lemma_no_fewer(b);
        self.lemma_covers_next(f);
        lemma_final_score(b);
        if self.known(f) {
            reveal_with_fuel(value_of, 2);
        } else if self.passes(p, f) {
            reveal_with_fuel(value_of, 3);
            assert(f.passed().board.passed() == b);
            assert(value_of(e, b, d, false) == -value_of(e, b.passed(), d, true));
            assert(value_of(e, b.passed(), d, true) == value_of(e, b.passed(), d, false));
        } else if self.moved(p, f) {
            self.lemma_right_moves(p, f);
        } else if f.depth > 0 && self.held(f) {
            let i = choose|i: int|
                0 <= i < self.entries.len() && #[trigger] says(self.entries[i], f);
            assert(self.entries[i].used);
            assert(self.entries[i].within(e, self.h));
            assert(self.entries[i].depth == f.depth);
        } else if f.depth > 0 && self.put(p, f) {
            let g = choose|g: Fact| #[trigger]
                self.moved(p, g) && self.covers(g) && implies_fact(g, f);
            assert(g.depth == f.depth);
            self.lemma_right_moves(p, g);
        } else if self.cut(p, f) {
            assert(false);
        } else {
            let w = choose|w: int| #[trigger] p(Fact { bound: w, ..f }) && f.met_by(w);
            assert(self.covers(Fact { bound: w, ..f }));
        }
    }

    proof fn lemma_right_moves(self, p: spec_fn(Fact) -> bool, f: Fact)
        requires
            self.e.valid(),
            forall|g: Fact| #[trigger]
                p(g) && self.covers(g) && reach(g.board, g.depth) == self.h ==> g.met_by(
                    value_of(self.e, g.board, g.depth as nat, false),
                ),
            self.covers(f),
            self.moved(p, f),
            reach(f.board, f.depth) == self.h,
        ensures
            f.met_by(value_of(self.e, f.board, f.depth as nat, false)),
    {
        let (b, d, e) = (f.board, f.depth as nat, self.e);
        lemma_wf_sides(b);
        lemma_value_bound(e, b, d, false);
        lemma_best_below(e, b, d, 64);
        let s = if f.low {
            choose|s: int| 0 <= s < 64 && #[trigger] b.legal(s) && p(f.after(s))
        } else {
            choose|s: int|
                0 <= s < 64 && #[trigger] b.legal(s) && move_value(e, b, d, s) == best_below(
                    e,
                    b,
                    d,
                    64,
                )
        };
        lemma_after_wf(b, s);
        self.lemma_covers_next(f);
        assert(self.covers(f.after(s)));
        assert(p(f.after(s)));
        assert(move_value(e, b, d, s) == -value_of(
            e,
            f.after(s).board,
            f.after(s).depth as nat,
            false,
        ));
    }

    /// A table that these rules vouch for keeps within the horizon, where the one
    /// at the start did.
    pub proof fn law_table_stays_within(self, entries: Seq<TtEntry>)
        requires
            self.e.valid(),
            self.uncut(),
            table_within(self.entries, self.e, self.h),
            self.backs_all(entries),
        ensures
            table_within(entries, self.e, self.h),
    {
        assert forall|i: int| 0 <= i < entries.len() && (#[trigger] entries[i]).used implies entries[i].within(
            self.e,
            self.h,
        ) by {
            let t = entries[i];
            assert(self.backs(t));
            if 64 - t.board().empty_count < self.h {
                if t.bound != Bound::Upper {
                    self.lemma_vouched_within(t, true);
                }
                if t.bound != Bound::Lower {
                    self.lemma_vouched_within(t, false);
                }
            }
        }
    }

    proof fn lemma_vouched_within(self, t: TtEntry, low: bool)
        requires
            self.e.valid(),
            self.uncut(),
            table_within(self.entries, self.e, self.h),
            self.vouched(entry_fact(t, low)),
            64 - t.board().empty_count < self.h,
        ensures
            t.horizon() <= self.h,
            t.horizon() == self.h ==> entry_fact(t, low).met_by(
                value_of(self.e, t.board(), t.depth as nat, false),
            ),
    {
        reveal(Rules::vouched);
        let f = entry_fact(t, low);
        if self.held(f) {
            let i = choose|i: int|
                0 <= i < self.entries.len() && #[trigger] says(self.entries[i], f);
            assert(self.entries[i].used);
            assert(self.entries[i].within(self.e, self.h));
        } else {
            let all = self.all_shown();
            let g = choose|g: Fact| #[trigger]
                self.moved(all, g) && self.covers(g) && implies_fact(g, f);
            if t.horizon() == self.h {
                self.lemma_from_moves(g);
                self.law_shown_is_right(g);
            }
        }
    }
}

/// What a reduced search tells, it tells by a margin: a bound of the same position
/// and the same side, searched to less depth of the same parity, that lies beyond
/// the bound that is told by as many half discs as the deviation asks for, rounded
/// up.
pub proof fn law_cut_clears_the_margin<E: LeafEval>(r: Rules<E>, p: spec_fn(Fact) -> bool, f: Fact)
    requires
        r.cut(p, f),
        f.depth >= 3,
    ensures
        exists|g: Fact|
            {
                let gap = if f.low {
                    g.bound - f.bound
                } else {
                    f.bound - g.bound
                };
                let needed = r.t * sigma(f.board.empty_count as int, f.depth, g.depth);
                &&& #[trigger] p(g)
                &&& g.board == f.board
                &&& g.low == f.low
                &&& g.cuts == f.cuts - 1
                &&& 0 < g.depth < f.depth
                &&& g.depth % 2 == f.depth % 2
                &&& -3 <= 2 * g.depth - f.depth <= 3
                &&& needed <= gap * SIGMA_UNIT < needed + SIGMA_UNIT
            },
{
    let g = Fact {
        cuts: f.cuts - 1,
        depth: 2 * (f.depth / 4) + f.depth % 2,
        bound: r.probed(f)->Some_0,
        ..f
    };
    assert(p(g));
    let m = probe_margin_of(r.t, f.board.empty_count as int, f.depth, g.depth);
    let x = r.t * sigma(f.board.empty_count as int, f.depth, g.depth);
    let u = SIGMA_UNIT as int;
    assert(x <= m * u < x + u) by (nonlinear_arith)
        requires
            m == (x + u - 1) / u,
            u == 50_000_000_000_000_000_000,
    ;
    assert((if f.low {
        g.bound - f.bound
    } else {
        f.bound - g.bound
    }) == m);
}

/// A value that points further past the window is asked no more, and a window that
/// is asked for lies beyond the node's by the margin.
pub proof fn law_probe_windows_point_past(score: int, more: int, alpha: int, beta: int, t: int, empties: int, depth: int)
    requires
        more >= 0,
    ensures
        ({
            let (above, below) = probe_windows_of(score, alpha, beta, t, empties, depth);
            &&& above is Some ==> probe_windows_of(score + more, alpha, beta, t, empties, depth).0
                == above
            &&& below is Some ==> probe_windows_of(score - more, alpha, beta, t, empties, depth).1
                == below
        }),
{
    let u = 2 * SIGMA_UNIT;
    assert((score + more - beta) * u >= (score - beta) * u) by (nonlinear_arith)
        requires
            more >= 0,
            u > 0,
    ;
    assert((score - more - alpha) * u <= (score - alpha) * u) by (nonlinear_arith)
        requires
            more >= 0,
            u > 0,
    ;
}

} // verus!
