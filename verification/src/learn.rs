//! Played games in the opening book.
//!
//! Each position of a game gets the move that was played and the best of the
//! other moves, and the result is carried back move by move: a position is
//! worth the best of its candidates. A losing move loses value, and where a
//! better move was there, the loss stops at it.
//!
//! The import asks for one evaluation at a time, so that it can run between
//! games. What it changed is recorded and can be taken back.

use vstd::prelude::*;
use vstd::string::*;
use vstd::utf8::*;

use crate::bits::{bit, iter_bits, lemma_squares, squares};
use crate::board::{Board, ParseError, lemma_after_wf, lemma_moves, lemma_passed_wf, lemma_wf_sides, reads_board};
use crate::book::{Book, Candidate, Entry, EntryView, best_of, form_of, key_of, held, law_best_candidate, lemma_best_of, lemma_lowest_form, lemma_move_at, lemma_without_absent, move_at, moves_without};
use crate::position::{Position, not_a_square, square_named};
use crate::solver::final_score;
use crate::search::{final_score_of, lemma_final_score};
use crate::symmetry::{lemma_inverse, lemma_mapped, mapped};
use crate::text::{decimal, digits_of, joined};

verus! {

/// A rewritten move: what it was worth before and after, and what the position
/// is worth. What a game changed can be found and taken back by it.
#[derive(Clone, Copy, Debug)]
pub struct BackupChange {
    /// Number of the move in the game, from 1, passes not counted.
    pub ply: usize,
    /// The move that was played.
    pub mv: Position,
    /// Its value before; none if it was no candidate.
    pub before: Option<i32>,
    /// Its value after.
    pub after: i32,
    /// The best value of the position after.
    pub best: i32,
    /// The import brought the position into the learned book.
    pub new_entry: bool,
}

/// What an import did.
#[derive(Debug)]
pub struct BackupOutcome {
    /// Moves that got a value.
    pub updated: usize,
    /// Positions that were in neither book.
    pub added: usize,
    /// The rewritten moves, from the end of the game backwards.
    pub changes: Vec<BackupChange>,
}

/// A replayed game: each position with the move made in it, none for a pass.
pub type Line = Vec<(Board, Option<Position>)>;

/// A replayed game, as contracts speak of it.
pub type Steps = Seq<(Board, Option<Position>)>;

/// The steps that a recorded move to `p` makes: before it a pass that the
/// record leaves out.
pub open spec fn steps_for(b: Board, p: Position) -> Steps {
    if !b.legal(p.0 as int) && !b.can_move() {
        seq![(b, None), (b.passed(), Some(p))]
    } else {
        seq![(b, Some(p))]
    }
}

/// What replaying a record from a position gives: the steps and the position
/// at the end, or what is wrong. A single character at the end is not read.
pub open spec fn replay_text(b: Board, text: Seq<char>) -> Result<(Steps, Board), Seq<char>>
    decreases text.len(),
{
    if text.len() < 2 {
        Ok((Seq::empty(), b))
    } else {
        let name = text.take(2);
        match square_named(encode_utf8(name)) {
            None => Err("kifu move "@ + name + ": "@ + not_a_square(name)),
            Some(q) => {
                let p = Position(q);
                let steps = steps_for(b, p);
                if !steps.last().0.legal(q as int) {
                    Err("illegal move Position("@ + digits_of(q as nat) + ")"@)
                } else {
                    match replay_text(steps.last().0.after(q as int), text.skip(2)) {
                        Ok(rest) => Ok((steps + rest.0, rest.1)),
                        Err(e) => Err(e),
                    }
                }
            },
        }
    }
}

/// A result with steps before it.
pub open spec fn behind(
    steps: Steps,
    r: Result<(Steps, Board), Seq<char>>,
) -> Result<(Steps, Board), Seq<char>> {
    match r {
        Ok(rest) => Ok((steps + rest.0, rest.1)),
        Err(e) => Err(e),
    }
}

/// A result, as contracts speak of it.
pub open spec fn replay_view(r: Result<(Line, Board), String>) -> Result<(Steps, Board), Seq<char>> {
    match r {
        Ok((line, b)) => Ok((line@, b)),
        Err(e) => Err(e@),
    }
}

/// Each step is one that its position allows.
pub open spec fn steps_fit(steps: Steps) -> bool {
    forall|i: int|
        0 <= i < steps.len() ==> (#[trigger] steps[i]).0.wf() && (steps[i].1 matches Some(p) ==> p.wf()
            && steps[i].0.legal(p.0 as int))
}

/// Replay a record, with the passes that it leaves out, from the given
/// position or the standard start.
pub fn replay(start: Option<&str>, kifu: &str) -> (r: Result<(Line, Board), String>)
    ensures
        match start {
            None => replay_view(r) == replay_text(Board::start(), kifu@),
            Some(s) => exists|b: Result<Board, ParseError>| #[trigger]
                reads_board(s@, b) && match b {
                    Ok(b) => replay_view(r) == replay_text(b, kifu@),
                    Err(e) => replay_view(r) == Err::<(Steps, Board), Seq<char>>(
                        "start position: "@ + e.words(),
                    ),
                },
        },
        r matches Ok((line, b)) ==> steps_fit(line@) && b.wf(),
{
    let first: Board = match start {
        Some(s) => match Board::from_string(s) {
            Ok(b) => {
                assert(reads_board(s@, Ok(b)));
                b
            },
            Err(e) => {
                assert(reads_board(s@, Err(e)));
                return Err(joined("start position: ", e.name()));
            },
        },
        None => Board::new(),
    };
    replay_from(first, kifu)
}

/// Replay a record from a position.
pub fn replay_from(start: Board, kifu: &str) -> (r: Result<(Line, Board), String>)
    requires
        start.wf(),
    ensures
        replay_view(r) == replay_text(start, kifu@),
        r matches Ok((line, b)) ==> steps_fit(line@) && b.wf(),
{
    let mut b: Board = start;
    let mut seq: Line = Vec::new();
    let n: usize = kifu.unicode_len();
    let mut i: usize = 0;
    assert(kifu@.skip(0) =~= kifu@);
    assert(behind(seq@, replay_text(b, kifu@)) == replay_text(start, kifu@)) by {
        match replay_text(b, kifu@) {
            Ok(rest) => {
                assert(seq@ + rest.0 =~= rest.0);
            },
            Err(e) => {},
        }
    }
    while n - i >= 2
        invariant
            n == kifu@.len(),
            i <= n,
            b.wf(),
            steps_fit(seq@),
            replay_text(start, kifu@) == behind(seq@, replay_text(b, kifu@.skip(i as int))),
        decreases n - i,
    {
        let name: &str = kifu.substring_char(i, i + 2);
        let ghost rest = kifu@.skip(i as int);
        assert(rest.take(2) =~= name@);
        assert(rest.skip(2) =~= kifu@.skip(i + 2));
        let mv: Position = match Position::from_kifu(name) {
            Ok(mv) => mv,
            Err(e) => {
                let mut text: String = joined("kifu move ", name);
                text.append(": ");
                text.append(e.as_str());
                assert(text@ =~= "kifu move "@ + name@ + ": "@ + not_a_square(name@));
                return Err(text);
            },
        };
        let ghost before = seq@;
        let ghost b0 = b;
        let ghost steps = steps_for(b, mv);
        proof {
            lemma_passed_wf(b0);
        }
        if !b.check(mv) && b.movable() == 0 {
            seq.push((b, None));
            b.pass();
        }
        if !b.check(mv) {
            let mut text: String = String::from_str("illegal move Position(");
            let number: String = decimal(mv.0 as u64);
            text.append(number.as_str());
            text.append(")");
            assert(text@ =~= "illegal move Position("@ + digits_of(mv.0 as nat) + ")"@);
            return Err(text);
        }
        seq.push((b, Some(mv)));
        assert(seq@ =~= before + steps);
        proof {
            lemma_wf_sides(b);
            lemma_after_wf(b, mv.0 as int);
            let tail = replay_text(b.after(mv.0 as int), rest.skip(2));
            match tail {
                Ok(t) => {
                    assert(before + (steps + t.0) =~= seq@ + t.0);
                },
                Err(e) => {},
            }
        }
        let _ = b.make_move_bits(mv);
        i = i + 2;
    }
    assert(seq@ + Seq::<(Board, Option<Position>)>::empty() =~= seq@);
    Ok((seq, b))
}

/// What an import wants next.
#[derive(Debug)]
pub enum JobStep {
    /// The value of this position to the side to move.
    Search(Board),
    /// Nothing: it has finished.
    Done(BackupOutcome),
}

/// What an import wants next, as contracts speak of it.
pub enum StepView {
    Search(Board),
    Done(int, int, Seq<BackupChange>),
}

impl View for JobStep {
    type V = StepView;

    open spec fn view(&self) -> StepView {
        match self {
            JobStep::Search(b) => StepView::Search(*b),
            JobStep::Done(o) => StepView::Done(o.updated as int, o.added as int, o.changes@),
        }
    }
}

/// The import of one game, one evaluation at a time, from the end of the game
/// to its start.
#[derive(Debug)]
pub struct BackupJob {
    pub line: Line,
    /// The next step to take is the one before this; 0 at the end.
    pub idx: usize,
    /// Value of the position after it to the side to move there.
    pub v_next: i32,
    pub terminal: Board,
    pub awaiting_terminal: bool,
    /// Moves that are still to be evaluated beside the one played.
    pub alt_queue: Vec<Position>,
    /// The move whose evaluation was asked for.
    pub pending_alt: Option<Position>,
    /// The best of those evaluated.
    pub alt_best: Option<(Position, i32)>,
    pub evaluating: bool,
    /// Depth that new entries get.
    pub new_depth: u8,
    pub updated: usize,
    pub added: usize,
    pub changes: Vec<BackupChange>,
    pub done: bool,
}

/// An import, as contracts speak of it.
pub struct JobView {
    pub line: Steps,
    pub idx: int,
    pub v_next: i32,
    pub terminal: Board,
    pub awaiting_terminal: bool,
    pub alt_queue: Seq<Position>,
    pub pending_alt: Option<Position>,
    pub alt_best: Option<(Position, i32)>,
    pub evaluating: bool,
    pub new_depth: u8,
    pub updated: int,
    pub added: int,
    pub changes: Seq<BackupChange>,
    pub done: bool,
}

impl View for BackupJob {
    type V = JobView;

    open spec fn view(&self) -> JobView {
        JobView {
            line: self.line@,
            idx: self.idx as int,
            v_next: self.v_next,
            terminal: self.terminal,
            awaiting_terminal: self.awaiting_terminal,
            alt_queue: self.alt_queue@,
            pending_alt: self.pending_alt,
            alt_best: self.alt_best,
            evaluating: self.evaluating,
            new_depth: self.new_depth,
            updated: self.updated as int,
            added: self.added as int,
            changes: self.changes@,
            done: self.done,
        }
    }
}

/// The squares of the list but that of the move.
pub open spec fn all_but(list: Seq<u8>, mv: Position, n: int) -> Seq<Position>
    decreases n,
{
    if n <= 0 {
        Seq::empty()
    } else if list[n - 1] == mv.0 {
        all_but(list, mv, n - 1)
    } else {
        all_but(list, mv, n - 1).push(Position(list[n - 1]))
    }
}

/// The legal moves of a position but the one played.
pub open spec fn others(b: Board, mv: Position) -> Seq<Position> {
    all_but(squares(b.moves()), mv, squares(b.moves()).len() as int)
}

/// How many of the first `n` steps are moves.
pub open spec fn moves_among(line: Steps, n: int) -> int
    decreases n,
{
    if n <= 0 {
        0
    } else {
        moves_among(line, n - 1) + (if line[n - 1].1 is Some {
            1int
        } else {
            0int
        })
    }
}

/// The positions of the first `n` steps in which a move was made.
pub open spec fn boards_among(line: Steps, n: int) -> Seq<Board>
    decreases n,
{
    if n <= 0 {
        Seq::empty()
    } else if line[n - 1].1 is Some {
        boards_among(line, n - 1).push(line[n - 1].0)
    } else {
        boards_among(line, n - 1)
    }
}

/// The books, as contracts speak of them.
pub type Books = (Map<u128, EntryView>, Map<u128, EntryView>);

/// The key of a position.
pub open spec fn raw_key(b: Board) -> u128 {
    key_of(b) as u128
}

/// A move as the position's entry holds it.
pub open spec fn raw_move(b: Board, mv: Position) -> Position {
    Position(mapped(mv.0 as int, form_of(b)) as u8)
}

impl JobView {
    /// The position and the move of the next step.
    pub open spec fn at(self) -> (Board, Option<Position>) {
        self.line[self.idx - 1]
    }

    /// The moves that are to be evaluated in the next step's position.
    pub open spec fn queue(self) -> Seq<Position> {
        if self.evaluating {
            self.alt_queue
        } else {
            others(self.at().0, self.at().1->Some_0)
        }
    }

    /// The best of those that were.
    pub open spec fn queue_best(self) -> Option<(Position, i32)> {
        if self.evaluating {
            self.alt_best
        } else {
            None
        }
    }

    /// The entry of a position that was in neither book: the best of the other
    /// moves, if there is one.
    pub open spec fn new_entry(self) -> EntryView {
        EntryView {
            moves: match self.queue_best() {
                Some((p, v)) => seq![
                    Candidate { mv: raw_move(self.at().0, p), value: v, games: 0 },
                ],
                None => Seq::empty(),
            },
            depth: self.new_depth,
            games: 0,
        }
    }

    /// The change that gives the played move of the next step its value in the
    /// entry `e`.
    pub open spec fn change(self, e: EntryView, fresh: bool) -> BackupChange {
        let b = self.at().0;
        let mv = self.at().1->Some_0;
        let after = (-self.v_next) as i32;
        BackupChange {
            ply: (moves_among(self.line, self.idx - 1) + 1) as usize,
            mv,
            before: e.value_of(raw_move(b, mv)),
            after,
            best: e.updated(raw_move(b, mv), after).best()->Some_0.value,
            new_entry: fresh,
        }
    }

    /// The import after the played move of the next step got its value in the
    /// entry `e`: the position is worth the best of its candidates.
    pub open spec fn settled(self, e: EntryView, fresh: bool) -> JobView {
        let c = self.change(e, fresh);
        JobView {
            idx: self.idx - 1,
            v_next: c.best,
            updated: self.updated + 1,
            changes: self.changes.push(c),
            evaluating: false,
            ..self
        }
    }

    /// The entry after the played move of the next step got its value.
    pub open spec fn revalued(self, e: EntryView) -> EntryView {
        e.updated(raw_move(self.at().0, self.at().1->Some_0), (-self.v_next) as i32)
    }

    /// What the import wants next, and the import and the books then. A
    /// position that is in the learned book is changed there; one that is in
    /// the other alone is taken over; for one in neither the other moves are
    /// evaluated first.
    pub open spec fn advanced(self, books: Books) -> (StepView, JobView, Books)
        decreases
                if self.done {
                    0int
                } else {
                    self.idx + 1
                },
    {
        if self.done || self.idx < 0 {
            (
                StepView::Done(self.updated, self.added, self.changes),
                JobView { updated: 0, added: 0, changes: Seq::empty(), ..self },
                books,
            )
        } else if self.awaiting_terminal {
            (StepView::Search(self.terminal), self, books)
        } else if self.idx == 0 {
            JobView { done: true, ..self }.advanced(books)
        } else if self.at().1 is None {
            JobView { v_next: (-self.v_next) as i32, idx: self.idx - 1, ..self }.advanced(books)
        } else {
            let k = raw_key(self.at().0);
            let (learned, base) = books;
            if learned.dom().contains(k) {
                let e = learned[k];
                self.settled(e, false).advanced(
                    (learned.insert(k, self.revalued(e)), base.insert(k, self.revalued(e))),
                )
            } else if base.dom().contains(k) {
                let e = base[k];
                self.settled(e, true).advanced(
                    (learned.insert(k, self.revalued(e)), base.insert(k, self.revalued(e))),
                )
            } else if self.queue().len() > 0 {
                let p = self.queue().last();
                (
                    StepView::Search(self.at().0.after(p.0 as int)),
                    JobView {
                        alt_queue: self.queue().drop_last(),
                        alt_best: self.queue_best(),
                        pending_alt: Some(p),
                        evaluating: true,
                        ..self
                    },
                    books,
                )
            } else {
                let e = self.new_entry();
                let j = JobView {
                    alt_queue: Seq::empty(),
                    alt_best: None,
                    evaluating: false,
                    added: self.added + 1,
                    ..self
                };
                j.settled(e, true).advanced(
                    (learned.insert(k, self.revalued(e)), base.insert(k, self.revalued(e))),
                )
            }
        }
    }

    /// The import after the value that it asked for came in.
    pub open spec fn fed(self, value: i32) -> JobView {
        if self.awaiting_terminal {
            JobView { v_next: value, awaiting_terminal: false, ..self }
        } else {
            match self.pending_alt {
                None => self,
                Some(p) => {
                    let v = (-value) as i32;
                    JobView {
                        pending_alt: None,
                        alt_best: match self.alt_best {
                            Some((q, w)) => if v > w {
                                Some((p, v))
                            } else {
                                Some((q, w))
                            },
                            None => Some((p, v)),
                        },
                        ..self
                    }
                },
            }
        }
    }

    /// The steps fit, and the moves to be evaluated are moves.
    pub open spec fn wf(self) -> bool {
        &&& steps_fit(self.line)
        &&& 0 <= self.idx <= self.line.len() <= usize::MAX
        &&& 0 <= self.updated
        &&& self.updated + self.idx <= self.line.len()
        &&& 0 <= self.added <= self.updated
        &&& self.terminal.wf()
        &&& self.v_next > i32::MIN
        &&& self.evaluating ==> self.idx > 0 && self.at().1 is Some
        &&& self.evaluating ==> forall|i: int|
            0 <= i < self.alt_queue.len() ==> (#[trigger] self.alt_queue[i]).wf()
                && self.at().0.legal(self.alt_queue[i].0 as int)
        &&& self.pending_alt matches Some(p) ==> p.wf()
        &&& self.alt_best matches Some((p, v)) ==> p.wf() && v > i32::MIN
    }
}

/// The other moves are moves.
proof fn lemma_all_but(b: Board, mv: Position, n: int)
    requires
        0 <= n <= squares(b.moves()).len(),
    ensures
        all_but(squares(b.moves()), mv, n).len() <= n,
        forall|i: int|
            0 <= i < all_but(squares(b.moves()), mv, n).len() ==> (#[trigger] all_but(
                squares(b.moves()),
                mv,
                n,
            )[i]).wf() && b.legal(all_but(squares(b.moves()), mv, n)[i].0 as int),
    decreases n,
{
    if n > 0 {
        lemma_all_but(b, mv, n - 1);
        lemma_squares(b.moves(), 64);
        lemma_moves(b);
        assert(bit(b.moves(), squares(b.moves())[n - 1] as int));
    }
}

/// An entry stays well-formed when a move gets a value, and then has a best.
proof fn lemma_updated_wf(e: EntryView, mv: Position, value: i32)
    requires
        e.wf(),
        mv.wf(),
        value > i32::MIN,
    ensures
        e.updated(mv, value).wf(),
        e.updated(mv, value).best() is Some,
        e.updated(mv, value).best()->Some_0.value > i32::MIN,
{
    let u = e.updated(mv, value);
    lemma_move_at(e.moves, mv, 0);
    assert forall|i: int| 0 <= i < u.moves.len() implies (#[trigger] u.moves[i]).mv.wf()
        && u.moves[i].value > i32::MIN by {
        if i < e.moves.len() {
            assert(e.moves[i].mv.wf());
        }
    }
    assert(u.moves.len() > 0);
    lemma_best_of(u.moves, u.moves.len() as int);
    assert(u.moves[best_of(u.moves, u.moves.len() as int)].value > i32::MIN);
}

proof fn lemma_moves_among(line: Steps, n: int)
    requires
        0 <= n <= line.len(),
    ensures
        0 <= moves_among(line, n) <= n,
        boards_among(line, n).len() == moves_among(line, n),
    decreases n,
{
    if n > 0 {
        lemma_moves_among(line, n - 1);
    }
}

impl BackupJob {
    pub open spec fn wf(self) -> bool {
        self@.wf()
    }

    /// Prepare the import of a game. A finished game counts its result; of one
    /// that was not finished the first thing wanted is the last position's
    /// value. New entries get the given depth.
    pub fn new(start: Option<&str>, kifu: &str, new_depth: u8) -> (r: Result<BackupJob, String>)
        ensures
            exists|line: Result<(Line, Board), String>|
                (match start {
                    None => #[trigger] replay_view(line) == replay_text(Board::start(), kifu@),
                    Some(s) => exists|b: Result<Board, ParseError>| #[trigger]
                        reads_board(s@, b) && match b {
                            Ok(b) => replay_view(line) == replay_text(b, kifu@),
                            Err(e) => replay_view(line) == Err::<(Steps, Board), Seq<char>>(
                                "start position: "@ + e.words(),
                            ),
                        },
                }) && match replay_view(line) {
                    Err(e) => r matches Err(f) && f@ == e,
                    Ok((steps, end)) => if steps.len() == 0 {
                        r matches Err(f) && f@ == "empty game record"@
                    } else {
                        r matches Ok(j) && j.wf() && j.begins(steps, end, new_depth)
                    },
                },
    {
        let played: Result<(Line, Board), String> = replay(start, kifu);
        let ghost whole = replay_view(played);
        match played {
            Err(e) => Err(e),
            Ok((line, terminal)) => {
                if line.len() == 0 {
                    return Err(String::from_str("empty game record"));
                }
                let over: bool = terminal.is_game_over();
                proof {
                    lemma_final_score(terminal);
                }
                let v_next: i32 = if over {
                    final_score(&terminal) * 100
                } else {
                    0
                };
                let idx: usize = line.len();
                Ok(
                    BackupJob {
                        line,
                        idx,
                        v_next,
                        terminal,
                        awaiting_terminal: !over,
                        alt_queue: Vec::new(),
                        pending_alt: None,
                        alt_best: None,
                        evaluating: false,
                        new_depth,
                        updated: 0,
                        added: 0,
                        changes: Vec::new(),
                        done: false,
                    },
                )
            },
        }
    }

    /// The import is at the end of the game.
    pub open spec fn begins(self, steps: Steps, end: Board, new_depth: u8) -> bool {
        self@ == (JobView {
            line: steps,
            idx: steps.len() as int,
            v_next: if end.finished() {
                (final_score_of(end) * 100) as i32
            } else {
                0
            },
            terminal: end,
            awaiting_terminal: !end.finished(),
            alt_queue: Seq::empty(),
            pending_alt: None,
            alt_best: None,
            evaluating: false,
            new_depth,
            updated: 0,
            added: 0,
            changes: Seq::empty(),
            done: false,
        })
    }

    /// Steps that are left.
    pub fn remaining(&self) -> (n: usize)
        ensures
            n == self.idx,
    {
        self.idx
    }

    /// Give the import the value that it asked for, as the side to move in
    /// that position sees it.
    pub fn feed(&mut self, value: i32)
        requires
            old(self).wf(),
            value > i32::MIN,
        ensures
            final(self).wf(),
            final(self)@ == old(self)@.fed(value),
    {
        if self.awaiting_terminal {
            self.v_next = value;
            self.awaiting_terminal = false;
            return;
        }
        if let Some(p) = self.pending_alt {
            self.pending_alt = None;
            let v: i32 = -value;
            let better: bool = match self.alt_best {
                Some((_, w)) => v > w,
                None => true,
            };
            if better {
                self.alt_best = Some((p, v));
            }
        }
    }

    /// The moves of the next step's position but the one played.
    fn other_moves(b: &Board, mv: Position) -> (v: Vec<Position>)
        requires
            b.wf(),
        ensures
            v@ == others(*b, mv),
    {
        let list: Vec<u8> = iter_bits(b.movable());
        let mut v: Vec<Position> = Vec::new();
        let n: usize = list.len();
        let mut i: usize = 0;
        while i < n
            invariant
                n == list@.len(),
                i <= n,
                v@ == all_but(list@, mv, i as int),
            decreases n - i,
        {
            if list[i] != mv.0 {
                v.push(Position(list[i]));
            }
            i = i + 1;
        }
        v
    }

    /// Give the played move of the next step its value in the entry `e`, and
    /// hold the entry in both books.
    fn settle(&mut self, learned: &mut Book, base: &mut Book, entry: Entry, fresh: bool)
        requires
            old(self).wf(),
            old(self)@.idx > 0,
            old(self)@.at().1 is Some,
            old(learned).wf(),
            old(base).wf(),
            entry@.wf(),
        ensures
            final(self).wf(),
            final(learned).wf(),
            final(base).wf(),
            final(self)@ == old(self)@.settled(entry@, fresh),
            final(learned)@ == old(learned)@.insert(
                raw_key(old(self)@.at().0),
                old(self)@.revalued(entry@),
            ),
            final(base)@ == old(base)@.insert(
                raw_key(old(self)@.at().0),
                old(self)@.revalued(entry@),
            ),
    {
        let mut e: Entry = entry;
        let ghost view = e@;
        let (board, mv) = match self.line[self.idx - 1] {
            (b, Some(p)) => (b, p),
            (b, None) => (b, Position(0)),
        };
        assert(self.line@[self.idx - 1].0.wf());
        let (key, form) = Book::key(&board);
        proof {
            lemma_lowest_form(board, 8);
            lemma_mapped(mv.0 as int, form as int);
            lemma_updated_wf(view, raw_move(board, mv), (-self.v_next) as i32);
        }
        let mapped_mv: Position = Book::map_move(mv, form);
        let before: Option<i32> = e.value(mapped_mv);
        let after: i32 = -self.v_next;
        e.update_move(mapped_mv, after);
        let best: i32 = match e.best() {
            Some(c) => c.value,
            None => after,
        };
        let mut ply: usize = 0;
        let mut i: usize = 0;
        let n: usize = self.idx - 1;
        while i < n
            invariant
                *self == *old(self),
                n < self.line@.len(),
                i <= n,
                ply == moves_among(self.line@, i as int),
                ply <= i,
            decreases n - i,
        {
            if self.line[i].1.is_some() {
                ply = ply + 1;
            }
            i = i + 1;
        }
        let ghost start = self@;
        self.changes.push(
            BackupChange { ply: ply + 1, mv, before, after, best, new_entry: fresh },
        );
        self.updated = self.updated + 1;
        self.v_next = best;
        self.evaluating = false;
        self.idx = self.idx - 1;
        let copy: Entry = e.copied();
        base.insert_raw(key, copy);
        learned.insert_raw(key, e);
        assert(self@.changes =~= start.settled(view, fresh).changes);
    }

    /// Go on until an evaluation is wanted or the import has finished. After
    /// an evaluation was asked for, `feed` its value before going on.
    pub fn next(&mut self, learned: &mut Book, base: &mut Book) -> (r: JobStep)
        requires
            old(self).wf(),
            old(learned).wf(),
            old(base).wf(),
        ensures
            final(self).wf(),
            final(learned).wf(),
            final(base).wf(),
            (r@, final(self)@, (final(learned)@, final(base)@)) == old(self)@.advanced(
                (old(learned)@, old(base)@),
            ),
            r matches JobStep::Search(b) ==> b.wf(),
    {
        loop
            invariant
                self.wf(),
                learned.wf(),
                base.wf(),
                self@.advanced((learned@, base@)) == old(self)@.advanced(
                    (old(learned)@, old(base)@),
                ),
            decreases
                    if self.done {
                        0int
                    } else {
                        self.idx + 1
                    },
        {
            if self.done {
                let mut changes: Vec<BackupChange> = Vec::new();
                std::mem::swap(&mut changes, &mut self.changes);
                let out = BackupOutcome { updated: self.updated, added: self.added, changes };
                self.updated = 0;
                self.added = 0;
                return JobStep::Done(out);
            }
            if self.awaiting_terminal {
                return JobStep::Search(self.terminal);
            }
            if self.idx == 0 {
                self.done = true;
                continue;
            }
            let (board, played) = self.line[self.idx - 1];
            assert(self.line@[self.idx - 1].0.wf());
            let mv: Position = match played {
                None => {
                    self.v_next = -self.v_next;
                    self.idx = self.idx - 1;
                    continue;
                },
                Some(mv) => mv,
            };
            let (key, form) = Book::key(&board);
            let known: Option<Entry> = match learned.get_raw(key) {
                Some(e) => Some(e.copied()),
                None => None,
            };
            if let Some(e) = known {
                self.settle(learned, base, e, false);
                continue;
            }
            let other: Option<Entry> = match base.get_raw(key) {
                Some(e) => Some(e.copied()),
                None => None,
            };
            if let Some(e) = other {
                self.settle(learned, base, e, true);
                continue;
            }
            let ghost mid = self@;
            if !self.evaluating {
                self.alt_queue = BackupJob::other_moves(&board, mv);
                self.alt_best = None;
                self.evaluating = true;
                proof {
                    lemma_all_but(board, mv, squares(board.moves()).len() as int);
                }
            }
            if !self.alt_queue.is_empty() {
                let ghost queue = self.alt_queue@;
                assert(queue.last() == queue[queue.len() - 1]);
                let p: Position = self.alt_queue.pop().unwrap();
                proof {
                    lemma_wf_sides(board);
                    lemma_after_wf(board, p.0 as int);
                    assert(self.alt_queue@ =~= queue.drop_last());
                }
                let mut child: Board = board;
                let _ = child.make_move_bits(p);
                self.pending_alt = Some(p);
                return JobStep::Search(child);
            }
            self.evaluating = false;
            let mut moves: Vec<Candidate> = Vec::new();
            if let Some((p, v)) = self.alt_best {
                moves.push(Candidate { mv: Book::map_move(p, form), value: v, games: 0 });
            }
            self.alt_best = None;
            let e = Entry { moves, depth: self.new_depth, games: 0 };
            proof {
                assert(self.alt_queue@ =~= Seq::empty());
                assert(e.moves@ =~= mid.new_entry().moves);
                assert(e@ == mid.new_entry());
            }
            self.settle(learned, base, e, true);
            self.added = self.added + 1;
        }
    }
}

/// The entries of a book over those of another.
pub open spec fn overlaid(
    base: Map<u128, EntryView>,
    learned: Map<u128, EntryView>,
) -> Map<u128, EntryView> {
    base.union_prefer_right(learned)
}

/// Put the learned entries in place of those of the other book.
pub fn merge_learned(base: &mut Book, learned: &Book)
    requires
        old(base).wf(),
        learned.wf(),
    ensures
        final(base).wf(),
        final(base)@ == overlaid(old(base)@, learned@),
{
    let n: usize = learned.entries.len();
    let mut i: usize = 0;
    let ghost part = learned.entries@.take(0);
    proof {
        assert(held(part) =~= Map::empty());
        assert(base@ =~= overlaid(old(base)@, held(part)));
    }
    while i < n
        invariant
            learned.wf(),
            base.wf(),
            n == learned.entries@.len(),
            i <= n,
            base@ == overlaid(old(base)@, held(learned.entries@.take(i as int))),
        decreases n - i,
    {
        let ghost next = learned.entries@.take(i + 1);
        assert(next.drop_last() =~= learned.entries@.take(i as int));
        assert(next.last() == learned.entries@[i as int]);
        assert(learned.entries@[i as int].1@.wf());
        let e: Entry = learned.entries[i].1.copied();
        base.insert_raw(learned.entries[i].0, e);
        proof {
            assert(base@ =~= overlaid(old(base)@, held(next)));
        }
        i = i + 1;
    }
    assert(learned.entries@.take(n as int) =~= learned.entries@);
}

/// The learned book after one change was taken back, and whether it was: a
/// position that the import brought in is taken out, in others the move gets
/// its value back or is taken out.
pub open spec fn taken_back(
    learned: Map<u128, EntryView>,
    line: Steps,
    c: BackupChange,
) -> (Map<u128, EntryView>, bool) {
    let boards = boards_among(line, line.len() as int);
    if c.ply == 0 || c.ply > boards.len() {
        (learned, false)
    } else {
        let b = boards[c.ply - 1];
        let k = raw_key(b);
        if !learned.dom().contains(k) {
            (learned, false)
        } else if c.new_entry {
            (learned.remove(k), true)
        } else {
            let m = raw_move(b, c.mv);
            match c.before {
                Some(v) => (learned.insert(k, learned[k].updated(m, v)), true),
                None => (learned.insert(k, learned[k].without(m)), true),
            }
        }
    }
}

/// The learned book after the changes were taken back, the last one first, and
/// how many were.
pub open spec fn undone(
    learned: Map<u128, EntryView>,
    line: Steps,
    changes: Seq<BackupChange>,
) -> (Map<u128, EntryView>, int)
    decreases changes.len(),
{
    if changes.len() == 0 {
        (learned, 0)
    } else {
        let one = taken_back(learned, line, changes.last());
        let rest = undone(one.0, line, changes.drop_last());
        (
            rest.0,
            rest.1 + (if one.1 {
                1int
            } else {
                0int
            }),
        )
    }
}

/// Entries stay well-formed when moves are taken out.
proof fn lemma_without_wf(e: EntryView, mv: Position)
    requires
        e.wf(),
    ensures
        e.without(mv).wf(),
    decreases e.moves.len(),
{
    let moves = e.moves;
    if moves.len() > 0 {
        let init = EntryView { moves: moves.drop_last(), ..e };
        assert forall|i: int| 0 <= i < init.moves.len() implies (#[trigger] init.moves[i]).mv.wf()
            && init.moves[i].value > i32::MIN by {
            assert(moves[i].mv.wf());
        }
        lemma_without_wf(init, mv);
        assert(moves[moves.len() - 1].mv.wf());
        let w = moves_without(init.moves, mv);
        let u = e.without(mv).moves;
        assert forall|i: int| 0 <= i < u.len() implies (#[trigger] u[i]).mv.wf() && u[i].value
            > i32::MIN by {
            if i < w.len() {
                assert(init.without(mv).moves[i].mv.wf());
            }
        }
    }
}

/// Take the import of a game back. The other book is left as it is.
pub fn undo_backup(
    learned: &mut Book,
    start: Option<&str>,
    kifu: &str,
    changes: &Vec<BackupChange>,
) -> (r: Result<usize, String>)
    requires
        old(learned).wf(),
        forall|i: int|
            0 <= i < changes@.len() ==> (#[trigger] changes@[i]).mv.wf() && (
            changes@[i].before matches Some(v) ==> v > i32::MIN),
    ensures
        final(learned).wf(),
        exists|line: Result<(Line, Board), String>|
            (match start {
                None => #[trigger] replay_view(line) == replay_text(Board::start(), kifu@),
                Some(s) => exists|b: Result<Board, ParseError>| #[trigger]
                    reads_board(s@, b) && match b {
                        Ok(b) => replay_view(line) == replay_text(b, kifu@),
                        Err(e) => replay_view(line) == Err::<(Steps, Board), Seq<char>>(
                            "start position: "@ + e.words(),
                        ),
                    },
            }) && match replay_view(line) {
                Err(e) => (r matches Err(f) && f@ == e) && final(learned)@ == old(learned)@,
                Ok((steps, end)) => {
                    let u = undone(old(learned)@, steps, changes@);
                    (r matches Ok(n) && n == u.1) && final(learned)@ == u.0
                },
            },
{
    let played: Result<(Line, Board), String> = replay(start, kifu);
    let ghost whole = replay_view(played);
    match played {
        Err(e) => Err(e),
        Ok((line, _)) => Ok(take_back_all(learned, &line, changes)),
    }
}

/// Take the changes of a replayed game back, the last one first.
fn take_back_all(learned: &mut Book, line: &Line, changes: &Vec<BackupChange>) -> (n: usize)
    requires
        old(learned).wf(),
        steps_fit(line@),
        forall|i: int|
            0 <= i < changes@.len() ==> (#[trigger] changes@[i]).mv.wf() && (
            changes@[i].before matches Some(v) ==> v > i32::MIN),
    ensures
        final(learned).wf(),
        final(learned)@ == undone(old(learned)@, line@, changes@).0,
        n == undone(old(learned)@, line@, changes@).1,
{
    let mut boards: Vec<Board> = Vec::new();
    let mut i: usize = 0;
    while i < line.len()
        invariant
            i <= line@.len(),
            boards@ == boards_among(line@, i as int),
        decreases line@.len() - i,
    {
        if line[i].1.is_some() {
            boards.push(line[i].0);
        }
        i = i + 1;
    }
    let mut n: usize = 0;
    let total: usize = changes.len();
    let mut k: usize = total;
    assert(changes@.take(k as int) =~= changes@);
    while k > 0
        invariant
            learned.wf(),
            steps_fit(line@),
            boards@ == boards_among(line@, line@.len() as int),
            forall|i: int|
                0 <= i < changes@.len() ==> (#[trigger] changes@[i]).mv.wf() && (
                changes@[i].before matches Some(v) ==> v > i32::MIN),
            total == changes@.len(),
            k <= total,
            n + k <= total,
            undone(old(learned)@, line@, changes@).0 == undone(
                learned@,
                line@,
                changes@.take(k as int),
            ).0,
            undone(old(learned)@, line@, changes@).1 == undone(
                learned@,
                line@,
                changes@.take(k as int),
            ).1 + n,
        decreases k,
    {
        let ghost part = changes@.take(k as int);
        assert(part.drop_last() =~= changes@.take(k - 1));
        assert(part.last() == changes@[k - 1]);
        k = k - 1;
        let c: BackupChange = changes[k];
        assert(changes@[k as int].mv.wf());
        if c.ply == 0 || c.ply > boards.len() {
            continue;
        }
        let board: Board = boards[c.ply - 1];
        let (key, form) = Book::key(&board);
        proof {
            lemma_lowest_form(board, 8);
            lemma_mapped(c.mv.0 as int, form as int);
        }
        let ghost before = learned@;
        let taken: Option<Entry> = learned.remove_raw(key);
        match taken {
            None => {
                assert(learned@ =~= before);
            },
            Some(entry) => {
                if !c.new_entry {
                    let mut e: Entry = entry;
                    let ghost view = e@;
                    let m: Position = Book::map_move(c.mv, form);
                    match c.before {
                        Some(v) => {
                            proof {
                                lemma_updated_wf(view, m, v);
                            }
                            e.update_move(m, v);
                        },
                        None => {
                            proof {
                                lemma_without_wf(view, m);
                            }
                            e.remove_move(m);
                        },
                    }
                    let ghost now = e@;
                    learned.insert_raw(key, e);
                    assert(learned@ =~= before.insert(key, now));
                }
                n = n + 1;
            },
        }
    }
    assert(changes@.take(0) =~= Seq::empty());
    n
}

/// Where the position of a step stands among those in which a move was made.
proof fn lemma_board_of_ply(line: Steps, n: int, i: int)
    requires
        0 <= i < n <= line.len(),
        line[i].1 is Some,
    ensures
        0 <= moves_among(line, i) < boards_among(line, n).len(),
        boards_among(line, n)[moves_among(line, i)] == line[i].0,
    decreases n,
{
    lemma_moves_among(line, n);
    lemma_moves_among(line, n - 1);
    lemma_moves_among(line, i);
    if i < n - 1 {
        lemma_board_of_ply(line, n - 1, i);
    }
}

/// Giving a move a value and taking that back leaves the entry as it was.
proof fn lemma_entry_restored(e: EntryView, m: Position, value: i32)
    ensures
        match e.value_of(m) {
            Some(v) => e.updated(m, value).updated(m, v) == e,
            None => e.updated(m, value).without(m) == e,
        },
{
    let i = move_at(e.moves, m, 0);
    let u = e.updated(m, value);
    lemma_move_at(e.moves, m, 0);
    lemma_move_at(u.moves, m, 0);
    if i < e.moves.len() {
        let j = move_at(u.moves, m, 0);
        if j < i {
            assert(u.moves[j] == e.moves[j]);
        }
        assert(u.moves[i].mv == m);
        assert(j == i);
        assert(u.updated(m, e.moves[i].value).moves =~= e.moves);
    } else {
        assert(u.moves.drop_last() =~= e.moves);
        assert(u.moves.last().mv == m);
        lemma_without_absent(e.moves, m);
    }
}

/// Taking back the change that a step of an import made leaves the learned
/// book as it was before the step.
proof fn lemma_step_restored(j: JobView, learned: Map<u128, EntryView>, e: EntryView, fresh: bool)
    requires
        0 < j.idx <= j.line.len() <= usize::MAX,
        j.at().1 is Some,
        fresh == !learned.dom().contains(raw_key(j.at().0)),
        !fresh ==> e == learned[raw_key(j.at().0)],
    ensures
        taken_back(
            learned.insert(raw_key(j.at().0), j.revalued(e)),
            j.line,
            j.change(e, fresh),
        ).0 == learned,
{
    let b = j.at().0;
    let k = raw_key(b);
    let m = raw_move(b, j.at().1->Some_0);
    let c = j.change(e, fresh);
    let after = learned.insert(k, j.revalued(e));
    lemma_board_of_ply(j.line, j.line.len() as int, j.idx - 1);
    lemma_moves_among(j.line, j.idx - 1);
    assert(c.ply == moves_among(j.line, j.idx - 1) + 1);
    lemma_entry_restored(e, m, (-j.v_next) as i32);
    if fresh {
        assert(after.remove(k) =~= learned);
    } else {
        assert(after[k] == e.updated(m, (-j.v_next) as i32));
        assert(after.insert(k, e) =~= learned);
    }
}

/// Taking the changes of an import back gives the learned book as it was
/// before the import: what is true of the book and the changes so far stays
/// true from one evaluation to the next, and holds of what the import hands
/// out when it has finished.
pub proof fn law_undo_restores_learned(j: JobView, books: Books, start: Map<u128, EntryView>)
    requires
        0 <= j.idx <= j.line.len() <= usize::MAX,
        undone(books.0, j.line, j.changes).0 == start,
    ensures
        ({
            let (step, next, after) = j.advanced(books);
            match step {
                StepView::Search(b) => undone(after.0, j.line, next.changes).0 == start,
                StepView::Done(updated, added, changes) => undone(after.0, j.line, changes).0
                    == start,
            }
        }),
        j.advanced(books).1.line == j.line,
    decreases
            if j.done {
                0int
            } else {
                j.idx + 1
            },
{
    if j.done || j.awaiting_terminal {
    } else if j.idx == 0 {
        law_undo_restores_learned(JobView { done: true, ..j }, books, start);
    } else if j.at().1 is None {
        law_undo_restores_learned(
            JobView { v_next: (-j.v_next) as i32, idx: j.idx - 1, ..j },
            books,
            start,
        );
    } else {
        let k = raw_key(j.at().0);
        let (learned, base) = books;
        let known = learned.dom().contains(k);
        if known || base.dom().contains(k) || j.queue().len() == 0 {
            let e = if known {
                learned[k]
            } else if base.dom().contains(k) {
                base[k]
            } else {
                j.new_entry()
            };
            let g = if known || base.dom().contains(k) {
                j
            } else {
                JobView {
                    alt_queue: Seq::empty(),
                    alt_best: None,
                    evaluating: false,
                    added: j.added + 1,
                    ..j
                }
            };
            let c = j.change(e, !known);
            assert(g.change(e, !known) == c);
            let next = g.settled(e, !known);
            lemma_step_restored(j, learned, e, !known);
            let now = learned.insert(k, j.revalued(e));
            assert(next.changes.last() == c);
            assert(next.changes.drop_last() =~= j.changes);
            law_undo_restores_learned(next, (now, base.insert(k, j.revalued(e))), start);
        }
    }
}

/// A loss stops where there was something better: what is carried on from a
/// position is not below the value of any of its candidates.
pub proof fn law_loss_stops(j: JobView, e: EntryView, fresh: bool, i: int)
    requires
        j.idx > 0,
        j.at().1 is Some,
        0 <= i < j.revalued(e).moves.len(),
    ensures
        j.settled(e, fresh).v_next >= j.revalued(e).moves[i].value,
{
    lemma_best_of(j.revalued(e).moves, j.revalued(e).moves.len() as int);
}

/// Where the change of the move at step `i` stands among those of a whole game,
/// which run from its end to its start.
pub open spec fn change_of(line: Steps, i: int) -> int {
    moves_among(line, line.len() as int) - moves_among(line, i + 1)
}

/// What is carried back to the position of step `i`, to the side to move there:
/// the value `v` of the last position, turned round by passes, or the best value
/// of a position in which a move was made.
pub open spec fn carried(line: Steps, v: i32, changes: Seq<BackupChange>, i: int) -> i32
    decreases line.len() - i,
{
    if i >= line.len() {
        v
    } else if line[i].1 is None {
        (-carried(line, v, changes, i + 1)) as i32
    } else {
        changes[change_of(line, i)].best
    }
}

/// From step `from` on each move has its change: it counts what is carried back
/// from behind it, and the position is worth no less.
pub open spec fn rewritten(line: Steps, v: i32, changes: Seq<BackupChange>, from: int) -> bool {
    forall|i: int|
        from <= i < line.len() && line[i].1 is Some ==> {
            let c = changes[#[trigger] change_of(line, i)];
            &&& 0 <= change_of(line, i) < changes.len()
            &&& c.ply == moves_among(line, i) + 1
            &&& c.mv == line[i].1->Some_0
            &&& c.after == (-carried(line, v, changes, i + 1)) as i32
            &&& c.best >= c.after
        }
}

/// The import has come as far as its step with the changes that `v`, the value
/// of the last position, asks for.
pub open spec fn chained(j: JobView, v: i32) -> bool {
    &&& 0 <= j.idx <= j.line.len() <= usize::MAX
    &&& j.updated == j.changes.len()
    &&& j.changes.len() == moves_among(j.line, j.line.len() as int) - moves_among(j.line, j.idx)
    &&& j.done ==> j.idx == 0 && !j.awaiting_terminal
    &&& j.awaiting_terminal ==> j.idx == j.line.len()
    &&& !j.awaiting_terminal ==> j.v_next == carried(j.line, v, j.changes, j.idx)
    &&& rewritten(j.line, v, j.changes, j.idx)
}

proof fn lemma_moves_order(line: Steps, a: int, b: int)
    requires
        0 <= a <= b <= line.len(),
    ensures
        moves_among(line, a) <= moves_among(line, b),
    decreases b,
{
    if a < b {
        lemma_moves_order(line, a, b - 1);
    }
}

/// One more change leaves what was carried back before it.
proof fn lemma_carried_push(line: Steps, v: i32, changes: Seq<BackupChange>, c: BackupChange, i: int, idx: int)
    requires
        0 <= idx <= i,
        idx <= line.len(),
        changes.len() == moves_among(line, line.len() as int) - moves_among(line, idx),
    ensures
        carried(line, v, changes.push(c), i) == carried(line, v, changes, i),
    decreases line.len() - i,
{
    if i < line.len() {
        lemma_moves_order(line, idx, i);
        lemma_moves_order(line, i + 1, line.len() as int);
        lemma_carried_push(line, v, changes, c, i + 1, idx);
    }
}

/// An import that is at the end of its game has no changes yet. The value of the
/// last position is the result, where the game is finished.
pub proof fn law_import_begins(job: BackupJob, steps: Steps, end: Board, depth: u8, v: i32)
    requires
        job.begins(steps, end, depth),
        steps.len() <= usize::MAX,
        end.finished() ==> v == (final_score_of(end) * 100) as i32,
    ensures
        chained(job@, v),
{
}

/// Values that are fed keep the changes; the first one is that of the last
/// position, where the game is not finished.
pub proof fn law_import_fed(j: JobView, v: i32, value: i32)
    requires
        chained(j, v),
        j.awaiting_terminal ==> value == v,
    ensures
        chained(j.fed(value), v),
{
}

#[verifier::spinoff_prover]
#[verifier::rlimit(60)]
proof fn lemma_settled_chained(j: JobView, g: JobView, e: EntryView, fresh: bool, v: i32)
    requires
        chained(j, v),
        !j.done,
        !j.awaiting_terminal,
        0 < j.idx,
        j.at().1 is Some,
        g == j || g == (JobView {
            alt_queue: Seq::empty(),
            alt_best: None,
            evaluating: false,
            added: j.added + 1,
            ..j
        }),
    ensures
        chained(g.settled(e, fresh), v),
{
    let line = j.line;
    let idx = j.idx;
    let c = g.change(e, fresh);
    let m = raw_move(j.at().0, j.at().1->Some_0);
    let u = e.updated(m, c.after);
    let next = g.settled(e, fresh);
    lemma_moves_among(line, idx - 1);
    lemma_move_at(e.moves, m, 0);
    lemma_best_of(u.moves, u.moves.len() as int);
    let at = move_at(e.moves, m, 0);
    assert(u.moves[at].value == c.after);
    assert(change_of(line, idx - 1) == j.changes.len());
    assert(next.changes =~= j.changes.push(c));
    assert forall|i: int| idx - 1 <= i < line.len() && line[i].1 is Some implies {
        let d = next.changes[#[trigger] change_of(line, i)];
        &&& 0 <= change_of(line, i) < next.changes.len()
        &&& d.ply == moves_among(line, i) + 1
        &&& d.mv == line[i].1->Some_0
        &&& d.after == (-carried(line, v, next.changes, i + 1)) as i32
        &&& d.best >= d.after
    } by {
        lemma_carried_push(line, v, j.changes, c, i + 1, idx);
        if i >= idx {
            lemma_moves_order(line, idx, i);
            lemma_moves_order(line, i + 1, line.len() as int);
            assert(change_of(line, i) < j.changes.len());
        }
    }
}

/// The changes of a whole import chain: whatever is asked for on the way, an
/// import that has finished has rewritten every move of the game, from the last
/// to the first, and each counts what was carried back from behind it.
pub proof fn law_import_chains(j: JobView, books: Books, v: i32)
    requires
        chained(j, v),
    ensures
        ({
            let (step, next, after) = j.advanced(books);
            match step {
                StepView::Search(b) => chained(next, v) && (j.awaiting_terminal ==> b
                    == j.terminal),
                StepView::Done(updated, added, changes) => {
                    &&& updated == changes.len()
                    &&& changes.len() == moves_among(j.line, j.line.len() as int)
                    &&& rewritten(j.line, v, changes, 0)
                },
            }
        }),
        j.advanced(books).1.line == j.line,
        !j.awaiting_terminal ==> !j.advanced(books).1.awaiting_terminal,
    decreases
            if j.done {
                0int
            } else {
                j.idx + 1
            },
{
    if j.done || j.awaiting_terminal {
    } else if j.idx == 0 {
        law_import_chains(JobView { done: true, ..j }, books, v);
    } else if j.at().1 is None {
        let next = JobView { v_next: (-j.v_next) as i32, idx: j.idx - 1, ..j };
        assert(chained(next, v));
        law_import_chains(next, books, v);
    } else {
        let k = raw_key(j.at().0);
        let (learned, base) = books;
        let known = learned.dom().contains(k);
        if known || base.dom().contains(k) || j.queue().len() == 0 {
            let e = if known {
                learned[k]
            } else if base.dom().contains(k) {
                base[k]
            } else {
                j.new_entry()
            };
            let g = if known || base.dom().contains(k) {
                j
            } else {
                JobView {
                    alt_queue: Seq::empty(),
                    alt_best: None,
                    evaluating: false,
                    added: j.added + 1,
                    ..j
                }
            };
            lemma_settled_chained(j, g, e, !known, v);
            law_import_chains(
                g.settled(e, !known),
                (learned.insert(k, j.revalued(e)), base.insert(k, j.revalued(e))),
                v,
            );
        }
    }
}

/// In the changes of a whole game the plies run down to 1. The last move counts
/// the last position's value turned round; each other one the best of the
/// position behind it turned round, or that best itself where a pass lies
/// between.
pub proof fn law_changes_follow(line: Steps, v: i32, changes: Seq<BackupChange>, i: int)
    requires
        rewritten(line, v, changes, 0),
        changes.len() == moves_among(line, line.len() as int),
        0 <= i < line.len(),
        line[i].1 is Some,
    ensures
        ({
            let k = change_of(line, i);
            &&& 0 <= k < changes.len()
            &&& changes[k].ply == changes.len() - k
            &&& changes[k].best >= changes[k].after
            &&& i + 1 == line.len() ==> k == 0 && changes[k].after == (-v) as i32
            &&& i + 1 < line.len() && line[i + 1].1 is Some ==> k > 0 && changes[k].after
                == (-changes[k - 1].best) as i32
            &&& i + 2 < line.len() && line[i + 1].1 is None && line[i + 2].1 is Some ==> k > 0
                && (changes[k - 1].best > i32::MIN ==> changes[k].after == changes[k - 1].best)
        }),
{
    let k = change_of(line, i);
    let x = carried(line, v, changes, i + 1);
    assert(moves_among(line, i + 1) == moves_among(line, i) + 1);
    assert(changes[k].after == (-x) as i32);
    if i + 1 == line.len() {
        assert(x == v);
    } else if line[i + 1].1 is Some {
        assert(moves_among(line, i + 2) == moves_among(line, i + 1) + 1);
        assert(change_of(line, i + 1) == k - 1);
        assert(x == changes[k - 1].best);
    } else if i + 2 < line.len() && line[i + 2].1 is Some {
        assert(moves_among(line, i + 2) == moves_among(line, i + 1));
        assert(moves_among(line, i + 3) == moves_among(line, i + 2) + 1);
        assert(change_of(line, i + 2) == k - 1);
        assert(carried(line, v, changes, i + 2) == changes[k - 1].best);
        assert(x == (-changes[k - 1].best) as i32);
    }
}

/// What an import comes to that is answered with these values, as long as it
/// asks for them: the number of rewritten moves, and the changes.
pub open spec fn run_of(j: JobView, books: Books, fed: Seq<i32>) -> Option<(int, Seq<BackupChange>)>
    decreases fed.len(),
{
    let (step, next, after) = j.advanced(books);
    match step {
        StepView::Done(updated, added, changes) => Some((updated as int, changes)),
        StepView::Search(b) => if fed.len() == 0 {
            None
        } else {
            run_of(next.fed(fed[0]), after, fed.skip(1))
        },
    }
}

proof fn lemma_run_chains(j: JobView, books: Books, fed: Seq<i32>, v: i32)
    requires
        chained(j, v),
        j.awaiting_terminal && fed.len() > 0 ==> fed[0] == v,
    ensures
        run_of(j, books, fed) matches Some((updated, changes)) ==> updated == changes.len()
            && changes.len() == moves_among(j.line, j.line.len() as int) && rewritten(
            j.line,
            v,
            changes,
            0,
        ),
    decreases fed.len(),
{
    law_import_chains(j, books, v);
    let (step, next, after) = j.advanced(books);
    if step is Search && fed.len() > 0 {
        law_import_fed(next, v, fed[0]);
        lemma_run_chains(next.fed(fed[0]), after, fed.skip(1), v);
    }
}

/// An import from its start to its end: every move of the game is rewritten
/// once, from the last to the first. The last counts the value of the last
/// position turned round, which is the result where the game is finished, and
/// else the first value that was fed; each other one the best of the position
/// behind it turned round, or that best itself where a pass lies between.
pub proof fn law_whole_import(
    job: BackupJob,
    steps: Steps,
    end: Board,
    depth: u8,
    books: Books,
    fed: Seq<i32>,
    i: int,
)
    requires
        job.begins(steps, end, depth),
        steps.len() <= usize::MAX,
        run_of(job@, books, fed) is Some,
        0 <= i < steps.len(),
        steps[i].1 is Some,
    ensures
        ({
            let (updated, changes) = run_of(job@, books, fed).unwrap();
            let v = if end.finished() {
                (final_score_of(end) * 100) as i32
            } else {
                fed[0]
            };
            let k = change_of(steps, i);
            &&& updated == changes.len()
            &&& changes.len() == moves_among(steps, steps.len() as int)
            &&& 0 <= k < changes.len()
            &&& changes[k].ply == changes.len() - k
            &&& changes[k].mv == steps[i].1->Some_0
            &&& changes[k].best >= changes[k].after
            &&& i + 1 == steps.len() ==> k == 0 && changes[k].after == (-v) as i32
            &&& i + 1 < steps.len() && steps[i + 1].1 is Some ==> k > 0 && changes[k].after
                == (-changes[k - 1].best) as i32
            &&& i + 2 < steps.len() && steps[i + 1].1 is None && steps[i + 2].1 is Some ==> k > 0
                && (changes[k - 1].best > i32::MIN ==> changes[k].after == changes[k - 1].best)
        }),
{
    let v = if end.finished() {
        (final_score_of(end) * 100) as i32
    } else {
        fed[0]
    };
    law_import_begins(job, steps, end, depth, v);
    lemma_run_chains(job@, books, fed, v);
    let (updated, changes) = run_of(job@, books, fed).unwrap();
    law_changes_follow(steps, v, changes, i);
    assert(0 <= change_of(steps, i) < changes.len());
}

/// The other moves are all legal moves but the one played, each once.
pub proof fn law_other_moves(b: Board, mv: Position)
    ensures
        forall|s: int|
            0 <= s < 64 && #[trigger] b.legal(s) && s != mv.0 ==> others(b, mv).contains(
                Position(s as u8),
            ),
        forall|i: int|
            0 <= i < others(b, mv).len() ==> (#[trigger] others(b, mv)[i]).wf() && others(b, mv)[i]
                != mv && b.legal(others(b, mv)[i].0 as int),
        forall|i: int, j: int|
            0 <= i < j < others(b, mv).len() ==> #[trigger] others(b, mv)[i] != #[trigger] others(
                b,
                mv,
            )[j],
{
    let list = squares(b.moves());
    let n = list.len() as int;
    lemma_squares(b.moves(), 64);
    lemma_moves(b);
    lemma_all_but(b, mv, n);
    lemma_but_one(list, mv, n);
    assert forall|s: int| 0 <= s < 64 && #[trigger] b.legal(s) && s != mv.0 implies others(
        b,
        mv,
    ).contains(Position(s as u8)) by {
        assert(bit(b.moves(), s));
        let k = choose|k: int| 0 <= k < list.len() && #[trigger] list[k] == s;
        assert(Position(list[k]) == Position(s as u8));
    }
}

proof fn lemma_but_one(list: Seq<u8>, mv: Position, n: int)
    requires
        0 <= n <= list.len(),
        forall|i: int, j: int| 0 <= i < j < list.len() ==> #[trigger] list[i] < #[trigger] list[j],
    ensures
        forall|k: int|
            0 <= k < n && #[trigger] list[k] != mv.0 ==> all_but(list, mv, n).contains(
                Position(list[k]),
            ),
        forall|i: int|
            0 <= i < all_but(list, mv, n).len() ==> (#[trigger] all_but(list, mv, n)[i]) != mv && exists|
                k: int,
            | 0 <= k < n && #[trigger] list[k] == all_but(list, mv, n)[i].0,
        forall|i: int, j: int|
            0 <= i < j < all_but(list, mv, n).len() ==> (#[trigger] all_but(list, mv, n)[i]).0 < (
            #[trigger] all_but(list, mv, n)[j]).0,
    decreases n,
{
    if n > 0 {
        lemma_but_one(list, mv, n - 1);
        let before = all_but(list, mv, n - 1);
        let all = all_but(list, mv, n);
        assert forall|k: int| 0 <= k < n && #[trigger] list[k] != mv.0 implies all.contains(
            Position(list[k]),
        ) by {
            if k < n - 1 {
                let i = choose|i: int| 0 <= i < before.len() && before[i] == Position(list[k]);
                assert(all[i] == before[i]);
            } else {
                assert(all.last() == Position(list[k]));
                assert(all[all.len() - 1] == Position(list[k]));
            }
        }
        assert forall|i: int| 0 <= i < all.len() implies (#[trigger] all[i]) != mv && exists|k: int|
            0 <= k < n && #[trigger] list[k] == all[i].0 by {
            if i < before.len() {
                assert(all[i] == before[i]);
            } else {
                assert(list[n - 1] == all[i].0);
            }
        }
        assert forall|i: int, j: int| 0 <= i < j < all.len() implies (#[trigger] all[i]).0 < (
        #[trigger] all[j]).0 by {
            assert(all[i] == before[i]);
            let k = choose|k: int| 0 <= k < n - 1 && #[trigger] list[k] == before[i].0;
            if j < before.len() {
                assert(all[j] == before[j]);
            } else {
                assert(list[k] < list[n - 1]);
            }
        }
    }
}

/// The import after it was answered with these values, one after the other.
pub open spec fn answered(j: JobView, books: Books, values: Seq<i32>) -> JobView
    decreases values.len(),
{
    if values.len() == 0 {
        j
    } else {
        answered(j, books, values.drop_last()).advanced(books).1.fed(values.last())
    }
}

/// The import is about to give a position its first entry: it is in neither book,
/// and nothing of it was evaluated yet.
pub open spec fn meets_new_position(j: JobView, books: Books) -> bool {
    &&& !j.done && !j.awaiting_terminal && !j.evaluating
    &&& j.pending_alt is None
    &&& 0 < j.idx
    &&& j.at().1 is Some
    &&& !books.0.dom().contains(raw_key(j.at().0))
    &&& !books.1.dom().contains(raw_key(j.at().0))
}

/// The alternative that is kept is worth minus one of the values, and no less than
/// minus any.
pub open spec fn keeps_best(best: Option<(Position, i32)>, list: Seq<Position>, values: Seq<i32>) -> bool {
    if values.len() == 0 {
        best is None
    } else {
        best matches Some((p, w)) && (forall|i: int| 0 <= i < values.len() ==> w >= -(#[trigger] values[i]))
            && (exists|i: int|
            0 <= i < values.len() && w == -(#[trigger] values[i]) && p == list[list.len() - 1 - i])
    }
}

proof fn lemma_answered(j: JobView, books: Books, values: Seq<i32>)
    requires
        meets_new_position(j, books),
        values.len() <= others(j.at().0, j.at().1->Some_0).len(),
        forall|i: int| 0 <= i < values.len() ==> #[trigger] values[i] > i32::MIN,
    ensures
        ({
            let list = others(j.at().0, j.at().1->Some_0);
            let n = list.len() as int;
            let g = answered(j, books, values);
            &&& g == (JobView {
                alt_queue: g.alt_queue,
                alt_best: g.alt_best,
                pending_alt: None,
                evaluating: g.evaluating,
                ..j
            })
            &&& g.queue() == list.take(n - values.len())
            &&& keeps_best(g.queue_best(), list, values)
            &&& values.len() < n ==> g.advanced(books).0 == StepView::Search(
                j.at().0.after(list[n - 1 - values.len()].0 as int),
            ) && g.advanced(books).2 == books
        }),
    decreases values.len(),
{
    let list = others(j.at().0, j.at().1->Some_0);
    let n = list.len() as int;
    let g = answered(j, books, values);
    if values.len() == 0 {
        assert(list.take(n) =~= list);
    } else {
        let init = values.drop_last();
        let c = values.len() - 1;
        assert forall|i: int| 0 <= i < init.len() implies #[trigger] init[i] > i32::MIN by {
            assert(init[i] == values[i]);
        }
        lemma_answered(j, books, init);
        let f = answered(j, books, init);
        let next = f.advanced(books).1;
        let rest = list.take(n - c);
        assert(f.queue() == rest);
        assert(rest.drop_last() =~= list.take(n - values.len()));
        assert(rest.last() == list[n - 1 - c]);
        assert(g == next.fed(values.last()));
        assert(next.pending_alt == Some(list[n - 1 - c]));
        let w = g.queue_best()->Some_0.1;
        assert(values.last() == values[c]);
        assert forall|i: int| 0 <= i < values.len() implies w >= -(#[trigger] values[i]) by {
            if i < c {
                assert(init[i] == values[i]);
            }
        }
        if init.len() > 0 {
            let (q, u) = f.queue_best()->Some_0;
            let i = choose|i: int|
                0 <= i < init.len() && u == -(#[trigger] init[i]) && q == list[n - 1 - i];
            assert(init[i] == values[i]);
        }
    }
    if values.len() < n {
        let rest = list.take(n - values.len());
        assert(rest.last() == list[n - 1 - values.len()]);
    }
}

/// Taking an import further only adds changes, and takes no learned position out.
proof fn lemma_changes_stay(j: JobView, books: Books)
    requires
        0 <= j.idx,
    ensures
        ({
            let (step, next, after) = j.advanced(books);
            let all = changes_so_far(step, next);
            &&& j.changes.len() <= all.len()
            &&& forall|i: int| 0 <= i < j.changes.len() ==> #[trigger] all[i] == j.changes[i]
            &&& forall|k: u128| #[trigger] books.0.dom().contains(k) ==> after.0.dom().contains(k)
            &&& j.added <= added_so_far(step, next)
        }),
    decreases
            if j.done {
                0int
            } else {
                j.idx + 1
            },
{
    if j.done || j.awaiting_terminal {
    } else if j.idx == 0 {
        lemma_changes_stay(JobView { done: true, ..j }, books);
    } else if j.at().1 is None {
        lemma_changes_stay(JobView { v_next: (-j.v_next) as i32, idx: j.idx - 1, ..j }, books);
    } else {
        let k = raw_key(j.at().0);
        let (learned, base) = books;
        let known = learned.dom().contains(k);
        if known || base.dom().contains(k) || j.queue().len() == 0 {
            let e = if known {
                learned[k]
            } else if base.dom().contains(k) {
                base[k]
            } else {
                j.new_entry()
            };
            let g = if known || base.dom().contains(k) {
                j
            } else {
                JobView {
                    alt_queue: Seq::empty(),
                    alt_best: None,
                    evaluating: false,
                    added: j.added + 1,
                    ..j
                }
            };
            let next = g.settled(e, !known);
            let with = (learned.insert(k, j.revalued(e)), base.insert(k, j.revalued(e)));
            lemma_changes_stay(next, with);
            let all = changes_so_far(j.advanced(books).0, j.advanced(books).1);
            assert forall|i: int| 0 <= i < j.changes.len() implies #[trigger] all[i]
                == j.changes[i] by {
                assert(next.changes[i] == j.changes[i]);
            }
            assert forall|k: u128| #[trigger] learned.dom().contains(k) implies j.advanced(
                books,
            ).2.0.dom().contains(k) by {
                assert(with.0.dom().contains(k));
            }
        }
    }
}

/// The changes that an import has made by the time it stops for a value or ends.
pub open spec fn changes_so_far(step: StepView, next: JobView) -> Seq<BackupChange> {
    match step {
        StepView::Done(updated, added, changes) => changes,
        StepView::Search(b) => next.changes,
    }
}

/// How many positions an import has added by the time it stops for a value or ends.
pub open spec fn added_so_far(step: StepView, next: JobView) -> int {
    match step {
        StepView::Done(updated, added, changes) => added as int,
        StepView::Search(b) => next.added,
    }
}

/// A position that is in neither book: the import asks for the values of the
/// positions after its other moves, one after the other, and each of them counts
/// the other way round. It counts as added. The alternative in the new entry is the best of them. The
/// position is worth the best of those and of the move played, no less than any of
/// them and as much as one.
pub proof fn law_new_position_keeps_the_best(j: JobView, books: Books, values: Seq<i32>)
    requires
        meets_new_position(j, books),
        j.v_next > i32::MIN,
        values.len() == others(j.at().0, j.at().1->Some_0).len(),
        forall|i: int| 0 <= i < values.len() ==> #[trigger] values[i] > i32::MIN,
        j.at().1->Some_0.wf(),
        j.at().0.wf(),
    ensures
        ({
            let (b, mv) = (j.at().0, j.at().1->Some_0);
            let list = others(b, mv);
            let n = list.len() as int;
            let g = answered(j, books, values);
            let e = g.new_entry();
            let c = changes_so_far(g.advanced(books).0, g.advanced(books).1)[j.changes.len() as int];
            &&& forall|i: int|
                0 <= i < n ==> (#[trigger] answered(j, books, values.take(i)).advanced(books)).0
                    == StepView::Search(b.after(list[n - 1 - i].0 as int))
            &&& n == 0 ==> e.moves.len() == 0
            &&& n > 0 ==> e.moves.len() == 1 && (forall|i: int|
                0 <= i < n ==> e.moves[0].value >= -(#[trigger] values[i])) && exists|i: int|
                0 <= i < n && e.moves[0].value == -(#[trigger] values[i]) && e.moves[0].mv == raw_move(
                    b,
                    list[n - 1 - i],
                )
            &&& e.depth == j.new_depth
            &&& c.mv == mv
            &&& c.new_entry
            &&& c.before is None
            &&& c.after == -j.v_next
            &&& c.best >= c.after
            &&& forall|i: int| 0 <= i < n ==> c.best >= -(#[trigger] values[i])
            &&& c.best == c.after || exists|i: int| 0 <= i < n && c.best == -(#[trigger] values[i])
            &&& g.advanced(books).2.0.dom().contains(raw_key(b))
            &&& added_so_far(g.advanced(books).0, g.advanced(books).1) > j.added
        }),
{
    let (b, mv) = (j.at().0, j.at().1->Some_0);
    let list = others(b, mv);
    let n = list.len() as int;
    lemma_answered(j, books, values);
    let g = answered(j, books, values);
    let e = g.new_entry();
    assert forall|i: int| 0 <= i < n implies (#[trigger] answered(
        j,
        books,
        values.take(i),
    ).advanced(books)).0 == StepView::Search(b.after(list[n - 1 - i].0 as int)) by {
        let part = values.take(i);
        assert forall|k: int| 0 <= k < part.len() implies #[trigger] part[k] > i32::MIN by {
            assert(part[k] == values[k]);
        }
        lemma_answered(j, books, part);
    }
    let h = JobView {
        alt_queue: Seq::empty(),
        alt_best: None,
        evaluating: false,
        added: g.added + 1,
        ..g
    };
    let next = h.settled(e, true);
    let k = raw_key(b);
    let with = (books.0.insert(k, g.revalued(e)), books.1.insert(k, g.revalued(e)));
    lemma_changes_stay(next, with);
    let c = next.changes[j.changes.len() as int];
    let m = raw_move(b, mv);
    let u = e.updated(m, c.after);
    lemma_lowest_form(b, 8);
    lemma_mapped(mv.0 as int, form_of(b));
    lemma_move_at(e.moves, m, 0);
    assert(g.queue().len() == 0);
    assert(g.advanced(books) == next.advanced(with));
    assert(changes_so_far(g.advanced(books).0, g.advanced(books).1)[j.changes.len() as int] == c);
    assert(with.0.dom().contains(k));
    law_best_candidate(u);
    let best = u.best()->Some_0;
    assert(c.best == best.value);
    let at = choose|at: int|
        0 <= at < u.moves.len() && #[trigger] u.moves[at] == best && (forall|j: int|
            0 <= j < u.moves.len() ==> (#[trigger] u.moves[j]).value <= best.value);
    if n > 0 {
        let i = choose|i: int|
            0 <= i < n && e.moves[0].value == -(#[trigger] values[i]) && e.moves[0].mv == raw_move(
                b,
                list[n - 1 - i],
            );
        law_other_moves(b, mv);
        assert(list[n - 1 - i] != mv);
        lemma_inverse(mv.0 as int, form_of(b));
        lemma_inverse(list[n - 1 - i].0 as int, form_of(b));
        lemma_mapped(list[n - 1 - i].0 as int, form_of(b));
        assert(e.moves[0].mv != m);
        assert(u.moves[0] == e.moves[0]);
        assert(u.moves[1].value == c.after);
    } else {
        assert(u.moves[0].value == c.after);
    }
}

/// The position of a change is worth the best of the move played and of the other
/// candidates of the entry: no less than any of them, and as much as one.
pub open spec fn worth_the_best(c: BackupChange, e: EntryView, m: Position) -> bool {
    &&& c.best >= c.after
    &&& forall|i: int|
        0 <= i < e.moves.len() && (#[trigger] e.moves[i]).mv != m ==> c.best >= e.moves[i].value
    &&& c.best == c.after || exists|i: int|
        0 <= i < e.moves.len() && c.best == (#[trigger] e.moves[i]).value
}

proof fn lemma_worth_the_best(c: BackupChange, e: EntryView, m: Position)
    requires
        c.best == e.updated(m, c.after).best()->Some_0.value,
    ensures
        worth_the_best(c, e, m),
{
    let u = e.updated(m, c.after);
    lemma_move_at(e.moves, m, 0);
    law_best_candidate(u);
    let best = u.best()->Some_0;
    let at = choose|at: int|
        0 <= at < u.moves.len() && #[trigger] u.moves[at] == best && (forall|j: int|
            0 <= j < u.moves.len() ==> (#[trigger] u.moves[j]).value <= best.value);
    assert(u.moves[at] == best);
    let own = move_at(e.moves, m, 0);
    assert(u.moves[own].value == c.after);
    assert forall|i: int| 0 <= i < e.moves.len() && (#[trigger] e.moves[i]).mv != m implies c.best
        >= e.moves[i].value by {
        assert(u.moves[i] == e.moves[i]);
    }
    if at != own {
        assert(u.moves[at] == e.moves[at]);
        assert(c.best == e.moves[at].value);
    }
}

/// A position that is in one of the books: its entry, that of the learned book
/// first, gets the played move at the value that is carried back, the other way
/// round. The position is worth the best of that and of the other candidates.
pub proof fn law_known_position_keeps_the_best(j: JobView, books: Books)
    requires
        !j.done && !j.awaiting_terminal,
        0 < j.idx,
        j.at().1 is Some,
        j.v_next > i32::MIN,
        books.0.dom().contains(raw_key(j.at().0)) || books.1.dom().contains(raw_key(j.at().0)),
    ensures
        ({
            let (b, mv) = (j.at().0, j.at().1->Some_0);
            let k = raw_key(b);
            let e = if books.0.dom().contains(k) {
                books.0[k]
            } else {
                books.1[k]
            };
            let c = changes_so_far(j.advanced(books).0, j.advanced(books).1)[j.changes.len() as int];
            &&& c.mv == mv
            &&& c.new_entry == !books.0.dom().contains(k)
            &&& c.before == e.value_of(raw_move(b, mv))
            &&& c.after == -j.v_next
            &&& worth_the_best(c, e, raw_move(b, mv))
            &&& j.advanced(books).2.0.dom().contains(k)
        }),
{
    let (b, mv) = (j.at().0, j.at().1->Some_0);
    let k = raw_key(b);
    let known = books.0.dom().contains(k);
    let e = if known {
        books.0[k]
    } else {
        books.1[k]
    };
    let next = j.settled(e, !known);
    let with = (books.0.insert(k, j.revalued(e)), books.1.insert(k, j.revalued(e)));
    lemma_changes_stay(next, with);
    assert(j.advanced(books) == next.advanced(with));
    assert(with.0.dom().contains(k));
    let c = next.changes[j.changes.len() as int];
    assert(changes_so_far(j.advanced(books).0, j.advanced(books).1)[j.changes.len() as int] == c);
    lemma_worth_the_best(c, e, raw_move(b, mv));
}

/// Step `i` leads to the position of the next one, or to `end` if it is the last: a
/// move is legal and is made, and a pass is forced and has a move behind it.
pub open spec fn leads_on(steps: Steps, end: Board, i: int) -> bool {
    let (b, mv) = steps[i];
    let next = if i + 1 < steps.len() {
        steps[i + 1].0
    } else {
        end
    };
    match mv {
        Some(p) => b.legal(p.0 as int) && next == b.after(p.0 as int),
        None => !b.can_move() && next == b.passed() && i + 1 < steps.len() && steps[i + 1].1 is Some,
    }
}

/// A record that can be replayed is a game: it starts at the position, each step leads
/// to the next and the last to the end, and two characters make one move.
pub proof fn law_replay_is_a_game(b: Board, text: Seq<char>)
    ensures
        replay_text(b, text) matches Ok((steps, end)) ==> {
            &&& steps.len() == 0 ==> end == b
            &&& steps.len() > 0 ==> steps[0].0 == b
            &&& forall|i: int| 0 <= i < steps.len() ==> #[trigger] leads_on(steps, end, i)
            &&& moves_among(steps, steps.len() as int) == text.len() / 2
        },
    decreases text.len(),
{
    if text.len() >= 2 {
        if let Some(q) = square_named(encode_utf8(text.take(2))) {
            let first = steps_for(b, Position(q));
            let c = first.last().0.after(q as int);
            law_replay_is_a_game(c, text.skip(2));
            if let Ok((rest, end)) = replay_text(c, text.skip(2)) {
                let steps = first + rest;
                if replay_text(b, text) is Ok {
                    assert forall|i: int| 0 <= i < steps.len() implies #[trigger] leads_on(
                        steps,
                        end,
                        i,
                    ) by {
                        if i >= first.len() {
                            assert(leads_on(rest, end, i - first.len()));
                        }
                    }
                    lemma_moves_joined(first, rest, rest.len() as int);
                    reveal_with_fuel(moves_among, 3);
                }
            }
        }
    }
}

proof fn lemma_moves_joined(a: Steps, b: Steps, n: int)
    requires
        0 <= n <= b.len(),
    ensures
        moves_among(a + b, a.len() + n) == moves_among(a, a.len() as int) + moves_among(b, n),
    decreases n,
{
    if n > 0 {
        lemma_moves_joined(a, b, n - 1);
        assert((a + b)[a.len() + n - 1] == b[n - 1]);
    } else {
        lemma_moves_prefix(a, b, a.len() as int);
    }
}

proof fn lemma_moves_prefix(a: Steps, b: Steps, n: int)
    requires
        0 <= n <= a.len(),
    ensures
        moves_among(a + b, n) == moves_among(a, n),
    decreases n,
{
    if n > 0 {
        lemma_moves_prefix(a, b, n - 1);
        assert((a + b)[n - 1] == a[n - 1]);
    }
}

} // verus!
