//! The engine as front ends use it: give it a position, get a move and a value.
//!
//! Moves come from the book, from a solve or from the midgame search, whichever
//! the position calls for. Values are hundredths of a disc.

use vstd::prelude::*;
use vstd::string::*;

use crate::bits::{bit, count, iter_bits, lemma_count_zero, lemma_squares, lemma_squares_len, squares};
use crate::board::{Board, ParseError, lemma_after_wf, lemma_moves, lemma_wf_sides, reads_board};
use crate::book::{Book, BookCandidate, EntryView, close_ones, entry_for, shown};
use crate::learn::{BackupChange, BackupJob, BackupOutcome, JobStep, Line, StepView, Steps, merge_learned, overlaid, replay_text, replay_view, undo_backup, undone};
use crate::midgame::{Deepened, NnueSearch, StopHandle, band, found, lowered, raised, selective_band};
use crate::midgame::table::seeded;
use crate::midgame::value::view_hash;
use crate::position::Position;
use crate::search::{LeafEval, final_score_of, lemma_final_score};
use crate::solver::{EndSolverMode, EndSolverResult, Solver, final_score, is_solution, law_finished_result, lemma_solved_bound, move_result, result_of, solve_gives};
use crate::sorting::{is_stable_order, stable_order};
use crate::zobrist::board_hash;

pub mod laws;

verus! {

/// Depth to which a reply is looked at in the opponent's time: as deep as time
/// allows.
pub const PONDER_DEPTH: u32 = 60;

/// Depth of the move that is kept for the case that a solve runs out of time.
pub const BACKUP_DEPTH: u32 = 8;

/// Empty squares from which an import has positions solved at most.
pub const LEARN_EMPTIES: u8 = 20;

/// A search value in discs: values of games that were searched to their end are
/// a thousand times as large, and no value is above the number of squares.
pub open spec fn stone(v: int) -> int {
    let w = if v >= 99_900 {
        v / 1000
    } else if v <= -99_900 {
        -((-v) / 1000)
    } else {
        v
    };
    if w > 6400 {
        6400
    } else if w < -6400 {
        -6400
    } else {
        w
    }
}

/// A search value in discs; nothing where there is none.
pub open spec fn stone_or_zero(v: Option<i32>, sign: int) -> int {
    match v {
        Some(v) => stone(sign * v),
        None => 0,
    }
}

/// A search value in discs.
pub fn stone_scale(v: i64) -> (w: i32)
    ensures
        w == stone(v as int),
        -6400 <= w <= 6400,
{
    let x: i64 = if v >= 99_900 {
        v / 1000
    } else if v <= -6_401_000 {
        -6401
    } else if v <= -99_900 {
        -((-v) / 1000)
    } else {
        v
    };
    if x > 6400 {
        6400
    } else if x < -6400 {
        -6400
    } else {
        x as i32
    }
}

/// A search value in discs, from the mover's side or the other.
fn stone_of(v: Option<i32>, negate: bool) -> (w: i32)
    ensures
        w == stone_or_zero(
            v,
            if negate {
                -1
            } else {
                1
            },
        ),
        -6400 <= w <= 6400,
{
    match v {
        None => 0,
        Some(v) => if negate {
            stone_scale(-(v as i64))
        } else {
            stone_scale(v as i64)
        },
    }
}

/// Settings of an engine.
#[derive(Debug)]
pub struct EngineConfig {
    /// Depth of the midgame search.
    pub depth: u32,
    /// Positions with at most this many empty squares are solved.
    pub solve_empties: u8,
    /// How many more are solved without counting as exact; none, when zero.
    pub band: u8,
    pub threads: usize,
    /// Let reduced searches replace full ones.
    pub mpc: bool,
    pub midgame_hash_bits: u32,
    pub solver_hash_bits: u32,
    pub weights: String,
    pub nnue: String,
    pub book: String,
    pub use_book: bool,
    /// How much worse than the best a move of the book may be.
    pub book_tolerance: u32,
}

impl Default for EngineConfig {
    fn default() -> (c: EngineConfig)
        ensures
            c.depth == 12,
            c.solve_empties == 18,
            c.band == 0,
            c.threads == 4,
            c.mpc,
            c.midgame_hash_bits == 22,
            c.solver_hash_bits == 22,
            c.weights@ == "weights/linear.bin"@,
            c.nnue@ == "weights/nnue-h16.bin"@,
            c.book@ == "weights/book.txt"@,
            c.use_book,
            c.book_tolerance == 100,
    {
        EngineConfig {
            depth: 12,
            solve_empties: 18,
            band: 0,
            threads: 4,
            mpc: true,
            midgame_hash_bits: 22,
            solver_hash_bits: 22,
            weights: String::from_str("weights/linear.bin"),
            nnue: String::from_str("weights/nnue-h16.bin"),
            book: String::from_str("weights/book.txt"),
            use_book: true,
            book_tolerance: 100,
        }
    }
}

/// A decision for a move.
#[derive(Clone, Copy, Debug, PartialEq, Eq, Structural)]
pub struct MoveEval {
    /// The move; none for a pass.
    pub pos: Option<Position>,
    /// What it is worth to the mover.
    pub value: i32,
    /// The value is the result of best play.
    pub exact: bool,
    pub from_book: bool,
    /// The position of the book was learned from a game.
    pub learned: bool,
    /// Depth that the search reached; 0 for solves and book moves.
    pub depth: u32,
    /// Time ran out.
    pub cut: bool,
}

impl MoveEval {
    /// A value without anything else.
    pub open spec fn plain(pos: Option<Position>, value: int, exact: bool) -> MoveEval {
        MoveEval {
            pos,
            value: value as i32,
            exact,
            from_book: false,
            learned: false,
            depth: 0,
            cut: false,
        }
    }

    /// A value without anything else.
    fn bare(pos: Option<Position>, value: i32, exact: bool) -> (m: MoveEval)
        ensures
            m == MoveEval::plain(pos, value as int, exact),
    {
        MoveEval { pos, value, exact, from_book: false, learned: false, depth: 0, cut: false }
    }
}

/// What the engine is doing, for display.
#[derive(Clone, Copy, Debug, PartialEq, Eq, Structural)]
pub struct Progress {
    pub kind: u8,
    pub depth: u32,
    /// The best move so far; 64 and above for none.
    pub best: u32,
    /// Its value in thousandths of a disc; the least number for none.
    pub milli: i32,
    /// Values are from the other side.
    pub flip: bool,
}

impl Progress {
    pub const IDLE: u8 = 0;

    pub const THINK: u8 = 1;

    pub const PONDER: u8 = 2;

    pub const SOLVE: u8 = 3;

    pub const SELECT: u8 = 4;

    /// Nothing has been done yet.
    pub fn new() -> (p: Progress)
        ensures
            p == (Progress { kind: 0, depth: 0, best: 0, milli: 0, flip: false }),
    {
        Progress { kind: 0, depth: 0, best: 0, milli: 0, flip: false }
    }

    /// Set what is being done.
    pub fn set_kind(&mut self, kind: u8)
        ensures
            *final(self) == (Progress { kind, ..*old(self) }),
    {
        self.kind = kind;
    }

    /// The state in which nothing is done. Values are from our side again.
    pub open spec fn idle() -> Progress {
        Progress { kind: 0, depth: 0, best: 64, milli: i32::MIN, flip: false }
    }

    /// Nothing is being done. Values are from our side again.
    pub fn clear(&mut self)
        ensures
            *final(self) == Progress::idle(),
    {
        self.kind = 0;
        self.depth = 0;
        self.best = 64;
        self.milli = i32::MIN;
        self.flip = false;
    }

    /// What is shown after an iteration. Without a value the one before stays.
    pub open spec fn after(self, depth: u32, best: Option<Position>, value: Option<i32>) -> Progress {
        Progress {
            depth,
            best: match best {
                Some(p) => p.0 as u32,
                None => 64,
            },
            milli: match value {
                Some(v) => thousandths(
                    if self.flip {
                        -(v as int)
                    } else {
                        v as int
                    },
                ),
                None => self.milli,
            },
            ..self
        }
    }

    /// An iteration has finished. Without a value the one before stays.
    pub fn reached(&mut self, depth: u32, best: Option<Position>, value: Option<i32>)
        ensures
            *final(self) == old(self).after(depth, best, value),
    {
        self.depth = depth;
        self.best = match best {
            Some(p) => p.0 as u32,
            None => 64,
        };
        match value {
            None => {},
            Some(v) => {
                let w: i64 = if self.flip {
                    -(v as i64)
                } else {
                    v as i64
                };
                self.milli = if w * 10 > i32::MAX as i64 {
                    i32::MAX
                } else if w * 10 < i32::MIN as i64 {
                    i32::MIN
                } else {
                    (w * 10) as i32
                };
            },
        }
    }

    /// The move that the opponent is expected to make.
    pub fn predict(&mut self, pos: Position)
        ensures
            *final(self) == (Progress { best: pos.0 as u32, ..*old(self) }),
    {
        self.best = pos.0 as u32;
    }

    /// What is shown: what is being done, the depth, the move and its value in
    /// thousandths of a disc.
    pub fn snapshot(&self) -> (r: (u8, u32, Option<u32>, Option<i32>))
        ensures
            r.0 == self.kind,
            r.1 == self.depth,
            r.2 == if self.best < 64 {
                Some(self.best)
            } else {
                None
            },
            r.3 == if self.milli != i32::MIN {
                Some(self.milli)
            } else {
                None
            },
    {
        let best: Option<u32> = if self.best < 64 {
            Some(self.best)
        } else {
            None
        };
        let milli: Option<i32> = if self.milli != i32::MIN {
            Some(self.milli)
        } else {
            None
        };
        (self.kind, self.depth, best, milli)
    }
}

/// Hundredths as thousandths, as far as they go.
pub open spec fn thousandths(v: int) -> i32 {
    if 10 * v > i32::MAX {
        i32::MAX
    } else if 10 * v < i32::MIN {
        i32::MIN
    } else {
        (10 * v) as i32
    }
}

/// A value that is shown after everything was cleared is the one that was given,
/// whatever was shown before. One that is shown from the other side is that value
/// turned round. An iteration says nothing of what is being done.
pub proof fn law_clear_drops_the_flip(p: Progress, depth: u32, best: Option<Position>, v: i32)
    requires
        -214_748_364 <= v <= 214_748_364,
    ensures
        Progress::idle().after(depth, best, Some(v)).milli == 10 * v,
        (Progress { flip: true, ..p }).after(depth, best, Some(v)).milli == -10 * v,
        (Progress { flip: false, ..p }).after(depth, best, Some(v)).milli == 10 * v,
        p.after(depth, best, Some(v)).kind == p.kind,
        p.after(depth, best, Some(v)).flip == p.flip,
        p.after(depth, best, Some(v)).depth == depth,
        best matches Some(q) ==> p.after(depth, best, Some(v)).best == q.0,
{
}

/// The next number for picks among the moves of the book.
pub open spec fn next_rand(x: u64) -> u64 {
    x.wrapping_mul(6364136223846793005).wrapping_add(1442695040888963407)
}

/// The best candidate of a position, its value and the depth behind it.
pub open spec fn probed(book: Map<u128, EntryView>, b: Board) -> Option<(Position, i32, u8)> {
    match entry_for(book, b) {
        Some(e) => match e.best() {
            Some(c) => Some((shown(c, b), c.value, e.depth)),
            None => None,
        },
        None => None,
    }
}

/// One of the candidates that are close to the best, by the number `pick`.
pub open spec fn varied(book: Map<u128, EntryView>, b: Board, tolerance: u32, pick: u64) -> Option<
    (Position, i32, u8),
> {
    match entry_for(book, b) {
        Some(e) => match e.best() {
            Some(c) => {
                let near = close_ones(e.moves, c.value - tolerance, e.moves.len() as int);
                let d = e.moves[near[(pick % (near.len() as u64)) as int]];
                Some((shown(d, b), d.value, e.depth))
            },
            None => None,
        },
        None => None,
    }
}

/// The entries of a book, if there is one.
pub open spec fn pages(book: Option<Book>) -> Option<Map<u128, EntryView>> {
    match book {
        Some(b) => Some(b@),
        None => None,
    }
}

/// The entries of a book, or none.
pub open spec fn pages_or_none(book: Option<Book>) -> Map<u128, EntryView> {
    match book {
        Some(b) => b@,
        None => Map::empty(),
    }
}

/// A book that may be absent is well-formed.
pub open spec fn book_wf(book: Option<Book>) -> bool {
    book matches Some(b) ==> b.wf()
}

/// Entries, if there are any.
pub open spec fn filled(entries: Map<u128, EntryView>) -> Option<Map<u128, EntryView>> {
    if entries == Map::<u128, EntryView>::empty() {
        None
    } else {
        Some(entries)
    }
}

/// The book that is played from: the one that was read, with what was learned
/// over it.
pub open spec fn whole_book(
    read: Option<Map<u128, EntryView>>,
    learned: Map<u128, EntryView>,
) -> Option<Map<u128, EntryView>> {
    let base = match read {
        Some(m) => filled(m),
        None => None,
    };
    if learned == Map::<u128, EntryView>::empty() {
        base
    } else {
        Some(
            overlaid(
                match base {
                    Some(m) => m,
                    None => Map::empty(),
                },
                learned,
            ),
        )
    }
}

/// The book that is played from.
fn joined_books(read: Option<Book>, learned: &Book) -> (r: Option<Book>)
    requires
        book_wf(read),
        learned.wf(),
    ensures
        book_wf(r),
        pages(r) == whole_book(pages(read), learned@),
{
    let base: Option<Book> = filled_book(read);
    if learned.is_empty() {
        return base;
    }
    let mut b: Book = match base {
        Some(b) => b,
        None => Book::new(),
    };
    merge_learned(&mut b, learned);
    Some(b)
}

/// A book, if it has entries.
fn filled_book(read: Option<Book>) -> (r: Option<Book>)
    requires
        book_wf(read),
    ensures
        book_wf(r),
        pages(r) == match pages(read) {
            Some(m) => filled(m),
            None => None,
        },
{
    match read {
        Some(b) => if b.is_empty() {
            None
        } else {
            Some(b)
        },
        None => None,
    }
}

/// What a position calls for.
#[derive(Clone, Copy, Debug, PartialEq, Eq, Structural)]
pub enum Plan {
    /// The answer is known.
    Answer(MoveEval),
    /// Solve it.
    Solve,
    /// Solve it, at least that sure, in hundredths of a standard deviation. The
    /// answer does not count as exact.
    Select(u32),
    /// Search it to the depth of the settings.
    Search,
}

/// An engine.
#[derive(Debug)]
pub struct Engine<E: LeafEval> {
    pub evaluator: E,
    pub search: NnueSearch,
    pub solver: Solver,
    pub config: EngineConfig,
    pub stop: StopHandle,
    /// What is played from: the book that was read, with what was learned over
    /// it.
    pub book: Option<Book>,
    /// The book that was read.
    pub book_base: Option<Book>,
    pub book_rand: u64,
    /// What was learned from games.
    pub learned: Book,
    pub solver_nodes: u64,
    pub progress: Progress,
}

/// The value of a finished game.
pub open spec fn finished_value(b: Board) -> int {
    100 * final_score_of(b)
}

/// What evaluating a position gives, by a search from the state `s`: of a
/// finished game its result, of a position that is solved the result of best
/// play, unless the solve was stopped, and of others what a search to `depth`
/// finds, which is not exact.
pub open spec fn is_evaluation<E: LeafEval>(
    s: NnueSearch,
    e: E,
    b: Board,
    depth: u32,
    solve_empties: int,
    m: MoveEval,
) -> bool {
    if b.finished() {
        m == MoveEval::plain(None, finished_value(b), true)
    } else if b.empty_count <= solve_empties {
        if m.exact {
            &&& m == MoveEval::plain(m.pos, 100 * result_of(b), true)
            &&& m.pos is Some == b.can_move()
            &&& m.pos matches Some(p) ==> p.wf() && b.legal(p.0 as int) && move_result(
                b,
                p.0 as int,
            ) == result_of(b)
        } else {
            m == MoveEval::plain(None, 0, false)
        }
    } else {
        exists|d: Deepened| #[trigger]
            found(s, e, b, depth, d) && m == MoveEval::plain(
                d.best_move,
                stone_or_zero(d.value, 1),
                false,
            )
    }
}

/// How moves are scored: exactly where at most `limit` squares are empty after
/// them, by a search to `depth` where more are.
pub struct Scoring<E> {
    pub search: NnueSearch,
    pub evaluator: E,
    pub limit: int,
    pub depth: u32,
    /// The depth that was reached is told.
    pub counted: bool,
}

impl<E: LeafEval> Scoring<E> {
    /// What scoring a move gives, from the mover's side: the result of best
    /// play where it is scored exactly; else what a search on an empty table
    /// finds.
    pub open spec fn gives(self, b: Board, p: Position, m: MoveEval) -> bool {
        let child = b.after(p.0 as int);
        if child.finished() {
            m == MoveEval::plain(Some(p), -finished_value(child), true)
        } else if child.empty_count <= self.limit {
            m == MoveEval::plain(Some(p), 100 * move_result(b, p.0 as int), true)
        } else {
            exists|s: NnueSearch, d: Deepened| #[trigger]
                found(s, self.evaluator, child, self.depth, d) && s.blank() && s.same_setting(
                    self.search,
                ) && m == (MoveEval {
                    depth: if self.counted && d.depth < u32::MAX {
                        (d.depth + 1) as u32
                    } else {
                        0
                    },
                    ..MoveEval::plain(Some(p), stone_or_zero(d.value, -1), false)
                })
        }
    }
}

/// A move that was scored exactly stays as it is in later passes.
pub proof fn law_solved_moves_stay<E: LeafEval>(
    first: Scoring<E>,
    later: Scoring<E>,
    b: Board,
    p: Position,
    m: MoveEval,
    n: MoveEval,
)
    requires
        first.limit <= later.limit,
        first.gives(b, p, m),
        later.gives(b, p, n),
        m.exact,
    ensures
        n == m,
{
}

/// Only the settings of the search matter.
proof fn lemma_same_scoring<E: LeafEval>(
    first: Scoring<E>,
    other: Scoring<E>,
    b: Board,
    p: Position,
    m: MoveEval,
)
    requires
        first.search.same_setting(other.search),
        other == (Scoring { search: other.search, ..first }),
        first.gives(b, p, m),
    ensures
        other.gives(b, p, m),
{
    let child = b.after(p.0 as int);
    if !child.finished() && child.empty_count > first.limit {
        let (s, d) = choose|s: NnueSearch, d: Deepened| #[trigger]
            found(s, first.evaluator, child, first.depth, d) && s.blank() && s.same_setting(
                first.search,
            ) && m == (MoveEval {
                depth: if first.counted && d.depth < u32::MAX {
                    (d.depth + 1) as u32
                } else {
                    0
                },
                ..MoveEval::plain(Some(p), stone_or_zero(d.value, -1), false)
            });
        assert(found(s, other.evaluator, child, other.depth, d));
    }
}

/// The first moves of a position, scored in their order on the board.
pub open spec fn scores_first<E: LeafEval>(
    how: Scoring<E>,
    b: Board,
    marks: Seq<(Position, MoveEval)>,
) -> bool {
    &&& marks.len() <= squares(b.moves()).len()
    &&& forall|i: int|
        0 <= i < marks.len() ==> (#[trigger] marks[i]).0.0 == squares(b.moves())[i] && how.gives(
            b,
            marks[i].0,
            marks[i].1,
        )
}

/// The list holds the scored moves by their values, the highest first, and moves
/// of equal value in their order on the board.
pub open spec fn by_value(
    marks: Seq<(Position, MoveEval)>,
    out: Seq<(Position, MoveEval)>,
) -> bool {
    let keys = Seq::new(marks.len(), |i: int| (-(marks[i].1.value as int)) as i64);
    exists|order: Seq<usize>| #[trigger]
        is_stable_order(keys, order, marks.len() as int) && out == Seq::new(
            order.len(),
            |i: int| marks[order[i] as int],
        )
}

/// The scored moves by their values, the highest first.
pub fn sorted_by_value(marks: Vec<(Position, MoveEval)>) -> (out: Vec<(Position, MoveEval)>)
    requires
        forall|i: int| 0 <= i < marks@.len() ==> (#[trigger] marks@[i]).1.value > i32::MIN,
    ensures
        by_value(marks@, out@),
        out@.len() == marks@.len(),
{
    let mut keys: Vec<i64> = Vec::new();
    let n: usize = marks.len();
    let ghost meant = Seq::new(marks@.len(), |i: int| (-(marks@[i].1.value as int)) as i64);
    let mut i: usize = 0;
    while i < n
        invariant
            n == marks@.len(),
            meant == Seq::new(marks@.len(), |i: int| (-(marks@[i].1.value as int)) as i64),
            i <= n,
            keys@ == meant.take(i as int),
        decreases n - i,
    {
        keys.push(-(marks[i].1.value as i64));
        i = i + 1;
        assert(keys@ =~= meant.take(i as int));
    }
    assert(meant.take(n as int) =~= meant);
    let order: Vec<usize> = stable_order(&keys);
    let mut out: Vec<(Position, MoveEval)> = Vec::new();
    let mut j: usize = 0;
    while j < n
        invariant
            n == marks@.len(),
            order@.len() == n,
            forall|k: int| 0 <= k < n ==> #[trigger] order@[k] < n,
            j <= n,
            out@.len() == j,
            forall|k: int| 0 <= k < j ==> #[trigger] out@[k] == marks@[order@[k] as int],
        decreases n - j,
    {
        out.push(marks[order[j]]);
        j = j + 1;
    }
    assert(out@ =~= Seq::new(order@.len(), |i: int| marks@[order@[i] as int]));
    assert(is_stable_order(meant, order@, marks@.len() as int));
    out
}

impl<E: LeafEval> Engine<E> {
    /// The parts fit together.
    pub open spec fn wf(self) -> bool {
        &&& self.evaluator.valid()
        &&& self.search.wf()
        &&& book_wf(self.book)
        &&& book_wf(self.book_base)
        &&& self.learned.wf()
    }

    /// Settings, books and evaluation are the same.
    pub open spec fn same_setup(self, other: Engine<E>) -> bool {
        &&& self.evaluator == other.evaluator
        &&& self.config == other.config
        &&& self.book == other.book
        &&& self.book_base == other.book_base
        &&& self.book_rand == other.book_rand
        &&& self.learned == other.learned
        &&& self.stop == other.stop
        &&& self.solver.stop == other.solver.stop
        &&& self.search.same_setting(other.search)
    }

    /// How this engine scores moves.
    pub open spec fn scoring(self, limit: int, depth: u32, counted: bool) -> Scoring<E> {
        Scoring { search: self.search, evaluator: self.evaluator, limit, depth, counted }
    }

    /// An engine over an evaluation, a search and books. `base` is the book as
    /// it was read, `book` another copy of it.
    pub fn new(
        evaluator: E,
        search: NnueSearch,
        config: EngineConfig,
        book: Option<Book>,
        base: Option<Book>,
        learned: Book,
        seed: u64,
    ) -> (e: Engine<E>)
        requires
            evaluator.valid(),
            search.wf(),
            book_wf(book),
            book_wf(base),
            learned.wf(),
        ensures
            e.wf(),
            e.evaluator == evaluator,
            e.config == config,
            e.search == (NnueSearch { mpc: config.mpc, stop: Some(e.stop), ..search }),
            e.solver.stop == Some(e.stop),
            e.learned == learned,
            pages(e.book) == whole_book(pages(book), learned@),
            pages(e.book_base) == match pages(base) {
                Some(m) => filled(m),
                None => None,
            },
            e.book_rand == seed | 1,
            e.solver_nodes == 0,
    {
        let stop: StopHandle = StopHandle::new();
        let mut search: NnueSearch = search;
        search.mpc = config.mpc;
        search.stop = Some(StopHandle(stop.0.clone()));
        let mut solver: Solver = Solver::new();
        solver.set_stop(Some(StopHandle(stop.0.clone())));
        let book: Option<Book> = joined_books(book, &learned);
        let book_base: Option<Book> = filled_book(base);
        Engine {
            evaluator,
            search,
            solver,
            config,
            stop,
            book,
            book_base,
            book_rand: seed | 1,
            learned,
            solver_nodes: 0,
            progress: Progress::new(),
        }
    }

    /// The settings.
    pub fn config(&self) -> (c: &EngineConfig)
        ensures
            *c == self.config,
    {
        &self.config
    }

    /// Nodes of all searches and solves so far.
    pub fn nodes(&self) -> (n: u64)
        ensures
            n == self.search.nodes.wrapping_add(self.solver_nodes),
    {
        self.search.nodes.wrapping_add(self.solver_nodes)
    }

    /// Positions in the book that is played from.
    pub fn book_size(&self) -> (n: usize)
        ensures
            n == match self.book {
                Some(b) => b.entries@.len(),
                None => 0,
            },
    {
        match &self.book {
            Some(b) => b.len(),
            None => 0,
        }
    }

    /// Learned positions.
    pub fn learned_size(&self) -> (n: usize)
        ensures
            n == self.learned.entries@.len(),
    {
        self.learned.len()
    }

    /// There is a book.
    pub fn has_book(&self) -> (yes: bool)
        ensures
            yes == (self.book is Some),
    {
        self.book.is_some()
    }

    /// The flag by which searches are stopped from outside. What a stopped
    /// search gives is not to be used.
    pub fn stop_handle(&self) -> (h: StopHandle)
        ensures
            h == self.stop,
    {
        StopHandle(self.stop.0.clone())
    }

    /// What the engine is doing.
    pub fn progress(&self) -> (p: Progress)
        ensures
            p == self.progress,
    {
        self.progress
    }

    /// Consult the book or not.
    pub fn set_use_book(&mut self, on: bool)
        ensures
            *final(self) == (Engine {
                config: EngineConfig { use_book: on, ..old(self).config },
                ..*old(self)
            }),
    {
        self.config.use_book = on;
    }

    /// Set the depth, the empty squares from which positions are solved, and
    /// how many more are solved without counting as exact.
    pub fn set_levels(&mut self, depth: u32, solve_empties: u8, band: u8)
        ensures
            *final(self) == (Engine {
                config: EngineConfig { depth, solve_empties, band, ..old(self).config },
                ..*old(self)
            }),
    {
        self.config.depth = depth;
        self.config.solve_empties = solve_empties;
        self.config.band = band;
    }

    /// Set the thread count, at least one.
    pub fn set_threads(&mut self, n: usize)
        ensures
            *final(self) == (Engine {
                config: EngineConfig {
                    threads: if n == 0 {
                        1
                    } else {
                        n
                    },
                    ..old(self).config
                },
                ..*old(self)
            }),
    {
        self.config.threads = if n == 0 {
            1
        } else {
            n
        };
    }

    /// Have a move tried first when the position is searched.
    pub fn hint_move(&mut self, board: &Board, pos: Position)
        requires
            old(self).wf(),
        ensures
            final(self).wf(),
            final(self).same_setup(*old(self)),
            final(self).search.tt.bucket(view_hash(*board)) == seeded(
                old(self).search.tt.bucket(view_hash(*board)),
                view_hash(*board),
                pos.0,
            ),
            ({
                let (before, after) = (old(self).search.tt, final(self).search.tt);
                let base = before.base(view_hash(*board));
                &&& after.mask == before.mask
                &&& after.slots@.len() == before.slots@.len()
                &&& forall|k: int|
                    0 <= k < before.slots@.len() && !(base <= k < base + 4)
                        ==> #[trigger] after.slots@[k] == before.slots@[k]
            }),
            *final(self) == (Engine {
                search: NnueSearch { tt: final(self).search.tt, ..old(self).search },
                ..*old(self)
            }),
    {
        let h: u64 = board_hash(board.player_bb(), board.opponent_bb());
        self.search.tt.seed_move(h, pos.index());
    }

    /// The move that the table holds for a position.
    pub fn tt_best(&self, board: &Board) -> (m: Option<Position>)
        requires
            self.wf(),
        ensures
            m == self.remembered(*board),
    {
        let h: u64 = board_hash(board.player_bb(), board.opponent_bb());
        match self.search.tt.best_move(h) {
            Some(i) => Position::from_index(i as u32),
            None => None,
        }
    }

    /// The move that the table holds for a position.
    pub open spec fn remembered(self, b: Board) -> Option<Position> {
        let t = self.search.tt.entry(view_hash(b));
        if t.used && t.best < 64 {
            Some(Position(t.best))
        } else {
            None
        }
    }

    /// Forget every searched position.
    pub fn clear_tables(&mut self)
        requires
            old(self).wf(),
        ensures
            final(self).wf(),
            final(self).same_setup(*old(self)),
            final(self).search.blank(),
    {
        self.search.clear();
    }

    /// The candidates of a position with their values, where the book is
    /// consulted.
    pub fn book_hints(&self, board: &Board) -> (r: Option<Vec<(Position, i32)>>)
        requires
            self.wf(),
        ensures
            r is Some == (self.config.use_book && (pages(self.book) matches Some(m) && entry_for(
                m,
                *board,
            ) is Some)),
            r matches Some(v) ==> shows_candidates(
                entry_for(pages(self.book)->Some_0, *board)->Some_0,
                *board,
                v@,
            ),
    {
        if !self.config.use_book {
            return None;
        }
        match &self.book {
            Some(b) => b.candidates(board),
            None => None,
        }
    }

    /// The candidates of a position, and whether it was learned, whether the
    /// book is consulted or not.
    pub fn book_node(&self, board: &Board) -> (r: Option<(Vec<BookCandidate>, bool)>)
        requires
            self.wf(),
        ensures
            r is Some == (pages(self.book) matches Some(m) && entry_for(m, *board) is Some),
            r matches Some((v, learned)) ==> {
                let e = entry_for(pages(self.book)->Some_0, *board)->Some_0;
                &&& learned == (entry_for(self.learned@, *board) is Some)
                &&& v@.len() == e.moves.len()
                &&& forall|i: int|
                    0 <= i < v@.len() ==> (#[trigger] v@[i]) == (BookCandidate {
                        pos: shown(e.moves[i], *board),
                        value: e.moves[i].value,
                        games: e.moves[i].games,
                    })
            },
    {
        match &self.book {
            None => None,
            Some(b) => match b.candidates_detailed(board) {
                None => None,
                Some(v) => Some((v, self.learned.has(board))),
            },
        }
    }

    /// The best value of a position of the book, and whether it was learned,
    /// where the book is consulted.
    pub fn book_value(&self, board: &Board) -> (r: Option<(i32, bool)>)
        requires
            self.wf(),
        ensures
            r == if self.config.use_book {
                match pages(self.book) {
                    Some(m) => match entry_for(m, *board) {
                        Some(e) => Some(
                            (
                                highest(e, e.moves.len() as int) as i32,
                                entry_for(self.learned@, *board) is Some,
                            ),
                        ),
                        None => None,
                    },
                    None => None,
                }
            } else {
                None
            },
    {
        match self.book_hints(board) {
            None => None,
            Some(v) => {
                let ghost e = entry_for(pages(self.book)->Some_0, *board)->Some_0;
                let best: i32 = best_hint(&v, Ghost(e), Ghost(*board));
                Some((best, self.learned.has(board)))
            },
        }
    }

    /// The best value of a position in the book that was read, where the book
    /// is consulted.
    pub fn book_base_value(&self, board: &Board) -> (r: Option<i32>)
        requires
            self.wf(),
        ensures
            r == if self.config.use_book {
                match pages(self.book_base) {
                    Some(m) => match entry_for(m, *board) {
                        Some(e) => Some(highest(e, e.moves.len() as int) as i32),
                        None => None,
                    },
                    None => None,
                }
            } else {
                None
            },
    {
        if !self.config.use_book {
            return None;
        }
        match &self.book_base {
            None => None,
            Some(b) => match b.candidates(board) {
                None => None,
                Some(v) => {
                    let ghost e = entry_for(b@, *board)->Some_0;
                    Some(best_hint(&v, Ghost(e), Ghost(*board)))
                },
            },
        }
    }

    /// The best value of a position of the book, whether it was learned, and
    /// the depth behind it.
    pub fn book_entry(&self, board: &Board) -> (r: Option<(i32, bool, u8)>)
        requires
            self.wf(),
        ensures
            r == match pages(self.book) {
                Some(m) => match probed(m, *board) {
                    Some((p, value, depth)) => Some(
                        (value, entry_for(self.learned@, *board) is Some, depth),
                    ),
                    None => None,
                },
                None => None,
            },
    {
        match &self.book {
            None => None,
            Some(b) => match b.probe(board) {
                None => None,
                Some((_, value, depth)) => Some((value, self.learned.has(board), depth)),
            },
        }
    }

    /// The book is consulted for moves.
    pub open spec fn consults(self) -> bool {
        self.config.use_book && self.book is Some
    }

    /// The number for picks after a move was planned.
    pub open spec fn rand_after(self) -> u64 {
        if self.consults() && self.config.book_tolerance > 0 {
            next_rand(self.book_rand)
        } else {
            self.book_rand
        }
    }

    /// The move that the book gives.
    pub open spec fn book_answer(self, b: Board) -> Option<(Position, i32, u8)> {
        if !self.consults() {
            None
        } else if self.config.book_tolerance > 0 {
            varied(
                pages(self.book)->Some_0,
                b,
                self.config.book_tolerance,
                self.rand_after() >> 11,
            )
        } else {
            probed(pages(self.book)->Some_0, b)
        }
    }

    /// What a position calls for: a move of the book; the result of a finished
    /// game; a solve where few squares are empty; one that need not be exact
    /// where not many more are; else a midgame search.
    pub open spec fn planned(self, b: Board) -> Plan {
        match self.book_answer(b) {
            Some((pos, value, depth)) => Plan::Answer(
                MoveEval {
                    pos: Some(pos),
                    value,
                    exact: false,
                    from_book: true,
                    learned: entry_for(self.learned@, b) is Some,
                    depth: 0,
                    cut: false,
                },
            ),
            None => if b.finished() {
                Plan::Answer(MoveEval::plain(None, finished_value(b), true))
            } else if b.empty_count <= self.config.solve_empties {
                Plan::Solve
            } else {
                match band(
                    b.empty_count as int,
                    self.config.solve_empties as int,
                    self.config.band as int,
                ) {
                    Some(t) => Plan::Select(t),
                    None => Plan::Search,
                }
            },
        }
    }

    /// Find out what a position calls for.
    pub fn plan(&mut self, board: &Board) -> (p: Plan)
        requires
            old(self).wf(),
            board.wf(),
        ensures
            old(self).stop.stored(false),
            p == old(self).planned(*board),
            *final(self) == (Engine {
                book_rand: old(self).rand_after(),
                progress: Progress { kind: 1, ..Progress::idle() },
                ..*old(self)
            }),
    {
        self.stop.reset();
        self.progress.clear();
        self.progress.set_kind(Progress::THINK);
        let hit: Option<(Position, i32, u8)> = match &self.book {
            None => None,
            Some(b) => if !self.config.use_book {
                None
            } else if self.config.book_tolerance > 0 {
                self.book_rand = self.book_rand.wrapping_mul(6364136223846793005).wrapping_add(
                    1442695040888963407,
                );
                b.probe_varied(board, self.config.book_tolerance, self.book_rand >> 11)
            } else {
                b.probe(board)
            },
        };
        if let Some((pos, value, _)) = hit {
            return Plan::Answer(
                MoveEval {
                    pos: Some(pos),
                    value,
                    exact: false,
                    from_book: true,
                    learned: self.learned.has(board),
                    depth: 0,
                    cut: false,
                },
            );
        }
        if board.is_game_over() {
            proof {
                lemma_final_score(*board);
            }
            return Plan::Answer(MoveEval::bare(None, final_score(board) * 100, true));
        }
        if board.empty_count() <= self.config.solve_empties {
            return Plan::Solve;
        }
        match selective_band(board.empty_count(), self.config.solve_empties, self.config.band) {
            Some(t) => Plan::Select(t),
            None => Plan::Search,
        }
    }

    /// The move that is kept for the case that a solve runs out of time.
    pub fn backup(&mut self, board: &Board) -> (d: Deepened)
        requires
            old(self).wf(),
            board.wf(),
        ensures
            final(self).wf(),
            final(self).same_setup(*old(self)),
            final(self).progress == old(self).progress,
            found(old(self).search, old(self).evaluator, *board, BACKUP_DEPTH, d),
            d.depth == BACKUP_DEPTH || d.depth == 0 ==> final(self).search.picks(
                old(self).evaluator,
                *board,
                d.best_move,
            ),
    {
        self.search.best_move_valued(&self.evaluator, board, BACKUP_DEPTH)
    }

    /// Solve a position; there is no result when the solve was stopped.
    pub fn run_solve(&mut self, board: &Board) -> (r: Option<EndSolverResult>)
        requires
            old(self).wf(),
            board.wf(),
        ensures
            final(self).wf(),
            final(self).same_setup(*old(self)),
            final(self).search == old(self).search,
            final(self).progress == (Progress { kind: 3, ..old(self).progress }),
            r matches Some(s) ==> is_solution(*board, s),
            old(self).solver.stop is None ==> r is Some,
            r is None ==> raised(old(self).solver.stop),
            r is Some ==> lowered(old(self).solver.stop),
            r matches Some(s) ==> final(self).solver_nodes == old(self).solver_nodes.wrapping_add(
                s.nodes,
            ),
            r is None ==> final(self).solver_nodes == old(self).solver_nodes.wrapping_add(
                final(self).solver.nodes,
            ),
    {
        self.progress.set_kind(Progress::SOLVE);
        self.solve_counted(board)
    }

    /// Solve a position that need not be solved exactly; there is no result
    /// when the solve was stopped.
    pub fn run_select(&mut self, board: &Board) -> (r: Option<EndSolverResult>)
        requires
            old(self).wf(),
            board.wf(),
        ensures
            final(self).wf(),
            final(self).same_setup(*old(self)),
            final(self).search == old(self).search,
            final(self).progress == (Progress { kind: 4, ..old(self).progress }),
            r matches Some(s) ==> is_solution(*board, s),
            old(self).solver.stop is None ==> r is Some,
            r is None ==> raised(old(self).solver.stop),
            r is Some ==> lowered(old(self).solver.stop),
            r matches Some(s) ==> final(self).solver_nodes == old(self).solver_nodes.wrapping_add(
                s.nodes,
            ),
            r is None ==> final(self).solver_nodes == old(self).solver_nodes.wrapping_add(
                final(self).solver.nodes,
            ),
    {
        self.progress.set_kind(Progress::SELECT);
        self.solve_counted(board)
    }

    /// Solve a position and count its nodes.
    fn solve_counted(&mut self, board: &Board) -> (r: Option<EndSolverResult>)
        requires
            old(self).wf(),
            board.wf(),
        ensures
            *final(self) == (Engine {
                solver: final(self).solver,
                solver_nodes: final(self).solver_nodes,
                ..*old(self)
            }),
            final(self).solver.stop == old(self).solver.stop,
            r matches Some(s) ==> is_solution(*board, s),
            old(self).solver.stop is None ==> r is Some,
            r is None ==> raised(old(self).solver.stop),
            r is Some ==> lowered(old(self).solver.stop),
            r matches Some(s) ==> final(self).solver_nodes == old(self).solver_nodes.wrapping_add(
                s.nodes,
            ),
            r is None ==> final(self).solver_nodes == old(self).solver_nodes.wrapping_add(
                final(self).solver.nodes,
            ),
    {
        let r: Option<EndSolverResult> = self.solver.solve_until(EndSolverMode::Perfect, board);
        match r {
            Some(s) => {
                self.solver_nodes = self.solver_nodes.wrapping_add(s.nodes);
            },
            None => {
                self.solver_nodes = self.solver_nodes.wrapping_add(self.solver.nodes);
            },
        }
        r
    }

    /// Search a position to the depth of the settings.
    pub fn run_search(&mut self, board: &Board) -> (d: Deepened)
        requires
            old(self).wf(),
            board.wf(),
        ensures
            final(self).wf(),
            final(self).same_setup(*old(self)),
            found(old(self).search, old(self).evaluator, *board, old(self).config.depth, d),
            final(self).progress == progress_after(old(self).progress, d),
            d.depth == old(self).config.depth || d.depth == 0 ==> final(self).search.picks(
                old(self).evaluator,
                *board,
                d.best_move,
            ),
    {
        let d: Deepened = self.search.best_move_valued(&self.evaluator, board, self.config.depth);
        if d.depth > 0 {
            self.progress.reached(d.depth, d.best_move, d.value);
        }
        d
    }

    /// What is chosen in a position: what the plan calls for.
    pub open spec fn chooses(self, b: Board, m: MoveEval) -> bool {
        match self.planned(b) {
            Plan::Answer(a) => m == a,
            Plan::Solve => exists|r: Option<EndSolverResult>|
                self.solves(b, r) && m == #[trigger] solve_answer(r, false, None),
            Plan::Select(t) => exists|r: Option<EndSolverResult>|
                self.solves(b, r) && m == #[trigger] select_answer(r, false, None),
            Plan::Search => exists|d: Deepened| #[trigger]
                found(self.search, self.evaluator, b, self.config.depth, d) && m == search_answer(
                    d,
                    false,
                ),
        }
    }

    /// What a solve comes to: a solution, unless the flag was seen up.
    pub open spec fn solves(self, b: Board, r: Option<EndSolverResult>) -> bool {
        solve_gives(self.solver.stop, b, r)
    }

    /// Choose a move for as long as it takes: from the book, by a solve, or by
    /// a search. An exact value is the result of best play, and the move reaches
    /// it; a solve that is stopped from outside gives no move.
    pub fn choose_move(&mut self, board: &Board) -> (m: MoveEval)
        requires
            old(self).wf(),
            board.wf(),
        ensures
            final(self).wf(),
            final(self).same_setup((Engine { book_rand: old(self).rand_after(), ..*old(self) })),
            old(self).stop.stored(false),
            old(self).chooses(*board, m),
            m.exact ==> m.value == 100 * result_of(*board),
            old(self).planned(*board) == Plan::Search && (m.depth == old(self).config.depth || m.depth
                == 0) ==> final(self).search.picks(old(self).evaluator, *board, m.pos),
    {
        proof {
            if board.finished() {
                law_finished_result(*board);
                lemma_final_score(*board);
            }
        }
        match self.plan(board) {
            Plan::Answer(a) => a,
            Plan::Solve => {
                let r: Option<EndSolverResult> = self.run_solve(board);
                assert(old(self).solves(*board, r));
                finish_solve(board, r, false, None)
            },
            Plan::Select(_) => {
                let r: Option<EndSolverResult> = self.run_select(board);
                assert(old(self).solves(*board, r));
                finish_select(board, r, false, None)
            },
            Plan::Search => {
                let d: Deepened = self.run_search(board);
                finish_search(d, false)
            },
        }
    }

    /// The position to think about in the opponent's time, after our move: the
    /// one after the reply that the table expects. There is none where the game
    /// is over, the opponent has to pass or no reply is known that can be made,
    /// nor where the position would be solved.
    pub fn ponder_start(&mut self, after: &Board) -> (r: Option<Board>)
        requires
            old(self).wf(),
            after.wf(),
        ensures
            r == old(self).pondered(*after),
            *final(self) == (Engine {
                progress: match old(self).expected(*after) {
                    Some(p) => Progress {
                        kind: 2,
                        flip: true,
                        best: p.0 as u32,
                        ..Progress::idle()
                    },
                    None => old(self).progress,
                },
                ..*old(self)
            }),
            r matches Some(b) ==> b.wf() && !b.finished(),
            r is Some ==> old(self).stop.stored(false),
    {
        if after.movable_count() == 0 {
            proof {
                lemma_no_moves(*after);
            }
            return None;
        }
        proof {
            lemma_no_moves(*after);
        }
        let pos: Position = match self.tt_best(after) {
            None => {
                return None;
            },
            Some(p) => p,
        };
        if !after.check(pos) {
            return None;
        }
        self.progress.clear();
        self.progress.set_kind(Progress::PONDER);
        self.progress.flip = true;
        self.progress.predict(pos);
        let mut child: Board = *after;
        proof {
            lemma_wf_sides(*after);
            lemma_after_wf(*after, pos.0 as int);
        }
        let _ = child.make_move_bits(pos);
        if child.is_game_over() {
            return None;
        }
        if child.empty_count() <= self.config.solve_empties {
            return None;
        }
        self.stop.reset();
        Some(child)
    }

    /// The reply that the opponent is expected to make.
    pub open spec fn expected(self, after: Board) -> Option<Position> {
        if !after.can_move() {
            None
        } else {
            match self.remembered(after) {
                Some(p) => if after.legal(p.0 as int) {
                    Some(p)
                } else {
                    None
                },
                None => None,
            }
        }
    }

    /// The position to think about in the opponent's time.
    pub open spec fn pondered(self, after: Board) -> Option<Board> {
        match self.expected(after) {
            Some(p) => {
                let child = after.after(p.0 as int);
                if child.finished() || child.empty_count <= self.config.solve_empties {
                    None
                } else {
                    Some(child)
                }
            },
            None => None,
        }
    }

    /// Evaluate a position: exactly where it is solved, by a search to `depth`
    /// where it is not.
    pub fn eval_position(&mut self, board: &Board, depth: u32) -> (m: MoveEval)
        requires
            old(self).wf(),
            board.wf(),
        ensures
            final(self).wf(),
            final(self).same_setup(*old(self)),
            old(self).stop.stored(false),
            is_evaluation(
                old(self).search,
                old(self).evaluator,
                *board,
                depth,
                old(self).config.solve_empties as int,
                m,
            ),
            board.empty_count <= old(self).config.solve_empties && old(self).solver.stop is None
                ==> m.exact,
            (board.finished() || board.empty_count <= old(self).config.solve_empties) && !raised(
                old(self).solver.stop,
            ) ==> m.exact,
            !board.finished() && board.empty_count > old(self).config.solve_empties && !raised(
                old(self).search.stop,
            ) ==> final(self).search.picks(old(self).evaluator, *board, m.pos),
            -6400 <= m.value <= 6400,
    {
        self.stop.reset();
        self.eval_position_inner(board, depth, self.config.solve_empties)
    }

    /// Evaluate a position; the stop flag stays as it is.
    fn eval_position_inner(&mut self, board: &Board, depth: u32, solve_empties: u8) -> (m: MoveEval)
        requires
            old(self).wf(),
            board.wf(),
        ensures
            final(self).wf(),
            final(self).same_setup(*old(self)),
            is_evaluation(
                old(self).search,
                old(self).evaluator,
                *board,
                depth,
                solve_empties as int,
                m,
            ),
            board.empty_count <= solve_empties && old(self).solver.stop is None ==> m.exact,
            (board.finished() || board.empty_count <= solve_empties) && !raised(old(self).solver.stop)
                ==> m.exact,
            !board.finished() && board.empty_count > solve_empties && !raised(old(self).search.stop)
                ==> final(self).search.picks(old(self).evaluator, *board, m.pos),
            -6400 <= m.value <= 6400,
    {
        proof {
            lemma_final_score(*board);
        }
        if board.is_game_over() {
            return MoveEval::bare(None, final_score(board) * 100, true);
        }
        if board.empty_count() <= solve_empties {
            proof {
                lemma_solved_bound(*board, false);
            }
            return match self.solver.solve_until(EndSolverMode::Perfect, board) {
                Some(s) => MoveEval::bare(s.best_move, stone_scale(s.value as i64 * 100), true),
                None => MoveEval::bare(None, 0, false),
            };
        }
        let d: Deepened = self.search.best_move_valued(&self.evaluator, board, depth);
        MoveEval::bare(d.best_move, stone_of(d.value, false), false)
    }

    /// Score a move: exactly where at most `limit` squares are empty after it,
    /// by a search to `depth` on an empty table where more are. There is no
    /// score when a solve was stopped.
    fn score_move(&mut self, board: &Board, pos: Position, limit: u32, depth: u32, counted: bool)
        -> (m: Option<MoveEval>)
        requires
            old(self).wf(),
            board.wf(),
            pos.wf(),
            board.legal(pos.0 as int),
        ensures
            final(self).wf(),
            final(self).same_setup(*old(self)),
            m matches Some(m) ==> old(self).scoring(limit as int, depth, counted).gives(
                *board,
                pos,
                m,
            ) && -6400 <= m.value <= 6400,
            old(self).scores(*board, pos, limit as int) ==> m is Some,
            m is None ==> raised(old(self).solver.stop),
    {
        let mut child: Board = *board;
        proof {
            lemma_wf_sides(*board);
            lemma_after_wf(*board, pos.0 as int);
        }
        let _ = child.make_move_bits(pos);
        proof {
            lemma_final_score(child);
            lemma_solved_bound(child, false);
        }
        if child.is_game_over() {
            return Some(MoveEval::bare(Some(pos), -(final_score(&child) * 100), true));
        }
        if child.empty_count() as u32 <= limit {
            return match self.solver.solve_until(EndSolverMode::Perfect, &child) {
                Some(s) => {
                    self.solver_nodes = self.solver_nodes.wrapping_add(s.nodes);
                    Some(MoveEval::bare(Some(pos), stone_scale(-(s.value as i64 * 100)), true))
                },
                None => None,
            };
        }
        self.search.clear();
        let ghost empty = self.search;
        let d: Deepened = self.search.best_move_valued(&self.evaluator, &child, depth);
        let mut m: MoveEval = MoveEval::bare(Some(pos), stone_of(d.value, true), false);
        if counted && d.depth < u32::MAX {
            m.depth = d.depth + 1;
        }
        proof {
            let how = old(self).scoring(limit as int, depth, counted);
            assert(found(empty, how.evaluator, board.after(pos.0 as int), how.depth, d));
            assert(how.gives(*board, pos, m));
        }
        Some(m)
    }

    /// Scoring the move cannot be stopped: no solve is needed, or none can be
    /// stopped.
    pub open spec fn scores(self, b: Board, p: Position, limit: int) -> bool {
        let child = b.after(p.0 as int);
        child.finished() || child.empty_count > limit || self.solver.stop is None
    }

    /// Score the next move of a position, in their order on the board, unless
    /// the stop flag was seen `up`; whether it was scored.
    pub fn mark_next(
        &mut self,
        board: &Board,
        marks: &mut Vec<(Position, MoveEval)>,
        limit: u32,
        depth: u32,
        counted: bool,
        up: bool,
    ) -> (done: bool)
        requires
            old(self).wf(),
            board.wf(),
            old(marks)@.len() < squares(board.moves()).len(),
        ensures
            final(self).wf(),
            final(self).same_setup(*old(self)),
            up ==> !done && *final(self) == *old(self),
            !done ==> final(marks)@ == old(marks)@,
            done ==> {
                let p = Position(squares(board.moves())[old(marks)@.len() as int]);
                &&& final(marks)@ == old(marks)@.push((p, final(marks)@.last().1))
                &&& old(self).scoring(limit as int, depth, counted).gives(
                    *board,
                    p,
                    final(marks)@.last().1,
                )
                &&& -6400 <= final(marks)@.last().1.value <= 6400
            },
            !up && old(self).scores(
                *board,
                Position(squares(board.moves())[old(marks)@.len() as int]),
                limit as int,
            ) ==> done,
            !up && !done ==> raised(old(self).solver.stop),
    {
        if up {
            return false;
        }
        let moves: u64 = board.movable();
        let list: Vec<u8> = iter_bits(moves);
        proof {
            lemma_squares(moves, 64);
            lemma_moves(*board);
        }
        let i: usize = marks.len();
        let pos: Position = Position(list[i]);
        assert(list@[i as int] < 64);
        match self.score_move(board, pos, limit, depth, counted) {
            None => false,
            Some(m) => {
                marks.push((pos, m));
                true
            },
        }
    }

    /// Score the moves of a position one after the other, until the stop flag
    /// is up.
    fn score_moves(&mut self, board: &Board, limit: u32, depth: u32, counted: bool) -> (r: (
        Vec<(Position, MoveEval)>,
        bool,
    ))
        requires
            old(self).wf(),
            board.wf(),
        ensures
            final(self).wf(),
            final(self).same_setup(*old(self)),
            scores_first(old(self).scoring(limit as int, depth, counted), *board, r.0@),
            forall|i: int| 0 <= i < r.0@.len() ==> (#[trigger] r.0@[i]).1.value > i32::MIN,
            !r.1 ==> r.0@.len() == squares(board.moves()).len(),
            !board.can_move() ==> !r.1,
            r.1 ==> r.0@.len() < squares(board.moves()).len() && old(self).interrupted(),
            r.0@.len() > 0 ==> old(self).stop.shows(false),
    {
        let n: usize = board.movable_count() as usize;
        proof {
            lemma_squares_len(board.moves(), 64);
            lemma_no_moves(*board);
        }
        let ghost how = old(self).scoring(limit as int, depth, counted);
        let mut marks: Vec<(Position, MoveEval)> = Vec::new();
        while marks.len() < n
            invariant
                self.wf(),
                self.same_setup(*old(self)),
                board.wf(),
                n == squares(board.moves()).len(),
                marks@.len() <= n,
                how == old(self).scoring(limit as int, depth, counted),
                scores_first(how, *board, marks@),
                forall|k: int| 0 <= k < marks@.len() ==> (#[trigger] marks@[k]).1.value > i32::MIN,
                n > 0 ==> board.can_move(),
                marks@.len() > 0 ==> old(self).stop.shows(false),
            decreases n - marks@.len(),
        {
            let ghost before = marks@;
            let ghost now = *self;
            let up: bool = self.stop.is_stopped();
            if !self.mark_next(board, &mut marks, limit, depth, counted, up) {
                return (marks, true);
            }
            proof {
                assert forall|k: int| 0 <= k < marks@.len() implies (#[trigger] marks@[k]).0.0
                    == squares(board.moves())[k] && how.gives(*board, marks@[k].0, marks@[k].1) by {
                    if k < before.len() {
                        assert(marks@[k] == before[k]);
                    } else {
                        lemma_same_scoring(
                            now.scoring(limit as int, depth, counted),
                            how,
                            *board,
                            marks@[k].0,
                            marks@[k].1,
                        );
                    }
                }
                assert forall|k: int| 0 <= k < marks@.len() implies (#[trigger] marks@[k]).1.value
                    > i32::MIN by {
                    if k < before.len() {
                        assert(marks@[k] == before[k]);
                    }
                }
            }
        }
        (marks, false)
    }

    /// The flag may have been seen up, by the analysis or by a solve.
    pub open spec fn interrupted(self) -> bool {
        self.stop.shows(true) || raised(self.solver.stop)
    }

    /// Score every move of a position, each under the same conditions: exactly
    /// where it is solved after it, and by a search of one ply less than `depth`
    /// where it is not. The best come first. When the stop flag is raised, those
    /// that were scored come back.
    pub fn analyze(&mut self, board: &Board, depth: u32) -> (out: Vec<(Position, MoveEval)>)
        requires
            old(self).wf(),
            board.wf(),
        ensures
            final(self).wf(),
            final(self).same_setup(*old(self)),
            old(self).stop.stored(false),
            exists|marks: Seq<(Position, MoveEval)>| #[trigger]
                scores_first(
                    old(self).scoring(
                        old(self).config.solve_empties as int,
                        child_depth(depth),
                        false,
                    ),
                    *board,
                    marks,
                ) && by_value(marks, out@),
            out@.len() < squares(board.moves()).len() ==> old(self).interrupted(),
            final(self).search.blank(),
            out@.len() > 0 ==> old(self).stop.shows(false),
    {
        self.stop.reset();
        let d: u32 = if depth <= 2 {
            1
        } else {
            depth - 1
        };
        let limit: u32 = self.config.solve_empties as u32;
        let (marks, _) = self.score_moves(board, limit, d, false);
        self.search.clear();
        let ghost list = marks@;
        assert(scores_first(old(self).scoring(limit as int, d, false), *board, list));
        sorted_by_value(marks)
    }

    /// One pass of an analysis that goes deeper and deeper: every move scored,
    /// exactly where at most `depth` squares are empty after it; and whether all
    /// are exact. There is none when the stop flag was raised before all moves
    /// were scored.
    pub fn analyze_pass(&mut self, board: &Board, depth: u32) -> (r: Option<
        (Vec<(Position, MoveEval)>, bool),
    >)
        requires
            old(self).wf(),
            board.wf(),
        ensures
            final(self).wf(),
            final(self).same_setup(*old(self)),
            r matches Some((out, all)) ==> exists|marks: Seq<(Position, MoveEval)>| #[trigger]
                scores_first(old(self).scoring(depth as int, depth, true), *board, marks)
                    && marks.len() == squares(board.moves()).len() && by_value(marks, out@) && all
                    == all_exact(marks, marks.len() as int),
            !board.can_move() ==> (r matches Some((out, all)) && out@.len() == 0 && all),
            r is None ==> old(self).interrupted(),
            r is None ==> final(self).search.blank(),
            r is Some && board.can_move() ==> old(self).stop.shows(false),
    {
        let (marks, stopped) = self.score_moves(board, depth, depth, true);
        if stopped {
            self.search.clear();
        }
        let ghost list = marks@;
        proof {
            assert(scores_first(old(self).scoring(depth as int, depth, true), *board, list));
            lemma_squares_len(board.moves(), 64);
            lemma_no_moves(*board);
        }
        finish_pass(marks, stopped)
    }

    /// Prepare the import of a game.
    pub fn learn_start(&self, start: Option<&str>, kifu: &str, learn_depth: u32) -> (r: Result<
        BackupJob,
        String,
    >)
        ensures
            exists|line: Result<(Line, Board), String>|
                (match start {
                    None => #[trigger] replay_view(line) == replay_text(Board::start(), kifu@),
                    Some(s) => exists|b: Result<Board, ParseError>| #[trigger]
                        reads_board(s@, b) && match b {
                            Ok(b) => replay_view(line) == replay_text(b, kifu@),
                            Err(e) => replay_view(line) == Err::<(Steps, Board), Seq<char>>(
                                "start position: "@ + e.words(),
                            ),
                        },
                }) && match replay_view(line) {
                    Err(e) => r matches Err(f) && f@ == e,
                    Ok((steps, end)) => if steps.len() == 0 {
                        r matches Err(f) && f@ == "empty game record"@
                    } else {
                        r matches Ok(j) && j.wf() && j.begins(
                            steps,
                            end,
                            if learn_depth > 255 {
                                255
                            } else {
                                learn_depth as u8
                            },
                        )
                    },
                },
    {
        let depth: u8 = if learn_depth > 255 {
            255
        } else {
            learn_depth as u8
        };
        BackupJob::new(start, kifu, depth)
    }

    /// Take an import one evaluation further; what it did comes back when it has
    /// finished. Positions are solved from fewer empty squares on than in play.
    pub fn learn_step(&mut self, job: &mut BackupJob, learn_depth: u32) -> (r: Option<
        BackupOutcome,
    >)
        requires
            old(self).wf(),
            old(job).wf(),
        ensures
            final(self).wf(),
            final(job).wf(),
            final(self).config == old(self).config,
            final(self).book_base == old(self).book_base,
            final(self).evaluator == old(self).evaluator,
            final(self).stop == old(self).stop,
            final(self).solver.stop == old(self).solver.stop,
            final(self).book_rand == old(self).book_rand,
            final(self).search.same_setting(old(self).search),
            old(self).stop.stored(false),
            ({
                let (step, after, (learned, base)) = old(job)@.advanced(
                    (old(self).learned@, pages_or_none(old(self).book)),
                );
                &&& final(self).learned@ == learned
                &&& pages(final(self).book) == filled(base)
                &&& match step {
                    StepView::Done(updated, added, changes) => {
                        &&& final(job)@ == after
                        &&& r matches Some(o) && o.updated == updated && o.added == added
                            && o.changes@ == changes
                    },
                    StepView::Search(b) => r is None && exists|m: MoveEval| #[trigger]
                        is_evaluation(
                            old(self).search,
                            old(self).evaluator,
                            b,
                            learn_depth,
                            learn_limit(old(self).config),
                            m,
                        ) && (!raised(old(self).solver.stop) && (b.finished() || b.empty_count
                            <= learn_limit(old(self).config)) ==> m.exact) && final(job)@ == after.fed(
                            m.value,
                        ),
                }
            }),
    {
        self.stop.reset();
        let mut book: Option<Book> = None;
        std::mem::swap(&mut book, &mut self.book);
        let mut base: Book = match book {
            Some(b) => b,
            None => Book::new(),
        };
        let mut learned: Book = Book::new();
        std::mem::swap(&mut learned, &mut self.learned);
        let step: JobStep = job.next(&mut learned, &mut base);
        self.book = filled_book(Some(base));
        self.learned = learned;
        match step {
            JobStep::Search(b) => {
                let limit: u8 = if self.config.solve_empties < LEARN_EMPTIES {
                    self.config.solve_empties
                } else {
                    LEARN_EMPTIES
                };
                let m: MoveEval = self.eval_position_inner(&b, learn_depth, limit);
                job.feed(m.value);
                proof {
                    let (step, after, books) = old(job)@.advanced(
                        (old(self).learned@, pages_or_none(old(self).book)),
                    );
                    assert(step == StepView::Search(b));
                    assert(is_evaluation(
                        old(self).search,
                        old(self).evaluator,
                        b,
                        learn_depth,
                        learn_limit(old(self).config),
                        m,
                    ));
                    assert(job@ == after.fed(m.value));
                }
                None
            },
            JobStep::Done(o) => Some(o),
        }
    }

    /// Take the import of a game back; how many moves were taken back. The book
    /// that is played from is not changed by this: read it anew.
    pub fn undo_learn(&mut self, start: Option<&str>, kifu: &str, changes: &Vec<BackupChange>)
        -> (r: Result<usize, String>)
        requires
            old(self).wf(),
            forall|i: int|
                0 <= i < changes@.len() ==> (#[trigger] changes@[i]).mv.wf() && (
                changes@[i].before matches Some(v) ==> v > i32::MIN),
        ensures
            final(self).wf(),
            *final(self) == (Engine { learned: final(self).learned, ..*old(self) }),
            exists|line: Result<(Line, Board), String>|
                (match start {
                    None => #[trigger] replay_view(line) == replay_text(Board::start(), kifu@),
                    Some(s) => exists|b: Result<Board, ParseError>| #[trigger]
                        reads_board(s@, b) && match b {
                            Ok(b) => replay_view(line) == replay_text(b, kifu@),
                            Err(e) => replay_view(line) == Err::<(Steps, Board), Seq<char>>(
                                "start position: "@ + e.words(),
                            ),
                        },
                }) && match replay_view(line) {
                    Err(e) => (r matches Err(f) && f@ == e) && final(self).learned@ == old(
                        self,
                    ).learned@,
                    Ok((steps, end)) => {
                        let u = undone(old(self).learned@, steps, changes@);
                        (r matches Ok(n) && n == u.1) && final(self).learned@ == u.0
                    },
                },
    {
        undo_backup(&mut self.learned, start, kifu, changes)
    }

    /// Play from a book that was read anew, with what was learned over it.
    pub fn rebuild_book(&mut self, read: Option<Book>)
        requires
            old(self).wf(),
            book_wf(read),
        ensures
            final(self).wf(),
            *final(self) == (Engine { book: final(self).book, ..*old(self) }),
            pages(final(self).book) == whole_book(pages(read), old(self).learned@),
    {
        self.book = joined_books(read, &self.learned);
    }
}

/// Empty squares from which an import has positions solved.
pub open spec fn learn_limit(c: EngineConfig) -> int {
    if c.solve_empties < LEARN_EMPTIES {
        c.solve_empties as int
    } else {
        LEARN_EMPTIES as int
    }
}

/// One ply less, at least one.
pub open spec fn child_depth(depth: u32) -> u32 {
    if depth <= 2 {
        1
    } else {
        (depth - 1) as u32
    }
}

/// The progress after a search.
pub open spec fn progress_after(p: Progress, d: Deepened) -> Progress {
    if d.depth > 0 {
        p.after(d.depth, d.best_move, d.value)
    } else {
        p
    }
}

/// Every one of the first `n` scores is exact.
pub open spec fn all_exact(marks: Seq<(Position, MoveEval)>, n: int) -> bool
    decreases n,
{
    n <= 0 || (all_exact(marks, n - 1) && marks[n - 1].1.exact)
}

/// The list shows the candidates of an entry.
pub open spec fn shows_candidates(e: EntryView, b: Board, v: Seq<(Position, i32)>) -> bool {
    &&& v.len() == e.moves.len()
    &&& forall|i: int|
        0 <= i < v.len() ==> (#[trigger] v[i]) == (shown(e.moves[i], b), e.moves[i].value)
}

/// The highest value of the first `n` candidates; the least number for none.
pub open spec fn highest(e: EntryView, n: int) -> int
    decreases n,
{
    if n <= 0 {
        i32::MIN as int
    } else {
        let before = highest(e, n - 1);
        if e.moves[n - 1].value > before {
            e.moves[n - 1].value as int
        } else {
            before
        }
    }
}

/// The highest value of the candidates.
fn best_hint(v: &Vec<(Position, i32)>, Ghost(e): Ghost<EntryView>, Ghost(b): Ghost<Board>) -> (best:
    i32)
    requires
        shows_candidates(e, b, v@),
    ensures
        best == highest(e, e.moves.len() as int),
{
    let mut best: i32 = i32::MIN;
    let mut i: usize = 0;
    while i < v.len()
        invariant
            shows_candidates(e, b, v@),
            i <= v@.len(),
            best == highest(e, i as int),
        decreases v@.len() - i,
    {
        assert(v@[i as int].1 == e.moves[i as int].value);
        if v[i].1 > best {
            best = v[i].1;
        }
        i = i + 1;
    }
    best
}

proof fn lemma_no_moves(b: Board)
    ensures
        count(b.moves()) == 0 <==> !b.can_move(),
{
    lemma_moves(b);
    lemma_count_zero(b.moves(), 64);
    if count(b.moves()) == 0 {
        assert forall|s: int| 0 <= s < 64 implies !b.legal(s) by {
            assert(!bit(b.moves(), s));
        }
    }
    if !b.can_move() {
        assert forall|s: int| 0 <= s < 64 implies !bit(b.moves(), s) by {
            assert(!b.legal(s));
        }
    }
}

/// The move that was kept, where time ran out and it is one.
pub open spec fn kept_move(cut: bool, backup: Option<Deepened>) -> Option<Deepened> {
    match backup {
        Some(d) => if cut && d.best_move is Some {
            Some(d)
        } else {
            None
        },
        None => None,
    }
}

/// The answer that the kept move gives.
pub open spec fn kept_answer(d: Deepened) -> MoveEval {
    MoveEval {
        pos: d.best_move,
        value: stone_or_zero(d.value, 1) as i32,
        exact: false,
        from_book: false,
        learned: false,
        depth: BACKUP_DEPTH,
        cut: true,
    }
}

/// The answer after a solve: the kept move where time ran out; else what was
/// solved.
pub open spec fn solve_answer(r: Option<EndSolverResult>, cut: bool, backup: Option<Deepened>) -> MoveEval {
    match kept_move(cut, backup) {
        Some(d) => kept_answer(d),
        None => match r {
            Some(s) => MoveEval::plain(s.best_move, stone(100 * s.value), !cut),
            None => MoveEval::plain(None, 0, false),
        },
    }
}

/// The answer after a solve that need not be exact.
pub open spec fn select_answer(
    r: Option<EndSolverResult>,
    cut: bool,
    backup: Option<Deepened>,
) -> MoveEval {
    MoveEval { exact: false, ..solve_answer(r, cut, backup) }
}

/// The answer after a midgame search.
pub open spec fn search_answer(d: Deepened, cut: bool) -> MoveEval {
    MoveEval {
        pos: d.best_move,
        value: stone_or_zero(d.value, 1) as i32,
        exact: false,
        from_book: false,
        learned: false,
        depth: d.depth,
        cut,
    }
}

/// The answer that the kept move gives.
fn answer_kept(d: &Deepened) -> (m: MoveEval)
    ensures
        m == kept_answer(*d),
{
    MoveEval {
        pos: d.best_move,
        value: stone_of(d.value, false),
        exact: false,
        from_book: false,
        learned: false,
        depth: BACKUP_DEPTH,
        cut: true,
    }
}

/// The answer after a solve; `cut` says that time ran out.
pub fn finish_solve(
    board: &Board,
    r: Option<EndSolverResult>,
    cut: bool,
    backup: Option<Deepened>,
) -> (m: MoveEval)
    requires
        board.wf(),
        r matches Some(s) ==> is_solution(*board, s),
    ensures
        m == solve_answer(r, cut, backup),
        m.exact ==> m.value == 100 * result_of(*board) && (m.pos is Some == board.can_move()) && (
        m.pos matches Some(p) ==> board.legal(p.0 as int) && move_result(*board, p.0 as int)
            == result_of(*board)),
{
    if cut {
        if let Some(d) = &backup {
            if d.best_move.is_some() {
                return answer_kept(d);
            }
        }
    }
    proof {
        lemma_solved_bound(*board, false);
    }
    match r {
        Some(s) => MoveEval::bare(s.best_move, stone_scale(s.value as i64 * 100), !cut),
        None => MoveEval::bare(None, 0, false),
    }
}

/// The answer after a solve that need not be exact; `cut` says that time ran
/// out.
pub fn finish_select(
    board: &Board,
    r: Option<EndSolverResult>,
    cut: bool,
    backup: Option<Deepened>,
) -> (m: MoveEval)
    requires
        board.wf(),
        r matches Some(s) ==> is_solution(*board, s),
    ensures
        m == select_answer(r, cut, backup),
{
    let mut m: MoveEval = finish_solve(board, r, cut, backup);
    m.exact = false;
    m
}

/// The answer after a midgame search; `cut` says that time ran out.
pub fn finish_search(d: Deepened, cut: bool) -> (m: MoveEval)
    ensures
        m == search_answer(d, cut),
{
    MoveEval {
        pos: d.best_move,
        value: stone_of(d.value, false),
        exact: false,
        from_book: false,
        learned: false,
        depth: d.depth,
        cut,
    }
}

/// What a pass of an analysis gives: the scored moves by their values, and
/// whether all are exact; nothing when it was stopped before all were scored.
pub fn finish_pass(marks: Vec<(Position, MoveEval)>, stopped: bool) -> (r: Option<
    (Vec<(Position, MoveEval)>, bool),
>)
    requires
        forall|i: int| 0 <= i < marks@.len() ==> (#[trigger] marks@[i]).1.value > i32::MIN,
    ensures
        r is None == stopped,
        r matches Some((out, all)) ==> by_value(marks@, out@) && out@.len() == marks@.len() && all
            == all_exact(marks@, marks@.len() as int),
{
    if stopped {
        return None;
    }
    let mut all: bool = true;
    let mut i: usize = 0;
    while i < marks.len()
        invariant
            i <= marks@.len(),
            all == all_exact(marks@, i as int),
        decreases marks@.len() - i,
    {
        if !marks[i].1.exact {
            all = false;
        }
        i = i + 1;
    }
    Some((sorted_by_value(marks), all))
}

/// The depth of the first pass of an analysis.
pub fn first_pass(from_depth: u32) -> (d: u32)
    ensures
        d == if from_depth > 1 {
            from_depth
        } else {
            1
        },
{
    if from_depth > 1 {
        from_depth
    } else {
        1
    }
}

/// The depth of the next pass of an analysis: one more, unless it is to end, all
/// moves are solved, or the depth is the last.
pub open spec fn pass_after(depth: u32, go_on: bool, all: bool) -> Option<u32> {
    if !go_on || all || depth >= 60 {
        None
    } else {
        Some((depth + 1) as u32)
    }
}

/// The depth of the next pass of an analysis: one more, unless it is to end, all
/// moves are solved, or the depth is the last.
pub fn next_pass(depth: u32, go_on: bool, all: bool) -> (d: Option<u32>)
    ensures
        d == pass_after(depth, go_on, all),
{
    if !go_on || all || depth >= 60 {
        None
    } else {
        Some(depth + 1)
    }
}

} // verus!
