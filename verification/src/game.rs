//! A game with its history: play, take back, play again, and the written
//! record of the moves.

use rand::rngs::StdRng;
use rand::Rng;
use vstd::prelude::*;
use vstd::string::*;
use vstd::utf8::*;

use crate::bitboard::{flips_at, lemma_playable_iff_flips};
use crate::bits::{bit, count, count_ones, group_bits, iter_bits, lemma_count_bound, lemma_count_or, lemma_squares, lemma_squares_len, squares, test_bit};
use crate::board::{Board, GameError, MoveError, ParseError, lemma_after_wf, lemma_moves, lemma_passed_wf, lemma_placed_hash, lemma_take_back, lemma_wf_sides, reads_board};
use crate::color::Color;
use crate::position::{Position, lemma_name_reads_back, not_a_square, square_named};
use crate::text::{decimal, digits_of, joined};
use crate::zobrist::{SWAP_PLAYER, compute_hash, hash_of, lemma_hash_after_pass, lemma_hash_tells_turn, update_hash_on_move, update_hash_on_pass};

verus! {

/// One step of a game: a disc placed, or a pass where there is no square.
#[derive(Debug, Clone, Copy)]
pub struct MoveRecord {
    pub pos: Option<Position>,
    /// The discs that were turned.
    pub flipped: u64,
    /// The hash before the step.
    pub hash: u64,
}

impl MoveRecord {
    /// The step can be taken in position `b`, and its record is right.
    pub open spec fn fits(self, b: Board) -> bool {
        &&& self.hash == b.zobrist()
        &&& match self.pos {
            Some(p) => p.wf() && b.legal(p.0 as int) && self.flipped == b.flips(p.0 as int),
            None => self.flipped == 0,
        }
    }

    /// The position after the step.
    pub open spec fn next(self, b: Board) -> Board {
        match self.pos {
            Some(p) => b.after(p.0 as int),
            None => b.passed(),
        }
    }

    /// The position before the step.
    pub open spec fn previous(self, b: Board) -> Board {
        match self.pos {
            Some(p) => b.taken_back(p.0 as int, self.flipped),
            None => b.passed(),
        }
    }

    /// The record of a disc placed in position `b`.
    pub open spec fn placing(b: Board, p: Position) -> MoveRecord {
        MoveRecord { pos: Some(p), flipped: b.flips(p.0 as int), hash: b.zobrist() }
    }

    /// The record of a pass in position `b`.
    pub open spec fn passing(b: Board) -> MoveRecord {
        MoveRecord { pos: None, flipped: 0, hash: b.zobrist() }
    }
}

/// The steps lead to position `b`, each legal where it was taken.
pub open spec fn past_fits(b: Board, steps: Seq<MoveRecord>) -> bool
    decreases steps.len(),
{
    steps.len() == 0 || {
        let before = steps.last().previous(b);
        &&& before.wf()
        &&& steps.last().fits(before)
        &&& steps.last().next(before) == b
        &&& past_fits(before, steps.drop_last())
    }
}

/// The steps undone, last one first, can be taken again from position `b`.
pub open spec fn future_fits(b: Board, steps: Seq<MoveRecord>) -> bool
    decreases steps.len(),
{
    steps.len() == 0 || (steps.last().fits(b) && future_fits(
        steps.last().next(b),
        steps.drop_last(),
    ))
}

/// The position from which the steps lead to `b`.
pub open spec fn origin(b: Board, steps: Seq<MoveRecord>) -> Board
    decreases steps.len(),
{
    if steps.len() == 0 {
        b
    } else {
        origin(steps.last().previous(b), steps.drop_last())
    }
}

/// A game, as far as its record goes.
pub struct Line {
    pub board: Board,
    pub history: Seq<MoveRecord>,
}

impl Line {
    /// The game at the standard start.
    pub open spec fn start() -> Line {
        Line { board: Board::start(), history: Seq::empty() }
    }

    /// The game after a disc on `p`.
    pub open spec fn played(self, p: Position) -> Line {
        Line {
            board: self.board.after(p.0 as int),
            history: self.history.push(MoveRecord::placing(self.board, p)),
        }
    }

    /// The game after a pass.
    pub open spec fn waited(self) -> Line {
        Line {
            board: self.board.passed(),
            history: self.history.push(MoveRecord::passing(self.board)),
        }
    }

    /// The game after the pass that a recorded move to `p` leaves out: the
    /// side to move has no move at all.
    pub open spec fn ready_for(self, p: Position) -> Line {
        if !self.board.legal(p.0 as int) && !self.board.can_move() {
            self.waited()
        } else {
            self
        }
    }
}

/// The record of the moves of a game: the names of the squares, passes left
/// out.
pub open spec fn kifu_of(steps: Seq<MoveRecord>) -> Seq<char>
    decreases steps.len(),
{
    if steps.len() == 0 {
        Seq::empty()
    } else {
        match steps.last().pos {
            Some(p) => kifu_of(steps.drop_last()) + p.name(),
            None => kifu_of(steps.drop_last()),
        }
    }
}

/// What is said of a recorded move that cannot be played.
pub open spec fn refusal(b: Board, p: Position, text: Seq<char>) -> Seq<char> {
    let why = if b.vacant(p.0 as int) {
        MoveError::NotPlayable
    } else {
        MoveError::Occupied
    };
    "invalid KIFU move "@ + text + ": "@ + why.words()
}

/// The game that results from playing a record from `l` on, or what is said
/// of the first entry that cannot be played.
pub open spec fn play_text(l: Line, text: Seq<char>) -> Result<Line, Seq<char>>
    decreases text.len(),
{
    if text.len() < 2 {
        Ok(l)
    } else {
        let name = text.take(2);
        match square_named(encode_utf8(name)) {
            None => Err("KIFU parse error: "@ + not_a_square(name)),
            Some(q) => {
                let p = Position(q);
                let m = l.ready_for(p);
                if m.board.legal(q as int) {
                    play_text(m.played(p), text.skip(2))
                } else {
                    Err(refusal(m.board, p, name))
                }
            },
        }
    }
}

/// The position after the first `n` steps from `start` on.
pub open spec fn replayed(start: Board, steps: Seq<MoveRecord>, n: nat) -> Board
    decreases n,
{
    if n == 0 {
        start
    } else {
        steps[n - 1].next(replayed(start, steps, (n - 1) as nat))
    }
}

/// A game.
pub struct Reversi {
    pub board: Board,
    pub history: Vec<MoveRecord>,
    /// Steps taken back, the last one taken back on top.
    pub redo_stack: Vec<MoveRecord>,
    pub hash: u64,
}

impl Reversi {
    /// Steps taken back, the last one taken back on top.
    pub open spec fn undone(self) -> Seq<MoveRecord> {
        self.redo_stack@
    }

    /// The game's record.
    pub open spec fn record(self) -> Line {
        Line { board: self.board, history: self.history@ }
    }

    /// The position is well-formed, the hash is the position's, the history
    /// leads to the position, and what was taken back can be played again.
    pub open spec fn wf(self) -> bool {
        &&& self.board.wf()
        &&& self.hash == self.board.zobrist()
        &&& past_fits(self.board, self.history@)
        &&& future_fits(self.board, self.undone())
    }

    /// A game that starts at the given position.
    pub open spec fn begins_at(self, b: Board) -> bool {
        &&& self.board == b
        &&& self.history@.len() == 0
        &&& self.undone().len() == 0
        &&& self.hash == b.zobrist()
    }

    /// A game from the standard start.
    pub fn new() -> (g: Reversi)
        ensures
            g.wf(),
            g.begins_at(Board::start()),
    {
        let board = Board::new();
        let hash: u64 = compute_hash(board.black, board.white, board.player());
        Reversi { board, history: Vec::new(), redo_stack: Vec::new(), hash }
    }

    /// A game from the position that a string shows.
    pub fn from_string(s: &str) -> (r: Result<Reversi, String>)
        ensures
            match r {
                Ok(g) => g.wf() && reads_board(s@, Ok(g.board)) && g.begins_at(g.board),
                Err(e) => exists|why: ParseError|
                    #[trigger] reads_board(s@, Err(why)) && e@ == "parse error: "@ + why.words(),
            },
    {
        match Board::from_string(s) {
            Ok(board) => {
                let hash: u64 = compute_hash(board.black, board.white, board.player());
                Ok(Reversi { board, history: Vec::new(), redo_stack: Vec::new(), hash })
            },
            Err(e) => Err(joined("parse error: ", e.name())),
        }
    }
}

/// A step that fits leads to a well-formed position from which it can be
/// taken back.
pub proof fn lemma_step(b: Board, step: MoveRecord)
    requires
        b.wf(),
        step.fits(b),
    ensures
        step.next(b).wf(),
        step.previous(step.next(b)) == b,
{
    match step.pos {
        Some(p) => {
            let s = p.0 as int;
            lemma_wf_sides(b);
            lemma_after_wf(b, s);
            lemma_take_back(b, s, b.flips(s));
        },
        None => {
            lemma_passed_wf(b);
        },
    }
}

/// Pushing a step that fits onto a history that fits.
pub proof fn lemma_past_push(b: Board, steps: Seq<MoveRecord>, step: MoveRecord)
    requires
        b.wf(),
        past_fits(b, steps),
        step.fits(b),
    ensures
        past_fits(step.next(b), steps.push(step)),
        origin(step.next(b), steps.push(step)) == origin(b, steps),
{
    lemma_step(b, step);
    assert(steps.push(step).drop_last() =~= steps);
}

/// Hash of the position after a step.
proof fn lemma_step_hash(b: Board, step: MoveRecord)
    requires
        b.wf(),
        step.fits(b),
    ensures
        match step.pos {
            Some(p) => crate::zobrist::hash_after(b.zobrist(), p.0, step.flipped, b.player)
                == step.next(b).zobrist(),
            None => b.zobrist() ^ SWAP_PLAYER == step.next(b).zobrist(),
        },
{
    match step.pos {
        Some(p) => {
            lemma_wf_sides(b);
            lemma_after_wf(b, p.0 as int);
            lemma_placed_hash(b, p.0 as int, step.flipped);
        },
        None => {
            lemma_hash_after_pass(b.black, b.white, b.player);
        },
    }
}

/// The positions of the squares of a set, in ascending order.
pub open spec fn positions_of(b: u64) -> Seq<Position> {
    squares(b).map_values(|s: u8| Position(s))
}

/// The positions of the squares of a set, in ascending order.
fn positions(b: u64) -> (v: Vec<Position>)
    ensures
        v@ == positions_of(b),
{
    let list: Vec<u8> = iter_bits(b);
    let mut v: Vec<Position> = Vec::new();
    let mut i: usize = 0;
    while i < list.len()
        invariant
            i <= list@.len(),
            list@ == squares(b),
            v@.len() == i,
            forall|k: int| 0 <= k < i ==> v@[k] == Position(list@[k]),
        decreases list@.len() - i,
    {
        v.push(Position(list[i]));
        i = i + 1;
    }
    assert(v@ =~= positions_of(b));
    v
}

impl Reversi {
    /// Play a move if it is legal; the turned squares come back in ascending
    /// order. What was taken back can no longer be played again.
    pub fn make_move(&mut self, pos: Position) -> (r: Result<Vec<Position>, MoveError>)
        requires
            old(self).wf(),
            pos.wf(),
        ensures
            final(self).wf(),
            match r {
                Ok(v) => {
                    &&& old(self).board.legal(pos.0 as int)
                    &&& v@ == positions_of(old(self).board.flips(pos.0 as int))
                    &&& final(self).record() == old(self).record().played(pos)
                    &&& final(self).undone().len() == 0
                },
                Err(e) => {
                    &&& !old(self).board.legal(pos.0 as int)
                    &&& *final(self) == *old(self)
                    &&& e == if old(self).board.vacant(pos.0 as int) {
                        MoveError::NotPlayable
                    } else {
                        MoveError::Occupied
                    }
                },
            },
    {
        broadcast use group_bits;

        proof {
            lemma_wf_sides(self.board);
        }
        if test_bit(self.board.black | self.board.white, pos.0) {
            return Err(MoveError::Occupied);
        }
        if !self.board.check(pos) {
            return Err(MoveError::NotPlayable);
        }
        let prev_hash: u64 = self.hash;
        let flipped: u64 = flips_at(self.board.player_bb(), self.board.opponent_bb(), pos.0);
        let step = MoveRecord { pos: Some(pos), flipped, hash: prev_hash };
        proof {
            lemma_past_push(self.board, self.history@, step);
            lemma_step_hash(self.board, step);
        }
        self.history.push(step);
        self.redo_stack.clear();
        let mover = self.board.player();
        self.board.make_move_unchecked(pos);
        self.hash = update_hash_on_move(prev_hash, pos, flipped, mover);
        Ok(positions(flipped))
    }

    /// Play a legal move.
    pub fn make_move_unchecked(&mut self, pos: Position)
        requires
            old(self).wf(),
            pos.wf(),
            old(self).board.legal(pos.0 as int),
        ensures
            final(self).wf(),
            final(self).record() == old(self).record().played(pos),
            final(self).undone().len() == 0,
    {
        let _r = self.make_move(pos);
    }

    /// Give the turn to the other side.
    pub fn pass(&mut self) -> (r: Result<(), GameError>)
        requires
            old(self).wf(),
        ensures
            r is Ok,
            final(self).wf(),
            final(self).record() == old(self).record().waited(),
            final(self).undone().len() == 0,
    {
        let prev_hash: u64 = self.hash;
        let step = MoveRecord { pos: None, flipped: 0, hash: prev_hash };
        proof {
            lemma_past_push(self.board, self.history@, step);
            lemma_step_hash(self.board, step);
        }
        self.history.push(step);
        self.redo_stack.clear();
        self.board.pass();
        self.hash = update_hash_on_pass(prev_hash);
        Ok(())
    }

    /// Take back the last step.
    pub fn undo(&mut self) -> (r: Result<(), GameError>)
        requires
            old(self).wf(),
        ensures
            final(self).wf(),
            match r {
                Ok(_) => {
                    &&& old(self).history@.len() > 0
                    &&& final(self).board == old(self).history@.last().previous(old(self).board)
                    &&& final(self).history@ == old(self).history@.drop_last()
                    &&& final(self).undone() == old(self).undone().push(old(self).history@.last())
                },
                Err(e) => old(self).history@.len() == 0 && *final(self) == *old(self) && e
                    == GameError::NoMoves,
            },
    {
        if self.history.is_empty() {
            return Err(GameError::NoMoves);
        }
        let step = self.history.pop().unwrap();
        self.hash = step.hash;
        if let Some(pos) = step.pos {
            self.board.undo_move(pos, step.flipped);
        } else {
            self.board.pass();
        }
        self.redo_stack.push(step);
        assert(self.undone().drop_last() =~= old(self).undone());
        Ok(())
    }

    /// Take the last step that was taken back again.
    pub fn redo(&mut self) -> (r: Result<(), GameError>)
        requires
            old(self).wf(),
        ensures
            final(self).wf(),
            match r {
                Ok(_) => {
                    &&& old(self).undone().len() > 0
                    &&& final(self).board == old(self).undone().last().next(old(self).board)
                    &&& final(self).history@ == old(self).history@.push(old(self).undone().last())
                    &&& final(self).undone() == old(self).undone().drop_last()
                },
                Err(e) => old(self).undone().len() == 0 && *final(self) == *old(self) && e
                    == GameError::NoMoves,
            },
    {
        if self.redo_stack.is_empty() {
            return Err(GameError::NoMoves);
        }
        let step = self.redo_stack.pop().unwrap();
        let prev_hash: u64 = self.hash;
        let mover = self.board.player();
        proof {
            lemma_wf_sides(self.board);
            lemma_past_push(self.board, self.history@, step);
            lemma_step(self.board, step);
            lemma_step_hash(self.board, step);
        }
        if let Some(pos) = step.pos {
            self.board.make_move_unchecked(pos);
            self.hash = update_hash_on_move(prev_hash, pos, step.flipped, mover);
        } else {
            self.board.pass();
            self.hash = update_hash_on_pass(prev_hash);
        }
        self.history.push(step);
        Ok(())
    }
}

impl Reversi {
    /// Every step of the game, those taken back too: the history, then what
    /// was taken back, in the order of play. `None` is a pass.
    pub fn line(&self) -> (v: Vec<Option<Position>>)
        ensures
            v@ == (self.history@ + self.undone().reverse()).map_values(|m: MoveRecord| m.pos),
    {
        let mut v: Vec<Option<Position>> = Vec::new();
        let n: usize = self.history.len();
        let mut i: usize = 0;
        let ghost all = self.history@ + self.undone().reverse();
        while i < n
            invariant
                n == self.history@.len(),
                all == self.history@ + self.undone().reverse(),
                i <= n,
                v@.len() == i,
                forall|k: int| 0 <= k < i ==> v@[k] == all[k].pos,
            decreases n - i,
        {
            v.push(self.history[i].pos);
            i = i + 1;
        }
        let m: usize = self.redo_stack.len();
        let mut j: usize = m;
        while j > 0
            invariant
                n == self.history@.len(),
                m == self.redo_stack@.len(),
                all == self.history@ + self.undone().reverse(),
                j <= m,
                v@.len() == n + (m - j),
                forall|k: int| 0 <= k < v@.len() ==> v@[k] == all[k].pos,
            decreases j,
        {
            j = j - 1;
            assert(all[n + (m - 1 - j)] == self.undone()[j as int]);
            v.push(self.redo_stack[j].pos);
        }
        assert(v@ =~= all.map_values(|m: MoveRecord| m.pos));
        v
    }

    /// The squares that the side to move may play.
    pub fn movable(&self) -> (m: u64)
        requires
            self.wf(),
        ensures
            m == self.board.moves(),
            forall|s: int| 0 <= s < 64 ==> #[trigger] bit(m, s) == self.board.legal(s),
            m == 0 <==> !self.board.can_move(),
    {
        self.board.movable()
    }

    /// How many squares the side to move may play.
    pub fn movable_count(&self) -> (n: u8)
        requires
            self.wf(),
        ensures
            n == count(self.board.moves()),
            n == 0 <==> !self.board.can_move(),
    {
        self.board.movable_count()
    }

    /// Neither side has a legal move.
    pub fn is_game_over(&self) -> (over: bool)
        requires
            self.wf(),
        ensures
            over == self.board.finished(),
    {
        self.board.is_game_over()
    }

    /// The side to move has a legal move.
    pub fn check_all(&self) -> (ok: bool)
        requires
            self.wf(),
        ensures
            ok == self.board.can_move(),
    {
        self.board.check_all()
    }

    /// Discs of Black and of White.
    pub fn piece_count(&self) -> (n: (u8, u8))
        ensures
            n.0 == count(self.board.black),
            n.1 == count(self.board.white),
    {
        self.board.piece_count()
    }

    /// The side to move.
    pub fn player(&self) -> (c: Color)
        ensures
            c == self.board.player,
    {
        self.board.player()
    }

    /// Discs placed since the standard start.
    pub fn turn(&self) -> (n: usize)
        ensures
            n == if self.board.empty_count <= 60 {
                60 - self.board.empty_count
            } else {
                0
            },
    {
        self.board.turn()
    }

    /// The position's hash.
    pub fn hash(&self) -> (h: u64)
        ensures
            h == self.hash,
    {
        self.hash
    }

    /// The record of the moves ("f5d6c3"); passes are left out.
    pub fn to_kifu(&self) -> (s: String)
        ensures
            s@ == kifu_of(self.history@),
    {
        let mut s: String = String::new();
        let mut i: usize = 0;
        assert(self.history@.take(0) =~= Seq::empty());
        while i < self.history.len()
            invariant
                i <= self.history@.len(),
                s@ == kifu_of(self.history@.take(i as int)),
            decreases self.history@.len() - i,
        {
            assert(self.history@.take(i + 1).drop_last() =~= self.history@.take(i as int));
            if let Some(p) = self.history[i].pos {
                s.append(p.to_kifu().as_str());
            }
            i = i + 1;
        }
        assert(self.history@.take(i as int) =~= self.history@);
        s
    }

    /// Steps taken: moves and passes.
    pub fn move_count(&self) -> (n: usize)
        ensures
            n == self.history@.len(),
    {
        self.history.len()
    }

    /// Empty squares.
    pub fn empty_count(&self) -> (n: u8)
        ensures
            n == self.board.empty_count,
    {
        self.board.empty_count()
    }

    /// The squares that the side to move may play, in ascending order.
    pub fn movable_list(&self) -> (v: Vec<Position>)
        requires
            self.wf(),
        ensures
            v@ == positions_of(self.board.moves()),
    {
        let m: u64 = self.movable();
        positions(m)
    }

    /// The position of the game after its first `n` steps.
    pub fn board_at(&self, n: usize) -> (r: Result<Board, String>)
        requires
            self.wf(),
        ensures
            match r {
                Ok(b) => {
                    &&& n <= self.history@.len()
                    &&& b.wf()
                    &&& b == replayed(
                        origin(self.board, self.history@),
                        self.history@,
                        n as nat,
                    )
                    &&& n == 0 ==> b == origin(self.board, self.history@)
                    &&& n == self.history@.len() ==> b == self.board
                },
                Err(e) => n > self.history@.len() && e@ == "move index "@ + digits_of(n as nat)
                    + " out of range"@,
            },
    {
        let len: usize = self.history.len();
        if n > len {
            let mut e: String = joined("move index ", decimal(n as u64).as_str());
            e.append(" out of range");
            return Err(e);
        }
        let ghost start = origin(self.board, self.history@);
        let mut b: Board = self.board;
        let mut i: usize = len;
        assert(self.history@.take(len as int) =~= self.history@);
        while i > n
            invariant
                n <= i <= len,
                len == self.history@.len(),
                b.wf(),
                past_fits(b, self.history@.take(i as int)),
                start == origin(b, self.history@.take(i as int)),
                i == len ==> b == self.board,
            decreases i,
        {
            let ghost steps = self.history@.take(i as int);
            i = i - 1;
            let step: MoveRecord = self.history[i];
            assert(steps.last() == step);
            assert(steps.drop_last() =~= self.history@.take(i as int));
            if let Some(pos) = step.pos {
                b.undo_move(pos, step.flipped);
            } else {
                b.pass();
            }
        }
        proof {
            let steps = self.history@.take(n as int);
            law_replay(b, steps);
            lemma_replayed_prefix(start, self.history@, n as nat, n as nat);
        }
        Ok(b)
    }

    /// The discs of both sides and the hash.
    pub fn serialize(&self) -> (words: [u64; 3])
        ensures
            words@ == seq![self.board.black, self.board.white, self.hash],
    {
        let words: [u64; 3] = [self.board.black, self.board.white, self.hash];
        assert(words@ =~= seq![self.board.black, self.board.white, self.hash]);
        words
    }

    /// The game that starts at the position of the discs and the hash; the
    /// hash tells the side to move.
    pub fn deserialize(black: u64, white: u64, hash: u64) -> (r: Result<Reversi, String>)
        requires
            count(black) + count(white) <= 64,
        ensures
            match r {
                Ok(g) => {
                    &&& hash == hash_of(black, white, g.board.player)
                    &&& g.begins_at(
                        (Board {
                            black,
                            white,
                            player: g.board.player,
                            empty_count: (64 - count(black) - count(white)) as u8,
                        }),
                    )
                    &&& black & white == 0 ==> g.wf()
                },
                Err(e) => {
                    &&& hash != hash_of(black, white, Color::Black)
                    &&& hash != hash_of(black, white, Color::White)
                    &&& e@ == "hash does not match board state"@
                },
            },
    {
        let empty_count: u8 = (64 - count_ones(black) - count_ones(white)) as u8;
        let player = if compute_hash(black, white, Color::Black) == hash {
            Color::Black
        } else if compute_hash(black, white, Color::White) == hash {
            Color::White
        } else {
            return Err(String::from_str("hash does not match board state"));
        };
        Ok(
            Reversi {
                board: Board { black, white, player, empty_count },
                history: Vec::new(),
                redo_stack: Vec::new(),
                hash,
            },
        )
    }

    /// Play a recorded game from the standard start. The record leaves passes
    /// out: where the side to move has no move at all, it passes.
    pub fn from_kifu(kifu: &str) -> (r: Result<Reversi, String>)
        ensures
            match r {
                Ok(g) => {
                    &&& kifu@.len() % 2 == 0
                    &&& play_text(Line::start(), kifu@) == Ok::<Line, Seq<char>>(g.record())
                    &&& g.undone().len() == 0
                    &&& g.wf()
                },
                Err(e) => if kifu@.len() % 2 == 1 {
                    e@ == "invalid KIFU length: "@ + kifu@
                } else {
                    play_text(Line::start(), kifu@) == Err::<Line, Seq<char>>(e@)
                },
            },
    {
        let mut game = Reversi::new();
        let n: usize = kifu.unicode_len();
        if n % 2 != 0 {
            return Err(joined("invalid KIFU length: ", kifu));
        }
        let mut i: usize = 0;
        assert(game.record().history =~= Line::start().history);
        assert(kifu@.skip(0) =~= kifu@);
        while i < n
            invariant
                n == kifu@.len(),
                n % 2 == 0,
                i % 2 == 0,
                i <= n,
                game.wf(),
                game.undone().len() == 0,
                play_text(Line::start(), kifu@) == play_text(game.record(), kifu@.skip(i as int)),
            decreases n - i,
        {
            let name: &str = kifu.substring_char(i, i + 2);
            let ghost rest = kifu@.skip(i as int);
            assert(rest.take(2) =~= name@);
            assert(rest.skip(2) =~= kifu@.skip(i + 2));
            let pos = match Position::from_kifu(name) {
                Ok(pos) => pos,
                Err(e) => {
                    return Err(joined("KIFU parse error: ", e.as_str()));
                },
            };
            if !game.board.check(pos) && !game.board.check_all() {
                let _passed = game.pass();
            }
            if let Err(e) = game.make_move(pos) {
                let mut text: String = joined("invalid KIFU move ", name);
                text.append(": ");
                text.append(e.message());
                return Err(text);
            }
            i = i + 2;
        }
        Ok(game)
    }
}

impl Default for Reversi {
    fn default() -> (g: Reversi)
        ensures
            g.wf(),
            g.begins_at(Board::start()),
    {
        Reversi::new()
    }
}

/// The generator behind `rand`'s `StdRng`, carried as it is.
#[verifier::external_type_specification]
#[verifier::external_body]
pub struct ExStdRng(StdRng);

/// `Rng::gen_range` over `0..n` draws a number below `n`; it panics where `n`
/// is zero. Which number it draws is left open.
#[verifier::external_body]
fn draw_below(rng: &mut StdRng, n: u32) -> (k: u32)
    requires
        n > 0,
    ensures
        k < n,
{
    rng.gen_range(0..n)
}

impl Reversi {
    /// Play the legal move with the given number, counted in ascending order
    /// of the squares; `None`, and the game unchanged, where there are not so
    /// many.
    pub fn play_nth(&mut self, choice: u32) -> (r: Option<Position>)
        requires
            old(self).wf(),
        ensures
            final(self).wf(),
            ({
                let moves = positions_of(old(self).board.moves());
                match r {
                    Some(p) => {
                        &&& choice < moves.len()
                        &&& p == moves[choice as int]
                        &&& old(self).board.legal(p.0 as int)
                        &&& final(self).record() == old(self).record().played(p)
                        &&& final(self).undone().len() == 0
                    },
                    None => choice >= moves.len() && *final(self) == *old(self),
                }
            }),
    {
        let list: Vec<Position> = self.movable_list();
        if choice as usize >= list.len() {
            return None;
        }
        let pos: Position = list[choice as usize];
        proof {
            let w = self.board.moves();
            lemma_moves(self.board);
            lemma_squares(w, 64);
            assert(squares(w)[choice as int] == pos.0);
            assert(bit(w, pos.0 as int));
        }
        self.make_move_unchecked(pos);
        Some(pos)
    }

    /// Play a legal move drawn with equal chances; `None` where the side to
    /// move has no legal move.
    pub fn random_move(&mut self, rng: &mut StdRng) -> (r: Option<Position>)
        requires
            old(self).wf(),
        ensures
            final(self).wf(),
            match r {
                Some(p) => {
                    &&& p.wf()
                    &&& old(self).board.legal(p.0 as int)
                    &&& final(self).record() == old(self).record().played(p)
                    &&& final(self).undone().len() == 0
                },
                None => !old(self).board.can_move() && *final(self) == *old(self),
            },
    {
        let n: u32 = self.movable_count() as u32;
        if n == 0 {
            return None;
        }
        let choice: u32 = draw_below(rng, n);
        proof {
            let w = self.board.moves();
            lemma_squares_len(w, 64);
            lemma_squares(w, 64);
            assert(squares(w)[choice as int] < 64);
        }
        self.play_nth(choice)
    }
}

/// Taking a step back and taking it again changes nothing, and so does taking
/// a step and taking it back.
pub proof fn law_step_back_and_again(b: Board, step: MoveRecord, history: Seq<MoveRecord>)
    requires
        b.wf(),
        past_fits(b, history),
        step.fits(b),
    ensures
        step.previous(step.next(b)) == b,
        step.next(step.previous(step.next(b))) == step.next(b),
        past_fits(step.next(b), history.push(step)),
        history.push(step).drop_last() == history,
{
    lemma_step(b, step);
    lemma_past_push(b, history, step);
    assert(history.push(step).drop_last() =~= history);
}

/// In every game the discs and the empty squares make up the board, and the
/// hash is the one computed from the position.
pub proof fn law_conservation(g: Reversi)
    requires
        g.wf(),
    ensures
        count(g.board.black) + count(g.board.white) + g.board.empty_count == 64,
        g.hash == hash_of(g.board.black, g.board.white, g.board.player),
{
    lemma_count_or(g.board.black, g.board.white);
    lemma_count_bound(g.board.black | g.board.white, 64);
}

/// A move adds one disc and turns the discs it turns: nothing else changes.
pub proof fn law_move_counts(b: Board, s: int)
    requires
        b.wf(),
        0 <= s < 64,
        b.legal(s),
    ensures
        count(b.flips(s)) > 0,
        count(b.after(s).opp()) == count(b.own()) + count(b.flips(s)) + 1,
        count(b.after(s).own()) == count(b.opp()) - count(b.flips(s)),
        b.after(s).player == b.player.other(),
        b.after(s).empty_count == b.empty_count - 1,
{
    lemma_wf_sides(b);
    lemma_after_wf(b, s);
    crate::board::lemma_placed_wf(b, s, b.flips(s));
    lemma_playable_iff_flips(b.own(), b.opp(), s);
    crate::bits::lemma_count_zero(b.flips(s), 64);
}

/// Reading back what a game wrote gives the position and the side to move,
/// and no other hash of the same discs is accepted.
pub proof fn law_serialized_turn(b: Board, hash: u64)
    ensures
        hash == b.zobrist() ==> forall|c: Color|
            #[trigger] hash_of(b.black, b.white, c) == hash ==> c == b.player,
        hash != b.zobrist() && hash != b.passed().zobrist() ==> forall|c: Color|
            #[trigger] hash_of(b.black, b.white, c) != hash,
{
    lemma_hash_tells_turn(b.black, b.white);
}

/// A game replays to its position from where it started.
pub proof fn law_replay(b: Board, steps: Seq<MoveRecord>)
    requires
        b.wf(),
        past_fits(b, steps),
    ensures
        replayed(origin(b, steps), steps, steps.len()) == b,
    decreases steps.len(),
{
    if steps.len() > 0 {
        let before = steps.last().previous(b);
        let init = steps.drop_last();
        law_replay(before, init);
        assert(init =~= steps.take(init.len() as int));
        lemma_replayed_prefix(origin(b, steps), steps, init.len(), init.len());
    }
}

proof fn lemma_replayed_prefix(start: Board, steps: Seq<MoveRecord>, n: nat, k: nat)
    requires
        k <= n <= steps.len(),
    ensures
        replayed(start, steps.take(n as int), k) == replayed(start, steps, k),
    decreases k,
{
    if k > 0 {
        lemma_replayed_prefix(start, steps, n, (k - 1) as nat);
    }
}

/// The record leaves out exactly the passes that reading it puts back: every
/// pass was forced, the next step was a move, and the last step was a move.
pub open spec fn written_whole(b: Board, steps: Seq<MoveRecord>) -> bool
    decreases steps.len(),
{
    steps.len() == 0 || {
        let last = steps.last();
        let init = steps.drop_last();
        let before = last.previous(b);
        &&& last.pos is Some
        &&& if init.len() > 0 && init.last().pos is None {
            let earlier = init.last().previous(before);
            !earlier.can_move() && written_whole(earlier, init.drop_last())
        } else {
            written_whole(before, init)
        }
    }
}

proof fn lemma_kifu_even(steps: Seq<MoveRecord>)
    ensures
        kifu_of(steps).len() % 2 == 0,
    decreases steps.len(),
{
    if steps.len() > 0 {
        lemma_kifu_even(steps.drop_last());
    }
}

proof fn lemma_play_append(l: Line, a: Seq<char>, c: Seq<char>)
    requires
        a.len() % 2 == 0,
        play_text(l, a) is Ok,
    ensures
        play_text(l, a + c) == play_text(play_text(l, a)->Ok_0, c),
    decreases a.len(),
{
    if a.len() < 2 {
        assert(a + c =~= c);
    } else {
        let name = a.take(2);
        assert((a + c).take(2) =~= name);
        assert((a + c).skip(2) =~= a.skip(2) + c);
        let q = square_named(encode_utf8(name))->Some_0;
        let p = Position(q);
        let m = l.ready_for(p);
        lemma_play_append(m.played(p), a.skip(2), c);
    }
}

/// Reading the record of a game whose last step was a move plays the same game.
proof fn lemma_kifu_whole(b: Board, steps: Seq<MoveRecord>)
    requires
        b.wf(),
        past_fits(b, steps),
        origin(b, steps) == Board::start(),
        written_whole(b, steps),
    ensures
        kifu_of(steps).len() % 2 == 0,
        play_text(Line::start(), kifu_of(steps)) == Ok::<Line, Seq<char>>(
            Line { board: b, history: steps },
        ),
    decreases steps.len(),
{
    reveal_with_fuel(origin, 3);
    reveal_with_fuel(past_fits, 3);
    lemma_kifu_even(steps);
    if steps.len() == 0 {
        assert(steps =~= Seq::<MoveRecord>::empty());
    } else {
        let last = steps.last();
        let init = steps.drop_last();
        let before = last.previous(b);
        let p = last.pos->Some_0;
        lemma_name_reads_back(p);
        let l = if init.len() > 0 && init.last().pos is None {
            let earlier = init.last().previous(before);
            lemma_kifu_whole(earlier, init.drop_last());
            let l = Line { board: earlier, history: init.drop_last() };
            assert(!earlier.legal(p.0 as int));
            assert(init.last() == MoveRecord::passing(earlier));
            assert(init =~= init.drop_last().push(init.last()));
            assert(l.ready_for(p) == (Line { board: before, history: init }));
            assert(kifu_of(init) == kifu_of(init.drop_last()));
            l
        } else {
            lemma_kifu_whole(before, init);
            Line { board: before, history: init }
        };
        lemma_kifu_even(init);
        assert(last == MoveRecord::placing(before, p));
        assert(steps =~= init.push(last));
        let m = l.ready_for(p);
        assert(m == (Line { board: before, history: init }));
        lemma_play_append(Line::start(), kifu_of(init), p.name());
        let name = p.name();
        assert(name.take(2) =~= name);
        assert(name.skip(2) =~= Seq::<char>::empty());
        assert(play_text(m.played(p), name.skip(2)) == Ok::<Line, Seq<char>>(m.played(p)));
        assert(play_text(l, name) == Ok::<Line, Seq<char>>(m.played(p)));
        assert(m.played(p) == (Line { board: b, history: steps }));
    }
}

/// The game without the passes after its last move.
pub open spec fn unwaited(b: Board, steps: Seq<MoveRecord>) -> Line
    decreases steps.len(),
{
    if steps.len() > 0 && steps.last().pos is None {
        unwaited(steps.last().previous(b), steps.drop_last())
    } else {
        Line { board: b, history: steps }
    }
}

/// Reading the written record of a game plays the same game, but for passes after
/// the last move: the discs are the same, and so are the steps up to that move.
pub proof fn law_kifu_round_trip(b: Board, steps: Seq<MoveRecord>)
    requires
        b.wf(),
        past_fits(b, steps),
        origin(b, steps) == Board::start(),
        written_whole(unwaited(b, steps).board, unwaited(b, steps).history),
    ensures
        kifu_of(steps).len() % 2 == 0,
        play_text(Line::start(), kifu_of(steps)) == Ok::<Line, Seq<char>>(unwaited(b, steps)),
        unwaited(b, steps).board.black == b.black,
        unwaited(b, steps).board.white == b.white,
        unwaited(b, steps).history.len() <= steps.len(),
        unwaited(b, steps).history == steps.take(unwaited(b, steps).history.len() as int),
        forall|i: int|
            unwaited(b, steps).history.len() <= i < steps.len() ==> (#[trigger] steps[i]).pos is None,
    decreases steps.len(),
{
    lemma_kifu_even(steps);
    let l = unwaited(b, steps);
    if steps.len() > 0 && steps.last().pos is None {
        let init = steps.drop_last();
        law_kifu_round_trip(steps.last().previous(b), init);
        assert(init.take(l.history.len() as int) =~= steps.take(l.history.len() as int));
        assert forall|i: int| l.history.len() <= i < steps.len() implies (
        #[trigger] steps[i]).pos is None by {
            if i < init.len() {
                assert(init[i].pos is None);
            }
        }
    } else {
        lemma_kifu_whole(b, steps);
        assert(steps.take(steps.len() as int) =~= steps);
    }
}

} // verus!
