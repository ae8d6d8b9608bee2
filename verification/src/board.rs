//! A position: the discs of both sides and the side to move.

use vstd::prelude::*;
use vstd::string::*;
use vstd::utf8::*;

use crate::bitboard::{flips_at, flips_of, holds, inside, lemma_flips_are_opponents, lemma_flips_of, lemma_playable_iff_flips, lemma_symmetry, mobility, playable, symmetric, symmetry_of, turns};
use crate::bits::{bit, count, count_ones, group_bits, lemma_bit_ext, lemma_bit_zero, lemma_clear_lowest, lemma_count_bound, lemma_count_or, lemma_count_single, lemma_count_sum, lemma_count_zero, lemma_word_of, test_bit, word_of};
use crate::color::Color;
use crate::position::Position;
use crate::zobrist::{hash_of, hash_after, lemma_hash_after_move};

verus! {

/// The standard start: `X` is Black, `O` is White, `-` is empty, rank by
/// rank, then the side to move.
pub const BOARD_INIT_STRING: &'static str =
    "---------------------------OX------XO--------------------------- X";

/// A position.
#[derive(Clone, Copy, Debug, PartialEq, Eq, Structural)]
pub struct Board {
    pub black: u64,
    pub white: u64,
    pub player: Color,
    pub empty_count: u8,
}

/// Why a move was refused.
#[derive(Clone, Copy, Debug, PartialEq, Eq, Structural)]
pub enum MoveError {
    /// The square holds a disc.
    Occupied,
    /// The square is empty but no disc would be turned.
    NotPlayable,
}

/// Why a step of the game was refused.
#[derive(Clone, Copy, Debug, PartialEq, Eq, Structural)]
pub enum GameError {
    /// There is no move to take back or to play again.
    NoMoves,
}

/// Why a position string was refused.
#[derive(Clone, Copy, Debug, PartialEq, Eq, Structural)]
pub enum ParseError {
    /// Not 64 squares, a blank and a side.
    InvalidLength,
    /// A square that is neither a disc nor empty.
    InvalidSquare,
    /// A side that is neither Black nor White.
    InvalidPlayer,
}

impl MoveError {
    /// The reason in words.
    pub open spec fn words(self) -> Seq<char> {
        match self {
            MoveError::Occupied => "square is occupied"@,
            MoveError::NotPlayable => "square is not playable"@,
        }
    }

    /// The reason in words.
    pub fn message(self) -> (s: &'static str)
        ensures
            s@ == self.words(),
    {
        match self {
            MoveError::Occupied => "square is occupied",
            MoveError::NotPlayable => "square is not playable",
        }
    }
}

impl GameError {
    /// The reason in words.
    pub fn message(self) -> (s: &'static str)
        ensures
            s@ == "no moves"@,
    {
        "no moves"
    }
}

impl ParseError {
    /// The reason's name.
    pub open spec fn words(self) -> Seq<char> {
        match self {
            ParseError::InvalidLength => "InvalidLength"@,
            ParseError::InvalidSquare => "InvalidSquare"@,
            ParseError::InvalidPlayer => "InvalidPlayer"@,
        }
    }

    /// The reason's name.
    pub fn name(self) -> (s: &'static str)
        ensures
            s@ == self.words(),
    {
        match self {
            ParseError::InvalidLength => "InvalidLength",
            ParseError::InvalidSquare => "InvalidSquare",
            ParseError::InvalidPlayer => "InvalidPlayer",
        }
    }
}

impl Board {
    /// No square holds two discs, and the count of empty squares is right.
    pub open spec fn wf(self) -> bool {
        self.black & self.white == 0 && self.empty_count == 64 - count(self.black) - count(
            self.white,
        )
    }

    /// The discs of the side to move.
    pub open spec fn own(self) -> u64 {
        match self.player {
            Color::Black => self.black,
            Color::White => self.white,
        }
    }

    /// The discs of the other side.
    pub open spec fn opp(self) -> u64 {
        match self.player {
            Color::Black => self.white,
            Color::White => self.black,
        }
    }

    /// Square `s` is empty.
    pub open spec fn vacant(self, s: int) -> bool {
        !bit(self.black, s) && !bit(self.white, s)
    }

    /// The side to move may place a disc on `s`.
    pub open spec fn legal(self, s: int) -> bool {
        playable(self.own(), self.opp(), s)
    }

    /// The side to move has a legal move.
    pub open spec fn can_move(self) -> bool {
        exists|s: int| 0 <= s < 64 && #[trigger] self.legal(s)
    }

    /// The squares that the side to move may play.
    pub open spec fn moves(self) -> u64 {
        word_of(|s: int| self.legal(s))
    }

    /// The discs that the side to move turns by a disc on `s`.
    pub open spec fn flips(self, s: int) -> u64 {
        flips_of(self.own(), self.opp(), s)
    }

    /// The position with the given discs and side to move.
    pub open spec fn of(own: u64, opp: u64, player: Color, empty_count: u8) -> Board {
        match player {
            Color::Black => Board { black: own, white: opp, player, empty_count },
            Color::White => Board { black: opp, white: own, player, empty_count },
        }
    }

    /// The position after a disc on `s` that turns `flipped`.
    pub open spec fn placed(self, s: int, flipped: u64) -> Board {
        Board::of(
            self.opp() & !flipped,
            self.own() | flipped | (1u64 << (s as u64)),
            self.player.other(),
            (self.empty_count - 1) as u8,
        )
    }

    /// The position after a move to `s`.
    pub open spec fn after(self, s: int) -> Board {
        self.placed(s, self.flips(s))
    }

    /// The position after a pass.
    pub open spec fn passed(self) -> Board {
        Board { black: self.black, white: self.white, player: self.player.other(), empty_count: self.empty_count }
    }

    /// The position before a disc on `s` turned `flipped`.
    pub open spec fn taken_back(self, s: int, flipped: u64) -> Board {
        Board::of(
            self.opp() & !(flipped | (1u64 << (s as u64))),
            self.own() | flipped,
            self.player.other(),
            (self.empty_count + 1) as u8,
        )
    }

    /// Neither side has a legal move.
    pub open spec fn finished(self) -> bool {
        !self.can_move() && !self.passed().can_move()
    }

    /// The position's hash.
    pub open spec fn zobrist(self) -> u64 {
        hash_of(self.black, self.white, self.player)
    }

    /// The standard start.
    pub open spec fn start() -> Board {
        Board {
            black: 0x0000_0008_1000_0000,
            white: 0x0000_0010_0800_0000,
            player: Color::Black,
            empty_count: 60,
        }
    }
}

/// The set of playable squares holds the playable squares.
pub proof fn lemma_moves(b: Board)
    ensures
        forall|s: int| 0 <= s < 64 ==> #[trigger] bit(b.moves(), s) == b.legal(s),
{
    let g = |s: int| b.legal(s);
    lemma_word_of(g);
    assert forall|s: int| 0 <= s < 64 implies #[trigger] bit(b.moves(), s) == b.legal(s) by {
        assert(bit(word_of(g), s) == g(s));
    }
}

/// What a well-formed position says of its two sides.
pub proof fn lemma_wf_sides(b: Board)
    requires
        b.wf(),
    ensures
        b.own() & b.opp() == 0,
        b.opp() & b.own() == 0,
        b.empty_count == 64 - count(b.own()) - count(b.opp()),
        forall|s: int| 0 <= s < 64 ==> !(#[trigger] bit(b.own(), s) && bit(b.opp(), s)),
        forall|s: int| #[trigger] b.vacant(s) == (!bit(b.own(), s) && !bit(b.opp(), s)),
{
    broadcast use group_bits;

    let x = b.black;
    let y = b.white;
    assert(x & y == y & x) by (bit_vector);
    assert forall|s: int| 0 <= s < 64 implies !(#[trigger] bit(b.own(), s) && bit(
        b.opp(),
        s,
    )) by {
        assert(bit(b.own() & b.opp(), s) == (bit(b.own(), s) && bit(b.opp(), s)));
        assert(!bit(0u64, s));
    }
}

/// Two sets without a common square, by squares.
pub proof fn lemma_disjoint(a: u64, b: u64)
    requires
        forall|s: int| 0 <= s < 64 ==> !(#[trigger] bit(a, s) && bit(b, s)),
    ensures
        a & b == 0,
{
    broadcast use group_bits;

    assert forall|s: int| 0 <= s < 64 implies bit(a & b, s) == bit(0u64, s) by {
        assert(bit(a & b, s) == (bit(a, s) && bit(b, s)));
    }
    lemma_bit_ext(a & b, 0);
}

/// A placed disc keeps the position well-formed and adds one disc.
pub proof fn lemma_placed_wf(b: Board, s: int, flipped: u64)
    requires
        b.wf(),
        0 <= s < 64,
        b.vacant(s),
        flipped & b.opp() == flipped,
    ensures
        b.empty_count > 0,
        b.placed(s, flipped).wf(),
        count(b.placed(s, flipped).opp()) == count(b.own()) + count(flipped) + 1,
        count(b.placed(s, flipped).own()) == count(b.opp()) - count(flipped),
{
    broadcast use group_bits;

    lemma_wf_sides(b);
    let own = b.own();
    let opp = b.opp();
    let single = 1u64 << (s as u64);
    let own2 = own | flipped | single;
    let opp2 = opp & !flipped;
    assert forall|i: int| 0 <= i < 64 && bit(flipped, i) implies bit(opp, i) by {
        assert(bit(flipped & opp, i) == (bit(flipped, i) && bit(opp, i)));
    }
    assert forall|i: int| 0 <= i < 64 implies #[trigger] bit(own2, i) == (bit(own, i) || bit(
        flipped | single,
        i,
    )) && !(bit(own, i) && bit(flipped | single, i)) by {
        assert(bit(own2, i) == (bit(own | flipped, i) || bit(single, i)));
        assert(bit(flipped | single, i) == (bit(flipped, i) || i == s));
        assert(!(bit(own, i) && bit(opp, i)));
    }
    lemma_count_sum(own, flipped | single, own2, 64);
    assert forall|i: int| 0 <= i < 64 implies #[trigger] bit(flipped | single, i) == (bit(
        flipped,
        i,
    ) || bit(single, i)) && !(bit(flipped, i) && bit(single, i)) by {
        assert(bit(single, i) == (i == s));
    }
    lemma_count_sum(flipped, single, flipped | single, 64);
    lemma_count_single(s as u64, 64);
    assert forall|i: int| 0 <= i < 64 implies #[trigger] bit(opp, i) == (bit(flipped, i) || bit(
        opp2,
        i,
    )) && !(bit(flipped, i) && bit(opp2, i)) by {
        assert(bit(opp2, i) == (bit(opp, i) && bit(!flipped, i)));
    }
    lemma_count_sum(flipped, opp2, opp, 64);
    assert forall|i: int| 0 <= i < 64 implies !(#[trigger] bit(own2, i) && bit(opp2, i)) by {
        assert(bit(opp2, i) == (bit(opp, i) && bit(!flipped, i)));
        assert(!(bit(own, i) && bit(opp, i)));
    }
    lemma_disjoint(own2, opp2);
    assert(own2 & opp2 == opp2 & own2) by (bit_vector);
    lemma_count_or(own2, opp2);
    lemma_count_bound(own2 | opp2, 64);
}

/// A move keeps the position well-formed.
pub proof fn lemma_after_wf(b: Board, s: int)
    requires
        b.wf(),
        0 <= s < 64,
        b.vacant(s),
    ensures
        b.empty_count > 0,
        b.after(s).wf(),
        b.flips(s) & b.opp() == b.flips(s),
        b.after(s).empty_count == b.empty_count - 1,
{
    lemma_flips_are_opponents(b.own(), b.opp(), s);
    lemma_placed_wf(b, s, b.flips(s));
}

/// A pass keeps the position well-formed, and two passes change nothing.
pub proof fn lemma_passed_wf(b: Board)
    ensures
        b.wf() ==> b.passed().wf(),
        b.passed().passed() == b,
        b.passed().own() == b.opp(),
        b.passed().opp() == b.own(),
{
}

/// Taking a placed disc back gives the position before it.
pub proof fn lemma_take_back(b: Board, s: int, flipped: u64)
    requires
        b.wf(),
        0 <= s < 64,
        b.vacant(s),
        flipped & b.opp() == flipped,
    ensures
        b.placed(s, flipped).taken_back(s, flipped) == b,
{
    broadcast use group_bits;

    lemma_wf_sides(b);
    lemma_placed_wf(b, s, flipped);
    let own = b.own();
    let opp = b.opp();
    let single = 1u64 << (s as u64);
    let own2 = own | flipped | single;
    let opp2 = opp & !flipped;
    let own3 = own2 & !(flipped | single);
    let opp3 = opp2 | flipped;
    assert forall|i: int| 0 <= i < 64 implies bit(own3, i) == bit(own, i) && bit(opp3, i) == bit(
        opp,
        i,
    ) by {
        assert(bit(flipped & opp, i) == (bit(flipped, i) && bit(opp, i)));
        assert(bit(single, i) == (i == s));
        assert(!(bit(own, i) && bit(opp, i)));
        assert(bit(opp2, i) == (bit(opp, i) && bit(!flipped, i)));
    }
    lemma_bit_ext(own3, own);
    lemma_bit_ext(opp3, opp);
}

/// The hash after a placed disc is the hash kept up to date.
pub proof fn lemma_placed_hash(b: Board, s: int, flipped: u64)
    requires
        b.wf(),
        0 <= s < 64,
        b.vacant(s),
        flipped & b.opp() == flipped,
    ensures
        hash_after(b.zobrist(), s as u8, flipped, b.player) == b.placed(s, flipped).zobrist(),
{
    lemma_wf_sides(b);
    lemma_hash_after_move(b.own(), b.opp(), s as u8, flipped, b.player);
}

impl Board {
    /// The standard start.
    pub fn new() -> (b: Board)
        ensures
            b == Board::start(),
            b.wf(),
    {
        proof {
            lemma_start_wf();
        }
        Board {
            black: 0x0000_0008_1000_0000,
            white: 0x0000_0010_0800_0000,
            player: Color::Black,
            empty_count: 60,
        }
    }

    /// The side to move.
    pub fn player(&self) -> (c: Color)
        ensures
            c == self.player,
    {
        self.player
    }

    /// The discs of the side to move.
    pub fn player_bb(&self) -> (b: u64)
        ensures
            b == self.own(),
    {
        match self.player {
            Color::Black => self.black,
            Color::White => self.white,
        }
    }

    /// The discs of the other side.
    pub fn opponent_bb(&self) -> (b: u64)
        ensures
            b == self.opp(),
    {
        match self.player {
            Color::Black => self.white,
            Color::White => self.black,
        }
    }

    /// The squares that the side to move may play.
    pub fn movable(&self) -> (m: u64)
        requires
            self.wf(),
        ensures
            m == self.moves(),
            forall|s: int| 0 <= s < 64 ==> #[trigger] bit(m, s) == self.legal(s),
            m == 0 <==> !self.can_move(),
    {
        proof {
            lemma_wf_sides(*self);
        }
        let m: u64 = mobility(self.player_bb(), self.opponent_bb());
        proof {
            broadcast use group_bits;

            lemma_count_zero(m, 64);
            assert forall|s: int| 0 <= s < 64 implies #[trigger] bit(m, s) == self.legal(s) by {}
            if m == 0 {
                assert forall|s: int| 0 <= s < 64 implies !(#[trigger] self.legal(s)) by {
                    assert(bit(m, s) == self.legal(s));
                    assert(!bit(0u64, s));
                }
            } else {
                lemma_clear_lowest(m);
                let s = choose|s: int| 0 <= s < 64 && bit(m, s);
                assert(self.legal(s));
            }
            lemma_moves(*self);
            assert forall|s: int| 0 <= s < 64 implies bit(m, s) == bit(self.moves(), s) by {
                assert(bit(self.moves(), s) == self.legal(s));
            }
            lemma_bit_ext(m, self.moves());
        }
        m
    }

    /// How many squares the side to move may play.
    pub fn movable_count(&self) -> (n: u8)
        requires
            self.wf(),
        ensures
            n == count(self.moves()),
            n == 0 <==> !self.can_move(),
    {
        let m: u64 = self.movable();
        proof {
            lemma_count_zero(m, 64);
        }
        count_ones(m) as u8
    }

    /// The side to move may play the square.
    pub fn check(&self, pos: Position) -> (ok: bool)
        requires
            pos.wf(),
        ensures
            ok == self.legal(pos.0 as int),
    {
        broadcast use group_bits;

        let own: u64 = self.player_bb();
        let opp: u64 = self.opponent_bb();
        let flips: u64 = flips_at(own, opp, pos.0);
        proof {
            lemma_playable_iff_flips(own, opp, pos.0 as int);
        }
        !test_bit(own | opp, pos.0) && flips != 0
    }

    /// The side to move has a legal move.
    pub fn check_all(&self) -> (ok: bool)
        requires
            self.wf(),
        ensures
            ok == self.can_move(),
    {
        self.movable() != 0
    }

    /// Neither side has a legal move.
    pub fn is_game_over(&self) -> (over: bool)
        requires
            self.wf(),
        ensures
            over == self.finished(),
    {
        let mut other: Board = *self;
        other.pass();
        !self.check_all() && !other.check_all()
    }

    /// Discs of Black and of White.
    pub fn piece_count(&self) -> (n: (u8, u8))
        ensures
            n.0 == count(self.black),
            n.1 == count(self.white),
    {
        (count_ones(self.black) as u8, count_ones(self.white) as u8)
    }

    /// Empty squares.
    pub fn empty_count(&self) -> (n: u8)
        ensures
            n == self.empty_count,
    {
        self.empty_count
    }

    /// Discs placed since the standard start.
    pub fn turn(&self) -> (n: usize)
        ensures
            n == if self.empty_count <= 60 {
                60 - self.empty_count
            } else {
                0
            },
    {
        if self.empty_count <= 60 {
            (60 - self.empty_count) as usize
        } else {
            0
        }
    }

    /// Discs of the side to move less those of the other side.
    pub fn score(&self) -> (n: i32)
        ensures
            n == count(self.own()) - count(self.opp()),
    {
        let own: u32 = count_ones(self.player_bb());
        let opp: u32 = count_ones(self.opponent_bb());
        own as i32 - opp as i32
    }

    /// Give the turn to the other side.
    pub fn pass(&mut self)
        ensures
            *final(self) == old(self).passed(),
            old(self).wf() ==> final(self).wf(),
    {
        self.player = self.player.opponent();
    }

    /// Place a disc that turns `flipped`.
    pub fn apply_flips(&mut self, pos: Position, flipped: u64)
        requires
            old(self).wf(),
            pos.wf(),
            old(self).vacant(pos.0 as int),
            flipped & old(self).opp() == flipped,
        ensures
            *final(self) == old(self).placed(pos.0 as int, flipped),
            final(self).wf(),
    {
        proof {
            lemma_placed_wf(*self, pos.0 as int, flipped);
        }
        let gain: u64 = flipped | pos.to_bit();
        let own: u64 = self.player_bb();
        let own2: u64 = own | gain;
        let opp2: u64 = self.opponent_bb() & !flipped;
        let single: u64 = pos.to_bit();
        assert(own | (flipped | single) == own | flipped | single) by (bit_vector);
        match self.player {
            Color::Black => {
                self.black = own2;
                self.white = opp2;
            },
            Color::White => {
                self.white = own2;
                self.black = opp2;
            },
        }
        self.player = self.player.opponent();
        self.empty_count = self.empty_count - 1;
    }

    /// Place a disc on an empty square; the turned discs come back.
    pub fn make_move_bits(&mut self, pos: Position) -> (flipped: u64)
        requires
            old(self).wf(),
            pos.wf(),
            old(self).vacant(pos.0 as int),
        ensures
            flipped == old(self).flips(pos.0 as int),
            *final(self) == old(self).after(pos.0 as int),
            final(self).wf(),
    {
        let flipped: u64 = flips_at(self.player_bb(), self.opponent_bb(), pos.0);
        proof {
            lemma_after_wf(*self, pos.0 as int);
        }
        self.apply_flips(pos, flipped);
        flipped
    }

    /// Place a disc on an empty square.
    pub fn make_move_unchecked(&mut self, pos: Position)
        requires
            old(self).wf(),
            pos.wf(),
            old(self).vacant(pos.0 as int),
        ensures
            *final(self) == old(self).after(pos.0 as int),
            final(self).wf(),
    {
        let _flipped: u64 = self.make_move_bits(pos);
    }

    /// Play a move if it is legal; the turned discs come back.
    pub fn make_move(&mut self, pos: Position) -> (r: Result<u64, MoveError>)
        requires
            old(self).wf(),
            pos.wf(),
        ensures
            final(self).wf(),
            match r {
                Ok(flipped) => {
                    &&& old(self).legal(pos.0 as int)
                    &&& flipped == old(self).flips(pos.0 as int)
                    &&& *final(self) == old(self).after(pos.0 as int)
                },
                Err(e) => {
                    &&& !old(self).legal(pos.0 as int)
                    &&& *final(self) == *old(self)
                    &&& e == if old(self).vacant(pos.0 as int) {
                        MoveError::NotPlayable
                    } else {
                        MoveError::Occupied
                    }
                },
            },
    {
        broadcast use group_bits;

        proof {
            lemma_wf_sides(*self);
        }
        if test_bit(self.black | self.white, pos.0) {
            return Err(MoveError::Occupied);
        }
        if !self.check(pos) {
            return Err(MoveError::NotPlayable);
        }
        Ok(self.make_move_bits(pos))
    }

    /// Take back the disc on `pos` that turned `flipped`.
    pub fn undo_move(&mut self, pos: Position, flipped: u64)
        requires
            pos.wf(),
            old(self).empty_count < 255,
        ensures
            *final(self) == old(self).taken_back(pos.0 as int, flipped),
    {
        let lost: u64 = flipped | pos.to_bit();
        let own2: u64 = self.player_bb() | flipped;
        let opp2: u64 = self.opponent_bb() & !lost;
        match self.player {
            Color::Black => {
                self.black = own2;
                self.white = opp2;
            },
            Color::White => {
                self.white = own2;
                self.black = opp2;
            },
        }
        self.player = self.player.opponent();
        self.empty_count = self.empty_count + 1;
    }
}

/// The byte stands for a square: a disc of either side, or none.
pub open spec fn square_byte(c: u8) -> bool {
    c == 88 || c == 79 || c == 45
}

/// The position that the bytes of a position string show.
pub open spec fn shows(bytes: Seq<u8>, b: Board) -> bool {
    &&& b.wf()
    &&& b.player == if bytes[65] == 88 {
        Color::Black
    } else {
        Color::White
    }
    &&& forall|f: int, r: int|
        inside(f, r) ==> #[trigger] holds(b.black, f, r) == (bytes[r * 8 + f] == 88)
    &&& forall|f: int, r: int|
        inside(f, r) ==> #[trigger] holds(b.white, f, r) == (bytes[r * 8 + f] == 79)
}

/// What reading a position string gives.
pub open spec fn reads_board(text: Seq<char>, r: Result<Board, ParseError>) -> bool {
    let bytes = encode_utf8(text);
    if bytes.len() != 66 || bytes[64] != 32 {
        r == Err::<Board, ParseError>(ParseError::InvalidLength)
    } else if exists|k: int| 0 <= k < 64 && !square_byte(#[trigger] bytes[k]) {
        r == Err::<Board, ParseError>(ParseError::InvalidSquare)
    } else if bytes[65] != 88 && bytes[65] != 79 {
        r == Err::<Board, ParseError>(ParseError::InvalidPlayer)
    } else {
        r matches Ok(b) && shows(bytes, b)
    }
}

/// Setting the square that the `k`-th byte stands for.
proof fn lemma_read_square(w: u64, n: u64, k: int, f: int, r: int)
    requires
        0 <= k < 64,
        n == k % 8 * 8 + k / 8,
        inside(f, r),
    ensures
        holds(w | (1u64 << n), f, r) == (holds(w, f, r) || r * 8 + f == k),
{
    broadcast use group_bits;

    if f * 8 + r == n {
        assert(f == k % 8 && r == k / 8);
    }
    if r * 8 + f == k {
        assert(f == k % 8 && r == k / 8);
    }
}

impl Board {
    /// Read a position: 64 squares rank by rank (`X` Black, `O` White, `-`
    /// empty), a blank, and the side to move.
    pub fn from_string(s: &str) -> (r: Result<Board, ParseError>)
        ensures
            reads_board(s@, r),
    {
        let bytes = s.as_bytes();
        if bytes.len() != 66 || bytes[64] != 32 {
            return Err(ParseError::InvalidLength);
        }
        let mut black: u64 = 0;
        let mut white: u64 = 0;
        let mut k: usize = 0;
        assert forall|f: int, r: int| inside(f, r) implies !(#[trigger] holds(0u64, f, r)) by {
            lemma_bit_zero(f * 8 + r);
        }
        while k < 64
            invariant
                k <= 64,
                bytes@ == encode_utf8(s@),
                bytes@.len() == 66,
                bytes@[64] == 32,
                forall|j: int| 0 <= j < k ==> square_byte(#[trigger] bytes@[j]),
                forall|f: int, r: int|
                    inside(f, r) ==> #[trigger] holds(black, f, r) == (r * 8 + f < k && bytes@[r * 8
                        + f] == 88),
                forall|f: int, r: int|
                    inside(f, r) ==> #[trigger] holds(white, f, r) == (r * 8 + f < k && bytes@[r * 8
                        + f] == 79),
            decreases 64 - k,
        {
            let c: u8 = bytes[k];
            let n: u64 = (k % 8 * 8 + k / 8) as u64;
            let black2: u64 = if c == 88 {
                black | (1u64 << n)
            } else {
                black
            };
            let white2: u64 = if c == 79 {
                white | (1u64 << n)
            } else {
                white
            };
            if c != 88 && c != 79 && c != 45 {
                assert(!square_byte(bytes@[k as int]));
                return Err(ParseError::InvalidSquare);
            }
            proof {
                assert(n == (k % 8) * 8 + k / 8);
                assert forall|f: int, r: int| inside(f, r) implies #[trigger] holds(black2, f, r)
                    == (r * 8 + f < k + 1 && bytes@[r * 8 + f] == 88) by {
                    lemma_read_square(black, n, k as int, f, r);
                    assert(holds(black, f, r) == (r * 8 + f < k && bytes@[r * 8 + f] == 88));
                }
                assert forall|f: int, r: int| inside(f, r) implies #[trigger] holds(white2, f, r)
                    == (r * 8 + f < k + 1 && bytes@[r * 8 + f] == 79) by {
                    lemma_read_square(white, n, k as int, f, r);
                    assert(holds(white, f, r) == (r * 8 + f < k && bytes@[r * 8 + f] == 79));
                }
            }
            black = black2;
            white = white2;
            k = k + 1;
        }
        let player: Color = if bytes[65] == 88 {
            Color::Black
        } else if bytes[65] == 79 {
            Color::White
        } else {
            return Err(ParseError::InvalidPlayer);
        };
        proof {
            assert forall|i: int| 0 <= i < 64 implies !(#[trigger] bit(black, i) && bit(
                white,
                i,
            )) by {
                assert(holds(black, i / 8, i % 8) == bit(black, i));
                assert(holds(white, i / 8, i % 8) == bit(white, i));
            }
            lemma_disjoint(black, white);
            lemma_count_or(black, white);
            lemma_count_bound(black | white, 64);
        }
        let empty_count: u8 = (64 - count_ones(black) - count_ones(white)) as u8;
        Ok(Board { black, white, player, empty_count })
    }

    /// The position under the `i`-th symmetry of the board.
    pub open spec fn symmetry(self, i: int) -> Board {
        Board {
            black: symmetry_of(self.black, i),
            white: symmetry_of(self.white, i),
            player: self.player,
            empty_count: self.empty_count,
        }
    }

    /// The eight symmetric forms of the position.
    pub fn symmetries(&self) -> (v: Vec<Board>)
        ensures
            v@.len() == 8,
            forall|i: int| 0 <= i < 8 ==> #[trigger] v@[i] == self.symmetry(i),
            self.wf() ==> forall|i: int| 0 <= i < 8 ==> (#[trigger] v@[i]).wf(),
    {
        let mut v: Vec<Board> = Vec::new();
        let mut i: u8 = 0;
        while i < 8
            invariant
                i <= 8,
                v@.len() == i,
                forall|k: int| 0 <= k < i ==> #[trigger] v@[k] == self.symmetry(k),
                self.wf() ==> forall|k: int| 0 <= k < i ==> (#[trigger] v@[k]).wf(),
            decreases 8 - i,
        {
            let form: Board = Board {
                black: symmetric(self.black, i),
                white: symmetric(self.white, i),
                player: self.player,
                empty_count: self.empty_count,
            };
            proof {
                lemma_symmetry(self.white, self.black, i as int);
                lemma_symmetry(self.black, self.white, i as int);
            }
            v.push(form);
            i = i + 1;
        }
        v
    }
}

/// The standard start is well-formed.
pub proof fn lemma_start_wf()
    ensures
        Board::start().wf(),
{
    let black = 0x0000_0008_1000_0000u64;
    let white = 0x0000_0010_0800_0000u64;
    assert(black & white == 0 && black == (1u64 << 28) | (1u64 << 35) && white == (1u64 << 27) | (
    1u64 << 36) && (1u64 << 28) & (1u64 << 35) == 0 && (1u64 << 27) & (1u64 << 36) == 0)
        by (bit_vector)
        requires
            black == 0x0000_0008_1000_0000u64,
            white == 0x0000_0010_0800_0000u64,
    ;
    lemma_count_or(1u64 << 28, 1u64 << 35);
    lemma_count_or(1u64 << 27, 1u64 << 36);
    lemma_count_single(28, 64);
    lemma_count_single(35, 64);
    lemma_count_single(27, 64);
    lemma_count_single(36, 64);
}

/// A move, square by square: the mover has what it had, the square that it played and
/// what it turned; the other side has the rest of its discs and is to move. A square
/// can be played exactly when it is empty and something is turned.
pub proof fn law_move_square_by_square(b: Board, s: int, q: int)
    requires
        b.wf(),
        0 <= s < 64,
        0 <= q < 64,
    ensures
        bit(b.after(s).opp(), q) == (bit(b.own(), q) || q == s || turns(b.own(), b.opp(), s, q)),
        bit(b.after(s).own(), q) == (bit(b.opp(), q) && !turns(b.own(), b.opp(), s, q)),
        b.after(s).player == b.player.other(),
        b.legal(s) ==> b.vacant(s) && exists|t: int| 0 <= t < 64 && #[trigger] turns(b.own(), b.opp(), s, t),
        b.vacant(s) && turns(b.own(), b.opp(), s, q) ==> b.legal(s),
{
    broadcast use group_bits;

    let (p, o) = (b.own(), b.opp());
    let w = b.flips(s);
    lemma_flips_of(p, o, s);
    lemma_playable_iff_flips(p, o, s);
    lemma_flips_are_opponents(p, o, s);
    assert(bit(w, q) == turns(p, o, s, q));
    assert(bit(1u64 << (s as u64), q) == (q == s));
    if b.legal(s) {
        if forall|t: int| 0 <= t < 64 ==> !bit(w, t) {
            assert forall|t: int| 0 <= t < 64 implies bit(w, t) == bit(0u64, t) by {
                assert(!bit(0u64, t));
            }
            lemma_bit_ext(w, 0);
        }
        let t = choose|t: int| 0 <= t < 64 && bit(w, t);
        assert(turns(p, o, s, t));
    }
    if b.vacant(s) && turns(p, o, s, q) {
        assert(!bit(0u64, q));
    }
}

} // verus!
