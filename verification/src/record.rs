//! The training record: one position with everything that its game says about
//! it.
//!
//! In a file a record takes 27 bytes, little-endian: the mover's discs, the
//! other side's discs, the search value as the bits of a 32-bit floating-point
//! number, the final difference of discs as the mover sees it, the moves played
//! so far, a flag for a random move, the move played, the side to move (0 is
//! Black) and the number of the game. In the file squares are counted rank by
//! rank, here file by file.

use vstd::prelude::*;

use crate::bitboard::{lemma_transpose_involution, moved_of, transpose};
use crate::bits::{count, count_ones, lemma_count_bound};
use crate::bytes::{lemma_pow256_values, lemma_word_ext, lemma_word_injective, push_word, read_word, word};
use crate::evaluator::lemma_kept;
use crate::text::{decimal, digits_of, joined, number_in, read_number, same_text};

verus! {

/// Bytes of a record in a file.
pub const SIZE: usize = 27;

/// The move of a record whose move is not known.
pub const NO_SQUARE: u8 = 64;

/// The result of a record whose game has none.
pub const NO_GAME_SCORE: i8 = -128;

/// One position of one game.
#[derive(Debug, Clone, Copy, PartialEq, Eq, Structural)]
pub struct Record {
    pub mover: u64,
    pub opponent: u64,
    /// The search's value to the mover in discs, as the bits of a
    /// floating-point number.
    pub score: u32,
    /// Final difference of discs to the mover, the empty squares given to the
    /// winner; `NO_GAME_SCORE` when there is none.
    pub game_score: i8,
    /// Moves played so far.
    pub ply: u8,
    /// The move played from here was chosen at random.
    pub random: bool,
    /// The move played from here, or `NO_SQUARE`.
    pub sq: u8,
    pub black_to_move: bool,
    pub game_id: u16,
}

/// What a trainer is to fit.
#[derive(Debug, Clone, Copy, PartialEq, Eq, Structural)]
pub enum Teacher {
    /// Nothing: the position is even.
    Even,
    /// The search's value.
    Search(u32),
    /// The game's result in discs.
    Result(i8),
}

/// A byte as a signed number.
pub open spec fn signed(b: u8) -> int {
    if b < 128 {
        b as int
    } else {
        b - 256
    }
}

/// A square counted the other way.
pub open spec fn other_count(s: u8) -> u8 {
    if s < 64 {
        (s % 8 * 8 + s / 8) as u8
    } else {
        NO_SQUARE
    }
}

/// The record that the bytes from `at` on show.
pub open spec fn record_at(b: Seq<u8>, at: int) -> Record {
    Record {
        mover: moved_of(word(b, at, 8) as u64, 0),
        opponent: moved_of(word(b, at + 8, 8) as u64, 0),
        score: word(b, at + 16, 4) as u32,
        game_score: signed(b[at + 20]) as i8,
        ply: b[at + 21],
        random: b[at + 22] != 0,
        sq: other_count(b[at + 23]),
        black_to_move: b[at + 24] == 0,
        game_id: word(b, at + 25, 2) as u16,
    }
}

/// The bytes are those of the record.
pub open spec fn encodes(b: Seq<u8>, r: Record) -> bool {
    &&& b.len() == SIZE
    &&& word(b, 0, 8) == moved_of(r.mover, 0)
    &&& word(b, 8, 8) == moved_of(r.opponent, 0)
    &&& word(b, 16, 4) == r.score
    &&& signed(b[20]) == r.game_score
    &&& b[21] == r.ply
    &&& b[22] == if r.random {
        1u8
    } else {
        0u8
    }
    &&& b[23] == other_count(r.sq)
    &&& b[24] == if r.black_to_move {
        0u8
    } else {
        1u8
    }
    &&& word(b, 25, 2) == r.game_id
}

/// A square counted the other way.
fn swap_count(s: u8) -> (t: u8)
    ensures
        t == other_count(s),
{
    if s < 64 {
        s % 8 * 8 + s / 8
    } else {
        NO_SQUARE
    }
}

/// The record that the bytes from `at` on show.
pub fn read_record(b: &[u8], at: usize) -> (r: Record)
    requires
        at + SIZE <= b@.len(),
    ensures
        r == record_at(b@, at as int),
{
    let len: usize = b.len();
    proof {
        lemma_pow256_values();
    }
    let mover: u64 = read_word(b, at, 8);
    let opponent: u64 = read_word(b, at + 8, 8);
    let score: u64 = read_word(b, at + 16, 4);
    let result: u8 = b[at + 20];
    let game_id: u64 = read_word(b, at + 25, 2);
    let game_score: i8 = if result < 128 {
        result as i8
    } else {
        (result as i16 - 256) as i8
    };
    Record {
        mover: transpose(mover),
        opponent: transpose(opponent),
        score: score as u32,
        game_score,
        ply: b[at + 21],
        random: b[at + 22] != 0,
        sq: swap_count(b[at + 23]),
        black_to_move: b[at + 24] == 0,
        game_id: game_id as u16,
    }
}

impl Record {
    /// The record that 27 bytes show.
    pub fn from_bytes(b: &[u8; 27]) -> (r: Record)
        ensures
            r == record_at(b@, 0),
    {
        read_record(b.as_slice(), 0)
    }

    /// The record as a file holds it.
    pub fn to_bytes(&self) -> (b: [u8; 27])
        ensures
            encodes(b@, *self),
    {
        let mut v: Vec<u8> = Vec::new();
        proof {
            lemma_pow256_values();
        }
        push_word(&mut v, transpose(self.mover), 8);
        let ghost v1 = v@;
        push_word(&mut v, transpose(self.opponent), 8);
        let ghost v2 = v@;
        push_word(&mut v, self.score as u64, 4);
        let ghost v3 = v@;
        let result: u8 = if self.game_score >= 0 {
            self.game_score as u8
        } else {
            (self.game_score as i16 + 256) as u8
        };
        v.push(result);
        v.push(self.ply);
        v.push(
            if self.random {
                1
            } else {
                0
            },
        );
        v.push(swap_count(self.sq));
        v.push(
            if self.black_to_move {
                0
            } else {
                1
            },
        );
        let ghost v4 = v@;
        push_word(&mut v, self.game_id as u64, 2);
        proof {
            let end = v@;
            assert(end.take(25) =~= v4);
            assert forall|k: int| 0 <= k < 25 implies end[k] == v4[k] by {
                assert(end.take(25)[k] == end[k]);
            }
            assert(v4.take(20) =~= v3);
            assert(end.take(20) =~= v3);
            assert(v3.take(16) =~= v2);
            assert(v2.take(8) =~= v1);
            assert(end.take(16) =~= v2) by {
                assert(v3.take(16) =~= end.take(20).take(16));
                assert(end.take(20).take(16) =~= end.take(16));
            }
            assert(end.take(8) =~= v1) by {
                assert(end.take(16).take(8) =~= end.take(8));
            }
            lemma_kept(v1, end, 0, 8);
            lemma_kept(v2, end, 8, 8);
            lemma_kept(v3, end, 16, 4);
        }
        let mut b: [u8; 27] = [0;27];
        let mut i: usize = 0;
        while i < 27
            invariant
                i <= 27,
                v@.len() == 27,
                forall|k: int| 0 <= k < i ==> b@[k] == v@[k],
            decreases 27 - i,
        {
            b[i] = v[i];
            i = i + 1;
        }
        assert(b@ =~= v@);
        b
    }

    /// What a trainer is to fit: the first two plies are even by symmetry; a
    /// position whose move was random takes the search's value, since its game
    /// went on at random; every other one takes the game's result.
    pub fn teacher(&self) -> (t: Teacher)
        ensures
            t == if self.ply <= 1 {
                Teacher::Even
            } else if self.random || self.game_score == NO_GAME_SCORE {
                Teacher::Search(self.score)
            } else {
                Teacher::Result(self.game_score)
            },
    {
        if self.ply <= 1 {
            Teacher::Even
        } else if self.random || self.game_score == NO_GAME_SCORE {
            Teacher::Search(self.score)
        } else {
            Teacher::Result(self.game_score)
        }
    }

    /// Empty squares.
    pub fn empties(&self) -> (n: u8)
        ensures
            n == 64 - count(self.mover | self.opponent),
    {
        proof {
            lemma_count_bound(self.mover | self.opponent, 64);
        }
        64 - count_ones(self.mover | self.opponent) as u8
    }
}

/// A record that is written is read back.
pub proof fn law_record_round_trip(r: Record, b: Seq<u8>)
    requires
        r.sq <= NO_SQUARE,
        encodes(b, r),
    ensures
        record_at(b, 0) == r,
{
    lemma_transpose_involution(r.mover);
    lemma_transpose_involution(r.opponent);
    if r.sq < 64 {
        let s = r.sq;
        let t = (s % 8 * 8 + s / 8) as u8;
        assert(t % 8 == s / 8 && t / 8 == s % 8);
    }
}

/// Bytes that are read as a record are what that record is written as, if their
/// flags are 0 or 1 and their square is one or none.
pub proof fn law_bytes_round_trip(b: Seq<u8>, c: Seq<u8>)
    requires
        b.len() == SIZE,
        b[22] <= 1,
        b[23] <= NO_SQUARE,
        b[24] <= 1,
        encodes(c, record_at(b, 0)),
    ensures
        c == b,
{
    lemma_pow256_values();
    crate::bytes::lemma_word_bound(b, 0, 8);
    crate::bytes::lemma_word_bound(b, 8, 8);
    crate::bytes::lemma_word_bound(b, 16, 4);
    crate::bytes::lemma_word_bound(b, 25, 2);
    lemma_transpose_involution(word(b, 0, 8) as u64);
    lemma_transpose_involution(word(b, 8, 8) as u64);
    lemma_word_injective(b, 0, c, 0, 8);
    lemma_word_injective(b, 8, c, 8, 8);
    lemma_word_injective(b, 16, c, 16, 4);
    lemma_word_injective(b, 25, c, 25, 2);
    if b[23] < 64 {
        let s = b[23];
        let t = (s % 8 * 8 + s / 8) as u8;
        assert(t % 8 == s / 8 && t / 8 == s % 8);
    }
    assert forall|k: int| 0 <= k < 27 implies b[k] == c[k] by {
        if k < 8 {
            assert(b[0 + k] == c[0 + k]);
        } else if k < 16 {
            assert(b[8 + (k - 8)] == c[8 + (k - 8)]);
        } else if k < 20 {
            assert(b[16 + (k - 16)] == c[16 + (k - 16)]);
        } else if k >= 25 {
            assert(b[25 + (k - 25)] == c[25 + (k - 25)]);
        }
    }
    assert(c =~= b);
}

/// Records in a file of so many bytes.
pub fn records_in(bytes: u64) -> (n: u64)
    ensures
        n == bytes / 27,
{
    bytes / 27
}

/// The whole records of the bytes.
pub open spec fn records_of(b: Seq<u8>) -> Seq<Record> {
    Seq::new((b.len() / 27) as nat, |i: int| record_at(b, 27 * i))
}

/// What the bytes leave over.
pub open spec fn left_over(b: Seq<u8>) -> Seq<u8> {
    b.skip((b.len() / 27) as int * 27)
}

/// The whole records of a block, and how many bytes it leaves over for the
/// next.
pub fn read_block(b: &[u8]) -> (r: (Vec<Record>, usize))
    ensures
        r.0@ == records_of(b@),
        r.1 == left_over(b@).len(),
{
    let n: usize = b.len() / 27;
    let mut v: Vec<Record> = Vec::new();
    let mut i: usize = 0;
    while i < n
        invariant
            n == b@.len() / 27,
            i <= n,
            v@.len() == i,
            forall|k: int| 0 <= k < i ==> #[trigger] v@[k] == record_at(b@, 27 * k),
        decreases n - i,
    {
        let len: usize = b.len();
        v.push(read_record(b, 27 * i));
        i = i + 1;
    }
    assert(v@ =~= records_of(b@));
    (v, b.len() - n * 27)
}

/// Reading block by block gives the records of the whole: the records of the
/// first block, and those of what it leaves over with the next block behind
/// it.
pub proof fn law_blocks(a: Seq<u8>, b: Seq<u8>)
    ensures
        records_of(a + b) == records_of(a) + records_of(left_over(a) + b),
        left_over(a + b) == left_over(left_over(a) + b),
{
    let n = (a.len() / 27) as int;
    let rest = left_over(a) + b;
    let whole = a + b;
    let x = records_of(whole);
    let y = records_of(a) + records_of(rest);
    assert(rest.len() == whole.len() - 27 * n);
    assert((whole.len() - 27 * n) / 27 == whole.len() / 27 - n);
    assert(rest =~= whole.skip(27 * n));
    assert forall|i: int| 0 <= i < x.len() implies x[i] == y[i] by {
        if i < n {
            lemma_record_ext(whole, 27 * i, a, 27 * i);
        } else {
            lemma_record_ext(whole, 27 * i, rest, 27 * (i - n));
        }
    }
    assert(x =~= y);
    assert(left_over(whole) =~= left_over(rest));
}

/// Equal bytes show equal records.
proof fn lemma_record_ext(a: Seq<u8>, at: int, b: Seq<u8>, bt: int)
    requires
        forall|k: int| 0 <= k < 27 ==> #[trigger] a[at + k] == b[bt + k],
    ensures
        record_at(a, at) == record_at(b, bt),
{
    assert forall|k: int| 0 <= k < 8 implies #[trigger] a[at + 8 + k] == b[bt + 8 + k] by {
        assert(a[at + (8 + k)] == b[bt + (8 + k)]);
    }
    assert forall|k: int| 0 <= k < 4 implies #[trigger] a[at + 16 + k] == b[bt + 16 + k] by {
        assert(a[at + (16 + k)] == b[bt + (16 + k)]);
    }
    assert forall|k: int| 0 <= k < 2 implies #[trigger] a[at + 25 + k] == b[bt + 25 + k] by {
        assert(a[at + (25 + k)] == b[bt + (25 + k)]);
    }
    lemma_word_ext(a, at, b, bt, 8);
    lemma_word_ext(a, at + 8, b, bt + 8, 8);
    lemma_word_ext(a, at + 16, b, bt + 16, 4);
    lemma_word_ext(a, at + 25, b, bt + 25, 2);
    assert(a[at + 20] == b[bt + 20]);
    assert(a[at + 21] == b[bt + 21]);
    assert(a[at + 22] == b[bt + 22]);
    assert(a[at + 23] == b[bt + 23]);
    assert(a[at + 24] == b[bt + 24]);
}

/// Which records to train on.
#[derive(Debug, Clone, Copy, PartialEq, Eq, Structural)]
pub struct Filter {
    /// Drop positions before this ply.
    pub min_ply: u8,
    /// Drop positions whose search value and result are further apart than
    /// this many discs, as the bits of a floating-point number.
    pub max_score_diff: Option<u32>,
    /// Drop positions whose move was random.
    pub drop_random: bool,
    /// From this ply on keep everything, whatever the two above say.
    pub keep_above_ply: Option<u8>,
}

impl Filter {
    /// Keep every record.
    pub fn none() -> (f: Filter)
        ensures
            f == (Filter {
                min_ply: 0,
                max_score_diff: None,
                drop_random: false,
                keep_above_ply: None,
            }),
    {
        Filter { min_ply: 0, max_score_diff: None, drop_random: false, keep_above_ply: None }
    }

    /// The filter for training: from ply 8 on, at most 12 discs apart, no
    /// random moves, and everything from ply 50 on.
    pub fn training() -> (f: Filter)
        ensures
            f == (Filter {
                min_ply: 8,
                max_score_diff: Some(0x4140_0000),
                drop_random: true,
                keep_above_ply: Some(50),
            }),
    {
        Filter {
            min_ply: 8,
            max_score_diff: Some(0x4140_0000),
            drop_random: true,
            keep_above_ply: Some(50),
        }
    }

    /// The filter keeps the record; `apart` says whether the search value and
    /// the result are further apart than the filter allows.
    pub open spec fn admits(self, r: Record, apart: bool) -> bool {
        r.ply >= self.min_ply && ((self.keep_above_ply matches Some(p) && r.ply >= p) || (!(
        self.drop_random && r.random) && !(self.max_score_diff is Some && r.game_score
            != NO_GAME_SCORE && apart)))
    }

    /// The filter keeps the record; `apart` says whether the search value and
    /// the result are further apart than the filter allows.
    pub fn keeps(&self, r: &Record, apart: bool) -> (yes: bool)
        ensures
            yes == self.admits(*r, apart),
    {
        if r.ply < self.min_ply {
            return false;
        }
        if let Some(p) = self.keep_above_ply {
            if r.ply >= p {
                return true;
            }
        }
        if self.drop_random && r.random {
            return false;
        }
        if self.max_score_diff.is_some() && r.game_score != NO_GAME_SCORE && apart {
            return false;
        }
        true
    }

    /// What a flag of the command line does to the filter: the filter after
    /// it, and whether the flag is one of the filter's. `value` is the word
    /// behind the flag, `bits` that word as the bits of a floating-point
    /// number, where it is one.
    pub open spec fn flagged(
        self,
        flag: Seq<char>,
        value: Option<Seq<char>>,
        bits: Option<u32>,
    ) -> Result<(Filter, bool), Seq<char>> {
        let number = match value {
            Some(v) => number_in(v, 255),
            None => None,
        };
        if flag == "--min-ply"@ {
            match number {
                Some(n) => Ok((Filter { min_ply: n as u8, ..self }, true)),
                None => Err(flag + " needs a number"@),
            }
        } else if flag == "--max-score-diff"@ {
            match bits {
                Some(d) => Ok((Filter { max_score_diff: Some(d), ..self }, true)),
                None => Err(flag + " needs a number"@),
            }
        } else if flag == "--drop-random"@ {
            Ok((Filter { drop_random: true, ..self }, true))
        } else if flag == "--keep-above-ply"@ {
            match number {
                Some(n) => Ok((Filter { keep_above_ply: Some(n as u8), ..self }, true)),
                None => Err(flag + " needs a number"@),
            }
        } else {
            Ok((self, false))
        }
    }

    /// Whether a flag of the command line takes a word behind it.
    pub fn takes_value(flag: &str) -> (yes: bool)
        ensures
            yes == (flag@ == "--min-ply"@ || flag@ == "--max-score-diff"@ || flag@
                == "--keep-above-ply"@),
    {
        same_text(flag, "--min-ply") || same_text(flag, "--max-score-diff") || same_text(
            flag,
            "--keep-above-ply",
        )
    }

    /// Take one of the filter's flags (`--min-ply N`, `--max-score-diff D`,
    /// `--drop-random`, `--keep-above-ply N`).
    pub fn take_flag(&mut self, flag: &str, value: Option<&str>, bits: Option<u32>) -> (r: Result<
        bool,
        String,
    >)
        ensures
            match old(self).flagged(
                flag@,
                match value {
                    Some(v) => Some(v@),
                    None => None,
                },
                bits,
            ) {
                Ok((f, taken)) => *final(self) == f && r == Ok::<bool, String>(taken),
                Err(e) => *final(self) == *old(self) && (r matches Err(s) && s@ == e),
            },
    {
        let number: Option<u64> = match value {
            Some(v) => read_number(v, 255),
            None => None,
        };
        if same_text(flag, "--min-ply") {
            match number {
                Some(n) => {
                    self.min_ply = n as u8;
                },
                None => {
                    return Err(joined(flag, " needs a number"));
                },
            }
        } else if same_text(flag, "--max-score-diff") {
            match bits {
                Some(d) => {
                    self.max_score_diff = Some(d);
                },
                None => {
                    return Err(joined(flag, " needs a number"));
                },
            }
        } else if same_text(flag, "--drop-random") {
            self.drop_random = true;
        } else if same_text(flag, "--keep-above-ply") {
            match number {
                Some(n) => {
                    self.keep_above_ply = Some(n as u8);
                },
                None => {
                    return Err(joined(flag, " needs a number"));
                },
            }
        } else {
            return Ok(false);
        }
        Ok(true)
    }

    /// The flags that give this filter; `diff` is how its greatest distance is
    /// written.
    pub open spec fn described(self, diff: Seq<char>) -> Seq<char> {
        "--min-ply "@ + digits_of(self.min_ply as nat) + (if self.max_score_diff is Some {
            " --max-score-diff "@ + diff
        } else {
            Seq::empty()
        }) + (if self.drop_random {
            " --drop-random"@
        } else {
            Seq::empty()
        }) + (match self.keep_above_ply {
            Some(p) => " --keep-above-ply "@ + digits_of(p as nat),
            None => Seq::empty(),
        })
    }

    /// The flags that give this filter, for a log.
    pub fn describe(&self, diff: &str) -> (s: String)
        ensures
            s@ == self.described(diff@),
    {
        let least: String = decimal(self.min_ply as u64);
        let mut s: String = joined("--min-ply ", least.as_str());
        let ghost s0 = s@;
        if self.max_score_diff.is_some() {
            s.append(" --max-score-diff ");
            s.append(diff);
        }
        let ghost s1 = s@;
        assert(s1 =~= s0 + (if self.max_score_diff is Some {
            " --max-score-diff "@ + diff@
        } else {
            Seq::empty()
        }));
        if self.drop_random {
            s.append(" --drop-random");
        }
        let ghost s2 = s@;
        assert(s2 =~= s1 + (if self.drop_random {
            " --drop-random"@
        } else {
            Seq::empty()
        }));
        if let Some(p) = self.keep_above_ply {
            let above: String = decimal(p as u64);
            s.append(" --keep-above-ply ");
            s.append(above.as_str());
        }
        assert(s@ =~= s2 + (match self.keep_above_ply {
            Some(p) => " --keep-above-ply "@ + digits_of(p as nat),
            None => Seq::empty(),
        }));
        s
    }
}

/// What a filter leaves out. A filter that asks for nothing keeps everything. Records
/// of early plies are left out whatever else holds; of the later ones all are kept
/// from the ply on that overrides the rest. Asking for more never keeps more.
pub proof fn law_filter_leaves_out(f: Filter, r: Record, apart: bool)
    ensures
        (Filter { min_ply: 0, max_score_diff: None, drop_random: false, keep_above_ply: None }).admits(
            r,
            apart,
        ),
        r.ply < f.min_ply ==> !f.admits(r, apart),
        r.ply >= f.min_ply ==> (Filter { keep_above_ply: Some(r.ply), ..f }).admits(r, apart),
        f.keep_above_ply is None && f.drop_random && r.random ==> !f.admits(r, apart),
        f.keep_above_ply is None && f.max_score_diff is Some && r.game_score != NO_GAME_SCORE && apart
            ==> !f.admits(r, apart),
        r.ply >= f.min_ply && !r.random && !apart ==> f.admits(r, apart),
        r.ply >= f.min_ply && !r.random && r.game_score == NO_GAME_SCORE ==> f.admits(r, apart),
        f.admits(r, apart) ==> (Filter { drop_random: false, ..f }).admits(r, apart) && (Filter {
            max_score_diff: None,
            ..f
        }).admits(r, apart) && (Filter { min_ply: 0, ..f }).admits(r, apart) && f.admits(r, false),
        f.keep_above_ply matches Some(p) ==> (r.ply < p ==> f.admits(r, apart) == (Filter {
            keep_above_ply: None,
            ..f
        }).admits(r, apart)),
{
}

} // verus!
