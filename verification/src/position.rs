//! Squares of the board: A1 is 0, A2 is 1, B1 is 8, H8 is 63.
//! A square is written in lower case, file first ("f5").

use vstd::prelude::*;
use vstd::string::*;
use vstd::utf8::*;

use crate::bits::{bit, group_bits};
use crate::text::joined;

verus! {

/// A square, by its number `file * 8 + rank`.
#[derive(Debug, Clone, Copy, PartialEq, Eq, Hash, PartialOrd, Ord, Structural)]
pub struct Position(pub u8);

/// The number of the square that the two bytes name, if they name one.
pub open spec fn square_named(bytes: Seq<u8>) -> Option<u8> {
    if bytes.len() == 2 && 97 <= bytes[0] < 105 && 49 <= bytes[1] < 57 {
        Some(((bytes[0] - 97) * 8 + (bytes[1] - 49)) as u8)
    } else {
        None
    }
}

/// What is said of a text that names no square.
pub open spec fn not_a_square(text: Seq<char>) -> Seq<char> {
    if encode_utf8(text).len() != 2 {
        "棋譜として読み取れません: "@ + text
    } else {
        "invalid KIFU: "@ + text
    }
}

/// What reading one square from a text gives.
pub open spec fn reads_square(text: Seq<char>, r: Result<Position, String>) -> bool {
    match r {
        Ok(p) => square_named(encode_utf8(text)) == Some(p.0),
        Err(e) => square_named(encode_utf8(text)) is None && e@ == not_a_square(text),
    }
}

impl Position {
    /// The first square (A1).
    pub const MIN: u8 = 0;

    /// The last square (H8).
    pub const MAX: u8 = 63;

    /// The number is that of a square of the board.
    pub open spec fn wf(self) -> bool {
        self.0 < 64
    }

    /// The characters that name the square.
    pub open spec fn name(self) -> Seq<char> {
        seq![(97 + self.0 / 8) as char, (49 + self.0 % 8) as char]
    }

    /// The square with the given number; `None` past the last one.
    pub fn from_index(i: u32) -> (p: Option<Position>)
        ensures
            i < 64 ==> p == Some(Position(i as u8)),
            i >= 64 ==> p is None,
    {
        if i <= Self::MAX as u32 {
            Some(Position(i as u8))
        } else {
            None
        }
    }

    /// The square on a file and a rank; `None` where either is off the board.
    pub fn from_file_rank(file: u8, rank: u8) -> (p: Option<Position>)
        ensures
            file < 8 && rank < 8 ==> p == Some(Position((file * 8 + rank) as u8)),
            file >= 8 || rank >= 8 ==> p is None,
    {
        if file < 8 && rank < 8 {
            Some(Position(file * 8 + rank))
        } else {
            None
        }
    }

    /// The square's number.
    pub fn index(self) -> (i: u8)
        ensures
            i == self.0,
    {
        self.0
    }

    /// The file, counted from 0.
    pub fn file(self) -> (f: u8)
        ensures
            f == self.0 / 8,
    {
        self.0 / 8
    }

    /// The rank, counted from 0.
    pub fn rank(self) -> (r: u8)
        ensures
            r == self.0 % 8,
    {
        self.0 % 8
    }

    /// The set that holds this square alone.
    pub fn to_bit(self) -> (b: u64)
        requires
            self.wf(),
        ensures
            b == 1u64 << (self.0 as u64),
            forall|i: int| 0 <= i < 64 ==> #[trigger] bit(b, i) == (i == self.0),
    {
        broadcast use group_bits;

        1u64 << (self.0 as u64)
    }

    /// The square's name ("f5").
    pub fn to_kifu(self) -> (s: String)
        ensures
            s@ == self.name(),
    {
        let mut s: String = String::new();
        s.push((97u8 + self.file()) as char);
        s.push((49u8 + self.rank()) as char);
        assert(s@ =~= self.name());
        s
    }

    /// Read a square's name.
    pub fn from_kifu(s: &str) -> (r: Result<Position, String>)
        ensures
            reads_square(s@, r),
    {
        let bytes = s.as_bytes();
        if bytes.len() != 2 {
            return Err(joined("棋譜として読み取れません: ", s));
        }
        let file: u8 = bytes[0].wrapping_sub(97);
        let rank: u8 = bytes[1].wrapping_sub(49);
        match Position::from_file_rank(file, rank) {
            Some(pos) => Ok(pos),
            None => Err(joined("invalid KIFU: ", s)),
        }
    }
}

/// What reading two squares from a text gives.
pub open spec fn reads_pair(text: Seq<char>, r: Result<(Position, Position), String>) -> bool {
    let bytes = encode_utf8(text);
    if bytes.len() != 4 {
        r matches Err(e) && e@ == "invalid KIFU pair: "@ + text
    } else {
        let first = square_named(bytes.subrange(0, 2));
        let second = square_named(bytes.subrange(2, 4));
        match r {
            Ok(p) => first == Some(p.0.0) && second == Some(p.1.0),
            Err(e) => if first is None {
                e@ == not_a_square(decode_utf8(bytes.subrange(0, 2)))
            } else {
                second is None && e@ == not_a_square(decode_utf8(bytes.subrange(2, 4)))
            },
        }
    }
}

/// Read two squares written one behind the other ("f5g5").
pub fn kifu_pair(s: &str) -> (r: Result<(Position, Position), String>)
    requires
        encode_utf8(s@).len() == 4 ==> is_char_boundary(encode_utf8(s@), 2),
    ensures
        reads_pair(s@, r),
{
    if s.as_bytes().len() != 4 {
        return Err(joined("invalid KIFU pair: ", s));
    }
    let (head, tail) = s.split_at(2);
    proof {
        encode_utf8_decode_utf8(head@);
        encode_utf8_decode_utf8(tail@);
    }
    match Position::from_kifu(head) {
        Err(e) => Err(e),
        Ok(first) => match Position::from_kifu(tail) {
            Err(e) => Err(e),
            Ok(second) => Ok((first, second)),
        },
    }
}

/// A square's name reads back as the square.
pub proof fn lemma_name_reads_back(p: Position)
    requires
        p.wf(),
    ensures
        encode_utf8(p.name()).len() == 2,
        square_named(encode_utf8(p.name())) == Some(p.0),
{
    let text = p.name();
    assert(is_ascii_chars(text));
    is_ascii_chars_encode_utf8(text);
    assert(encode_utf8(text)[0] == 97 + p.0 / 8);
    assert(encode_utf8(text)[1] == 49 + p.0 % 8);
}

} // verus!
