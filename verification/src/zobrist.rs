//! Hash of a position, kept up to date move by move.

use vstd::prelude::*;

use crate::bits::{bit, group_bits, lemma_bit_ext};
use crate::color::Color;
use crate::position::Position;

verus! {

/// What the turn of White adds to a hash.
pub const SWAP_PLAYER: u64 = 0xb7e1_5162_8aed_2a6b;

/// One scrambling round: mix the high bits down, then multiply.
pub open spec fn scramble(z: u64, shift: u64, factor: u64) -> u64 {
    (z ^ (z >> shift)).wrapping_mul(factor)
}

/// The number that stands for a disc of one side on square `s`.
pub open spec fn disc_key(s: u8, c: Color) -> u64 {
    let seed = ((s * 2 + c.code() + 1) as u64).wrapping_mul(0x9e37_79b9_7f4a_7c15);
    let z = scramble(scramble(seed, 30, 0xbf58_476d_1ce4_e5b9), 27, 0x94d0_49bb_1331_11eb);
    z ^ (z >> 31)
}

/// The keys of the discs of one side on the squares below `n`, combined.
pub open spec fn keys_below(b: u64, c: Color, n: nat) -> u64
    decreases n,
{
    if n == 0 {
        0
    } else if bit(b, n - 1) {
        keys_below(b, c, (n - 1) as nat) ^ disc_key((n - 1) as u8, c)
    } else {
        keys_below(b, c, (n - 1) as nat)
    }
}

/// The keys of all discs of one side, combined.
pub open spec fn keys(b: u64, c: Color) -> u64 {
    keys_below(b, c, 64)
}

/// What the side to move adds to a hash.
pub open spec fn turn_key(player: Color) -> u64 {
    match player {
        Color::Black => 0,
        Color::White => SWAP_PLAYER,
    }
}

/// The hash of a position.
pub open spec fn hash_of(black: u64, white: u64, player: Color) -> u64 {
    keys(black, Color::Black) ^ keys(white, Color::White) ^ turn_key(player)
}

/// The hash after `mover` has placed a disc on square `s` and turned
/// `flipped`, from the hash before.
pub open spec fn hash_after(hash: u64, s: u8, flipped: u64, mover: Color) -> u64 {
    hash ^ keys(flipped | (1u64 << (s as u64)), mover) ^ keys(flipped, mover.other()) ^ SWAP_PLAYER
}

/// The disc keys.
pub struct ZobristTable {}

impl ZobristTable {
    /// The number that stands for a disc of one side on square `s`.
    pub fn key(s: u8, c: Color) -> (k: u64)
        requires
            s < 64,
        ensures
            k == disc_key(s, c),
    {
        let n: u64 = (s * 2 + c.index() + 1) as u64;
        let seed: u64 = n.wrapping_mul(0x9e37_79b9_7f4a_7c15);
        let y: u64 = (seed ^ (seed >> 30u64)).wrapping_mul(0xbf58_476d_1ce4_e5b9);
        let z: u64 = (y ^ (y >> 27u64)).wrapping_mul(0x94d0_49bb_1331_11eb);
        z ^ (z >> 31u64)
    }
}

/// The keys of the discs of one side, combined.
fn combined_keys(b: u64, c: Color) -> (h: u64)
    ensures
        h == keys(b, c),
{
    let mut h: u64 = 0;
    let mut i: u8 = 0;
    while i < 64
        invariant
            i <= 64,
            h == keys_below(b, c, i as nat),
        decreases 64 - i,
    {
        if (b >> (i as u64)) & 1 == 1 {
            h = h ^ ZobristTable::key(i, c);
        }
        i = i + 1;
        assert(bit(b, i - 1) == ((b >> ((i - 1) as u64)) & 1 == 1));
    }
    h
}

/// The hash of a position.
pub fn compute_hash(black: u64, white: u64, player: Color) -> (h: u64)
    ensures
        h == hash_of(black, white, player),
{
    let turn: u64 = match player {
        Color::Black => 0,
        Color::White => SWAP_PLAYER,
    };
    combined_keys(black, Color::Black) ^ combined_keys(white, Color::White) ^ turn
}

/// The hash of a position seen from the side to move.
pub fn board_hash(player_bb: u64, opponent_bb: u64) -> (h: u64)
    ensures
        h == hash_of(player_bb, opponent_bb, Color::Black),
{
    compute_hash(player_bb, opponent_bb, Color::Black)
}

/// The hash after a move, from the hash before.
pub fn update_hash_on_move(hash: u64, pos: Position, flipped: u64, mover: Color) -> (h: u64)
    requires
        pos.wf(),
    ensures
        h == hash_after(hash, pos.0, flipped, mover),
{
    let placed: u64 = flipped | pos.to_bit();
    hash ^ combined_keys(placed, mover) ^ combined_keys(flipped, mover.opponent()) ^ SWAP_PLAYER
}

/// The hash after a pass, from the hash before.
pub fn update_hash_on_pass(hash: u64) -> (h: u64)
    ensures
        h == hash ^ SWAP_PLAYER,
{
    hash ^ SWAP_PLAYER
}

/// Combined keys of a symmetric difference.
pub proof fn lemma_keys_xor(a: u64, b: u64, c: Color, n: nat)
    requires
        n <= 64,
    ensures
        keys_below(a ^ b, c, n) == keys_below(a, c, n) ^ keys_below(b, c, n),
    decreases n,
{
    broadcast use group_bits;

    if n == 0 {
        assert(0u64 ^ 0u64 == 0u64) by (bit_vector);
    } else {
        let m = (n - 1) as nat;
        lemma_keys_xor(a, b, c, m);
        let x = keys_below(a, c, m);
        let y = keys_below(b, c, m);
        let k = disc_key((n - 1) as u8, c);
        assert((x ^ k) ^ y == (x ^ y) ^ k && x ^ (y ^ k) == (x ^ y) ^ k && (x ^ k) ^ (y ^ k) == x
            ^ y) by (bit_vector);
        assert(bit(a ^ b, n - 1) == (bit(a, n - 1) != bit(b, n - 1)));
    }
}

/// The hash kept up to date over a move is the hash of the new position.
pub proof fn lemma_hash_after_move(p: u64, o: u64, s: u8, flipped: u64, mover: Color)
    requires
        s < 64,
        p & o == 0,
        !bit(p, s as int),
        flipped & o == flipped,
    ensures
        ({
            let p2 = p | flipped | (1u64 << (s as u64));
            let o2 = o & !flipped;
            match mover {
                Color::Black => hash_after(hash_of(p, o, mover), s, flipped, mover) == hash_of(
                    p2,
                    o2,
                    mover.other(),
                ),
                Color::White => hash_after(hash_of(o, p, mover), s, flipped, mover) == hash_of(
                    o2,
                    p2,
                    mover.other(),
                ),
            }
        }),
{
    broadcast use group_bits;

    let single = 1u64 << (s as u64);
    let gain = flipped | single;
    let p2 = p | flipped | single;
    let o2 = o & !flipped;
    assert forall|i: int| 0 <= i < 64 implies bit(p ^ gain, i) == bit(p2, i) by {
        assert(bit(p & o, i) == (bit(p, i) && bit(o, i)));
        assert(!bit(0u64, i));
        assert(bit(flipped & o, i) == (bit(flipped, i) && bit(o, i)));
        assert(bit(single, i) == (i == s));
    }
    lemma_bit_ext(p ^ gain, p2);
    assert forall|i: int| 0 <= i < 64 implies bit(o ^ flipped, i) == bit(o2, i) by {
        assert(bit(flipped & o, i) == (bit(flipped, i) && bit(o, i)));
        assert(bit(o2, i) == (bit(o, i) && bit(!flipped, i)));
    }
    lemma_bit_ext(o ^ flipped, o2);
    lemma_keys_xor(p, gain, mover, 64);
    lemma_keys_xor(o, flipped, mover.other(), 64);
    let kp = keys(p, mover);
    let ko = keys(o, mover.other());
    let kg = keys(gain, mover);
    let kf = keys(flipped, mover.other());
    let w = SWAP_PLAYER;
    assert((kp ^ ko ^ 0) ^ kg ^ kf ^ w == (kp ^ kg) ^ (ko ^ kf) ^ w && (ko ^ kp ^ w) ^ kg ^ kf ^ w
        == (ko ^ kf) ^ (kp ^ kg) ^ 0) by (bit_vector);
}

/// The hash kept up to date over a pass is the hash of the new position.
pub proof fn lemma_hash_after_pass(black: u64, white: u64, player: Color)
    ensures
        hash_of(black, white, player) ^ SWAP_PLAYER == hash_of(black, white, player.other()),
{
    let kb = keys(black, Color::Black);
    let kw = keys(white, Color::White);
    let w = SWAP_PLAYER;
    assert((kb ^ kw ^ 0) ^ w == kb ^ kw ^ w && (kb ^ kw ^ w) ^ w == kb ^ kw ^ 0) by (bit_vector);
}

/// The two sides to move give different hashes.
pub proof fn lemma_hash_tells_turn(black: u64, white: u64)
    ensures
        hash_of(black, white, Color::Black) != hash_of(black, white, Color::White),
{
    let kb = keys(black, Color::Black);
    let kw = keys(white, Color::White);
    assert(kb ^ kw ^ 0 != kb ^ kw ^ SWAP_PLAYER) by (bit_vector);
}

} // verus!
