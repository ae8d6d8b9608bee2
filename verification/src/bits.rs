//! Bits of a 64-bit word, seen as a set of squares.

use vstd::prelude::*;
use vstd::std_specs::bits::u64_trailing_zeros;
use vstd::std_specs::bits::axiom_u64_trailing_zeros;

verus! {

/// Bit `i` of `b` is set.
pub open spec fn bit(b: u64, i: int) -> bool {
    (b >> (i as u64)) & 1 == 1
}

/// A bit of a union.
pub broadcast proof fn lemma_bit_or(a: u64, b: u64, i: int)
    requires
        0 <= i < 64,
    ensures
        #[trigger] bit(a | b, i) == (bit(a, i) || bit(b, i)),
{
    let j = i as u64;
    assert(((a | b) >> j) & 1 == 1 <==> ((a >> j) & 1 == 1 || (b >> j) & 1 == 1)) by (bit_vector);
}

/// A bit of an intersection.
pub broadcast proof fn lemma_bit_and(a: u64, b: u64, i: int)
    requires
        0 <= i < 64,
    ensures
        #[trigger] bit(a & b, i) == (bit(a, i) && bit(b, i)),
{
    let j = i as u64;
    assert(((a & b) >> j) & 1 == 1 <==> ((a >> j) & 1 == 1 && (b >> j) & 1 == 1)) by (bit_vector);
}

/// A bit of a symmetric difference.
pub broadcast proof fn lemma_bit_xor(a: u64, b: u64, i: int)
    requires
        0 <= i < 64,
    ensures
        #[trigger] bit(a ^ b, i) == (bit(a, i) != bit(b, i)),
{
    let j = i as u64;
    assert(((a ^ b) >> j) & 1 == 1 <==> !((a >> j) & 1 == 1 <==> (b >> j) & 1 == 1))
        by (bit_vector);
}

/// A bit of a complement.
pub broadcast proof fn lemma_bit_not(a: u64, i: int)
    requires
        0 <= i < 64,
    ensures
        #[trigger] bit(!a, i) == !bit(a, i),
{
    let j = i as u64;
    assert(j < 64 ==> (((!a) >> j) & 1 == 1 <==> !((a >> j) & 1 == 1))) by (bit_vector);
}

/// The word of one square.
pub broadcast proof fn lemma_bit_single(s: u64, i: int)
    requires
        0 <= i < 64,
        s < 64,
    ensures
        #[trigger] bit(1u64 << s, i) == (i == s),
{
    let j = i as u64;
    assert(s < 64 && j < 64 ==> (((1u64 << s) >> j) & 1 == 1 <==> j == s)) by (bit_vector);
}

/// The empty word has no bit.
pub broadcast proof fn lemma_bit_zero(i: int)
    requires
        0 <= i < 64,
    ensures
        #[trigger] bit(0u64, i) == false,
{
    let j = i as u64;
    assert((0u64 >> j) & 1 != 1) by (bit_vector);
}

pub broadcast group group_bits {
    lemma_bit_or,
    lemma_bit_and,
    lemma_bit_xor,
    lemma_bit_not,
    lemma_bit_single,
    lemma_bit_zero,
}

/// A masked word is at most the mask.
pub proof fn lemma_masked(a: u64, m: u64)
    ensures
        a & m <= m,
{
    assert(a & m <= m) by (bit_vector);
}

/// Powers of two below the thirty-second.
pub proof fn lemma_small_power(n: u64)
    requires
        n < 32,
    ensures
        1 <= (1u64 << n) <= 0x8000_0000,
{
    assert(n < 32 ==> 1 <= (1u64 << n) <= 0x8000_0000) by (bit_vector);
}

/// A bit of a word shifted up comes from below.
pub proof fn lemma_bit_shl(a: u64, k: u64, i: int)
    requires
        k < 64,
        0 <= i < 64,
    ensures
        bit(a << k, i) == (i >= k && bit(a, i - k)),
{
    let j = i as u64;
    let d = (i - k) as u64;
    if i >= k {
        assert((((a << k) >> j) & 1 == 1) == ((a >> d) & 1 == 1)) by (bit_vector)
            requires
                k < 64,
                j < 64,
                k <= j,
                d == j - k,
        ;
    } else {
        assert(((a << k) >> j) & 1 == 0) by (bit_vector)
            requires
                k < 64,
                j < k,
        ;
    }
}

/// A bit of a word shifted down comes from above.
pub proof fn lemma_bit_shr(a: u64, k: u64, i: int)
    requires
        k < 64,
        0 <= i < 64,
    ensures
        bit(a >> k, i) == (i + k < 64 && bit(a, i + k)),
{
    let j = i as u64;
    let d = (i + k) as u64;
    assert((((a >> k) >> j) & 1 == 1) == (j + k < 64 && (a >> d) & 1 == 1)) by (bit_vector)
        requires
            k < 64,
            j < 64,
            d == j + k,
    ;
}

/// Two words with the same bits are the same word.
pub proof fn lemma_bit_ext(a: u64, b: u64)
    requires
        forall|i: int| 0 <= i < 64 ==> bit(a, i) == bit(b, i),
    ensures
        a == b,
{
    if a != b {
        let x = a ^ b;
        assert(a != b ==> a ^ b != 0) by (bit_vector);
        axiom_u64_trailing_zeros(x);
        let t = u64_trailing_zeros(x) as int;
        assert(bit(x, t));
        lemma_bit_xor(a, b, t);
    }
}

/// Taking the lowest bit away leaves the others.
pub proof fn lemma_clear_lowest(b: u64)
    requires
        b != 0,
    ensures
        u64_trailing_zeros(b) < 64,
        bit(b, u64_trailing_zeros(b) as int),
        forall|i: int| 0 <= i < u64_trailing_zeros(b) ==> !bit(b, i),
        forall|i: int|
            0 <= i < 64 ==> #[trigger] bit((b & (b - 1) as u64), i) == (bit(b, i) && i
                != u64_trailing_zeros(b)),
{
    axiom_u64_trailing_zeros(b);
    let t = u64_trailing_zeros(b) as u64;
    let c = (b & (b - 1) as u64);
    assert forall|i: int| 0 <= i < u64_trailing_zeros(b) implies !bit(b, i) by {
        let j = i as u64;
        assert((b >> j) & 1u64 == 0u64);
    }
    assert forall|i: int| 0 <= i < 64 implies #[trigger] bit(c, i) == (bit(b, i) && i != t) by {
        let j = i as u64;
        assert(b != 0 && t < 64 && j < 64 && (b >> t) & 1 == 1 && b << ((64 - t) as u64) == 0 ==> (
        ((b & (b - 1) as u64) >> j) & 1 == 1 <==> ((b >> j) & 1 == 1 && j != t))) by (bit_vector);
    }
}

/// The word whose bits below `n` are the numbers that satisfy `f`.
pub open spec fn word_below(f: spec_fn(int) -> bool, n: nat) -> u64
    decreases n,
{
    if n == 0 {
        0
    } else if f(n - 1) {
        word_below(f, (n - 1) as nat) | (1u64 << ((n - 1) as u64))
    } else {
        word_below(f, (n - 1) as nat)
    }
}

/// The word whose bits are the squares that satisfy `f`.
pub open spec fn word_of(f: spec_fn(int) -> bool) -> u64 {
    word_below(f, 64)
}

proof fn lemma_word_below(f: spec_fn(int) -> bool, n: nat)
    requires
        n <= 64,
    ensures
        forall|i: int| 0 <= i < 64 ==> #[trigger] bit(word_below(f, n), i) == (i < n && f(i)),
    decreases n,
{
    broadcast use group_bits;

    if n > 0 {
        lemma_word_below(f, (n - 1) as nat);
        assert forall|i: int| 0 <= i < 64 implies #[trigger] bit(word_below(f, n), i) == (i < n && f(
            i,
        )) by {
            assert(bit(word_below(f, (n - 1) as nat), i) == (i < n - 1 && f(i)));
        }
    }
}

/// The bits of a word given by a predicate.
pub proof fn lemma_word_of(f: spec_fn(int) -> bool)
    ensures
        forall|i: int| 0 <= i < 64 ==> #[trigger] bit(word_of(f), i) == f(i),
{
    lemma_word_below(f, 64);
}

/// How many of the bits below `n` are set.
pub open spec fn count_below(b: u64, n: nat) -> nat
    decreases n,
{
    if n == 0 {
        0
    } else {
        count_below(b, (n - 1) as nat) + (if bit(b, n - 1) {
            1nat
        } else {
            0nat
        })
    }
}

/// How many bits of the word are set.
pub open spec fn count(b: u64) -> nat {
    count_below(b, 64)
}

/// The set bits below `n`, in ascending order.
pub open spec fn squares_below(b: u64, n: nat) -> Seq<u8>
    decreases n,
{
    if n == 0 {
        Seq::empty()
    } else if bit(b, n - 1) {
        squares_below(b, (n - 1) as nat).push((n - 1) as u8)
    } else {
        squares_below(b, (n - 1) as nat)
    }
}

/// The set bits of the word, in ascending order.
pub open spec fn squares(b: u64) -> Seq<u8> {
    squares_below(b, 64)
}

/// The list of squares holds as many entries as the word has bits.
pub proof fn lemma_squares_len(b: u64, n: nat)
    ensures
        squares_below(b, n).len() == count_below(b, n),
    decreases n,
{
    if n > 0 {
        lemma_squares_len(b, (n - 1) as nat);
    }
}

/// The list of squares is ascending and holds exactly the set bits.
pub proof fn lemma_squares(b: u64, n: nat)
    requires
        n <= 64,
    ensures
        forall|k: int|
            0 <= k < squares_below(b, n).len() ==> (#[trigger] squares_below(b, n)[k]) < n && bit(
                b,
                squares_below(b, n)[k] as int,
            ),
        forall|k: int, m: int|
            0 <= k < m < squares_below(b, n).len() ==> squares_below(b, n)[k] < squares_below(
                b,
                n,
            )[m],
        forall|i: int| 0 <= i < n && bit(b, i) ==> squares_below(b, n).contains(i as u8),
    decreases n,
{
    if n > 0 {
        let m = (n - 1) as nat;
        lemma_squares(b, m);
        let s = squares_below(b, m);
        let t = squares_below(b, n);
        assert forall|i: int| 0 <= i < n && bit(b, i) implies t.contains(i as u8) by {
            if i < n - 1 {
                let k = choose|k: int| 0 <= k < s.len() && s[k] == i as u8;
                assert(s.contains(i as u8));
                assert(t[k] == i as u8);
            } else {
                assert(t[t.len() - 1] == i as u8);
            }
        }
    }
}

/// Words without a common bit count separately.
pub proof fn lemma_count_sum(a: u64, b: u64, c: u64, n: nat)
    requires
        forall|i: int|
            0 <= i < n ==> #[trigger] bit(c, i) == (bit(a, i) || bit(b, i)) && !(bit(a, i) && bit(
                b,
                i,
            )),
    ensures
        count_below(c, n) == count_below(a, n) + count_below(b, n),
    decreases n,
{
    if n > 0 {
        assert(bit(c, n - 1) == (bit(a, n - 1) || bit(b, n - 1)));
        lemma_count_sum(a, b, c, (n - 1) as nat);
    }
}

/// A union of words without a common bit.
pub proof fn lemma_count_or(a: u64, b: u64)
    requires
        a & b == 0,
    ensures
        count(a | b) == count(a) + count(b),
{
    broadcast use group_bits;

    assert forall|i: int| 0 <= i < 64 implies #[trigger] bit(a | b, i) == (bit(a, i) || bit(b, i))
        && !(bit(a, i) && bit(b, i)) by {
        assert(bit(a & b, i) == (bit(a, i) && bit(b, i)));
        assert(!bit(0u64, i));
    }
    lemma_count_sum(a, b, a | b, 64);
}

/// At most every bit is set.
pub proof fn lemma_count_bound(b: u64, n: nat)
    ensures
        count_below(b, n) <= n,
    decreases n,
{
    if n > 0 {
        lemma_count_bound(b, (n - 1) as nat);
    }
}

/// Only the empty word has no bit.
pub proof fn lemma_count_zero(b: u64, n: nat)
    requires
        n <= 64,
    ensures
        count_below(b, n) == 0 <==> (forall|i: int| 0 <= i < n ==> !bit(b, i)),
        n == 64 ==> (count(b) == 0 <==> b == 0),
    decreases n,
{
    broadcast use group_bits;

    if n > 0 {
        lemma_count_zero(b, (n - 1) as nat);
        assert forall|i: int| count_below(b, n) == 0 && 0 <= i < n implies !bit(b, i) by {
            if i == n - 1 {
                assert(!bit(b, n - 1));
            }
        }
        if (forall|i: int| 0 <= i < n ==> !bit(b, i)) {
            assert(!bit(b, n - 1));
        }
    }
    if n == 64 {
        if count(b) == 0 {
            lemma_bit_ext(b, 0);
        }
        if b == 0 {
            assert forall|i: int| 0 <= i < 64 implies !bit(b, i) by {
                lemma_bit_zero(i);
            }
        }
    }
}

/// One square is one bit.
pub proof fn lemma_count_single(s: u64, n: nat)
    requires
        s < 64,
        n <= 64,
    ensures
        count_below(1u64 << s, n) == (if s < n {
            1nat
        } else {
            0nat
        }),
    decreases n,
{
    broadcast use group_bits;

    if n > 0 {
        lemma_count_single(s, (n - 1) as nat);
        assert(bit(1u64 << s, n - 1) == (n - 1 == s));
    }
}

/// A word with one bit more counts one more.
pub proof fn lemma_count_insert(rest: u64, s: int, b: u64)
    requires
        0 <= s < 64,
        !bit(rest, s),
        forall|i: int| 0 <= i < 64 ==> #[trigger] bit(b, i) == (bit(rest, i) || i == s),
    ensures
        count(b) == count(rest) + 1,
{
    broadcast use group_bits;

    let single = 1u64 << (s as u64);
    lemma_count_single(s as u64, 64);
    assert forall|i: int| 0 <= i < 64 implies #[trigger] bit(b, i) == (bit(single, i) || bit(
        rest,
        i,
    )) && !(bit(single, i) && bit(rest, i)) by {
        assert(bit(single, i) == (i == s));
    }
    lemma_count_sum(single, rest, b, 64);
}

/// Bit `s` is set.
pub fn test_bit(b: u64, s: u8) -> (on: bool)
    requires
        s < 64,
    ensures
        on == bit(b, s as int),
{
    (b >> (s as u64)) & 1 == 1
}

/// Number of set bits.
pub fn count_ones(b: u64) -> (n: u32)
    ensures
        n == count(b),
        n <= 64,
{
    let mut x: u64 = b;
    let mut n: u32 = 0;
    proof {
        lemma_count_bound(b, 64);
    }
    while x != 0
        invariant
            n + count(x) == count(b),
            count(b) <= 64,
        decreases x,
    {
        proof {
            broadcast use group_bits;

            lemma_clear_lowest(x);
            lemma_count_zero(x, 64);
            let t = u64_trailing_zeros(x) as u64;
            let rest = x & (x - 1) as u64;
            lemma_count_insert(rest, t as int, x);
            assert(rest < x) by (bit_vector)
                requires
                    rest == x & (x - 1) as u64,
                    x != 0,
            ;
        }
        x = x & (x - 1);
        n = n + 1;
    }
    proof {
        lemma_count_zero(x, 64);
    }
    n
}

/// The set bits in ascending order.
pub fn iter_bits(b: u64) -> (v: Vec<u8>)
    ensures
        v@ == squares(b),
{
    let mut v: Vec<u8> = Vec::new();
    let mut i: u8 = 0;
    while i < 64
        invariant
            i <= 64,
            v@ == squares_below(b, i as nat),
        decreases 64 - i,
    {
        if (b >> i) & 1 == 1 {
            v.push(i);
        }
        i = i + 1;
        assert(bit(b, i - 1) == ((b >> ((i - 1) as u64)) & 1 == 1));
    }
    v
}

} // verus!
