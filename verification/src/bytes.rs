//! Numbers in files: little-endian words of up to eight bytes.

use vstd::prelude::*;

verus! {

/// Two hundred and fifty-six to the power of `n`.
pub open spec fn pow256(n: nat) -> nat
    decreases n,
{
    if n == 0 {
        1
    } else {
        256 * pow256((n - 1) as nat)
    }
}

/// The number that the `n` bytes from `at` on show, the least significant byte
/// first.
pub open spec fn word(bytes: Seq<u8>, at: int, n: nat) -> nat
    decreases n,
{
    if n == 0 {
        0
    } else {
        bytes[at] as nat + 256 * word(bytes, at + 1, (n - 1) as nat)
    }
}

/// A word of `n` bytes is below the `n`-th power.
pub proof fn lemma_word_bound(bytes: Seq<u8>, at: int, n: nat)
    ensures
        word(bytes, at, n) < pow256(n),
    decreases n,
{
    if n > 0 {
        lemma_word_bound(bytes, at + 1, (n - 1) as nat);
    }
}

/// The powers that matter here.
pub proof fn lemma_pow256_values()
    ensures
        pow256(1) == 256,
        pow256(2) == 65536,
        pow256(4) == 4294967296,
        pow256(8) == 18446744073709551616,
{
    reveal_with_fuel(pow256, 9);
}

/// Equal bytes show equal words.
pub proof fn lemma_word_ext(a: Seq<u8>, at: int, b: Seq<u8>, bt: int, n: nat)
    requires
        forall|k: int| 0 <= k < n ==> #[trigger] a[at + k] == b[bt + k],
    ensures
        word(a, at, n) == word(b, bt, n),
    decreases n,
{
    if n > 0 {
        assert(a[at + 0] == b[bt + 0]);
        assert forall|k: int| 0 <= k < n - 1 implies #[trigger] a[at + 1 + k] == b[bt + 1 + k] by {
            assert(a[at + (k + 1)] == b[bt + (k + 1)]);
        }
        lemma_word_ext(a, at + 1, b, bt + 1, (n - 1) as nat);
    }
}

/// Equal words have equal bytes.
pub proof fn lemma_word_injective(a: Seq<u8>, at: int, b: Seq<u8>, bt: int, n: nat)
    requires
        word(a, at, n) == word(b, bt, n),
    ensures
        forall|k: int| 0 <= k < n ==> #[trigger] a[at + k] == b[bt + k],
    decreases n,
{
    if n > 0 {
        lemma_word_injective(a, at + 1, b, bt + 1, (n - 1) as nat);
        assert forall|k: int| 0 <= k < n implies #[trigger] a[at + k] == b[bt + k] by {
            if k > 0 {
                assert(a[at + 1 + (k - 1)] == b[bt + 1 + (k - 1)]);
            }
        }
    }
}

/// Powers grow.
proof fn lemma_pow256_mono(a: nat, b: nat)
    requires
        a <= b,
    ensures
        0 < pow256(a) <= pow256(b),
    decreases b,
{
    if b == 0 {
    } else if a < b {
        lemma_pow256_mono(a, (b - 1) as nat);
    } else {
        lemma_pow256_mono((a - 1) as nat, (b - 1) as nat);
    }
}

/// Read the word of `n` bytes from `at` on.
pub fn read_word(bytes: &[u8], at: usize, n: usize) -> (x: u64)
    requires
        n <= 8,
        at + n <= bytes@.len(),
    ensures
        x == word(bytes@, at as int, n as nat),
        x < pow256(n as nat),
    decreases n,
{
    proof {
        lemma_word_bound(bytes@, at as int, n as nat);
    }
    if n == 0 {
        0
    } else {
        let len: usize = bytes.len();
        assert(at + n <= len);
        let rest: u64 = read_word(bytes, at + 1, n - 1);
        proof {
            lemma_pow256_values();
            lemma_pow256_mono(n as nat, 8);
        }
        bytes[at] as u64 + 256 * rest
    }
}

/// Write a word of `n` bytes behind what is there.
pub fn push_word(v: &mut Vec<u8>, x: u64, n: usize)
    requires
        n <= 8,
        x < pow256(n as nat),
    ensures
        final(v)@.len() == old(v)@.len() + n,
        final(v)@.take(old(v)@.len() as int) == old(v)@,
        word(final(v)@, old(v)@.len() as int, n as nat) == x,
    decreases n,
{
    let ghost before = v@;
    if n > 0 {
        v.push((x % 256) as u8);
        let ghost mid = v@;
        push_word(v, x / 256, n - 1);
        proof {
            let end = v@;
            assert forall|k: int| 0 <= k < mid.len() implies end[k] == mid[k] by {
                assert(end.take(mid.len() as int)[k] == end[k]);
            }
            assert(end.take(before.len() as int) =~= before);
        }
    } else {
        assert(v@.take(before.len() as int) =~= before);
    }
}

} // verus!
