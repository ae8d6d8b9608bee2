//! Strings put together from characters and pieces.

use vstd::prelude::*;
use vstd::string::*;

verus! {

/// `String::push` appends one character.
pub assume_specification[ String::push ](s: &mut String, c: char)
    ensures
        final(s)@ == old(s)@.push(c),
;

/// The two pieces one behind the other.
pub fn joined(head: &str, tail: &str) -> (s: String)
    ensures
        s@ == head@ + tail@,
{
    let mut s: String = String::from_str(head);
    s.append(tail);
    s
}

/// The digits of a number in base ten.
pub open spec fn digits_of(n: nat) -> Seq<char>
    decreases n,
{
    let last = (48 + n % 10) as char;
    if n < 10 {
        seq![last]
    } else {
        digits_of(n / 10).push(last)
    }
}

/// A number written in base ten.
pub fn decimal(n: u64) -> (s: String)
    ensures
        s@ == digits_of(n as nat),
    decreases n,
{
    let last: char = (48u8 + (n % 10) as u8) as char;
    let mut s: String = if n < 10 {
        String::new()
    } else {
        decimal(n / 10)
    };
    s.push(last);
    assert(s@ =~= digits_of(n as nat));
    s
}

/// The two texts are the same.
pub fn same_text(a: &str, b: &str) -> (same: bool)
    ensures
        same == (a@ == b@),
{
    let n: usize = a.unicode_len();
    if n != b.unicode_len() {
        return false;
    }
    let mut i: usize = 0;
    while i < n
        invariant
            n == a@.len(),
            n == b@.len(),
            i <= n,
            forall|k: int| 0 <= k < i ==> a@[k] == b@[k],
        decreases n - i,
    {
        if a.get_char(i) != b.get_char(i) {
            return false;
        }
        i = i + 1;
    }
    assert(a@ =~= b@);
    true
}

/// The number that a row of digits shows, if there is nothing else and it is
/// not above `top`.
pub open spec fn digits_value(s: Seq<char>, top: int) -> Option<int>
    decreases s.len(),
{
    if s.len() == 0 {
        Some(0)
    } else {
        match digits_value(s.drop_last(), top) {
            Some(n) => if '0' <= s.last() <= '9' && n * 10 + (s.last() as int - 48) <= top {
                Some(n * 10 + (s.last() as int - 48))
            } else {
                None
            },
            None => None,
        }
    }
}

/// The number that a text shows: digits, with or without a plus sign before
/// them, not above `top`.
pub open spec fn number_in(s: Seq<char>, top: int) -> Option<int> {
    let digits = if s.len() > 0 && s[0] == '+' {
        s.skip(1)
    } else {
        s
    };
    if digits.len() == 0 {
        None
    } else {
        digits_value(digits, top)
    }
}

/// Where the first digits show no number, all of them show none.
proof fn lemma_digits_value(s: Seq<char>, n: int, top: int)
    requires
        0 <= n <= s.len(),
        digits_value(s.take(n), top) is None,
    ensures
        digits_value(s, top) is None,
    decreases s.len(),
{
    if n < s.len() {
        assert(s.drop_last().take(n) =~= s.take(n));
        lemma_digits_value(s.drop_last(), n, top);
    } else {
        assert(s.take(n) =~= s);
    }
}

/// Read a number from a text.
pub fn read_number(s: &str, top: u64) -> (r: Option<u64>)
    ensures
        match number_in(s@, top as int) {
            Some(n) => r == Some(n as u64) && 0 <= n <= top,
            None => r is None,
        },
{
    let len: usize = s.unicode_len();
    let start: usize = if len > 0 && s.get_char(0) == '+' {
        1
    } else {
        0
    };
    let ghost digits = s@.skip(start as int);
    assert(start == 0 ==> digits =~= s@);
    if start == len {
        return None;
    }
    let mut n: u64 = 0;
    let mut i: usize = start;
    assert(digits.take(0) =~= Seq::empty());
    while i < len
        invariant
            len == s@.len(),
            start <= i <= len,
            digits == s@.skip(start as int),
            number_in(s@, top as int) == digits_value(digits, top as int),
            digits_value(digits.take(i - start), top as int) == Some(n as int),
            n <= top,
        decreases len - i,
    {
        let c: char = s.get_char(i);
        let ghost part = digits.take(i - start + 1);
        assert(part.drop_last() =~= digits.take(i - start));
        assert(part.last() == c);
        if c < '0' || c > '9' {
            proof {
                lemma_digits_value(digits, i - start + 1, top as int);
            }
            return None;
        }
        let d: u64 = c as u64 - 48;
        let next: u128 = n as u128 * 10 + d as u128;
        if next > top as u128 {
            proof {
                lemma_digits_value(digits, i - start + 1, top as int);
            }
            return None;
        }
        n = next as u64;
        i = i + 1;
    }
    assert(digits.take(len - start) =~= digits);
    Some(n)
}

/// A number that was written is read back.
pub proof fn lemma_digits_read_back(n: nat, top: int)
    requires
        n <= top,
    ensures
        digits_of(n).len() > 0,
        digits_value(digits_of(n), top) == Some(n as int),
        forall|k: int| 0 <= k < digits_of(n).len() ==> '0' <= #[trigger] digits_of(n)[k] <= '9',
    decreases n,
{
    let s = digits_of(n);
    let last = (48 + n % 10) as char;
    assert(last as int == 48 + n % 10);
    if n >= 10 {
        lemma_digits_read_back(n / 10, top);
        assert(s.drop_last() =~= digits_of(n / 10));
    } else {
        assert(s.drop_last() =~= Seq::<char>::empty());
        reveal_with_fuel(digits_value, 2);
    }
}

/// The number of digits that a text starts with.
pub open spec fn leading(s: Seq<char>) -> int
    decreases s.len(),
{
    if s.len() > 0 && '0' <= s[0] <= '9' {
        1 + leading(s.skip(1))
    } else {
        0
    }
}

/// The number that the first `n` digits show, with zeros behind the last.
pub open spec fn whole(digits: Seq<char>, n: int) -> int
    decreases n,
{
    if n <= 0 {
        0
    } else {
        10 * whole(digits, n - 1) + (if n <= digits.len() {
            digits[n - 1] as int - 48
        } else {
            0
        })
    }
}

/// The power of ten that stands behind a number: nothing, or an `e` with a whole
/// number, with or without a sign.
pub open spec fn exponent_in(s: Seq<char>) -> Option<int> {
    if s.len() == 0 {
        Some(0)
    } else if s[0] == 'e' || s[0] == 'E' {
        let signed = s.len() > 1 && (s[1] == '+' || s[1] == '-');
        let digits = s.skip(if signed {
            2
        } else {
            1
        });
        if digits.len() == 0 || leading(digits) < digits.len() {
            None
        } else if signed && s[1] == '-' {
            Some(-whole(digits, digits.len() as int))
        } else {
            Some(whole(digits, digits.len() as int))
        }
    } else {
        None
    }
}

/// The digits of a number with their point left out, and how many of them stand
/// before it; none, when there is no digit or something else stands behind.
pub open spec fn decimal_in(s: Seq<char>) -> Option<(Seq<char>, int)> {
    let a = leading(s);
    let point = a < s.len() && s[a] == '.';
    let b = if point {
        leading(s.skip(a + 1))
    } else {
        0
    };
    let digits = if point {
        s.take(a) + s.skip(a + 1).take(b)
    } else {
        s.take(a)
    };
    let rest = if point {
        s.skip(a + 1).skip(b)
    } else {
        s.skip(a)
    };
    match exponent_in(rest) {
        Some(e) => if digits.len() > 0 {
            Some((digits, a + e))
        } else {
            None
        },
        None => None,
    }
}

/// The whole part of the number that a text shows, `top` if it is above that,
/// and 0 if it is below 0: digits with or without a point, a sign before them
/// and a power of ten behind.
pub open spec fn amount_in(s: Seq<char>, top: int) -> Option<int> {
    let signed = s.len() > 0 && (s[0] == '+' || s[0] == '-');
    let body = if signed {
        s.skip(1)
    } else {
        s
    };
    match decimal_in(body) {
        Some((digits, n)) => if signed && s[0] == '-' {
            Some(0)
        } else if whole(digits, n) > top {
            Some(top)
        } else {
            Some(whole(digits, n))
        },
        None => None,
    }
}

proof fn lemma_leading(s: Seq<char>)
    ensures
        0 <= leading(s) <= s.len(),
        forall|i: int| 0 <= i < leading(s) ==> '0' <= #[trigger] s[i] <= '9',
        leading(s) < s.len() ==> !('0' <= s[leading(s)] <= '9'),
    decreases s.len(),
{
    if s.len() > 0 && '0' <= s[0] <= '9' {
        lemma_leading(s.skip(1));
        assert forall|i: int| 0 <= i < leading(s) implies '0' <= #[trigger] s[i] <= '9' by {
            if i > 0 {
                assert('0' <= s.skip(1)[i - 1] <= '9');
            }
        }
    }
}

/// More digits show no less; zeros behind the last leave nothing or add up.
proof fn lemma_whole(digits: Seq<char>, n: int, m: int)
    requires
        n <= m,
        leading(digits) == digits.len(),
    ensures
        0 <= whole(digits, n) <= whole(digits, m),
        n >= digits.len() && whole(digits, n) == 0 ==> whole(digits, m) == 0,
        whole(digits, n) > 0 ==> whole(digits, m) >= m - n,
    decreases m,
{
    lemma_leading(digits);
    if m <= 0 {
    } else if n < m {
        lemma_whole(digits, n, m - 1);
    } else if n > 0 {
        lemma_whole(digits, n - 1, n - 1);
    }
}

/// Numbers of digits beyond all bounds show the same: nothing, or the top.
proof fn lemma_whole_far(digits: Seq<char>, n: int, m: int, top: int)
    requires
        leading(digits) == digits.len(),
        digits.len() + top < n <= m,
        top >= 0,
    ensures
        whole(digits, n) == whole(digits, m) || (whole(digits, n) > top && whole(digits, m) > top),
{
    let len = digits.len() as int;
    lemma_whole(digits, len, n);
    lemma_whole(digits, len, m);
}

/// Only the digits that are counted matter.
proof fn lemma_whole_prefix(s: Seq<char>, t: Seq<char>, n: int)
    requires
        n <= s.len(),
        n <= t.len(),
        forall|i: int| 0 <= i < n ==> s[i] == #[trigger] t[i],
    ensures
        whole(s, n) == whole(t, n),
    decreases n,
{
    if n > 0 {
        lemma_whole_prefix(s, t, n - 1);
        assert(s[n - 1] == t[n - 1]);
    }
}

/// A whole number reads the same as one with a fraction would.
pub proof fn lemma_amount_of_digits(s: Seq<char>, n: int, top: int)
    requires
        s.len() > 0,
        digits_value(s, top) == Some(n),
        forall|i: int| 0 <= i < s.len() ==> '0' <= #[trigger] s[i] <= '9',
    ensures
        amount_in(s, top) == Some(n),
{
    lemma_all_digits(s);
    lemma_whole_value(s, n, top);
    assert('0' <= s[0] <= '9');
    assert(s.take(s.len() as int) =~= s);
    assert(s.skip(s.len() as int).len() == 0);
}

proof fn lemma_all_digits(s: Seq<char>)
    requires
        forall|i: int| 0 <= i < s.len() ==> '0' <= #[trigger] s[i] <= '9',
    ensures
        leading(s) == s.len(),
    decreases s.len(),
{
    if s.len() > 0 {
        assert('0' <= s[0] <= '9');
        lemma_all_digits(s.skip(1));
    }
}

proof fn lemma_whole_value(s: Seq<char>, n: int, top: int)
    requires
        digits_value(s, top) == Some(n),
    ensures
        whole(s, s.len() as int) == n,
        s.len() > 0 ==> n <= top,
    decreases s.len(),
{
    if s.len() > 0 {
        let m = digits_value(s.drop_last(), top).unwrap();
        lemma_whole_value(s.drop_last(), m, top);
        lemma_whole_prefix(s, s.drop_last(), s.len() - 1);
    }
}

/// Where the digits from `lo` on end.
fn digits_end(v: &Vec<char>, lo: usize) -> (hi: usize)
    requires
        lo <= v@.len(),
    ensures
        hi == lo + leading(v@.skip(lo as int)),
        lo <= hi <= v@.len(),
{
    let mut i: usize = lo;
    while i < v.len() && '0' <= v[i] && v[i] <= '9'
        invariant
            lo <= i <= v@.len(),
            lo + leading(v@.skip(lo as int)) == i + leading(v@.skip(i as int)),
        decreases v@.len() - i,
    {
        assert(v@.skip(i as int)[0] == v@[i as int]);
        assert(v@.skip(i as int).skip(1) =~= v@.skip(i + 1));
        i = i + 1;
    }
    proof {
        if i < v@.len() {
            assert(v@.skip(i as int)[0] == v@[i as int]);
        }
    }
    i
}

/// The number that the first `n` digits show, `top` if it is above that.
fn count_digits(digits: &Vec<char>, n: u128, top: u128) -> (r: u128)
    requires
        leading(digits@) == digits@.len(),
        top <= 0x10_0000_0000_0000_0000_0000_0000,
    ensures
        r == (if whole(digits@, n as int) > top {
            top as int
        } else {
            whole(digits@, n as int)
        }),
{
    let mut r: u128 = 0;
    let mut i: u128 = 0;
    while i < n
        invariant
            i <= n,
            leading(digits@) == digits@.len(),
            top <= 0x10_0000_0000_0000_0000_0000_0000,
            r == whole(digits@, i as int),
            r <= top,
        decreases n - i,
    {
        proof {
            lemma_leading(digits@);
        }
        let d: u128 = if i < digits.len() as u128 {
            let c: char = digits[i as usize];
            c as u128 - 48
        } else {
            if r == 0 {
                proof {
                    lemma_whole(digits@, i as int, n as int);
                }
                return 0;
            }
            0
        };
        r = r * 10 + d;
        i = i + 1;
        if r > top {
            proof {
                lemma_whole(digits@, i as int, n as int);
            }
            return top;
        }
    }
    r
}

/// The characters from `lo` up to `hi`.
fn part(v: &Vec<char>, lo: usize, hi: usize) -> (r: Vec<char>)
    requires
        lo <= hi <= v@.len(),
    ensures
        r@ == v@.subrange(lo as int, hi as int),
{
    let mut r: Vec<char> = Vec::new();
    let mut i: usize = lo;
    while i < hi
        invariant
            lo <= i <= hi <= v@.len(),
            r@ == v@.subrange(lo as int, i as int),
        decreases hi - i,
    {
        r.push(v[i]);
        i = i + 1;
    }
    r
}

/// The power of ten from `lo` on, if there is one: whether it is below zero, and
/// how large it is, up to 2 to the 100.
fn read_exponent(v: &Vec<char>, lo: usize) -> (r: Option<(bool, u128)>)
    requires
        lo <= v@.len(),
    ensures
        match exponent_in(v@.skip(lo as int)) {
            None => r is None,
            Some(e) => r is Some && ({
                let size = if r.unwrap().0 {
                    -e
                } else {
                    e
                };
                &&& size >= 0
                &&& r.unwrap().1 == (if size > 0x10_0000_0000_0000_0000_0000_0000 {
                    0x10_0000_0000_0000_0000_0000_0000
                } else {
                    size
                })
            }),
        },
{
    let ghost s = v@.skip(lo as int);
    if lo == v.len() {
        return Some((false, 0));
    }
    assert(s[0] == v@[lo as int]);
    if v[lo] != 'e' && v[lo] != 'E' {
        return None;
    }
    assert(lo + 1 < v@.len() ==> s[1] == v@[lo + 1]);
    let signed: bool = lo + 1 < v.len() && (v[lo + 1] == '+' || v[lo + 1] == '-');
    let from: usize = if signed {
        lo + 2
    } else {
        lo + 1
    };
    assert(s.skip(from - lo) =~= v@.skip(from as int));
    let to: usize = digits_end(v, from);
    if from == v.len() || to < v.len() {
        return None;
    }
    let digits: Vec<char> = part(v, from, to);
    assert(digits@ =~= v@.skip(from as int));
    let size: u128 = count_digits(
        &digits,
        digits.len() as u128,
        0x10_0000_0000_0000_0000_0000_0000,
    );
    proof {
        lemma_whole(digits@, digits@.len() as int, digits@.len() as int);
    }
    Some((signed && v[lo + 1] == '-', size))
}

/// The digits from `lo` on with their point left out, and how many of them stand
/// before it: none where it is before the first, and no more than the largest
/// power of ten leaves.
fn read_decimal(v: &Vec<char>, lo: usize) -> (r: Option<(Vec<char>, u128)>)
    requires
        lo <= v@.len(),
    ensures
        match decimal_in(v@.skip(lo as int)) {
            None => r is None,
            Some((digits, n)) => r is Some && ({
                let count = r.unwrap().1;
                &&& r.unwrap().0@ == digits
                &&& leading(digits) == digits.len()
                &&& n <= 0 ==> count == 0
                &&& n > 0 ==> count == n || digits.len() + u64::MAX < count <= n
            }),
        },
{
    let ghost s = v@.skip(lo as int);
    let ghost n = leading(s);
    let a: usize = digits_end(v, lo);
    let mut digits: Vec<char> = part(v, lo, a);
    let mut end: usize = a;
    proof {
        lemma_leading(s);
        if a < v@.len() {
            assert(s[n] == v@[a as int]);
        }
        assert(digits@ =~= s.take(n));
        assert(s.skip(n) =~= v@.skip(a as int));
        assert forall|i: int| 0 <= i < n implies '0' <= #[trigger] digits@[i] <= '9' by {
            assert('0' <= s[i] <= '9');
        }
    }
    if a < v.len() && v[a] == '.' {
        end = digits_end(v, a + 1);
        let mut tail: Vec<char> = part(v, a + 1, end);
        let ghost rest = s.skip(n + 1);
        proof {
            assert(rest =~= v@.skip(a + 1));
            lemma_leading(rest);
            assert(tail@ =~= rest.take(leading(rest)));
            assert(rest.skip(leading(rest)) =~= v@.skip(end as int));
            assert forall|i: int| 0 <= i < tail@.len() implies '0' <= #[trigger] tail@[i]
                <= '9' by {
                assert('0' <= rest[i] <= '9');
            }
        }
        digits.append(&mut tail);
    }
    proof {
        lemma_all_digits(digits@);
    }
    let before: u128 = (a - lo) as u128;
    match read_exponent(v, end) {
        None => None,
        Some((below, e)) => {
            if digits.len() == 0 {
                return None;
            }
            let count: u128 = if !below {
                before + e
            } else if e < before {
                before - e
            } else {
                0
            };
            Some((digits, count))
        },
    }
}

/// Read the whole part of a number from the characters of a text.
pub fn read_amount(v: &Vec<char>, top: u64) -> (r: Option<u64>)
    ensures
        match amount_in(v@, top as int) {
            Some(n) => r == Some(n as u64) && 0 <= n <= top,
            None => r is None,
        },
{
    let signed: bool = v.len() > 0 && (v[0] == '+' || v[0] == '-');
    let lo: usize = if signed {
        1
    } else {
        0
    };
    assert(!signed ==> v@.skip(lo as int) =~= v@);
    match read_decimal(v, lo) {
        None => None,
        Some((digits, count)) => {
            if signed && v[0] == '-' {
                return Some(0);
            }
            let r: u128 = count_digits(&digits, count, top as u128);
            proof {
                let n = decimal_in(v@.skip(lo as int)).unwrap().1;
                if n > count {
                    lemma_whole_far(digits@, count as int, n, top as int);
                }
                lemma_whole(digits@, n, n);
            }
            Some(r as u64)
        },
    }
}

/// How numbers are read: a digit by itself is its number, a digit behind a number makes
/// it ten times as much and its own more, as far as the limit goes; a plus sign before
/// digits changes nothing; anything else is no number.
pub proof fn law_numbers_are_read(s: Seq<char>, c: char, top: int, i: int)
    requires
        0 <= top,
    ensures
        '0' <= c <= '9' && c as int - 48 <= top ==> number_in(seq![c], top) == Some(c as int - 48),
        s.len() > 0 && '0' <= c <= '9' ==> (number_in(s, top) matches Some(n) ==> number_in(s.push(c), top)
            == if 10 * n + (c as int - 48) <= top {
            Some(10 * n + (c as int - 48))
        } else {
            None
        }),
        s.len() > 0 && s[0] != '+' ==> number_in(seq!['+'] + s, top) == number_in(s, top),
        0 <= i < s.len() && !('0' <= s[i] <= '9') && !(i == 0 && s[i] == '+') ==> number_in(s, top) is None,
        number_in(Seq::empty(), top) is None,
        number_in(s, top) matches Some(n) ==> 0 <= n <= top,
{
    let one = seq![c];
    assert(one.drop_last() =~= Seq::<char>::empty());
    reveal_with_fuel(digits_value, 2);
    let plus = s.len() > 0 && s[0] == '+';
    let digits = if plus {
        s.skip(1)
    } else {
        s
    };
    let longer = s.push(c);
    if plus {
        assert(longer.skip(1) =~= digits.push(c));
    }
    assert(digits.push(c).drop_last() =~= digits);
    assert((seq!['+'] + s).skip(1) =~= s);
    if 0 <= i < s.len() && !('0' <= s[i] <= '9') && !(i == 0 && s[i] == '+') {
        let k = if plus {
            i - 1
        } else {
            i
        };
        assert(digits[k] == s[i]);
        lemma_no_other_characters(digits, top, k);
    }
    lemma_read_within(digits, top);
}

proof fn lemma_no_other_characters(s: Seq<char>, top: int, i: int)
    requires
        0 <= i < s.len(),
        !('0' <= s[i] <= '9'),
    ensures
        digits_value(s, top) is None,
    decreases s.len(),
{
    if i < s.len() - 1 {
        assert(s.drop_last()[i] == s[i]);
        lemma_no_other_characters(s.drop_last(), top, i);
    }
}

proof fn lemma_read_within(s: Seq<char>, top: int)
    requires
        0 <= top,
    ensures
        digits_value(s, top) matches Some(n) ==> 0 <= n <= top,
    decreases s.len(),
{
    if s.len() > 0 {
        lemma_read_within(s.drop_last(), top);
    }
}

} // verus!
