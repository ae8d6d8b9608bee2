//! Settings of a machine: where the engine's files are, how many threads it
//! uses, how fast it solves, and how large its tables are. One `key=value` a
//! line.

use vstd::prelude::*;
use vstd::string::*;

use crate::bytes::{read_word, word};
use crate::text::{
    amount_in, decimal, digits_of, joined, lemma_amount_of_digits, lemma_digits_read_back, number_in,
    read_amount, read_number, same_text,
};

verus! {

/// The smallest and the largest table sizes (powers of two) that are accepted.
pub const HASH_BITS_MIN: u32 = 16;

pub const HASH_BITS_MAX: u32 = 26;

/// A table size within the accepted sizes.
pub open spec fn accepted_bits(bits: u32) -> u32 {
    if bits < HASH_BITS_MIN {
        HASH_BITS_MIN
    } else if bits > HASH_BITS_MAX {
        HASH_BITS_MAX
    } else {
        bits
    }
}

/// Two to the power of `n`.
pub open spec fn power_of_two(n: nat) -> nat
    decreases n,
{
    if n == 0 {
        1
    } else {
        2 * power_of_two((n - 1) as nat)
    }
}

/// Powers of two grow.
proof fn lemma_powers(a: nat, b: nat)
    requires
        a <= b,
    ensures
        0 < power_of_two(a) <= power_of_two(b),
    decreases b,
{
    if b == 0 {
    } else if a < b {
        lemma_powers(a, (b - 1) as nat);
    } else {
        lemma_powers((a - 1) as nat, (b - 1) as nat);
    }
}

/// Two to the power of `n`.
fn two_to(n: u32) -> (x: u64)
    requires
        n <= 30,
    ensures
        x == power_of_two(n as nat),
        x <= 1_073_741_824,
{
    let mut x: u64 = 1;
    let mut k: u32 = 0;
    proof {
        reveal_with_fuel(power_of_two, 31);
        lemma_powers(n as nat, 30);
    }
    while k < n
        invariant
            k <= n <= 30,
            x == power_of_two(k as nat),
            power_of_two(30) == 1_073_741_824,
        decreases n - k,
    {
        proof {
            lemma_powers((k + 1) as nat, 30);
        }
        x = x * 2;
        k = k + 1;
    }
    x
}

/// Bytes of the midgame table: sixteen for each entry.
pub fn midgame_bytes(bits: u32) -> (n: u64)
    ensures
        n == power_of_two((accepted_bits(bits) + 4) as nat),
{
    let b: u32 = if bits < HASH_BITS_MIN {
        HASH_BITS_MIN
    } else if bits > HASH_BITS_MAX {
        HASH_BITS_MAX
    } else {
        bits
    };
    two_to(b + 4)
}

/// Bytes of the endgame table: twenty-four for each entry.
pub fn endgame_bytes(bits: u32) -> (n: u64)
    ensures
        n == 24 * power_of_two(accepted_bits(bits) as nat),
{
    let b: u32 = if bits < HASH_BITS_MIN {
        HASH_BITS_MIN
    } else if bits > HASH_BITS_MAX {
        HASH_BITS_MAX
    } else {
        bits
    };
    two_to(b) * 24
}

/// Settings; what is not set is at its default.
#[derive(Debug)]
pub struct Resources {
    /// Where files are that have no path of their own.
    pub dir: Option<String>,
    /// Weights of the linear evaluation.
    pub weights: Option<String>,
    /// Weights of the network.
    pub nnue: Option<String>,
    /// The opening book.
    pub book: Option<String>,
    pub threads: Option<usize>,
    /// Nodes a second of the endgame solver, by thread count.
    pub nps: Vec<(usize, u64)>,
    pub hash_mid: Option<u32>,
    pub hash_end: Option<u32>,
}

/// What the settings say.
#[verifier::ext_equal]
pub struct Settings {
    pub dir: Option<Seq<char>>,
    pub weights: Option<Seq<char>>,
    pub nnue: Option<Seq<char>>,
    pub book: Option<Seq<char>>,
    pub threads: Option<usize>,
    pub nps: Seq<(usize, u64)>,
    pub hash_mid: Option<u32>,
    pub hash_end: Option<u32>,
}

/// A text that may be absent.
pub open spec fn shown(s: Option<String>) -> Option<Seq<char>> {
    match s {
        Some(t) => Some(t@),
        None => None,
    }
}

impl Resources {
    /// What the settings say.
    pub open spec fn view(self) -> Settings {
        Settings {
            dir: shown(self.dir),
            weights: shown(self.weights),
            nnue: shown(self.nnue),
            book: shown(self.book),
            threads: self.threads,
            nps: self.nps@,
            hash_mid: self.hash_mid,
            hash_end: self.hash_end,
        }
    }
}

/// Every setting at its default.
pub open spec fn defaults() -> Settings {
    Settings {
        dir: None,
        weights: None,
        nnue: None,
        book: None,
        threads: None,
        nps: Seq::empty(),
        hash_mid: None,
        hash_end: None,
    }
}

/// Thread counts rise along the list.
pub open spec fn in_order(nps: Seq<(usize, u64)>) -> bool {
    forall|i: int, j: int| 0 <= i < j < nps.len() ==> (#[trigger] nps[i]).0 < (#[trigger] nps[j]).0
}

/// The list with a rate set: replaced where its thread count is listed, put in
/// its place where it is not.
pub open spec fn with_rate(nps: Seq<(usize, u64)>, threads: usize, rate: u64) -> Seq<(usize, u64)>
    decreases nps.len(),
{
    if nps.len() == 0 || nps.last().0 < threads {
        nps.push((threads, rate))
    } else if nps.last().0 == threads {
        nps.drop_last().push((threads, rate))
    } else {
        with_rate(nps.drop_last(), threads, rate).push(nps.last())
    }
}

/// Setting a rate keeps the list in order.
pub proof fn lemma_with_rate(nps: Seq<(usize, u64)>, threads: usize, rate: u64)
    requires
        in_order(nps),
    ensures
        in_order(with_rate(nps, threads, rate)),
        forall|i: int|
            0 <= i < with_rate(nps, threads, rate).len() ==> (#[trigger] with_rate(
                nps,
                threads,
                rate,
            )[i]).0 == threads || exists|j: int|
                0 <= j < nps.len() && nps[j] == with_rate(nps, threads, rate)[i],
        exists|i: int|
            0 <= i < with_rate(nps, threads, rate).len() && #[trigger] with_rate(
                nps,
                threads,
                rate,
            )[i] == (threads, rate),
    decreases nps.len(),
{
    let out = with_rate(nps, threads, rate);
    if nps.len() == 0 || nps.last().0 < threads {
        assert(out[nps.len() as int] == (threads, rate));
        assert forall|i: int, j: int| 0 <= i < j < out.len() implies (#[trigger] out[i]).0 < (
        #[trigger] out[j]).0 by {
            if j == nps.len() {
                if i < nps.len() - 1 {
                    assert(nps[i].0 < nps[nps.len() - 1].0);
                }
            }
        }
        assert forall|i: int| 0 <= i < out.len() implies (#[trigger] out[i]).0 == threads || exists|j: int|
            0 <= j < nps.len() && nps[j] == out[i] by {
            if i < nps.len() {
                assert(nps[i] == out[i]);
            }
        }
    } else if nps.last().0 == threads {
        let n = nps.len() - 1;
        assert(out[n] == (threads, rate));
        assert forall|i: int, j: int| 0 <= i < j < out.len() implies (#[trigger] out[i]).0 < (
        #[trigger] out[j]).0 by {
            assert(nps[i].0 < nps[j].0);
        }
        assert forall|i: int| 0 <= i < out.len() implies (#[trigger] out[i]).0 == threads || exists|j: int|
            0 <= j < nps.len() && nps[j] == out[i] by {
            if i < n {
                assert(nps[i] == out[i]);
            }
        }
    } else {
        let init = nps.drop_last();
        assert(in_order(init)) by {
            assert forall|i: int, j: int| 0 <= i < j < init.len() implies (#[trigger] init[i]).0 < (
            #[trigger] init[j]).0 by {
                assert(nps[i].0 < nps[j].0);
            }
        }
        lemma_with_rate(init, threads, rate);
        let inner = with_rate(init, threads, rate);
        let last = nps.last();
        assert forall|i: int| 0 <= i < inner.len() implies (#[trigger] inner[i]).0 < last.0 by {
            if inner[i].0 != threads {
                let j = choose|j: int| 0 <= j < init.len() && init[j] == inner[i];
                assert(nps[j].0 < nps[nps.len() - 1].0);
            }
        }
        assert forall|i: int, j: int| 0 <= i < j < out.len() implies (#[trigger] out[i]).0 < (
        #[trigger] out[j]).0 by {
            assert(inner[i].0 < last.0);
        }
        assert forall|i: int| 0 <= i < out.len() implies (#[trigger] out[i]).0 == threads || exists|j: int|
            0 <= j < nps.len() && nps[j] == out[i] by {
            if i < inner.len() {
                if inner[i].0 != threads {
                    let j = choose|j: int| 0 <= j < init.len() && init[j] == inner[i];
                    assert(nps[j] == out[i]);
                }
            } else {
                assert(nps[nps.len() - 1] == out[i]);
            }
        }
        let k = choose|i: int| 0 <= i < inner.len() && #[trigger] inner[i] == (threads, rate);
        assert(out[k] == (threads, rate));
    }
}

/// White space at the ends of a setting.
pub open spec fn is_space(c: char) -> bool {
    ||| '\u{9}' <= c <= '\u{d}'
    ||| c == ' '
    ||| c == '\u{85}'
    ||| c == '\u{a0}'
    ||| c == '\u{1680}'
    ||| '\u{2000}' <= c <= '\u{200a}'
    ||| c == '\u{2028}'
    ||| c == '\u{2029}'
    ||| c == '\u{202f}'
    ||| c == '\u{205f}'
    ||| c == '\u{3000}'
}

/// White space at the ends of a setting.
fn space(c: char) -> (yes: bool)
    ensures
        yes == is_space(c),
{
    ('\u{9}' <= c && c <= '\u{d}') || c == ' ' || c == '\u{85}' || c == '\u{a0}' || c == '\u{1680}'
        || ('\u{2000}' <= c && c <= '\u{200a}') || c == '\u{2028}' || c == '\u{2029}' || c
        == '\u{202f}' || c == '\u{205f}' || c == '\u{3000}'
}

/// The text without white space before it.
pub open spec fn front_trimmed(s: Seq<char>) -> Seq<char>
    decreases s.len(),
{
    if s.len() > 0 && is_space(s[0]) {
        front_trimmed(s.skip(1))
    } else {
        s
    }
}

/// The text without white space behind it.
pub open spec fn back_trimmed(s: Seq<char>) -> Seq<char>
    decreases s.len(),
{
    if s.len() > 0 && is_space(s.last()) {
        back_trimmed(s.drop_last())
    } else {
        s
    }
}

/// The text without white space at its ends.
pub open spec fn trimmed(s: Seq<char>) -> Seq<char> {
    back_trimmed(front_trimmed(s))
}

/// Where the character first stands; the length of the text if nowhere.
pub open spec fn find(s: Seq<char>, c: char) -> int
    decreases s.len(),
{
    if s.len() == 0 || s[0] == c {
        0
    } else {
        1 + find(s.skip(1), c)
    }
}

/// Where the character first stands.
pub proof fn lemma_find(s: Seq<char>, c: char)
    ensures
        0 <= find(s, c) <= s.len(),
        find(s, c) < s.len() ==> s[find(s, c)] == c,
        forall|i: int| 0 <= i < find(s, c) ==> #[trigger] s[i] != c,
    decreases s.len(),
{
    if s.len() > 0 && s[0] != c {
        lemma_find(s.skip(1), c);
        assert forall|i: int| 0 <= i < find(s, c) implies #[trigger] s[i] != c by {
            if i > 0 {
                assert(s.skip(1)[i - 1] != c);
            }
        }
    }
}

/// The character first stands where it stands with none before it.
pub proof fn lemma_found(s: Seq<char>, c: char, n: int)
    requires
        0 <= n <= s.len(),
        n < s.len() ==> s[n] == c,
        forall|i: int| 0 <= i < n ==> #[trigger] s[i] != c,
    ensures
        find(s, c) == n,
{
    lemma_find(s, c);
    let m = find(s, c);
    if m < n {
        assert(s[m] != c);
    }
}

/// The settings after one line has been read.
pub open spec fn with_line(r: Settings, line: Seq<char>) -> Settings {
    let s = trimmed(line);
    let at = find(s, '=');
    if s.len() == 0 || s[0] == '#' || at == s.len() {
        r
    } else {
        with_setting(r, trimmed(s.take(at)), trimmed(s.skip(at + 1)))
    }
}

/// The settings after a key has been set.
pub open spec fn with_setting(r: Settings, key: Seq<char>, value: Seq<char>) -> Settings {
    if value.len() == 0 {
        r
    } else if key == "dir"@ {
        Settings { dir: Some(value), ..r }
    } else if key == "weights"@ {
        Settings { weights: Some(value), ..r }
    } else if key == "nnue"@ {
        Settings { nnue: Some(value), ..r }
    } else if key == "book"@ {
        Settings { book: Some(value), ..r }
    } else if key == "threads"@ {
        Settings {
            threads: match number_in(value, usize::MAX as int) {
                Some(n) => Some(n as usize),
                None => None,
            },
            ..r
        }
    } else if key == "hash_mid"@ {
        Settings { hash_mid: small_number(value), ..r }
    } else if key == "hash_end"@ {
        Settings { hash_end: small_number(value), ..r }
    } else {
        match rate_in(key, value) {
            Some((t, n)) => Settings { nps: with_rate(r.nps, t, n), ..r },
            None => r,
        }
    }
}

/// A number of 32 bits.
pub open spec fn small_number(value: Seq<char>) -> Option<u32> {
    match number_in(value, u32::MAX as int) {
        Some(n) => Some(n as u32),
        None => None,
    }
}

/// The thread count and the rate that a setting names. Rates are held whole: a
/// fraction is cut off, and a rate below zero is none.
pub open spec fn rate_in(key: Seq<char>, value: Seq<char>) -> Option<(usize, u64)> {
    if key.len() >= 4 && key.take(4) == "nps."@ {
        match (number_in(key.skip(4), usize::MAX as int), amount_in(value, u64::MAX as int)) {
            (Some(t), Some(n)) => Some((t as usize, n as u64)),
            _ => None,
        }
    } else {
        None
    }
}

/// The settings after the lines of a text have been read.
pub open spec fn with_text(r: Settings, s: Seq<char>) -> Settings
    decreases s.len(),
{
    let at = find(s, '\n');
    if at < 0 || at >= s.len() {
        with_line(r, s)
    } else {
        with_text(with_line(r, s.take(at)), s.skip(at + 1))
    }
}

/// The characters of a text.
fn chars_of(s: &str) -> (v: Vec<char>)
    ensures
        v@ == s@,
{
    let n: usize = s.unicode_len();
    let mut v: Vec<char> = Vec::new();
    let mut i: usize = 0;
    while i < n
        invariant
            n == s@.len(),
            i <= n,
            v@ == s@.take(i as int),
        decreases n - i,
    {
        v.push(s.get_char(i));
        i = i + 1;
        assert(v@ =~= s@.take(i as int));
    }
    assert(s@.take(n as int) =~= s@);
    v
}

/// Part of a row of characters, as a text.
fn text_from(v: &Vec<char>, lo: usize, hi: usize) -> (s: String)
    requires
        lo <= hi <= v@.len(),
    ensures
        s@ == v@.subrange(lo as int, hi as int),
{
    let mut s: String = String::new();
    let mut i: usize = lo;
    while i < hi
        invariant
            lo <= i <= hi <= v@.len(),
            s@ == v@.subrange(lo as int, i as int),
        decreases hi - i,
    {
        s.push(v[i]);
        i = i + 1;
        assert(s@ =~= v@.subrange(lo as int, i as int));
    }
    s
}

/// The part of a row of characters without white space at its ends.
fn trim_part(v: &Vec<char>, lo: usize, hi: usize) -> (r: (usize, usize))
    requires
        lo <= hi <= v@.len(),
    ensures
        lo <= r.0 <= r.1 <= hi,
        v@.subrange(r.0 as int, r.1 as int) == trimmed(v@.subrange(lo as int, hi as int)),
{
    let ghost whole = v@.subrange(lo as int, hi as int);
    let mut a: usize = lo;
    while a < hi && space(v[a])
        invariant
            lo <= a <= hi <= v@.len(),
            front_trimmed(v@.subrange(a as int, hi as int)) == front_trimmed(whole),
        decreases hi - a,
    {
        assert(v@.subrange(a as int, hi as int).skip(1) =~= v@.subrange(a + 1, hi as int));
        a = a + 1;
    }
    let ghost front = v@.subrange(a as int, hi as int);
    assert(front == front_trimmed(whole)) by {
        if a < hi {
            assert(!is_space(front[0]));
        }
    }
    let mut b: usize = hi;
    while b > a && space(v[b - 1])
        invariant
            lo <= a <= b <= hi <= v@.len(),
            back_trimmed(v@.subrange(a as int, b as int)) == back_trimmed(front),
        decreases b,
    {
        assert(v@.subrange(a as int, b as int).drop_last() =~= v@.subrange(a as int, b - 1));
        b = b - 1;
    }
    assert(v@.subrange(a as int, b as int) == back_trimmed(front)) by {
        if a < b {
            assert(!is_space(v@.subrange(a as int, b as int).last()));
        }
    }
    (a, b)
}

/// Where a character first stands in a part of a row.
fn find_in(v: &Vec<char>, lo: usize, hi: usize, c: char) -> (at: usize)
    requires
        lo <= hi <= v@.len(),
    ensures
        lo <= at <= hi,
        at - lo == find(v@.subrange(lo as int, hi as int), c),
{
    let ghost part = v@.subrange(lo as int, hi as int);
    let mut i: usize = lo;
    while i < hi && v[i] != c
        invariant
            lo <= i <= hi <= v@.len(),
            part == v@.subrange(lo as int, hi as int),
            forall|k: int| 0 <= k < i - lo ==> #[trigger] part[k] != c,
        decreases hi - i,
    {
        i = i + 1;
    }
    proof {
        lemma_found(part, c, i - lo);
    }
    i
}

impl Resources {
    /// Every setting at its default.
    pub fn new() -> (r: Resources)
        ensures
            r@ == defaults(),
    {
        Resources {
            dir: None,
            weights: None,
            nnue: None,
            book: None,
            threads: None,
            nps: Vec::new(),
            hash_mid: None,
            hash_end: None,
        }
    }

    /// Set the rate of a thread count.
    pub fn set_nps(&mut self, threads: usize, rate: u64)
        ensures
            final(self)@ == (Settings { nps: with_rate(old(self)@.nps, threads, rate), ..old(self)@ }),
            in_order(old(self).nps@) ==> in_order(final(self).nps@),
    {
        let ghost list = self.nps@;
        proof {
            if in_order(list) {
                lemma_with_rate(list, threads, rate);
            }
        }
        let mut behind: Vec<(usize, u64)> = Vec::new();
        let mut head: Vec<(usize, u64)> = Vec::new();
        std::mem::swap(&mut head, &mut self.nps);
        let ghost goal = with_rate(list, threads, rate);
        proof {
            assert(with_rate(head@, threads, rate) + reversed(behind@) =~= goal);
        }
        while head.len() > 0 && head[head.len() - 1].0 > threads
            invariant
                with_rate(head@, threads, rate) + reversed(behind@) == goal,
            decreases head@.len(),
        {
            let ghost before = head@;
            let ghost tail = behind@;
            let last: (usize, u64) = head[head.len() - 1];
            head.pop();
            behind.push(last);
            proof {
                assert(head@ =~= before.drop_last());
                assert(reversed(behind@) =~= seq![last] + reversed(tail));
                assert(with_rate(head@, threads, rate) + reversed(behind@) =~= with_rate(
                    before,
                    threads,
                    rate,
                ) + reversed(tail));
            }
        }
        if head.len() > 0 && head[head.len() - 1].0 == threads {
            let ghost before = head@;
            head.pop();
            assert(head@ =~= before.drop_last());
        }
        head.push((threads, rate));
        while behind.len() > 0
            invariant
                head@ + reversed(behind@) == goal,
            decreases behind@.len(),
        {
            let ghost before = head@;
            let ghost tail = behind@;
            let last: (usize, u64) = behind[behind.len() - 1];
            behind.pop();
            head.push(last);
            proof {
                assert(behind@ =~= tail.drop_last());
                assert(reversed(tail) =~= seq![last] + reversed(behind@));
                assert(head@ + reversed(behind@) =~= before + reversed(tail));
            }
        }
        assert(head@ =~= goal);
        self.nps = head;
    }

    /// Read one setting.
    fn set(&mut self, key: &String, value: String)
        ensures
            final(self)@ == with_setting(old(self)@, key@, value@),
    {
        proof {
            reveal_strlit("nps.");
        }
        if value.as_str().unicode_len() == 0 {
            return;
        }
        if same_text(key.as_str(), "dir") {
            self.dir = Some(value);
        } else if same_text(key.as_str(), "weights") {
            self.weights = Some(value);
        } else if same_text(key.as_str(), "nnue") {
            self.nnue = Some(value);
        } else if same_text(key.as_str(), "book") {
            self.book = Some(value);
        } else if same_text(key.as_str(), "threads") {
            self.threads = match read_number(value.as_str(), usize::MAX as u64) {
                Some(n) => Some(n as usize),
                None => None,
            };
        } else if same_text(key.as_str(), "hash_mid") {
            self.hash_mid = match read_number(value.as_str(), u32::MAX as u64) {
                Some(n) => Some(n as u32),
                None => None,
            };
        } else if same_text(key.as_str(), "hash_end") {
            self.hash_end = match read_number(value.as_str(), u32::MAX as u64) {
                Some(n) => Some(n as u32),
                None => None,
            };
        } else {
            match rate_of(key.as_str(), value.as_str()) {
                Some((t, n)) => {
                    self.set_nps(t, n);
                },
                None => {},
            }
        }
    }

    /// The settings that a text holds, one a line. Lines that start with `#`,
    /// that have no `=` or no value, or whose key is unknown say nothing. A
    /// thread count or a table size that is not a number goes to its default;
    /// of several lines for one key the last counts.
    pub fn read(text: &str) -> (r: Resources)
        ensures
            r@ == with_text(defaults(), text@),
    {
        let v: Vec<char> = chars_of(text);
        let n: usize = v.len();
        let mut r: Resources = Resources::new();
        let mut lo: usize = 0;
        assert(v@.subrange(0, n as int) =~= text@);
        loop
            invariant_except_break
                n == v@.len(),
                lo <= n,
                with_text(r@, v@.subrange(lo as int, n as int)) == with_text(defaults(), text@),
            ensures
                r@ == with_text(defaults(), text@),
            decreases n - lo,
        {
            let end: usize = find_in(&v, lo, n, '\n');
            let ghost rest = v@.subrange(lo as int, n as int);
            let ghost line = v@.subrange(lo as int, end as int);
            let ghost before = r@;
            assert(end < n ==> rest.take(end - lo) =~= line);
            assert(end == n ==> rest =~= line);
            let (a, b): (usize, usize) = trim_part(&v, lo, end);
            let ghost s = v@.subrange(a as int, b as int);
            if a < b && v[a] != '#' {
                let at: usize = find_in(&v, a, b, '=');
                if at < b {
                    let (c, d): (usize, usize) = trim_part(&v, a, at);
                    let (e, f): (usize, usize) = trim_part(&v, at + 1, b);
                    assert(v@.subrange(a as int, at as int) =~= s.take(at - a));
                    assert(v@.subrange(at + 1, b as int) =~= s.skip(at - a + 1));
                    let key: String = text_from(&v, c, d);
                    let value: String = text_from(&v, e, f);
                    r.set(&key, value);
                }
            }
            assert(r@ == with_line(before, line));
            if end == n {
                break;
            }
            assert(rest.skip(end - lo + 1) =~= v@.subrange(end + 1, n as int));
            lo = end + 1;
        }
        r
    }

    /// The rate to count on for a thread count: the one that was measured; if
    /// there is none, what the other thread counts give when rates are taken to
    /// grow with the threads, and of that the lowest.
    pub fn nps_for(&self, threads: usize) -> (r: Option<u128>)
        ensures
            match measured(self.nps@, threads) {
                Some(n) => r == Some(n as u128),
                None => match lowest(self.nps@, threads, self.nps@.len() as int) {
                    Some(n) => r == Some(n as u128) && n == r.unwrap(),
                    None => r is None,
                },
            },
    {
        let mut i: usize = 0;
        assert(self.nps@.skip(0) =~= self.nps@);
        while i < self.nps.len()
            invariant
                i <= self.nps@.len(),
                measured(self.nps@, threads) == measured(self.nps@.skip(i as int), threads),
            decreases self.nps@.len() - i,
        {
            let ghost rest = self.nps@.skip(i as int);
            assert(rest[0] == self.nps@[i as int]);
            assert(rest.skip(1) =~= self.nps@.skip(i + 1));
            let (t, n): (usize, u64) = self.nps[i];
            if t == threads && n > 0 {
                return Some(n as u128);
            }
            i = i + 1;
        }
        let mut best: Option<u128> = None;
        let mut j: usize = 0;
        while j < self.nps.len()
            invariant
                j <= self.nps@.len(),
                match lowest(self.nps@, threads, j as int) {
                    Some(n) => best is Some && n == best.unwrap(),
                    None => best is None,
                },
            decreases self.nps@.len() - j,
        {
            let (t, n): (usize, u64) = self.nps[j];
            if t > 0 && n > 0 {
                assert(0 <= n as int * threads as int <= u64::MAX as int * u64::MAX as int)
                    by (nonlinear_arith)
                    requires
                        0 <= n <= u64::MAX,
                        0 <= threads <= u64::MAX,
                ;
                let x: u128 = n as u128 * threads as u128 / t as u128;
                best = match best {
                    None => Some(x),
                    Some(b) => if x < b {
                        Some(x)
                    } else {
                        Some(b)
                    },
                };
            }
            j = j + 1;
        }
        best
    }

    /// The size of the midgame table; sizes that are not accepted count as not
    /// set.
    pub fn hash_mid_bits(&self) -> (b: u32)
        ensures
            b == match self.hash_mid {
                Some(b) => if HASH_BITS_MIN <= b <= HASH_BITS_MAX {
                    b
                } else {
                    22
                },
                None => 22,
            },
    {
        match self.hash_mid {
            Some(b) => if HASH_BITS_MIN <= b && b <= HASH_BITS_MAX {
                b
            } else {
                22
            },
            None => 22,
        }
    }

    /// The size of the endgame table; sizes that are not accepted count as not
    /// set.
    pub fn hash_end_bits(&self) -> (b: u32)
        ensures
            b == match self.hash_end {
                Some(b) => if HASH_BITS_MIN <= b <= HASH_BITS_MAX {
                    b
                } else {
                    24
                },
                None => 24,
            },
    {
        match self.hash_end {
            Some(b) => if HASH_BITS_MIN <= b && b <= HASH_BITS_MAX {
                b
            } else {
                24
            },
            None => 24,
        }
    }

    /// The directory of the files; `standard` where none is set.
    pub fn dir(&self, standard: &str) -> (s: String)
        ensures
            s@ == or_standard(self@.dir, standard@),
    {
        match &self.dir {
            Some(d) => String::from_str(d.as_str()),
            None => String::from_str(standard),
        }
    }

    /// The path of a file: its own, or its name in the directory.
    fn path(own: &Option<String>, dir: &String, name: &str) -> (s: String)
        ensures
            s@ == path_or(shown(*own), dir@, name@),
    {
        match own {
            Some(p) => String::from_str(p.as_str()),
            None => {
                let mut s: String = String::from_str(dir.as_str());
                let n: usize = dir.as_str().unicode_len();
                if n > 0 && dir.as_str().get_char(n - 1) != '/' {
                    s.push('/');
                }
                s.append(name);
                s
            },
        }
    }

    /// Where the weights of the linear evaluation are.
    pub fn weights_path(&self, standard: &str) -> (s: String)
        ensures
            s@ == path_or(self@.weights, or_standard(self@.dir, standard@), "linear.bin"@),
    {
        let dir: String = self.dir(standard);
        Self::path(&self.weights, &dir, "linear.bin")
    }

    /// Where the weights of the network are.
    pub fn nnue_path(&self, standard: &str) -> (s: String)
        ensures
            s@ == path_or(self@.nnue, or_standard(self@.dir, standard@), "nnue-h16.bin"@),
    {
        let dir: String = self.dir(standard);
        Self::path(&self.nnue, &dir, "nnue-h16.bin")
    }

    /// Where the opening book is.
    pub fn book_path(&self, standard: &str) -> (s: String)
        ensures
            s@ == path_or(self@.book, or_standard(self@.dir, standard@), "book.txt"@),
    {
        let dir: String = self.dir(standard);
        Self::path(&self.book, &dir, "book.txt")
    }

    /// The text of the settings.
    pub fn write(&self) -> (s: String)
        ensures
            s@ == text_of(self@),
    {
        let mut s: String = String::from_str("# Locations of the files Kuroobi uses\n");
        put_path(&mut s, "dir=", &self.dir);
        put_path(&mut s, "weights=", &self.weights);
        put_path(&mut s, "nnue=", &self.nnue);
        put_path(&mut s, "book=", &self.book);
        match self.threads {
            Some(n) => put_line(&mut s, "threads=", decimal(n as u64).as_str()),
            None => {},
        }
        let ghost head = s@;
        let mut i: usize = 0;
        assert(rate_lines(self.nps@, 0) =~= Seq::<char>::empty());
        assert(head + rate_lines(self.nps@, 0) =~= head);
        while i < self.nps.len()
            invariant
                i <= self.nps@.len(),
                s@ == head + rate_lines(self.nps@, i as int),
            decreases self.nps@.len() - i,
        {
            let (t, n): (usize, u64) = self.nps[i];
            let key: String = joined("nps.", decimal(t as u64).as_str());
            let start: String = joined(key.as_str(), "=");
            put_line(&mut s, start.as_str(), decimal(n).as_str());
            proof {
                reveal_strlit("nps.");
                reveal_strlit("=");
                assert(s@ =~= head + rate_lines(self.nps@, i + 1));
            }
            i = i + 1;
        }
        match self.hash_mid {
            Some(n) => put_line(&mut s, "hash_mid=", decimal(n as u64).as_str()),
            None => {},
        }
        match self.hash_end {
            Some(n) => put_line(&mut s, "hash_end=", decimal(n as u64).as_str()),
            None => {},
        }
        assert(s@ =~= text_of(self@));
        s
    }
}

/// A list backwards.
spec fn reversed(s: Seq<(usize, u64)>) -> Seq<(usize, u64)> {
    Seq::new(s.len(), |i: int| s[s.len() - 1 - i])
}

/// The thread count and the rate that a setting names.
fn rate_of(key: &str, value: &str) -> (r: Option<(usize, u64)>)
    ensures
        r == rate_in(key@, value@),
{
    proof {
        reveal_strlit("nps.");
    }
    let v: Vec<char> = chars_of(key);
    if v.len() < 4 {
        return None;
    }
    let head: String = text_from(&v, 0, 4);
    assert(v@.subrange(0, 4) =~= key@.take(4));
    if !same_text(head.as_str(), "nps.") {
        return None;
    }
    let tail: String = text_from(&v, 4, v.len());
    assert(v@.subrange(4, v@.len() as int) =~= key@.skip(4));
    let amount: Vec<char> = chars_of(value);
    match (read_number(tail.as_str(), usize::MAX as u64), read_amount(&amount, u64::MAX)) {
        (Some(t), Some(n)) => Some((t as usize, n)),
        _ => None,
    }
}

/// The rate that was measured for the thread count.
pub open spec fn measured(nps: Seq<(usize, u64)>, threads: usize) -> Option<u64>
    decreases nps.len(),
{
    if nps.len() == 0 {
        None
    } else if nps[0].0 == threads && nps[0].1 > 0 {
        Some(nps[0].1)
    } else {
        measured(nps.skip(1), threads)
    }
}

/// The lowest of the rates that the first `n` thread counts give, rounded down.
pub open spec fn lowest(nps: Seq<(usize, u64)>, threads: usize, n: int) -> Option<int>
    decreases n,
{
    if n <= 0 {
        None
    } else {
        let (t, rate) = nps[n - 1];
        let before = lowest(nps, threads, n - 1);
        if t > 0 && rate > 0 {
            let x = rate as int * threads as int / t as int;
            match before {
                None => Some(x),
                Some(b) => Some(
                    if x < b {
                        x
                    } else {
                        b
                    },
                ),
            }
        } else {
            before
        }
    }
}

/// The text, or the standard one.
pub open spec fn or_standard(s: Option<Seq<char>>, standard: Seq<char>) -> Seq<char> {
    match s {
        Some(t) => t,
        None => standard,
    }
}

/// A path, or a file's name in a directory.
pub open spec fn path_or(own: Option<Seq<char>>, dir: Seq<char>, name: Seq<char>) -> Seq<char> {
    match own {
        Some(p) => p,
        None => if dir.len() > 0 && dir.last() != '/' {
            dir.push('/') + name
        } else {
            dir + name
        },
    }
}

/// A line of the text, if there is a value.
pub open spec fn line_of(start: Seq<char>, value: Option<Seq<char>>) -> Seq<char> {
    match value {
        Some(v) => start + v + seq!['\n'],
        None => Seq::empty(),
    }
}

/// A number in digits, if there is one.
pub open spec fn digits_or(n: Option<int>) -> Option<Seq<char>> {
    match n {
        Some(n) => Some(digits_of(n as nat)),
        None => None,
    }
}

/// A number that may be absent.
pub open spec fn int_or_size(n: Option<usize>) -> Option<int> {
    match n {
        Some(n) => Some(n as int),
        None => None,
    }
}

/// A number that may be absent.
pub open spec fn int_or_word(n: Option<u32>) -> Option<int> {
    match n {
        Some(n) => Some(n as int),
        None => None,
    }
}

/// The lines of the first `n` rates.
pub open spec fn rate_lines(nps: Seq<(usize, u64)>, n: int) -> Seq<char>
    decreases n,
{
    if n <= 0 {
        Seq::empty()
    } else {
        rate_lines(nps, n - 1) + line_of(
            "nps."@ + digits_of(nps[n - 1].0 as nat) + "="@,
            Some(digits_of(nps[n - 1].1 as nat)),
        )
    }
}

/// The text of the settings: a line of words, the paths, the threads, the rates
/// and the table sizes.
pub open spec fn text_of(r: Settings) -> Seq<char> {
    "# Locations of the files Kuroobi uses\n"@ + line_of("dir="@, r.dir) + line_of(
        "weights="@,
        r.weights,
    ) + line_of("nnue="@, r.nnue) + line_of("book="@, r.book) + line_of(
        "threads="@,
        digits_or(int_or_size(r.threads)),
    ) + rate_lines(r.nps, r.nps.len() as int) + line_of(
        "hash_mid="@,
        digits_or(int_or_word(r.hash_mid)),
    ) + line_of("hash_end="@, digits_or(int_or_word(r.hash_end)))
}

/// Add a line to the text.
fn put_line(s: &mut String, start: &str, value: &str)
    ensures
        final(s)@ == old(s)@ + line_of(start@, Some(value@)),
{
    let ghost before = s@;
    s.append(start);
    s.append(value);
    s.push('\n');
    assert(s@ =~= before + line_of(start@, Some(value@)));
}

/// Add a line to the text, if there is a value.
fn put_path(s: &mut String, start: &str, value: &Option<String>)
    ensures
        final(s)@ == old(s)@ + line_of(start@, shown(*value)),
{
    match value {
        Some(v) => put_line(s, start, v.as_str()),
        None => {
            assert(s@ + Seq::<char>::empty() =~= s@);
        },
    }
}

/// A value that a line can hold: not empty, without white space at its ends, and
/// without a line break.
pub open spec fn holdable(s: Seq<char>) -> bool {
    &&& s.len() > 0
    &&& !is_space(s[0])
    &&& !is_space(s.last())
    &&& forall|i: int| 0 <= i < s.len() ==> #[trigger] s[i] != '\n'
}

/// A value that may be absent, and otherwise is one that a line can hold.
pub open spec fn holdable_or(s: Option<Seq<char>>) -> bool {
    match s {
        Some(s) => holdable(s),
        None => true,
    }
}

proof fn lemma_untrimmed(s: Seq<char>)
    requires
        s.len() > 0,
        !is_space(s[0]),
        !is_space(s.last()),
    ensures
        trimmed(s) == s,
{
}

/// Reading a line, and then what follows it.
proof fn lemma_next_line(r: Settings, line: Seq<char>, rest: Seq<char>)
    requires
        forall|i: int| 0 <= i < line.len() ==> #[trigger] line[i] != '\n',
    ensures
        with_text(r, line + seq!['\n'] + rest) == with_text(with_line(r, line), rest),
{
    let s = line + seq!['\n'] + rest;
    assert forall|i: int| 0 <= i < line.len() implies #[trigger] s[i] != '\n' by {
        assert(s[i] == line[i]);
    }
    lemma_found(s, '\n', line.len() as int);
    assert(s.take(line.len() as int) =~= line);
    assert(s.skip(line.len() as int + 1) =~= rest);
}

/// A line with a key and a value sets it.
proof fn lemma_setting_line(r: Settings, key: Seq<char>, value: Seq<char>)
    requires
        holdable(key),
        key[0] != '#',
        forall|i: int| 0 <= i < key.len() ==> #[trigger] key[i] != '=',
        holdable(value),
    ensures
        with_line(r, key + seq!['='] + value) == with_setting(r, key, value),
{
    let s = key + seq!['='] + value;
    assert(s[0] == key[0]);
    assert(s.last() == value.last());
    lemma_untrimmed(s);
    assert forall|i: int| 0 <= i < key.len() implies #[trigger] s[i] != '=' by {
        assert(s[i] == key[i]);
    }
    lemma_found(s, '=', key.len() as int);
    assert(s.take(key.len() as int) =~= key);
    assert(s.skip(key.len() as int + 1) =~= value);
    lemma_untrimmed(key);
    lemma_untrimmed(value);
}

/// A line with a key and a value, if there is one, and then what follows.
proof fn lemma_put_line(r: Settings, key: Seq<char>, start: Seq<char>, value: Option<Seq<char>>, rest: Seq<char>)
    requires
        holdable(key),
        key[0] != '#',
        forall|i: int| 0 <= i < key.len() ==> #[trigger] key[i] != '=',
        start == key + seq!['='],
        holdable_or(value),
    ensures
        with_text(r, line_of(start, value) + rest) == match value {
            Some(v) => with_text(with_setting(r, key, v), rest),
            None => with_text(r, rest),
        },
{
    match value {
        Some(v) => {
            let line = key + seq!['='] + v;
            assert forall|i: int| 0 <= i < line.len() implies #[trigger] line[i] != '\n' by {
                if i < key.len() {
                    assert(line[i] == key[i]);
                } else if i > key.len() {
                    assert(line[i] == v[i - key.len() - 1]);
                }
            }
            lemma_next_line(r, line, rest);
            lemma_setting_line(r, key, v);
            assert(line_of(start, value) + rest =~= line + seq!['\n'] + rest);
        },
        None => {
            assert(line_of(start, value) + rest =~= rest);
        },
    }
}

/// Written numbers can be held by a line and are read back.
proof fn lemma_written(n: nat, top: int)
    requires
        n <= top,
    ensures
        holdable(digits_of(n)),
        number_in(digits_of(n), top) == Some(n as int),
        amount_in(digits_of(n), top) == Some(n as int),
        forall|i: int| 0 <= i < digits_of(n).len() ==> #[trigger] digits_of(n)[i] != '=',
{
    lemma_digits_read_back(n, top);
    lemma_amount_of_digits(digits_of(n), n as int, top);
    let s = digits_of(n);
    assert('0' <= s[0] <= '9');
    assert('0' <= s[s.len() - 1] <= '9');
    assert forall|i: int| 0 <= i < s.len() implies #[trigger] s[i] != '\n' && s[i] != '=' by {
        assert('0' <= s[i] <= '9');
    }
}

/// The lines of the rates give the rates.
proof fn lemma_rates(r: Settings, nps: Seq<(usize, u64)>, n: int, rest: Seq<char>)
    requires
        0 <= n <= nps.len(),
        in_order(nps),
        r.nps.len() == 0,
    ensures
        with_text(r, rate_lines(nps, n) + rest) == with_text(
            (Settings { nps: nps.take(n), ..r }),
            rest,
        ),
    decreases n,
{
    if n == 0 {
        assert(rate_lines(nps, 0) + rest =~= rest);
        assert(nps.take(0) =~= r.nps);
    } else {
        let (t, rate) = nps[n - 1];
        reveal_strlit("nps.");
        reveal_strlit("=");
        reveal_strlit("dir");
        reveal_strlit("weights");
        reveal_strlit("nnue");
        reveal_strlit("book");
        reveal_strlit("threads");
        reveal_strlit("hash_mid");
        reveal_strlit("hash_end");
        lemma_written(t as nat, usize::MAX as int);
        lemma_written(rate as nat, u64::MAX as int);
        let key = "nps."@ + digits_of(t as nat);
        let start = "nps."@ + digits_of(t as nat) + "="@;
        let value = digits_of(rate as nat);
        let line = line_of(start, Some(value));
        let r1 = Settings { nps: nps.take(n - 1), ..r };
        lemma_rates(r, nps, n - 1, line + rest);
        assert(rate_lines(nps, n) + rest =~= rate_lines(nps, n - 1) + (line + rest));
        assert(start =~= key + seq!['=']);
        assert(key[3] == '.');
        assert(key.last() == digits_of(t as nat).last());
        assert forall|i: int| 0 <= i < key.len() implies #[trigger] key[i] != '\n' && key[i] != '=' by {
            if i >= 4 {
                assert(key[i] == digits_of(t as nat)[i - 4]);
            }
        }
        lemma_put_line(r1, key, start, Some(value), rest);
        assert(key.take(4) =~= "nps."@);
        assert(key.skip(4) =~= digits_of(t as nat));
        assert(key != "dir"@ && key != "weights"@ && key != "nnue"@ && key != "book"@ && key
            != "threads"@ && key != "hash_mid"@ && key != "hash_end"@) by {
            assert("weights"@[3] == 'g' && "nnue"@[3] == 'e' && "book"@[3] == 'k' && "threads"@[3]
                == 'e' && "hash_mid"@[3] == 'h' && "hash_end"@[3] == 'h' && "dir"@.len() == 3);
        }
        assert(rate_in(key, value) == Some((t, rate)));
        if n > 1 {
            assert(nps[n - 2].0 < nps[n - 1].0);
            assert(nps.take(n - 1).last() == nps[n - 2]);
        }
        assert(with_rate(nps.take(n - 1), t, rate) =~= nps.take(n));
    }
}

proof fn lemma_dir_line(r: Settings, v: Option<Seq<char>>, rest: Seq<char>)
    requires
        holdable_or(v),
        r.dir is None,
    ensures
        with_text(r, line_of("dir="@, v) + rest) == with_text(
            (Settings { dir: v, ..r }),
            rest,
        ),
{
    reveal_strlit("dir");
    reveal_strlit("dir=");
    assert("dir="@ =~= "dir"@ + seq!['=']);
    lemma_put_line(r, "dir"@, "dir="@, v, rest);
    assert(v is None ==> (Settings { dir: v, ..r }) =~= r);
}

proof fn lemma_weights_line(r: Settings, v: Option<Seq<char>>, rest: Seq<char>)
    requires
        holdable_or(v),
        r.weights is None,
    ensures
        with_text(r, line_of("weights="@, v) + rest) == with_text(
            (Settings { weights: v, ..r }),
            rest,
        ),
{
    reveal_strlit("dir");
    reveal_strlit("weights");
    reveal_strlit("weights=");
    assert("weights="@ =~= "weights"@ + seq!['=']);
    assert("weights"@.len() != "dir"@.len());
    lemma_put_line(r, "weights"@, "weights="@, v, rest);
    assert(v is None ==> (Settings { weights: v, ..r }) =~= r);
}

proof fn lemma_nnue_line(r: Settings, v: Option<Seq<char>>, rest: Seq<char>)
    requires
        holdable_or(v),
        r.nnue is None,
    ensures
        with_text(r, line_of("nnue="@, v) + rest) == with_text(
            (Settings { nnue: v, ..r }),
            rest,
        ),
{
    reveal_strlit("dir");
    reveal_strlit("weights");
    reveal_strlit("nnue");
    reveal_strlit("nnue=");
    assert("nnue="@ =~= "nnue"@ + seq!['=']);
    assert("nnue"@.len() != "dir"@.len());
    assert("nnue"@.len() != "weights"@.len());
    lemma_put_line(r, "nnue"@, "nnue="@, v, rest);
    assert(v is None ==> (Settings { nnue: v, ..r }) =~= r);
}

proof fn lemma_book_line(r: Settings, v: Option<Seq<char>>, rest: Seq<char>)
    requires
        holdable_or(v),
        r.book is None,
    ensures
        with_text(r, line_of("book="@, v) + rest) == with_text(
            (Settings { book: v, ..r }),
            rest,
        ),
{
    reveal_strlit("dir");
    reveal_strlit("weights");
    reveal_strlit("nnue");
    reveal_strlit("book");
    reveal_strlit("book=");
    assert("book="@ =~= "book"@ + seq!['=']);
    assert("book"@.len() != "dir"@.len());
    assert("book"@.len() != "weights"@.len());
    assert("book"@[0] != "nnue"@[0]);
    lemma_put_line(r, "book"@, "book="@, v, rest);
    assert(v is None ==> (Settings { book: v, ..r }) =~= r);
}

proof fn lemma_threads_line(r: Settings, v: Option<usize>, rest: Seq<char>)
    requires
        r.threads is None,
    ensures
        with_text(r, line_of("threads="@, digits_or(int_or_size(v))) + rest) == with_text(
            (Settings { threads: v, ..r }),
            rest,
        ),
{
    reveal_strlit("dir");
    reveal_strlit("weights");
    reveal_strlit("nnue");
    reveal_strlit("book");
    reveal_strlit("threads");
    reveal_strlit("threads=");
    assert("threads="@ =~= "threads"@ + seq!['=']);
    assert("threads"@.len() != "dir"@.len());
    assert("threads"@[0] != "weights"@[0]);
    assert("threads"@.len() != "nnue"@.len());
    assert("threads"@.len() != "book"@.len());
    match v {
        Some(n) => {
            lemma_written(n as nat, usize::MAX as int);
        },
        None => {},
    }
    lemma_put_line(r, "threads"@, "threads="@, digits_or(int_or_size(v)), rest);
    assert(v is None ==> (Settings { threads: v, ..r }) =~= r);
}

proof fn lemma_hash_mid_line(r: Settings, v: Option<u32>, rest: Seq<char>)
    requires
        r.hash_mid is None,
    ensures
        with_text(r, line_of("hash_mid="@, digits_or(int_or_word(v))) + rest) == with_text(
            (Settings { hash_mid: v, ..r }),
            rest,
        ),
{
    reveal_strlit("dir");
    reveal_strlit("weights");
    reveal_strlit("nnue");
    reveal_strlit("book");
    reveal_strlit("threads");
    reveal_strlit("hash_mid");
    reveal_strlit("hash_mid=");
    assert("hash_mid="@ =~= "hash_mid"@ + seq!['=']);
    assert("hash_mid"@.len() != "dir"@.len());
    assert("hash_mid"@.len() != "weights"@.len());
    assert("hash_mid"@.len() != "nnue"@.len());
    assert("hash_mid"@.len() != "book"@.len());
    assert("hash_mid"@.len() != "threads"@.len());
    match v {
        Some(n) => {
            lemma_written(n as nat, u32::MAX as int);
        },
        None => {},
    }
    lemma_put_line(r, "hash_mid"@, "hash_mid="@, digits_or(int_or_word(v)), rest);
    assert(v is None ==> (Settings { hash_mid: v, ..r }) =~= r);
}

proof fn lemma_hash_end_line(r: Settings, v: Option<u32>, rest: Seq<char>)
    requires
        r.hash_end is None,
    ensures
        with_text(r, line_of("hash_end="@, digits_or(int_or_word(v))) + rest) == with_text(
            (Settings { hash_end: v, ..r }),
            rest,
        ),
{
    reveal_strlit("dir");
    reveal_strlit("weights");
    reveal_strlit("nnue");
    reveal_strlit("book");
    reveal_strlit("threads");
    reveal_strlit("hash_mid");
    reveal_strlit("hash_end");
    reveal_strlit("hash_end=");
    assert("hash_end="@ =~= "hash_end"@ + seq!['=']);
    assert("hash_end"@.len() != "dir"@.len());
    assert("hash_end"@.len() != "weights"@.len());
    assert("hash_end"@.len() != "nnue"@.len());
    assert("hash_end"@.len() != "book"@.len());
    assert("hash_end"@.len() != "threads"@.len());
    assert("hash_end"@[5] != "hash_mid"@[5]);
    match v {
        Some(n) => {
            lemma_written(n as nat, u32::MAX as int);
        },
        None => {},
    }
    lemma_put_line(r, "hash_end"@, "hash_end="@, digits_or(int_or_word(v)), rest);
    assert(v is None ==> (Settings { hash_end: v, ..r }) =~= r);
}

/// Settings that are written are read back, where a line can hold the paths and
/// the rates are in order.
pub proof fn law_settings_round_trip(r: Settings)
    requires
        holdable_or(r.dir),
        holdable_or(r.weights),
        holdable_or(r.nnue),
        holdable_or(r.book),
        in_order(r.nps),
    ensures
        with_text(defaults(), text_of(r)) == r,
{
    let l8 = line_of("hash_end="@, digits_or(int_or_word(r.hash_end)));
    let l7 = line_of("hash_mid="@, digits_or(int_or_word(r.hash_mid)));
    let l6 = rate_lines(r.nps, r.nps.len() as int);
    let l5 = line_of("threads="@, digits_or(int_or_size(r.threads)));
    let l4 = line_of("book="@, r.book);
    let l3 = line_of("nnue="@, r.nnue);
    let l2 = line_of("weights="@, r.weights);
    let l1 = line_of("dir="@, r.dir);
    let end = Seq::<char>::empty();
    let t8 = l8 + end;
    let t7 = l7 + t8;
    let t6 = l6 + t7;
    let t5 = l5 + t6;
    let t4 = l4 + t5;
    let t3 = l3 + t4;
    let t2 = l2 + t3;
    let t1 = l1 + t2;
    let h = "# Locations of the files Kuroobi uses\n"@;
    let p1 = h + l1;
    let p2 = p1 + l2;
    let p3 = p2 + l3;
    let p4 = p3 + l4;
    let p5 = p4 + l5;
    let p6 = p5 + l6;
    let p7 = p6 + l7;
    assert(text_of(r) == p7 + l8);
    assert(l8 =~= t8);
    lemma_grouped(p6, l7, t8);
    lemma_grouped(p5, l6, t7);
    lemma_grouped(p4, l5, t6);
    lemma_grouped(p3, l4, t5);
    lemma_grouped(p2, l3, t4);
    lemma_grouped(p1, l2, t3);
    lemma_grouped(h, l1, t2);
    lemma_lines(r, t1, t2, t3, t4, t5, t6, t7, t8);
}

/// Texts can be grouped either way.
proof fn lemma_grouped(a: Seq<char>, b: Seq<char>, c: Seq<char>)
    ensures
        (a + b) + c == a + (b + c),
{
    assert((a + b) + c =~= a + (b + c));
}

/// Reading the lines of written settings one after the other.
proof fn lemma_lines(
    r: Settings,
    t1: Seq<char>,
    t2: Seq<char>,
    t3: Seq<char>,
    t4: Seq<char>,
    t5: Seq<char>,
    t6: Seq<char>,
    t7: Seq<char>,
    t8: Seq<char>,
)
    requires
        holdable_or(r.dir),
        holdable_or(r.weights),
        holdable_or(r.nnue),
        holdable_or(r.book),
        in_order(r.nps),
        t1 == line_of("dir="@, r.dir) + t2,
        t2 == line_of("weights="@, r.weights) + t3,
        t3 == line_of("nnue="@, r.nnue) + t4,
        t4 == line_of("book="@, r.book) + t5,
        t5 == line_of("threads="@, digits_or(int_or_size(r.threads))) + t6,
        t6 == rate_lines(r.nps, r.nps.len() as int) + t7,
        t7 == line_of("hash_mid="@, digits_or(int_or_word(r.hash_mid))) + t8,
        t8 == line_of("hash_end="@, digits_or(int_or_word(r.hash_end))) + Seq::<char>::empty(),
    ensures
        with_text(defaults(), "# Locations of the files Kuroobi uses\n"@ + t1) == r,
{
    let end = Seq::<char>::empty();
    let s0 = defaults();
    let s1 = Settings { dir: r.dir, ..s0 };
    let s2 = Settings { weights: r.weights, ..s1 };
    let s3 = Settings { nnue: r.nnue, ..s2 };
    let s4 = Settings { book: r.book, ..s3 };
    let s5 = Settings { threads: r.threads, ..s4 };
    let s6 = Settings { nps: r.nps, ..s5 };
    let s7 = Settings { hash_mid: r.hash_mid, ..s6 };
    let s8 = Settings { hash_end: r.hash_end, ..s7 };
    lemma_head_line(s0, t1);
    lemma_dir_line(s0, r.dir, t2);
    lemma_weights_line(s1, r.weights, t3);
    lemma_nnue_line(s2, r.nnue, t4);
    lemma_book_line(s3, r.book, t5);
    lemma_threads_line(s4, r.threads, t6);
    lemma_rates(s5, r.nps, r.nps.len() as int, t7);
    assert(r.nps.take(r.nps.len() as int) =~= r.nps);
    lemma_hash_mid_line(s6, r.hash_mid, t8);
    lemma_hash_end_line(s7, r.hash_end, end);
    assert(trimmed(end) =~= end);
    assert(with_text(s8, end) == s8);
    assert(s8 =~= r);
}

/// The line of words says nothing.
proof fn lemma_head_line(r: Settings, rest: Seq<char>)
    ensures
        with_text(r, "# Locations of the files Kuroobi uses\n"@ + rest) == with_text(r, rest),
{
    reveal_strlit("# Locations of the files Kuroobi uses\n");
    let head = "# Locations of the files Kuroobi uses\n"@;
    let words = head.drop_last();
    assert(head.last() == '\n');
    assert(head + rest =~= words + seq!['\n'] + rest);
    assert(words[0] == '#');
    assert(words.last() == 's');
    assert forall|i: int| 0 <= i < words.len() implies #[trigger] words[i] != '\n' by {
    }
    lemma_next_line(r, words, rest);
    lemma_untrimmed(words);
}

/// `char::from_u32` gives the character with the given number, if it is one:
/// up to the last code point, without the surrogates.
pub assume_specification[ char::from_u32 ](i: u32) -> (c: Option<char>)
    ensures
        match c {
            Some(c) => c == i as char && (i <= 0xd7ff || 0xe000 <= i <= 0x10ffff),
            None => 0xd800 <= i <= 0xdfff || i > 0x10ffff,
        },
;

/// The format and the width that the first bytes of a network file name, for
/// display; nothing, where the bytes are not those of such a file.
pub open spec fn header_of(bytes: Seq<u8>) -> Option<Seq<char>> {
    if bytes.len() < 12 || bytes.take(6) != seq![66u8, 66, 82, 86, 78, 78] {
        None
    } else {
        let tail = " / H"@ + digits_of(word(bytes, 8, 4));
        if bytes[6] < 128 && bytes[7] < 128 {
            Some("BBRVNN"@ + seq![bytes[6] as char, bytes[7] as char] + tail)
        } else if 0xc2 <= bytes[6] <= 0xdf && 0x80 <= bytes[7] <= 0xbf {
            Some("BBRVNN"@ + seq![((bytes[6] - 0xc0) * 64 + (bytes[7] - 0x80)) as char] + tail)
        } else {
            None
        }
    }
}

/// The format and the width that the first bytes of a network file name.
pub fn nnue_header(bytes: &[u8]) -> (r: Option<String>)
    ensures
        shown(r) == header_of(bytes@),
{
    if bytes.len() < 12 {
        return None;
    }
    if bytes[0] != 66 || bytes[1] != 66 || bytes[2] != 82 || bytes[3] != 86 || bytes[4] != 78
        || bytes[5] != 78 {
        proof {
            let t = bytes@.take(6);
            assert(t[0] == bytes@[0] && t[1] == bytes@[1] && t[2] == bytes@[2] && t[3] == bytes@[3]
                && t[4] == bytes@[4] && t[5] == bytes@[5]);
        }
        return None;
    }
    assert(bytes@.take(6) =~= seq![66u8, 66, 82, 86, 78, 78]);
    let mut s: String = String::from_str("BBRVNN");
    let a: u8 = bytes[6];
    let b: u8 = bytes[7];
    let ghost start = s@;
    if a < 128 && b < 128 {
        s.push(a as char);
        s.push(b as char);
        assert(s@ =~= start + seq![a as char, b as char]);
    } else if 0xc2 <= a && a <= 0xdf && 0x80 <= b && b <= 0xbf {
        let code: u32 = (a as u32 - 0xc0) * 64 + (b as u32 - 0x80);
        match char::from_u32(code) {
            Some(c) => {
                s.push(c);
                assert(code == (a - 0xc0) * 64 + (b - 0x80));
                assert(s@ =~= start + seq![((a - 0xc0) * 64 + (b - 0x80)) as char]);
            },
            None => {
                return None;
            },
        }
    } else {
        return None;
    }
    let width: u64 = read_word(bytes, 8, 4);
    let ghost mid = s@;
    s.append(" / H");
    s.append(decimal(width).as_str());
    assert(s@ =~= mid + (" / H"@ + digits_of(word(bytes@, 8, 4))));
    Some(s)
}

/// What was found at a path: whether there is a file, its size, and its first
/// bytes.
#[derive(Debug)]
pub struct Seen {
    pub found: bool,
    pub size: u64,
    pub head: Vec<u8>,
}

/// One of the files, for display.
#[derive(Debug)]
pub struct Located {
    /// By which the file is recognised; not to be shown.
    pub name: &'static str,
    pub path: String,
    pub found: bool,
    pub size: u64,
    /// Format and width of a network.
    pub kind: String,
}

impl Located {
    /// The line says of a file what was found.
    pub open spec fn says(self, name: Seq<char>, path: Seq<char>, seen: Seen, kind: Seq<char>) -> bool {
        &&& self.name@ == name
        &&& self.path@ == path
        &&& self.found == seen.found
        &&& self.size == seen.size
        &&& self.kind@ == kind
    }
}

/// The kind that is shown of a network file.
pub open spec fn shown_kind(seen: Seen) -> Seq<char> {
    if seen.found {
        match header_of(seen.head@) {
            Some(k) => k,
            None => ""@,
        }
    } else {
        ""@
    }
}

impl Resources {
    /// The files with their paths, and what was found there: existence alone
    /// would not tell which of several networks is in use.
    pub fn detailed(&self, standard: &str, weights: &Seen, nnue: &Seen, book: &Seen) -> (v: Vec<
        Located,
    >)
        ensures
            v@.len() == 3,
            v@[0].says(
                "weights"@,
                path_or(self@.weights, or_standard(self@.dir, standard@), "linear.bin"@),
                *weights,
                ""@,
            ),
            v@[1].says(
                "nnue"@,
                path_or(self@.nnue, or_standard(self@.dir, standard@), "nnue-h16.bin"@),
                *nnue,
                shown_kind(*nnue),
            ),
            v@[2].says(
                "book"@,
                path_or(self@.book, or_standard(self@.dir, standard@), "book.txt"@),
                *book,
                ""@,
            ),
    {
        let mut kind: String = String::from_str("");
        if nnue.found {
            if let Some(k) = nnue_header(nnue.head.as_slice()) {
                kind = k;
            }
        }
        let mut v: Vec<Located> = Vec::new();
        v.push(
            Located {
                name: "weights",
                path: self.weights_path(standard),
                found: weights.found,
                size: weights.size,
                kind: String::from_str(""),
            },
        );
        v.push(
            Located {
                name: "nnue",
                path: self.nnue_path(standard),
                found: nnue.found,
                size: nnue.size,
                kind,
            },
        );
        v.push(
            Located {
                name: "book",
                path: self.book_path(standard),
                found: book.found,
                size: book.size,
                kind: String::from_str(""),
            },
        );
        v
    }
}

/// A text without white space at its ends is what stands between: all before and
/// behind is white space, and it neither starts nor ends with any.
pub proof fn law_trimmed_lies_between(s: Seq<char>)
    ensures
        trimmed(s).len() > 0 ==> !is_space(trimmed(s)[0]) && !is_space(trimmed(s).last()),
        exists|a: int, b: int|
            0 <= a <= b <= s.len() && trimmed(s) == #[trigger] s.subrange(a, b) && (forall|i: int|
                0 <= i < a ==> is_space(#[trigger] s[i])) && (forall|i: int|
                b <= i < s.len() ==> is_space(#[trigger] s[i])),
{
    let a = lemma_front(s);
    let f = front_trimmed(s);
    let b = lemma_back(f);
    assert(trimmed(s) =~= s.subrange(a, a + b));
    assert forall|i: int| a + b <= i < s.len() implies is_space(#[trigger] s[i]) by {
        assert(f[i - a] == s[i]);
    }
    if trimmed(s).len() > 0 {
        assert(trimmed(s)[0] == f[0]);
    }
    assert(s.subrange(a, a + b) == trimmed(s));
}

proof fn lemma_front(s: Seq<char>) -> (a: int)
    ensures
        0 <= a <= s.len(),
        front_trimmed(s) == s.subrange(a, s.len() as int),
        forall|i: int| 0 <= i < a ==> is_space(#[trigger] s[i]),
        a < s.len() ==> !is_space(s[a]),
    decreases s.len(),
{
    if s.len() > 0 && is_space(s[0]) {
        let a = lemma_front(s.skip(1));
        assert(s.skip(1).subrange(a, s.len() - 1) =~= s.subrange(a + 1, s.len() as int));
        assert forall|i: int| 0 <= i < a + 1 implies is_space(#[trigger] s[i]) by {
            if i > 0 {
                assert(s.skip(1)[i - 1] == s[i]);
            }
        }
        a + 1
    } else {
        assert(s.subrange(0, s.len() as int) =~= s);
        0
    }
}

proof fn lemma_back(s: Seq<char>) -> (b: int)
    ensures
        0 <= b <= s.len(),
        back_trimmed(s) == s.subrange(0, b),
        forall|i: int| b <= i < s.len() ==> is_space(#[trigger] s[i]),
        b > 0 ==> !is_space(s[b - 1]),
    decreases s.len(),
{
    if s.len() > 0 && is_space(s.last()) {
        let b = lemma_back(s.drop_last());
        assert(s.drop_last().subrange(0, b) =~= s.subrange(0, b));
        assert forall|i: int| b <= i < s.len() implies is_space(#[trigger] s[i]) by {
            if i < s.len() - 1 {
                assert(s.drop_last()[i] == s[i]);
            }
        }
        b
    } else {
        assert(s.subrange(0, s.len() as int) =~= s);
        s.len() as int
    }
}

/// A rate that is set is the one listed for its thread count, and the others stay.
pub proof fn law_rate_is_set(nps: Seq<(usize, u64)>, threads: usize, rate: u64, other: (usize, u64))
    requires
        in_order(nps),
    ensures
        in_order(with_rate(nps, threads, rate)),
        with_rate(nps, threads, rate).contains((threads, rate)),
        other.0 == threads && with_rate(nps, threads, rate).contains(other) ==> other.1 == rate,
        other.0 != threads ==> with_rate(nps, threads, rate).contains(other) == nps.contains(other),
    decreases nps.len(),
{
    let out = with_rate(nps, threads, rate);
    lemma_with_rate(nps, threads, rate);
    let at = choose|i: int| 0 <= i < out.len() && #[trigger] out[i] == (threads, rate);
    if out.contains(other) {
        let k = choose|k: int| 0 <= k < out.len() && out[k] == other;
        if other.0 == threads {
            if k < at {
                assert(out[k].0 < out[at].0);
            } else if at < k {
                assert(out[at].0 < out[k].0);
            }
        } else {
            let j = choose|j: int| 0 <= j < nps.len() && nps[j] == out[k];
            assert(nps[j] == other);
        }
    }
    if other.0 != threads && nps.contains(other) {
        let j = choose|j: int| 0 <= j < nps.len() && nps[j] == other;
        if nps.len() == 0 || nps.last().0 < threads {
            assert(out[j] == other);
        } else if nps.last().0 == threads {
            assert(j < nps.len() - 1);
            assert(out[j] == other);
        } else if j == nps.len() - 1 {
            assert(out.last() == other);
            assert(out[out.len() - 1] == other);
        } else {
            let init = nps.drop_last();
            assert(init[j] == other);
            assert(in_order(init)) by {
                assert forall|i: int, k: int| 0 <= i < k < init.len() implies (#[trigger] init[i]).0 < (
                #[trigger] init[k]).0 by {
                    assert(nps[i].0 < nps[k].0);
                }
            }
            law_rate_is_set(init, threads, rate, other);
            let before = with_rate(init, threads, rate);
            let k = choose|k: int| 0 <= k < before.len() && before[k] == other;
            assert(out[k] == other);
        }
    }
}

/// A rate that was measured for a thread count is one that is listed for it and is
/// not zero; where there is such a rate, one is found.
pub proof fn law_measured_rate(nps: Seq<(usize, u64)>, threads: usize)
    ensures
        measured(nps, threads) matches Some(r) ==> r > 0 && nps.contains((threads, r)),
        forall|i: int|
            0 <= i < nps.len() && (#[trigger] nps[i]).0 == threads && nps[i].1 > 0 ==> measured(
                nps,
                threads,
            ) is Some,
    decreases nps.len(),
{
    if nps.len() > 0 {
        let rest = nps.skip(1);
        law_measured_rate(rest, threads);
        assert forall|i: int|
            0 <= i < nps.len() && (#[trigger] nps[i]).0 == threads && nps[i].1 > 0 implies measured(
            nps,
            threads,
        ) is Some by {
            if i > 0 {
                assert(rest[i - 1] == nps[i]);
            }
        }
        if let Some(r) = measured(nps, threads) {
            if nps[0].0 == threads && nps[0].1 > 0 {
                assert(nps[0] == (threads, r));
            } else {
                let k = choose|k: int| 0 <= k < rest.len() && rest[k] == (threads, r);
                assert(nps[k + 1] == (threads, r));
            }
        }
    }
}

/// Without a measured rate the one that is taken is the most cautious: in
/// proportion to the threads it is no more than any rate that is listed, and that
/// of one of them, rounded down.
pub proof fn law_lowest_rate(nps: Seq<(usize, u64)>, threads: usize, n: int)
    requires
        0 <= n <= nps.len(),
    ensures
        lowest(nps, threads, n) matches Some(x) ==> (forall|i: int|
            0 <= i < n && (#[trigger] nps[i]).0 > 0 && nps[i].1 > 0 ==> x * nps[i].0 <= nps[i].1 * threads)
            && exists|i: int|
            0 <= i < n && (#[trigger] nps[i]).0 > 0 && nps[i].1 > 0 && nps[i].1 * threads < (x + 1)
                * nps[i].0,
        lowest(nps, threads, n) is None ==> forall|i: int|
            0 <= i < n ==> (#[trigger] nps[i]).0 == 0 || nps[i].1 == 0,
    decreases n,
{
    if n > 0 {
        law_lowest_rate(nps, threads, n - 1);
        let (t, rate) = nps[n - 1];
        let before = lowest(nps, threads, n - 1);
        if t > 0 && rate > 0 {
            let (tt, total) = (t as int, rate as int * threads as int);
            let y = total / tt;
            assert(y * tt <= total && total < (y + 1) * tt) by (nonlinear_arith)
                requires
                    y == total / tt,
                    tt > 0,
            ;
            let x = lowest(nps, threads, n)->Some_0;
            assert forall|i: int| 0 <= i < n && (#[trigger] nps[i]).0 > 0 && nps[i].1 > 0 implies x
                * nps[i].0 <= nps[i].1 * threads by {
                if i < n - 1 {
                    let (b, c) = (before->Some_0, nps[i].0 as int);
                    assert(x * c <= b * c) by (nonlinear_arith)
                        requires
                            x <= b,
                            c > 0,
                    ;
                } else {
                    assert(x * tt <= y * tt) by (nonlinear_arith)
                        requires
                            x <= y,
                            tt > 0,
                    ;
                }
            }
            if before is None || y < before->Some_0 {
                assert(nps[n - 1].1 * threads < (x + 1) * nps[n - 1].0);
            } else {
                let i = choose|i: int|
                    0 <= i < n - 1 && (#[trigger] nps[i]).0 > 0 && nps[i].1 > 0 && nps[i].1 * threads < (
                    before->Some_0 + 1) * nps[i].0;
                assert(nps[i].1 * threads < (x + 1) * nps[i].0);
            }
        } else if before is Some {
            let x = before->Some_0;
            let i = choose|i: int|
                0 <= i < n - 1 && (#[trigger] nps[i]).0 > 0 && nps[i].1 > 0 && nps[i].1 * threads < (x + 1)
                    * nps[i].0;
            assert(nps[i].1 * threads < (x + 1) * nps[i].0);
        }
    }
}

/// A file's own path is taken as it is; without one the file lies in the directory
/// under its name, with one separator between.
pub proof fn law_paths(own: Seq<char>, dir: Seq<char>, name: Seq<char>)
    ensures
        path_or(Some(own), dir, name) == own,
        ({
            let p = path_or(None, dir, name);
            &&& p.len() >= dir.len() + name.len()
            &&& p.take(dir.len() as int) == dir
            &&& p.skip(p.len() - name.len()) == name
            &&& dir.len() > 0 ==> p[p.len() - name.len() - 1] == '/'
            &&& dir.len() == 0 ==> p == name
        }),
{
    let p = path_or(None, dir, name);
    assert(p.take(dir.len() as int) =~= dir);
    assert(p.skip(p.len() - name.len()) =~= name);
    if dir.len() == 0 {
        assert(p =~= name);
    }
}

} // verus!
