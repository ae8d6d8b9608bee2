//! Counting sort: where each item goes when items are lined up by their keys.

use vstd::prelude::*;

verus! {

/// How many of the first `n` keys are `r`.
pub open spec fn count_of(keys: Seq<u32>, r: int, n: int) -> int
    decreases n,
{
    if n <= 0 {
        0
    } else {
        count_of(keys, r, n - 1) + if keys[n - 1] == r {
            1int
        } else {
            0int
        }
    }
}

/// How many keys are below `r`.
pub open spec fn start_of(keys: Seq<u32>, r: int) -> int
    decreases r,
{
    if r <= 0 {
        0
    } else {
        start_of(keys, r - 1) + count_of(keys, r - 1, keys.len() as int)
    }
}

/// Where item `i` goes: behind all items with smaller keys and those before it
/// with its own.
pub open spec fn place(keys: Seq<u32>, i: int) -> int {
    start_of(keys, keys[i] as int) + count_of(keys, keys[i] as int, i)
}

/// Every key is below the limit.
pub open spec fn keys_below(keys: Seq<u32>, limit: int) -> bool {
    forall|i: int| 0 <= i < keys.len() ==> #[trigger] keys[i] < limit
}

/// Counts grow.
pub proof fn lemma_count(keys: Seq<u32>, r: int, a: int, b: int)
    requires
        0 <= a <= b,
    ensures
        0 <= count_of(keys, r, a) <= count_of(keys, r, b),
        count_of(keys, r, a) <= a,
    decreases b,
{
    if a < b {
        lemma_count(keys, r, a, b - 1);
    } else if a > 0 {
        lemma_count(keys, r, a - 1, b - 1);
    }
}

/// How many of the first `n` keys are below `r`.
spec fn below(keys: Seq<u32>, r: int, n: int) -> int
    decreases n,
{
    if n <= 0 {
        0
    } else {
        below(keys, r, n - 1) + if keys[n - 1] < r {
            1int
        } else {
            0int
        }
    }
}

proof fn lemma_below_step(keys: Seq<u32>, r: int, n: int)
    requires
        0 <= n,
    ensures
        below(keys, r + 1, n) == below(keys, r, n) + count_of(keys, r, n),
    decreases n,
{
    if n > 0 {
        lemma_below_step(keys, r, n - 1);
    }
}

proof fn lemma_below_ends(keys: Seq<u32>, limit: int, n: int)
    requires
        0 <= n <= keys.len(),
        keys_below(keys, limit),
    ensures
        below(keys, 0, n) == 0,
        below(keys, limit, n) == n,
    decreases n,
{
    if n > 0 {
        lemma_below_ends(keys, limit, n - 1);
        assert(keys[n - 1] < limit);
    }
}

proof fn lemma_start_below(keys: Seq<u32>, r: int)
    requires
        0 <= r,
    ensures
        start_of(keys, r) == below(keys, r, keys.len() as int),
    decreases r,
{
    if r > 0 {
        lemma_start_below(keys, r - 1);
        lemma_below_step(keys, r - 1, keys.len() as int);
    } else {
        lemma_below_zero(keys, keys.len() as int);
    }
}

proof fn lemma_below_zero(keys: Seq<u32>, n: int)
    requires
        0 <= n,
    ensures
        below(keys, 0, n) == 0,
    decreases n,
{
    if n > 0 {
        lemma_below_zero(keys, n - 1);
    }
}

/// All keys are below the limit, so all items stand before its place.
pub proof fn lemma_starts(keys: Seq<u32>, a: int, b: int, limit: int)
    requires
        0 <= a <= b <= limit,
        keys_below(keys, limit),
    ensures
        0 <= start_of(keys, a) <= start_of(keys, b) <= keys.len(),
        start_of(keys, limit) == keys.len(),
        a < b ==> start_of(keys, a) + count_of(keys, a, keys.len() as int) <= start_of(keys, b),
{
    let n = keys.len() as int;
    lemma_start_below(keys, limit);
    lemma_below_ends(keys, limit, n);
    lemma_start_nonneg(keys, a);
    lemma_start_mono(keys, a, b);
    lemma_start_mono(keys, b, limit);
    if a < b {
        lemma_start_mono(keys, a + 1, b);
    }
}

proof fn lemma_start_mono(keys: Seq<u32>, a: int, b: int)
    requires
        0 <= a <= b,
    ensures
        start_of(keys, a) <= start_of(keys, b),
    decreases b - a,
{
    if a < b {
        lemma_start_mono(keys, a, b - 1);
        lemma_count(keys, b - 1, 0, keys.len() as int);
    }
}

proof fn lemma_start_nonneg(keys: Seq<u32>, a: int)
    ensures
        0 <= start_of(keys, a),
    decreases a,
{
    if a > 0 {
        lemma_start_nonneg(keys, a - 1);
        lemma_count(keys, a - 1, 0, keys.len() as int);
    }
}

/// Each item has a place of its own among all items.
pub proof fn lemma_place(keys: Seq<u32>, i: int, j: int, limit: int)
    requires
        keys_below(keys, limit),
        0 <= i <= j < keys.len(),
    ensures
        0 <= place(keys, i) < keys.len(),
        start_of(keys, keys[i] as int) <= place(keys, i) < start_of(keys, keys[i] + 1),
        i < j ==> place(keys, i) != place(keys, j),
{
    let n = keys.len() as int;
    let a = keys[i] as int;
    let b = keys[j] as int;
    lemma_starts(keys, a + 1, limit, limit);
    lemma_starts(keys, a, a + 1, limit);
    lemma_count(keys, a, 0, i);
    lemma_count(keys, a, i + 1, n);
    lemma_count(keys, b, 0, j);
    lemma_count(keys, b, j + 1, n);
    if i < j {
        if a == b {
            lemma_count(keys, a, i + 1, j);
        } else if a < b {
            lemma_starts(keys, a + 1, b, limit);
        } else {
            lemma_starts(keys, b + 1, a, limit);
            lemma_starts(keys, b, b + 1, limit);
        }
    }
}

proof fn lemma_nth(keys: Seq<u32>, r: int, c: int, n: int) -> (i: int)
    requires
        0 <= c < count_of(keys, r, n),
        0 <= n <= keys.len(),
    ensures
        0 <= i < n,
        keys[i] == r,
        count_of(keys, r, i) == c,
    decreases n,
{
    if c < count_of(keys, r, n - 1) {
        lemma_nth(keys, r, c, n - 1)
    } else {
        n - 1
    }
}

/// Every place is taken by an item.
pub proof fn lemma_taken(keys: Seq<u32>, a: int, limit: int) -> (i: int)
    requires
        keys_below(keys, limit),
        0 <= a < keys.len(),
        0 <= limit,
    ensures
        0 <= i < keys.len(),
        place(keys, i) == a,
{
    lemma_starts(keys, 0, limit, limit);
    lemma_taken_below(keys, a, limit, limit)
}

proof fn lemma_taken_below(keys: Seq<u32>, a: int, r: int, limit: int) -> (i: int)
    requires
        keys_below(keys, limit),
        0 <= a < start_of(keys, r),
        0 <= r <= limit,
    ensures
        0 <= i < keys.len(),
        place(keys, i) == a,
    decreases r,
{
    if a < start_of(keys, r - 1) {
        lemma_taken_below(keys, a, r - 1, limit)
    } else {
        lemma_nth(keys, r - 1, a - start_of(keys, r - 1), keys.len() as int)
    }
}

/// Items lined up by their keys.
#[derive(Debug)]
pub struct LineUp {
    /// Where the items of each key start, and behind them the number of items.
    pub starts: Vec<u32>,
    /// The items in their new order.
    pub order: Vec<u32>,
}

/// The items stand where they belong.
pub open spec fn is_line_up(keys: Seq<u32>, limit: int, starts: Seq<u32>, order: Seq<u32>) -> bool {
    &&& starts.len() == limit + 1
    &&& forall|r: int| 0 <= r <= limit ==> #[trigger] starts[r] == start_of(keys, r)
    &&& order.len() == keys.len()
    &&& forall|i: int| 0 <= i < keys.len() ==> order[#[trigger] place(keys, i)] == i
}

/// Line items up by their keys, those of one key in the order in which they
/// came.
pub fn line_up(keys: &Vec<u32>, limit: usize) -> (l: LineUp)
    requires
        keys_below(keys@, limit as int),
        keys@.len() <= u32::MAX,
        limit < usize::MAX,
    ensures
        is_line_up(keys@, limit as int, l.starts@, l.order@),
{
    let n: usize = keys.len();
    let mut counts: Vec<u32> = Vec::new();
    while counts.len() < limit
        invariant
            counts@.len() <= limit,
            forall|r: int| 0 <= r < counts@.len() ==> #[trigger] counts@[r] == 0,
        decreases limit - counts@.len(),
    {
        counts.push(0);
    }
    let mut i: usize = 0;
    while i < n
        invariant
            n == keys@.len(),
            n <= u32::MAX,
            keys_below(keys@, limit as int),
            counts@.len() == limit,
            i <= n,
            forall|r: int|
                0 <= r < limit ==> #[trigger] counts@[r] == count_of(keys@, r, i as int),
        decreases n - i,
    {
        let k: usize = keys[i] as usize;
        proof {
            lemma_count(keys@, k as int, i as int, i as int);
        }
        counts.set(k, counts[k] + 1);
        i = i + 1;
    }
    let mut starts: Vec<u32> = Vec::new();
    let mut cursor: Vec<u32> = Vec::new();
    let mut total: u32 = 0;
    let mut r: usize = 0;
    while r < limit
        invariant
            n == keys@.len(),
            n <= u32::MAX,
            keys_below(keys@, limit as int),
            counts@.len() == limit,
            forall|r: int| 0 <= r < limit ==> #[trigger] counts@[r] == count_of(keys@, r, n as int),
            r <= limit,
            total == start_of(keys@, r as int),
            starts@.len() == r,
            cursor@.len() == r,
            forall|q: int| 0 <= q < r ==> #[trigger] starts@[q] == start_of(keys@, q),
            forall|q: int| 0 <= q < r ==> #[trigger] cursor@[q] == start_of(keys@, q),
        decreases limit - r,
    {
        proof {
            lemma_starts(keys@, r as int, r + 1, limit as int);
        }
        starts.push(total);
        cursor.push(total);
        total = total + counts[r];
        r = r + 1;
    }
    starts.push(total);
    let mut order: Vec<u32> = Vec::new();
    while order.len() < n
        invariant
            order@.len() <= n,
        decreases n - order@.len(),
    {
        order.push(0);
    }
    let mut j: usize = 0;
    while j < n
        invariant
            n == keys@.len(),
            n <= u32::MAX,
            keys_below(keys@, limit as int),
            cursor@.len() == limit,
            order@.len() == n,
            j <= n,
            forall|q: int|
                0 <= q < limit ==> #[trigger] cursor@[q] == start_of(keys@, q) + count_of(
                    keys@,
                    q,
                    j as int,
                ),
            forall|i: int| 0 <= i < j ==> order@[#[trigger] place(keys@, i)] == i,
        decreases n - j,
    {
        let k: usize = keys[j] as usize;
        let at: u32 = cursor[k];
        let ghost before = order@;
        proof {
            lemma_place(keys@, j as int, j as int, limit as int);
        }
        order.set(at as usize, j as u32);
        cursor.set(k, at + 1);
        proof {
            assert forall|i: int| 0 <= i < j + 1 implies order@[#[trigger] place(keys@, i)] == i by {
                if i < j {
                    lemma_place(keys@, i, j as int, limit as int);
                    assert(before[place(keys@, i)] == i);
                }
            }
        }
        j = j + 1;
    }
    LineUp { starts, order }
}

/// Lined-up items stand in the order of their keys, and those of one key in the
/// order in which they came.
pub proof fn law_line_up(keys: Seq<u32>, limit: int, starts: Seq<u32>, order: Seq<u32>, a: int, b: int)
    requires
        0 <= limit,
        keys_below(keys, limit),
        is_line_up(keys, limit, starts, order),
        0 <= a < b < order.len(),
    ensures
        order[a] < keys.len(),
        order[b] < keys.len(),
        keys[order[a] as int] < keys[order[b] as int] || (keys[order[a] as int]
            == keys[order[b] as int] && order[a] < order[b]),
{
    let i = lemma_taken(keys, a, limit);
    let j = lemma_taken(keys, b, limit);
    assert(order[place(keys, i)] == i);
    assert(order[place(keys, j)] == j);
    lemma_place(keys, i, i, limit);
    lemma_place(keys, j, j, limit);
    let x = keys[i] as int;
    let y = keys[j] as int;
    if x > y {
        lemma_starts(keys, y + 1, x, limit);
    } else if x == y && j <= i {
        lemma_count(keys, x, j, i);
    }
}

} // verus!
