//! Integer arithmetic on rows of weights and activations.

use vstd::prelude::*;

use crate::pattern::sum_first;

verus! {

/// A number wrapped to sixteen bits with a sign.
pub open spec fn wrap16(x: int) -> int {
    (x + 32768) % 65536 - 32768
}

/// Wrapping once or after each step is the same.
pub proof fn lemma_wrap16(x: int, y: int)
    ensures
        wrap16(wrap16(x) + y) == wrap16(x + y),
        -32768 <= wrap16(x) <= 32767,
        -32768 <= x <= 32767 ==> wrap16(x) == x,
{
    let q = (x + 32768) / 65536;
    assert(wrap16(x) == x - q * 65536);
    assert(wrap16(x) + y + 32768 == (x + y + 32768) - q * 65536);
    assert(((x + y + 32768) - q * 65536) % 65536 == (x + y + 32768) % 65536);
}

/// Two numbers added, wrapped to sixteen bits.
fn add16(a: i16, b: i16) -> (c: i16)
    ensures
        c == wrap16(a + b),
{
    let s: i32 = a as i32 + b as i32;
    if s > 32767 {
        (s - 65536) as i16
    } else if s < -32768 {
        (s + 65536) as i16
    } else {
        s as i16
    }
}

/// Replace one row's part in the sums by another's: each lane gains the new
/// row's number and loses the old one's.
pub fn acc_row_addsub(acc: &mut Vec<i16>, table: &Vec<i16>, new: usize, old_row: usize)
    requires
        new + old(acc)@.len() <= table@.len(),
        old_row + old(acc)@.len() <= table@.len(),
    ensures
        final(acc)@.len() == old(acc)@.len(),
        forall|i: int|
            0 <= i < old(acc)@.len() ==> #[trigger] final(acc)@[i] == wrap16(
                old(acc)@[i] + table@[new + i] - table@[old_row + i],
            ),
{
    let n: usize = acc.len();
    let len: usize = table.len();
    let mut i: usize = 0;
    while i < n
        invariant
            n == acc@.len(),
            n == old(acc)@.len(),
            len == table@.len(),
            new + n <= len,
            old_row + n <= len,
            i <= n,
            forall|k: int|
                0 <= k < n ==> #[trigger] acc@[k] == if k < i {
                    wrap16(old(acc)@[k] + table@[new + k] - table@[old_row + k])
                } else {
                    old(acc)@[k] as int
                },
        decreases n - i,
    {
        let a: i16 = table[new + i];
        let b: i16 = table[old_row + i];
        let d: i32 = acc[i] as i32 + a as i32 - b as i32;
        let r: i16 = if d > 32767 {
            (d - 65536) as i16
        } else if d < -32768 {
            (d + 65536) as i16
        } else {
            d as i16
        };
        acc.set(i, r);
        i = i + 1;
    }
}

/// A number of a table, as narrow as the table stores it.
pub trait Lane: Copy {
    /// The number.
    spec fn number(self) -> int;

    /// The number in sixteen bits.
    fn wide(self) -> (w: i16)
        ensures
            w == self.number(),
    ;
}

impl Lane for i8 {
    open spec fn number(self) -> int {
        self as int
    }

    fn wide(self) -> (w: i16) {
        self as i16
    }
}

impl Lane for i16 {
    open spec fn number(self) -> int {
        self as int
    }

    fn wide(self) -> (w: i16) {
        self
    }
}

/// What the rows show in lane `h`.
pub open spec fn lane_values<T: Lane>(table: Seq<T>, rows: Seq<int>, width: int, h: int) -> Seq<int> {
    Seq::new(rows.len(), |m: int| table[rows[m] * width + h].number())
}

/// Lane `h` of the rows, added up.
pub open spec fn lane_sum<T: Lane>(table: Seq<T>, rows: Seq<int>, width: int, h: int) -> int {
    sum_first(lane_values(table, rows, width, h), rows.len() as int)
}

/// Adding up lane by lane is folding.
proof fn lemma_lane_fold<T: Lane>(table: Seq<T>, rows: Seq<int>, width: int, h: int, v: int)
    ensures
        rows.fold_right(|r: int, a: int| a + table[r * width + h].number(), v) == v + lane_sum(
            table,
            rows,
            width,
            h,
        ),
    decreases rows.len(),
{
    if rows.len() > 0 {
        let init = rows.drop_last();
        let x = lane_values(table, rows, width, h);
        lemma_lane_fold(table, init, width, h, v + table[rows.last() * width + h].number());
        assert(lane_values(table, init, width, h) =~= x.drop_last());
        lemma_sum_prefix(x, x.len() - 1);
    }
}

proof fn lemma_sum_prefix(x: Seq<int>, n: int)
    requires
        0 <= n < x.len(),
    ensures
        sum_first(x.drop_last(), n) == sum_first(x, n),
    decreases n,
{
    if n > 0 {
        lemma_sum_prefix(x, n - 1);
    }
}

/// The order of the rows does not matter.
pub proof fn law_row_order<T: Lane>(table: Seq<T>, a: Seq<int>, c: Seq<int>, width: int, h: int)
    requires
        a.to_multiset() == c.to_multiset(),
    ensures
        lane_sum(table, a, width, h) == lane_sum(table, c, width, h),
{
    let f = |r: int, v: int| v + table[r * width + h].number();
    lemma_lane_fold(table, a, width, h, 0);
    lemma_lane_fold(table, c, width, h, 0);
    vstd::seq_lib::lemma_fold_right_permutation(a, c, f, 0);
}

/// Every row lies within the table.
pub open spec fn rows_fit(len: int, rows: Seq<int>, width: int) -> bool {
    forall|m: int| 0 <= m < rows.len() ==> 0 <= #[trigger] rows[m] && rows[m] * width + width <= len
}

/// Row numbers as numbers.
pub open spec fn numbers(rows: Seq<usize>) -> Seq<int> {
    rows.map_values(|r: usize| r as int)
}

/// Add the rows, lane by lane, to a bias row that starts at `at`.
pub fn accumulate_rows<T: Lane>(
    table: &Vec<T>,
    rows: &Vec<usize>,
    width: usize,
    bias: &Vec<i16>,
    at: usize,
) -> (acc: Vec<i16>)
    requires
        rows_fit(table@.len() as int, numbers(rows@), width as int),
        at + width <= bias@.len(),
    ensures
        acc@.len() == width,
        forall|h: int|
            0 <= h < width ==> #[trigger] acc@[h] == wrap16(
                bias@[at + h] + lane_sum(table@, numbers(rows@), width as int, h),
            ),
{
    let ghost ids = numbers(rows@);
    let total: usize = table.len();
    let room: usize = bias.len();
    let mut acc: Vec<i16> = Vec::new();
    let mut k: usize = 0;
    while k < width
        invariant
            room == bias@.len(),
            at + width <= room,
            k <= width,
            acc@.len() == k,
            forall|h: int| 0 <= h < k ==> #[trigger] acc@[h] == bias@[at + h],
        decreases width - k,
    {
        acc.push(bias[at + k]);
        k = k + 1;
    }
    proof {
        assert forall|h: int| 0 <= h < width implies #[trigger] acc@[h] == wrap16(
            bias@[at + h] + sum_first(lane_values(table@, ids, width as int, h), 0),
        ) by {
            lemma_wrap16(acc@[h] as int, 0);
        }
    }
    let mut m: usize = 0;
    while m < rows.len()
        invariant
            total == table@.len(),
            ids == numbers(rows@),
            rows_fit(total as int, ids, width as int),
            m <= rows@.len(),
            acc@.len() == width,
            forall|h: int|
                0 <= h < width ==> #[trigger] acc@[h] == wrap16(
                    bias@[at + h] + sum_first(lane_values(table@, ids, width as int, h), m as int),
                ),
        decreases rows@.len() - m,
    {
        let r: usize = rows[m];
        assert(ids[m as int] == r);
        let base: usize = if width == 0 {
            0
        } else {
            assert(r * width + width <= total);
            r * width
        };
        let ghost before = acc@;
        let mut h: usize = 0;
        while h < width
            invariant
                total == table@.len(),
                width > 0 ==> base == r * width,
                r * width + width <= total,
                h <= width,
                acc@.len() == width,
                before.len() == width,
                forall|k: int|
                    0 <= k < width ==> #[trigger] acc@[k] == if k < h {
                        wrap16(before[k] + table@[r * width + k].number())
                    } else {
                        before[k] as int
                    },
            decreases width - h,
        {
            let s: i16 = add16(acc[h], table[base + h].wide());
            acc.set(h, s);
            h = h + 1;
        }
        proof {
            assert forall|h: int| 0 <= h < width implies #[trigger] acc@[h] == wrap16(
                bias@[at + h] + sum_first(lane_values(table@, ids, width as int, h), m + 1),
            ) by {
                let values = lane_values(table@, ids, width as int, h);
                assert(before[h] == wrap16(bias@[at + h] + sum_first(values, m as int)));
                assert(values[m as int] == table@[r * width + h].number());
                lemma_wrap16(
                    bias@[at + h] + sum_first(values, m as int),
                    table@[r * width + h].number(),
                );
            }
        }
        m = m + 1;
    }
    acc
}

/// A lane with its bias, cut off below zero.
pub open spec fn lit(a: i16, b: i16) -> int {
    let s = wrap16(a + b);
    if s > 0 {
        s
    } else {
        0
    }
}

/// The lanes with their biases, cut off below zero, times their weights, added
/// up over the first `n`.
pub open spec fn readout(acc: Seq<i16>, b: Seq<i16>, w: Seq<i16>, n: int) -> int
    decreases n,
{
    if n <= 0 {
        0
    } else {
        readout(acc, b, w, n - 1) + lit(acc[n - 1], b[n - 1]) * w[n - 1]
    }
}

/// A lane with its bias, cut off below zero.
fn light(a: i16, b: i16) -> (x: i16)
    ensures
        x == lit(a, b),
        0 <= x,
{
    let s: i16 = add16(a, b);
    if s > 0 {
        s
    } else {
        0
    }
}

/// The read-out of the lanes with the biases and weights that start at `at`.
pub fn readout_dot(acc: &Vec<i16>, b: &Vec<i16>, w: &Vec<i16>, at: usize) -> (sum: i64)
    requires
        at + acc@.len() <= b@.len(),
        at + acc@.len() <= w@.len(),
        acc@.len() <= 65536,
    ensures
        sum == readout(
            acc@,
            b@.subrange(at as int, at + acc@.len()),
            w@.subrange(at as int, at + acc@.len()),
            acc@.len() as int,
        ),
        -(acc@.len() * 1_073_741_824) <= sum <= acc@.len() * 1_073_741_824,
{
    let n: usize = acc.len();
    let room: usize = b.len();
    let ghost bs = b@.subrange(at as int, at + acc@.len());
    let ghost ws = w@.subrange(at as int, at + acc@.len());
    let mut sum: i64 = 0;
    let mut h: usize = 0;
    while h < n
        invariant
            n == acc@.len(),
            room == b@.len(),
            at + n <= room,
            at + n <= w@.len(),
            bs == b@.subrange(at as int, at + n),
            ws == w@.subrange(at as int, at + n),
            n <= 65536,
            h <= n,
            sum == readout(acc@, bs, ws, h as int),
            -(h * 1_073_741_824) <= sum <= h * 1_073_741_824,
        decreases n - h,
    {
        let x: i16 = light(acc[h], b[at + h]);
        let y: i16 = w[at + h];
        assert(-1_073_741_824 <= x as int * y as int <= 1_073_741_824) by (nonlinear_arith)
            requires
                0 <= x <= 32767,
                -32768 <= y <= 32767,
        ;
        sum = sum + x as i64 * y as i64;
        h = h + 1;
    }
    sum
}

/// Two to the power of `n`.
pub open spec fn pow2(n: nat) -> nat
    decreases n,
{
    if n == 0 {
        1
    } else {
        2 * pow2((n - 1) as nat)
    }
}

/// A number halved `n` times, rounded down.
fn halved(x: u32, n: u8) -> (y: u32)
    ensures
        y == x / (pow2(n as nat) as u32) || pow2(n as nat) > u32::MAX,
        y <= x,
        pow2(n as nat) <= u32::MAX ==> y == x as nat / pow2(n as nat),
    decreases n,
{
    if n == 0 {
        x
    } else {
        let half: u32 = x / 2;
        let y: u32 = halved(half, n - 1);
        proof {
            let p = pow2((n - 1) as nat);
            lemma_pow2_pos((n - 1) as nat);
            assert((x as nat / 2) / p == x as nat / (2 * p)) by (nonlinear_arith)
                requires
                    p > 0,
            ;
        }
        y
    }
}

/// Powers of two are positive.
pub proof fn lemma_pow2_pos(n: nat)
    ensures
        pow2(n) > 0,
    decreases n,
{
    if n > 0 {
        lemma_pow2_pos((n - 1) as nat);
    }
}

/// A lane as a byte for the head's first layer: cut off below zero, scaled
/// down, pinned at 255 and moved down by 128.
pub open spec fn packed_lane(a: i16, b: i16, shift: nat) -> int {
    let s = a + b;
    let v = if s > 0 {
        s
    } else {
        0
    };
    let x = v as nat / pow2(shift);
    if x > 255 {
        127
    } else {
        x - 128
    }
}

/// The lanes, with the biases that start at `at`, as bytes for the head's first
/// layer.
pub fn activations_i8(acc: &Vec<i16>, fb: &Vec<i16>, at: usize, shift: u8) -> (a: Vec<i8>)
    requires
        at + acc@.len() <= fb@.len(),
        shift <= 15,
    ensures
        a@.len() == acc@.len(),
        forall|h: int|
            0 <= h < acc@.len() ==> #[trigger] a@[h] == packed_lane(
                acc@[h],
                fb@[at + h],
                shift as nat,
            ),
{
    let n: usize = acc.len();
    let room: usize = fb.len();
    let mut a: Vec<i8> = Vec::new();
    let mut h: usize = 0;
    proof {
        lemma_pow2_small(shift as nat);
    }
    while h < n
        invariant
            n == acc@.len(),
            room == fb@.len(),
            at + n <= room,
            shift <= 15,
            pow2(shift as nat) <= 32768,
            h <= n,
            a@.len() == h,
            forall|k: int|
                0 <= k < h ==> #[trigger] a@[k] == packed_lane(acc@[k], fb@[at + k], shift as nat),
        decreases n - h,
    {
        let s: i32 = acc[h] as i32 + fb[at + h] as i32;
        let v: u32 = if s > 0 {
            s as u32
        } else {
            0
        };
        let x: u32 = halved(v, shift);
        let y: i8 = if x > 255 {
            127
        } else {
            (x as i32 - 128) as i8
        };
        a.push(y);
        h = h + 1;
    }
    a
}

proof fn lemma_pow2_small(n: nat)
    requires
        n <= 15,
    ensures
        0 < pow2(n) <= 32768,
    decreases 15 - n,
{
    lemma_pow2_pos(n);
    if n < 15 {
        lemma_pow2_small(n + 1);
    } else {
        reveal_with_fuel(pow2, 16);
    }
}

/// The products of a row with lanes, added up over the first `n`.
pub open spec fn lane_dot<T: Lane>(row: Seq<T>, at: int, lanes: Seq<int>, n: int) -> int
    decreases n,
{
    if n <= 0 {
        0
    } else {
        lane_dot(row, at, lanes, n - 1) + row[at + n - 1].number() * lanes[n - 1]
    }
}

/// Bytes as numbers.
pub open spec fn bytes_of(x: Seq<i8>) -> Seq<int> {
    x.map_values(|b: i8| b as int)
}

/// The dot product of a row of bytes that starts at `at` with another.
pub fn dot_i8(row: &Vec<i8>, at: usize, x: &Vec<i8>) -> (sum: i32)
    requires
        at + x@.len() <= row@.len(),
        x@.len() <= 4096,
    ensures
        sum == lane_dot(row@, at as int, bytes_of(x@), x@.len() as int),
        -16384 * (x@.len() as int) <= sum <= 16384 * (x@.len() as int),
{
    let n: usize = x.len();
    let len: usize = row.len();
    let mut sum: i32 = 0;
    let mut h: usize = 0;
    while h < n
        invariant
            n == x@.len(),
            len == row@.len(),
            at + n <= len,
            n <= 4096,
            h <= n,
            sum == lane_dot(row@, at as int, bytes_of(x@), h as int),
            -(16384 * h) <= sum <= 16384 * h,
        decreases n - h,
    {
        let a: i8 = row[at + h];
        let b: i8 = x[h];
        assert(-16384 <= a as int * b as int <= 16384) by (nonlinear_arith)
            requires
                -128 <= a <= 127,
                -128 <= b <= 127,
        ;
        sum = sum + a as i32 * b as i32;
        h = h + 1;
    }
    sum
}

/// The weights of a row, added up over the first `n`.
pub open spec fn row_sum<T: Lane>(row: Seq<T>, at: int, n: int) -> int
    decreases n,
{
    if n <= 0 {
        0
    } else {
        row_sum(row, at, n - 1) + row[at + n - 1].number()
    }
}

/// The sum of a row's weights.
pub fn weight_sum(row: &Vec<i8>, at: usize, n: usize) -> (sum: i32)
    requires
        at + n <= row@.len(),
        n <= 4096,
    ensures
        sum == row_sum(row@, at as int, n as int),
        -128 * n <= sum <= 128 * n,
{
    let len: usize = row.len();
    let mut sum: i32 = 0;
    let mut h: usize = 0;
    while h < n
        invariant
            len == row@.len(),
            at + n <= len,
            n <= 4096,
            h <= n,
            sum == row_sum(row@, at as int, h as int),
            -(128 * h) <= sum <= 128 * h,
        decreases n - h,
    {
        sum = sum + row[at + h] as i32;
        h = h + 1;
    }
    sum
}

/// The products of a row with lanes that were moved down by 128 are short of
/// those with the lanes themselves by 128 times the sum of the row.
pub proof fn law_moved_lanes<T: Lane>(row: Seq<T>, at: int, x: Seq<int>, lanes: Seq<int>, n: int)
    requires
        0 <= n <= x.len(),
        n <= lanes.len(),
        forall|h: int| 0 <= h < n ==> #[trigger] x[h] == lanes[h] - 128,
    ensures
        lane_dot(row, at, x, n) + 128 * row_sum(row, at, n) == lane_dot(row, at, lanes, n),
    decreases n,
{
    if n > 0 {
        law_moved_lanes(row, at, x, lanes, n - 1);
        let w = row[at + n - 1].number();
        let l = lanes[n - 1];
        assert(x[n - 1] == l - 128);
        assert(w * (l - 128) == w * l - 128 * w) by (nonlinear_arith);
    }
}

/// One output of the head's first layer before its bias: the products of the
/// row with the lanes as they were before they were moved down.
pub fn layer_one(row: &Vec<i8>, at: usize, x: &Vec<i8>, rowsum: i32) -> (d: i32)
    requires
        at + x@.len() <= row@.len(),
        x@.len() <= 4096,
        rowsum == row_sum(row@, at as int, x@.len() as int),
    ensures
        d == lane_dot(row@, at as int, bytes_of(x@), x@.len() as int) + 128 * row_sum(
            row@,
            at as int,
            x@.len() as int,
        ),
{
    proof {
        lemma_row_sum(row@, at as int, x@.len() as int);
    }
    dot_i8(row, at, x) + 128 * rowsum
}

proof fn lemma_row_sum(row: Seq<i8>, at: int, n: int)
    requires
        0 <= n,
    ensures
        -128 * n <= row_sum(row, at, n) <= 128 * n,
    decreases n,
{
    if n > 0 {
        lemma_row_sum(row, at, n - 1);
    }
}

/// A lane with its bias, cut off below zero and at the cap.
pub open spec fn gated(a: i16, b: i16, cap: int) -> int {
    let s = a + b;
    if s < 0 {
        0
    } else if s > cap {
        cap
    } else {
        s
    }
}

/// The products of the lanes of the two halves, gated, times their weights,
/// added up over the first `n` pairs.
pub open spec fn gate_sum(acc: Seq<i16>, fb: Seq<i16>, pw: Seq<i16>, cap: int, n: int) -> int
    decreases n,
{
    if n <= 0 {
        0
    } else {
        let half = acc.len() / 2;
        gate_sum(acc, fb, pw, cap, n - 1) + pw[n - 1] * (gated(acc[n - 1], fb[n - 1], cap) * gated(
            acc[half + n - 1],
            fb[half + n - 1],
            cap,
        ))
    }
}

/// A lane with its bias, cut off below zero and at the cap.
fn gate(a: i16, b: i16, cap: i32) -> (x: i32)
    requires
        0 <= cap <= 32767,
    ensures
        x == gated(a, b, cap as int),
        0 <= x <= 32767,
{
    let s: i32 = a as i32 + b as i32;
    if s < 0 {
        0
    } else if s > cap {
        cap
    } else {
        s
    }
}

/// The product gate: the two halves of the lanes, with the biases that start at
/// `at`, multiplied pair by pair, with the weights that start at `from`.
pub fn prod_sum_q(
    acc: &Vec<i16>,
    fb: &Vec<i16>,
    at: usize,
    pw: &Vec<i16>,
    from: usize,
    cap: i32,
) -> (sum: i64)
    requires
        at + acc@.len() <= fb@.len(),
        from + acc@.len() / 2 <= pw@.len(),
        acc@.len() <= 4096,
        0 <= cap <= 32767,
    ensures
        sum == gate_sum(
            acc@,
            fb@.subrange(at as int, at + acc@.len()),
            pw@.subrange(from as int, from + acc@.len() / 2),
            cap as int,
            (acc@.len() / 2) as int,
        ),
        -(acc@.len() * 35_184_372_088_832) <= sum <= acc@.len() * 35_184_372_088_832,
{
    let n: usize = acc.len();
    let half: usize = n / 2;
    let room: usize = fb.len();
    let weights: usize = pw.len();
    let ghost bs = fb@.subrange(at as int, at + acc@.len());
    let ghost ws = pw@.subrange(from as int, from + acc@.len() / 2);
    let mut sum: i64 = 0;
    let mut i: usize = 0;
    while i < half
        invariant
            n == acc@.len(),
            half == n / 2,
            room == fb@.len(),
            at + n <= room,
            weights == pw@.len(),
            from + half <= weights,
            bs == fb@.subrange(at as int, at + n),
            ws == pw@.subrange(from as int, from + half),
            half <= 2048,
            0 <= cap <= 32767,
            i <= half,
            sum == gate_sum(acc@, bs, ws, cap as int, i as int),
            -(i * 35_184_372_088_832) <= sum <= i * 35_184_372_088_832,
        decreases half - i,
    {
        let a: i32 = gate(acc[i], fb[at + i], cap);
        let b: i32 = gate(acc[half + i], fb[at + half + i], cap);
        assert(0 <= a as int * b as int <= 1_073_676_289) by (nonlinear_arith)
            requires
                0 <= a <= 32767,
                0 <= b <= 32767,
        ;
        let p: i64 = a as i64 * b as i64;
        let w: i64 = pw[from + i] as i64;
        assert(-35_184_372_088_832 <= w as int * p as int <= 35_184_372_088_832)
            by (nonlinear_arith)
            requires
                0 <= p <= 1_073_676_289,
                -32768 <= w <= 32767,
        ;
        sum = sum + w * p;
        i = i + 1;
    }
    sum
}

/// A lane with its bias is what their sum is where that is above zero and no wider
/// than a lane, and nothing where it is below.
pub proof fn law_lanes_are_cut_off(a: i16, b: i16, cap: int)
    requires
        0 <= cap,
    ensures
        lit(a, b) >= 0,
        0 <= a + b <= 32767 ==> lit(a, b) == a + b,
        -32768 <= a + b <= 0 ==> lit(a, b) == 0,
        0 <= gated(a, b, cap) <= cap,
        0 <= a + b <= cap ==> gated(a, b, cap) == a + b,
        a + b >= cap ==> gated(a, b, cap) == cap,
        a + b <= 0 ==> gated(a, b, cap) == 0,
{
    lemma_wrap16(a + b, 0);
}

/// A read-out weight counts its own lane: `k` more of it are `k` times what the lane
/// shows more. Without weights nothing is read out.
pub proof fn law_readout_weight(
    acc: Seq<i16>,
    b: Seq<i16>,
    w: Seq<i16>,
    v: Seq<i16>,
    n: int,
    h: int,
    k: int,
)
    requires
        0 <= h,
        forall|i: int|
            0 <= i < n ==> #[trigger] v[i] == w[i] + if i == h {
                k
            } else {
                0
            },
    ensures
        readout(acc, b, v, n) == readout(acc, b, w, n) + if h < n {
            k * lit(acc[h], b[h])
        } else {
            0
        },
        (forall|i: int| 0 <= i < n ==> #[trigger] w[i] == 0) ==> readout(acc, b, w, n) == 0,
    decreases n,
{
    if n > 0 {
        law_readout_weight(acc, b, w, v, n - 1, h, k);
        let (x, y) = (lit(acc[n - 1], b[n - 1]), w[n - 1] as int);
        assert(v[n - 1] == w[n - 1] + if n - 1 == h {
            k
        } else {
            0
        });
        assert(x * (y + k) == x * y + k * x) by (nonlinear_arith);
        assert(x * 0 == 0) by (nonlinear_arith);
    }
}

/// A weight of the product gate counts its own pair of lanes.
pub proof fn law_gate_weight(
    acc: Seq<i16>,
    fb: Seq<i16>,
    w: Seq<i16>,
    v: Seq<i16>,
    cap: int,
    n: int,
    h: int,
    k: int,
)
    requires
        0 <= h,
        forall|i: int|
            0 <= i < n ==> #[trigger] v[i] == w[i] + if i == h {
                k
            } else {
                0
            },
    ensures
        gate_sum(acc, fb, v, cap, n) == gate_sum(acc, fb, w, cap, n) + if h < n {
            let half = acc.len() / 2;
            k * (gated(acc[h], fb[h], cap) * gated(acc[half + h], fb[half + h], cap))
        } else {
            0
        },
        (forall|i: int| 0 <= i < n ==> #[trigger] w[i] == 0) ==> gate_sum(acc, fb, w, cap, n) == 0,
    decreases n,
{
    if n > 0 {
        law_gate_weight(acc, fb, w, v, cap, n - 1, h, k);
        let half = acc.len() / 2;
        let x = gated(acc[n - 1], fb[n - 1], cap) * gated(acc[half + n - 1], fb[half + n - 1], cap);
        let y = w[n - 1] as int;
        assert(v[n - 1] == w[n - 1] + if n - 1 == h {
            k
        } else {
            0
        });
        assert((y + k) * x == y * x + k * x) by (nonlinear_arith);
        assert(0 * x == 0) by (nonlinear_arith);
    }
}

/// A weight of a dense layer counts its own input.
pub proof fn law_dense_weight<T: Lane>(
    row: Seq<T>,
    other: Seq<T>,
    at: int,
    lanes: Seq<int>,
    n: int,
    h: int,
    k: int,
)
    requires
        0 <= h,
        forall|i: int|
            0 <= i < n ==> (#[trigger] other[at + i]).number() == row[at + i].number() + if i == h {
                k
            } else {
                0
            },
    ensures
        lane_dot(other, at, lanes, n) == lane_dot(row, at, lanes, n) + if h < n {
            k * lanes[h]
        } else {
            0
        },
    decreases n,
{
    if n > 0 {
        assert forall|i: int| 0 <= i < n - 1 implies (#[trigger] other[at + i]).number()
            == row[at + i].number() + if i == h {
            k
        } else {
            0
        } by {}
        law_dense_weight(row, other, at, lanes, n - 1, h, k);
        let (x, y) = (lanes[n - 1], row[at + n - 1].number());
        assert(other[at + (n - 1)].number() == y + if n - 1 == h {
            k
        } else {
            0
        });
        assert((y + k) * x == y * x + k * x) by (nonlinear_arith);
        assert((y + 0) * x == y * x) by (nonlinear_arith);
    }
}

/// How often the row is among the first `n`.
pub open spec fn occurrences(rows: Seq<int>, r: int, n: int) -> int
    decreases n,
{
    if n <= 0 {
        0
    } else {
        occurrences(rows, r, n - 1) + if rows[n - 1] == r {
            1int
        } else {
            0int
        }
    }
}

/// A number of a table counts in its lane once for every time that its row is
/// selected: `k` more of it are `k` more for each.
pub proof fn law_row_counts_where_selected<T: Lane>(
    table: Seq<T>,
    other: Seq<T>,
    rows: Seq<int>,
    width: int,
    h: int,
    r: int,
    k: int,
)
    requires
        forall|i: int|
            0 <= i < rows.len() ==> other[(#[trigger] rows[i]) * width + h].number() == table[rows[i]
                * width + h].number() + if rows[i] == r {
                k
            } else {
                0
            },
    ensures
        lane_sum(other, rows, width, h) == lane_sum(table, rows, width, h) + k * occurrences(
            rows,
            r,
            rows.len() as int,
        ),
{
    lemma_row_counts(table, other, rows, width, h, r, k, rows.len() as int);
}

proof fn lemma_row_counts<T: Lane>(
    table: Seq<T>,
    other: Seq<T>,
    rows: Seq<int>,
    width: int,
    h: int,
    r: int,
    k: int,
    n: int,
)
    requires
        0 <= n <= rows.len(),
        forall|i: int|
            0 <= i < rows.len() ==> other[(#[trigger] rows[i]) * width + h].number() == table[rows[i]
                * width + h].number() + if rows[i] == r {
                k
            } else {
                0
            },
    ensures
        sum_first(lane_values(other, rows, width, h), n) == sum_first(
            lane_values(table, rows, width, h),
            n,
        ) + k * occurrences(rows, r, n),
    decreases n,
{
    if n > 0 {
        lemma_row_counts(table, other, rows, width, h, r, k, n - 1);
        let q = rows[n - 1];
        let before = occurrences(rows, r, n - 1);
        assert(other[q * width + h].number() == table[q * width + h].number() + if q == r {
            k
        } else {
            0
        });
        assert(k * (before + 1) == k * before + k) by (nonlinear_arith);
    } else {
        assert(k * 0 == 0);
    }
}

} // verus!
