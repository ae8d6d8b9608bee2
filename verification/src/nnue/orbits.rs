//! Which cells of a shape's table show the same position under a symmetry of
//! the board.

use vstd::prelude::*;

use crate::pattern::{Pattern, lemma_pow3_mono, lemma_pow3_values, on_board, pow3};
use crate::symmetry::{lemma_inverse, map_square, mapped};

verus! {

/// The digits of an index, the first one first.
pub open spec fn digits(x: nat, n: nat) -> Seq<nat>
    decreases n,
{
    if n == 0 {
        Seq::empty()
    } else {
        digits(x / 3, (n - 1) as nat).push(x % 3)
    }
}

/// The index with the given digits.
pub open spec fn number(ds: Seq<nat>) -> nat
    decreases ds.len(),
{
    if ds.len() == 0 {
        0
    } else {
        number(ds.drop_last()) * 3 + ds.last()
    }
}

/// There are as many digits as asked for, and each is a digit.
pub proof fn lemma_digits(x: nat, n: nat)
    ensures
        digits(x, n).len() == n,
        forall|i: int| 0 <= i < n ==> #[trigger] digits(x, n)[i] < 3,
        x < pow3(n) ==> number(digits(x, n)) == x,
    decreases n,
{
    if n > 0 {
        lemma_digits(x / 3, (n - 1) as nat);
        assert(digits(x, n).drop_last() =~= digits(x / 3, (n - 1) as nat));
    }
}

/// The digits of a number made of digits are these digits.
pub proof fn lemma_number(ds: Seq<nat>)
    requires
        forall|i: int| 0 <= i < ds.len() ==> #[trigger] ds[i] < 3,
    ensures
        number(ds) < pow3(ds.len()),
        digits(number(ds), ds.len()) == ds,
    decreases ds.len(),
{
    if ds.len() > 0 {
        let init = ds.drop_last();
        assert forall|i: int| 0 <= i < init.len() implies #[trigger] init[i] < 3 by {
            assert(ds[i] < 3);
        }
        lemma_number(init);
        assert(ds[ds.len() - 1] < 3);
        assert(number(ds) / 3 == number(init) && number(ds) % 3 == ds.last());
        assert(init.push(ds.last()) =~= ds);
    } else {
        assert(digits(0, 0) =~= ds);
    }
}

/// The list has each of the first `n` numbers once.
pub open spec fn is_perm(perm: Seq<usize>, n: int) -> bool {
    &&& perm.len() == n
    &&& forall|j: int| 0 <= j < n ==> #[trigger] perm[j] < n
    &&& forall|i: int, j: int| 0 <= i < j < n ==> #[trigger] perm[i] != #[trigger] perm[j]
    &&& forall|i: int| 0 <= i < n ==> #[trigger] reaches(perm, i)
}

/// Some digit moves to place `i`.
pub open spec fn reaches(perm: Seq<usize>, i: int) -> bool {
    exists|j: int| 0 <= j < perm.len() && #[trigger] perm[j] == i
}

/// The digit that moves to place `i`.
pub open spec fn source(perm: Seq<usize>, i: int) -> int {
    choose|j: int| 0 <= j < perm.len() && #[trigger] perm[j] == i
}

/// The digits after each has moved to its place.
pub open spec fn permuted(ds: Seq<nat>, perm: Seq<usize>) -> Seq<nat> {
    Seq::new(ds.len(), |i: int| ds[source(perm, i)])
}

/// The index after its digits have moved: digit `j` goes to place `perm[j]`.
pub open spec fn moved(x: nat, n: nat, perm: Seq<usize>) -> nat {
    number(permuted(digits(x, n), perm))
}

/// The digits of a moved index.
pub proof fn lemma_moved(x: nat, n: nat, perm: Seq<usize>)
    requires
        is_perm(perm, n as int),
    ensures
        moved(x, n, perm) < pow3(n),
        digits(moved(x, n, perm), n) == permuted(digits(x, n), perm),
        forall|j: int|
            0 <= j < n ==> digits(moved(x, n, perm), n)[#[trigger] perm[j] as int] == digits(
                x,
                n,
            )[j],
{
    lemma_digits(x, n);
    let ds = digits(x, n);
    let ps = permuted(ds, perm);
    assert forall|i: int| 0 <= i < ps.len() implies #[trigger] ps[i] < 3 by {
        assert(reaches(perm, i));
        let j = source(perm, i);
        assert(ds[j] < 3);
    }
    lemma_number(ps);
    assert forall|j: int| 0 <= j < n implies ps[#[trigger] perm[j] as int] == ds[j] by {
        let i = perm[j] as int;
        assert(reaches(perm, i));
        let k = source(perm, i);
        assert(perm[k] == i);
        if k < j {
            assert(perm[k] != perm[j]);
        } else if j < k {
            assert(perm[j] != perm[k]);
        }
    }
}

/// Different indices move to different indices.
pub proof fn lemma_moved_injective(x: nat, y: nat, n: nat, perm: Seq<usize>)
    requires
        is_perm(perm, n as int),
        x < pow3(n),
        y < pow3(n),
        moved(x, n, perm) == moved(y, n, perm),
    ensures
        x == y,
{
    lemma_moved(x, n, perm);
    lemma_moved(y, n, perm);
    lemma_digits(x, n);
    lemma_digits(y, n);
    assert forall|j: int| 0 <= j < n implies digits(x, n)[j] == digits(y, n)[j] by {
        let i = perm[j] as int;
        assert(digits(moved(x, n, perm), n)[i] == digits(x, n)[j]);
        assert(digits(moved(y, n, perm), n)[i] == digits(y, n)[j]);
    }
    assert(digits(x, n) =~= digits(y, n));
}

/// The index after its digits have moved: digit `j` goes to place `perm[j]`.
pub fn apply_index_perm(index: usize, size: usize, perm: &Vec<usize>) -> (y: usize)
    requires
        is_perm(perm@, size as int),
        size <= 10,
        index < pow3(size as nat),
    ensures
        y == moved(index as nat, size as nat, perm@),
        y < pow3(size as nat),
{
    let ghost ds = digits(index as nat, size as nat);
    let mut list: Vec<usize> = Vec::new();
    let mut out: Vec<usize> = Vec::new();
    let mut k: usize = 0;
    while k < size
        invariant
            k <= size,
            list@.len() == k,
            out@.len() == k,
            forall|i: int| 0 <= i < k ==> #[trigger] out@[i] == 0,
        decreases size - k,
    {
        list.push(0);
        out.push(0);
        k = k + 1;
    }
    let mut x: usize = index;
    let mut j: usize = size;
    proof {
        lemma_digits(index as nat, size as nat);
    }
    while j > 0
        invariant
            j <= size,
            list@.len() == size,
            ds == digits(index as nat, size as nat),
            ds.len() == size,
            forall|i: int| 0 <= i < j ==> #[trigger] ds[i] == digits(x as nat, j as nat)[i],
            forall|i: int| j <= i < size ==> #[trigger] list@[i] == ds[i],
        decreases j,
    {
        proof {
            lemma_digits(x as nat / 3, (j - 1) as nat);
            assert(ds[j - 1] == digits(x as nat, j as nat)[j - 1]);
        }
        let ghost was = x as nat;
        list.set(j - 1, x % 3);
        x = x / 3;
        j = j - 1;
        proof {
            assert forall|i: int| 0 <= i < j implies #[trigger] ds[i] == digits(x as nat, j as nat)[i] by {
                assert(ds[i] == digits(was, (j + 1) as nat)[i]);
            }
        }
    }
    let mut q: usize = 0;
    while q < size
        invariant
            q <= size,
            is_perm(perm@, size as int),
            list@.len() == size,
            out@.len() == size,
            ds.len() == size,
            forall|i: int| 0 <= i < size ==> #[trigger] list@[i] == ds[i],
            forall|i: int| 0 <= i < q ==> out@[#[trigger] perm@[i] as int] == ds[i],
        decreases size - q,
    {
        let to: usize = perm[q];
        let ghost before = out@;
        out.set(to, list[q]);
        proof {
            assert forall|i: int| 0 <= i < q + 1 implies out@[#[trigger] perm@[i] as int] == ds[i] by {
                if i < q {
                    assert(perm@[i] != perm@[q as int]);
                    assert(before[perm@[i] as int] == ds[i]);
                }
            }
        }
        q = q + 1;
    }
    let ghost ps = permuted(ds, perm@);
    proof {
        lemma_moved(index as nat, size as nat, perm@);
        assert forall|i: int| 0 <= i < size implies #[trigger] out@[i] == ps[i] && ps[i] < 3 by {
            assert(reaches(perm@, i));
            let s = source(perm@, i);
            assert(out@[perm@[s] as int] == ds[s]);
            assert(ds[s] < 3);
        }
        lemma_pow3_mono(size as nat, 10);
        lemma_pow3_values();
    }
    let mut y: usize = 0;
    let mut h: usize = 0;
    assert(ps.take(0) =~= Seq::<nat>::empty());
    while h < size
        invariant
            h <= size <= 10,
            ps.len() == size,
            out@.len() == size,
            forall|i: int| 0 <= i < size ==> #[trigger] out@[i] == ps[i] && ps[i] < 3,
            y == number(ps.take(h as int)),
            pow3(10) == 59049,
        decreases size - h,
    {
        proof {
            assert forall|i: int| 0 <= i < h implies #[trigger] ps.take(h as int)[i] < 3 by {
                assert(out@[i] == ps[i]);
            }
            lemma_number(ps.take(h as int));
            lemma_pow3_mono(h as nat, 10);
            assert(ps.take(h + 1).drop_last() =~= ps.take(h as int));
            assert(out@[h as int] == ps[h as int]);
        }
        y = y * 3 + out[h];
        h = h + 1;
    }
    assert(ps.take(size as int) =~= ps);
    y
}

/// No square occurs twice.
pub open spec fn no_repeats(mask: Seq<u8>) -> bool {
    forall|i: int, j: int| 0 <= i < j < mask.len() ==> #[trigger] mask[i] != #[trigger] mask[j]
}

/// The `s`-th symmetry takes square `j` of mask `m` to square `perm[j]` of mask
/// `k`, and leaves no square of `k` out.
pub open spec fn carries(m: Seq<u8>, s: int, k: Seq<u8>, perm: Seq<usize>) -> bool {
    &&& is_perm(perm, m.len() as int)
    &&& k.len() == m.len()
    &&& forall|j: int|
        0 <= j < m.len() ==> k[#[trigger] perm[j] as int] == mapped(m[j] as int, s)
}

/// Every digit stays where it is.
pub open spec fn stays(perm: Seq<usize>) -> bool {
    forall|j: int| 0 <= j < perm.len() ==> #[trigger] perm[j] == j
}

/// Where a square stands in a mask.
fn place_of(k: &Vec<u8>, t: u8) -> (r: Option<usize>)
    ensures
        match r {
            Some(i) => i < k@.len() && k@[i as int] == t,
            None => forall|i: int| 0 <= i < k@.len() ==> #[trigger] k@[i] != t,
        },
{
    let mut i: usize = 0;
    while i < k.len()
        invariant
            i <= k@.len(),
            forall|q: int| 0 <= q < i ==> #[trigger] k@[q] != t,
        decreases k@.len() - i,
    {
        if k[i] == t {
            return Some(i);
        }
        i = i + 1;
    }
    None
}

/// How the `s`-th symmetry takes mask `m` to mask `k`, if it does.
fn carried(m: &Vec<u8>, s: u8, k: &Vec<u8>) -> (r: Option<Vec<usize>>)
    requires
        s < 8,
        on_board(m@),
        no_repeats(m@),
        no_repeats(k@),
        k@.len() == m@.len(),
    ensures
        match r {
            Some(perm) => carries(m@, s as int, k@, perm@),
            None => forall|perm: Seq<usize>| !#[trigger] carries(m@, s as int, k@, perm),
        },
{
    let n: usize = m.len();
    let mut perm: Vec<usize> = Vec::new();
    let mut seen: Vec<bool> = Vec::new();
    while seen.len() < n
        invariant
            seen@.len() <= n,
            forall|i: int| 0 <= i < seen@.len() ==> !#[trigger] seen@[i],
        decreases n - seen@.len(),
    {
        seen.push(false);
    }
    let mut j: usize = 0;
    while j < n
        invariant
            s < 8,
            n == m@.len(),
            n == k@.len(),
            on_board(m@),
            no_repeats(m@),
            j <= n,
            perm@.len() == j,
            seen@.len() == n,
            forall|i: int|
                0 <= i < j ==> #[trigger] perm@[i] < n && k@[perm@[i] as int] == mapped(
                    m@[i] as int,
                    s as int,
                ),
            forall|i: int| 0 <= i < n ==> (#[trigger] seen@[i] ==> reaches(perm@, i)),
            forall|i: int| 0 <= i < j ==> seen@[#[trigger] perm@[i] as int],
        decreases n - j,
    {
        let t: u8 = map_square(m[j], s);
        let ghost before = perm@;
        match place_of(k, t) {
            None => {
                proof {
                    assert forall|p: Seq<usize>| !#[trigger] carries(m@, s as int, k@, p) by {
                        if carries(m@, s as int, k@, p) {
                            assert(k@[p[j as int] as int] == mapped(m@[j as int] as int, s as int));
                        }
                    }
                }
                return None;
            },
            Some(i) => {
                perm.push(i);
                seen.set(i, true);
                proof {
                    assert(perm@[j as int] == i);
                    assert forall|q: int| 0 <= q < n && #[trigger] seen@[q] implies reaches(
                        perm@,
                        q,
                    ) by {
                        if q != i {
                            assert(reaches(before, q));
                            let w = source(before, q);
                            assert(perm@[w] == before[w]);
                        }
                    }
                    assert forall|q: int| 0 <= q < j + 1 implies seen@[#[trigger] perm@[q] as int] by {
                        if q < j {
                            assert(perm@[q] == before[q]);
                        }
                    }
                }
            },
        }
        j = j + 1;
    }
    let mut i: usize = 0;
    while i < n
        invariant
            s < 8,
            n == m@.len(),
            n == k@.len(),
            on_board(m@),
            no_repeats(k@),
            perm@.len() == n,
            seen@.len() == n,
            forall|i: int|
                0 <= i < n ==> #[trigger] perm@[i] < n && k@[perm@[i] as int] == mapped(
                    m@[i] as int,
                    s as int,
                ),
            forall|i: int| 0 <= i < n ==> seen@[#[trigger] perm@[i] as int],
            forall|i: int| 0 <= i < n ==> (#[trigger] seen@[i] ==> reaches(perm@, i)),
            i <= n,
            forall|q: int| 0 <= q < i ==> #[trigger] reaches(perm@, q),
        decreases n - i,
    {
        if !seen[i] {
            proof {
                assert forall|p: Seq<usize>| !#[trigger] carries(m@, s as int, k@, p) by {
                    if carries(m@, s as int, k@, p) {
                        assert(reaches(p, i as int));
                        let w = source(p, i as int);
                        assert(p[w] == i);
                        let a = perm@[w] as int;
                        assert(k@[a] == k@[i as int]);
                        assert(seen@[a]);
                        if a < i {
                            assert(k@[a] != k@[i as int]);
                        } else if i < a {
                            assert(k@[i as int] != k@[a]);
                        }
                    }
                }
            }
            return None;
        }
        i = i + 1;
    }
    proof {
        assert forall|a: int, c: int| 0 <= a < c < n implies #[trigger] perm@[a]
            != #[trigger] perm@[c] by {
            if perm@[a] == perm@[c] {
                lemma_inverse(m@[a] as int, s as int);
                lemma_inverse(m@[c] as int, s as int);
                assert(m@[a] != m@[c]);
            }
        }
    }
    Some(perm)
}

/// The lists hold the same numbers.
fn same_list(a: &Vec<usize>, b: &Vec<usize>) -> (same: bool)
    ensures
        same == (a@ == b@),
{
    if a.len() != b.len() {
        return false;
    }
    let mut i: usize = 0;
    while i < a.len()
        invariant
            a@.len() == b@.len(),
            i <= a@.len(),
            forall|q: int| 0 <= q < i ==> #[trigger] a@[q] == b@[q],
        decreases a@.len() - i,
    {
        if a[i] != b[i] {
            return false;
        }
        i = i + 1;
    }
    assert(a@ =~= b@);
    true
}

/// The list is among the lists.
fn has_list(lists: &Vec<Vec<usize>>, a: &Vec<usize>) -> (found: bool)
    ensures
        found == exists|q: int| 0 <= q < lists@.len() && (#[trigger] lists@[q])@ == a@,
{
    let mut i: usize = 0;
    while i < lists.len()
        invariant
            i <= lists@.len(),
            forall|q: int| 0 <= q < i ==> (#[trigger] lists@[q])@ != a@,
        decreases lists@.len() - i,
    {
        if same_list(&lists[i], a) {
            return true;
        }
        i = i + 1;
    }
    false
}

/// Every digit stays where it is.
fn all_stay(perm: &Vec<usize>) -> (same: bool)
    ensures
        same == stays(perm@),
{
    let mut i: usize = 0;
    while i < perm.len()
        invariant
            i <= perm@.len(),
            forall|q: int| 0 <= q < i ==> #[trigger] perm@[q] == q,
        decreases perm@.len() - i,
    {
        if perm[i] != i {
            return false;
        }
        i = i + 1;
    }
    true
}

/// The first mask to which the `s`-th symmetry takes mask `m` is mask `k`.
pub open spec fn first_image(p: Pattern, m: int, s: int, k: int) -> bool {
    &&& 0 <= k < p.masks@.len()
    &&& exists|perm: Seq<usize>| #[trigger] carries(p.masks@[m]@, s, p.masks@[k]@, perm)
    &&& forall|q: int, perm: Seq<usize>|
        0 <= q < k ==> !#[trigger] carries(p.masks@[m]@, s, p.masks@[q]@, perm)
}

/// The `s`-th symmetry moves the digits of mask `m` in this way.
pub open spec fn moves_mask(p: Pattern, m: int, s: int, perm: Seq<usize>) -> bool {
    exists|k: int| #[trigger]
        first_image(p, m, s, k) && carries(p.masks@[m]@, s, p.masks@[k]@, perm)
}

/// The ways in which the first masks move, `n` pairs of a mask and a symmetry
/// looked through, are exactly those listed.
pub open spec fn lists_moves(p: Pattern, n: int, lists: Seq<Vec<usize>>) -> bool {
    &&& forall|q: int|
        0 <= q < lists.len() ==> {
            &&& is_perm((#[trigger] lists[q])@, p.size as int)
            &&& !stays(lists[q]@)
            &&& exists|i: int|
                0 <= i < n && #[trigger] moves_mask(p, i / 8, i % 8, lists[q]@)
        }
    &&& forall|a: int, c: int|
        0 <= a < c < lists.len() ==> (#[trigger] lists[a])@ != (#[trigger] lists[c])@
    &&& forall|i: int, perm: Seq<usize>|
        0 <= i < n && #[trigger] moves_mask(p, i / 8, i % 8, perm) && !stays(perm) ==> exists|q: int|
            0 <= q < lists.len() && (#[trigger] lists[q])@ == perm
}

/// There is one way at most to carry a mask to another.
proof fn lemma_carries_once(m: Seq<u8>, s: int, k: Seq<u8>, a: Seq<usize>, c: Seq<usize>)
    requires
        no_repeats(k),
        carries(m, s, k, a),
        carries(m, s, k, c),
    ensures
        a == c,
{
    assert forall|j: int| 0 <= j < a.len() implies a[j] == c[j] by {
        let x = a[j] as int;
        let y = c[j] as int;
        assert(k[x] == k[y]);
        if x < y {
            assert(k[x] != k[y]);
        } else if y < x {
            assert(k[y] != k[x]);
        }
    }
    assert(a =~= c);
}

/// How the symmetries move the digits of a shape's masks, each way once,
/// without those that move nothing.
pub fn symmetry_index_perms(p: &Pattern) -> (lists: Vec<Vec<usize>>)
    requires
        p.wf(),
        forall|m: int| 0 <= m < p.masks@.len() ==> no_repeats((#[trigger] p.masks@[m])@),
        p.masks@.len() <= 1024,
    ensures
        lists_moves(*p, 8 * (p.masks@.len() as int), lists@),
{
    let mut lists: Vec<Vec<usize>> = Vec::new();
    let total: usize = 8 * p.masks.len();
    let mut i: usize = 0;
    while i < total
        invariant
            p.wf(),
            forall|m: int| 0 <= m < p.masks@.len() ==> no_repeats((#[trigger] p.masks@[m])@),
            p.masks@.len() <= 1024,
            total == 8 * p.masks@.len(),
            i <= total,
            lists_moves(*p, i as int, lists@),
        decreases total - i,
    {
        let m: usize = i / 8;
        let s: u8 = (i % 8) as u8;
        let ghost before = lists@;
        let found: Option<Vec<usize>> = image_of(p, m, s);
        match found {
            None => {
                proof {
                    assert forall|perm: Seq<usize>| !#[trigger] moves_mask(*p, i as int / 8, i as int % 8, perm) by {
                        if moves_mask(*p, i as int / 8, i as int % 8, perm) {
                            let k = choose|k: int| #[trigger]
                                first_image(*p, i as int / 8, i as int % 8, k) && carries(
                                    p.masks@[i as int / 8]@,
                                    i as int % 8,
                                    p.masks@[k]@,
                                    perm,
                                );
                            assert(!carries(p.masks@[m as int]@, s as int, p.masks@[k]@, perm));
                        }
                    }
                    lemma_lists_same(*p, i as int, before);
                }
            },
            Some(perm) => {
                let known: bool = has_list(&lists, &perm);
                let still: bool = all_stay(&perm);
                let ghost way = perm@;
                if !known && !still {
                    lists.push(perm);
                }
                proof {
                    if !known && !still {
                        assert(lists@.drop_last() =~= before);
                    }
                    lemma_lists_more(*p, i as int, before, lists@, way);
                }
            },
        }
        i = i + 1;
    }
    lists
}

proof fn lemma_lists_same(p: Pattern, i: int, lists: Seq<Vec<usize>>)
    requires
        0 <= i,
        lists_moves(p, i, lists),
        forall|perm: Seq<usize>| !#[trigger] moves_mask(p, i / 8, i % 8, perm),
    ensures
        lists_moves(p, i + 1, lists),
{
    assert forall|q: int| 0 <= q < lists.len() implies exists|j: int|
        0 <= j < i + 1 && #[trigger] moves_mask(p, j / 8, j % 8, (#[trigger] lists[q])@) by {
        let j = choose|j: int| 0 <= j < i && #[trigger] moves_mask(p, j / 8, j % 8, lists[q]@);
        assert(0 <= j < i + 1 && moves_mask(p, j / 8, j % 8, lists[q]@));
    }
}

proof fn lemma_lists_more(
    p: Pattern,
    i: int,
    before: Seq<Vec<usize>>,
    after: Seq<Vec<usize>>,
    way: Seq<usize>,
)
    requires
        0 <= i < 8 * p.masks@.len(),
        p.wf(),
        forall|m: int| 0 <= m < p.masks@.len() ==> no_repeats((#[trigger] p.masks@[m])@),
        lists_moves(p, i, before),
        moves_mask(p, i / 8, i % 8, way),
        ({
            let known = exists|q: int| 0 <= q < before.len() && (#[trigger] before[q])@ == way;
            if !known && !stays(way) {
                after.len() == before.len() + 1 && after.drop_last() == before && after.last()@
                    == way
            } else {
                after == before
            }
        }),
    ensures
        lists_moves(p, i + 1, after),
{
    let m = i / 8;
    let s = i % 8;
    assert(p.masks@[m]@.len() == p.size);
    assert forall|a: int| 0 <= a < before.len() implies (#[trigger] after[a]) == before[a] by {
        if after.len() > before.len() {
            assert(after.drop_last()[a] == after[a]);
        }
    }
    assert forall|q: int| 0 <= q < after.len() implies {
        &&& is_perm((#[trigger] after[q])@, p.size as int)
        &&& !stays(after[q]@)
        &&& exists|j: int| 0 <= j < i + 1 && #[trigger] moves_mask(p, j / 8, j % 8, after[q]@)
    } by {
        if q < before.len() {
            assert(after[q] == before[q]);
            assert(is_perm(before[q]@, p.size as int));
            let j = choose|j: int| 0 <= j < i && #[trigger] moves_mask(p, j / 8, j % 8, before[q]@);
            assert(0 <= j < i + 1 && moves_mask(p, j / 8, j % 8, after[q]@));
        } else {
            assert(after[q]@ == way);
            assert(moves_mask(p, i / 8, i % 8, after[q]@));
        }
    }
    assert forall|a: int, c: int| 0 <= a < c < after.len() implies (#[trigger] after[a])@
        != (#[trigger] after[c])@ by {
        assert(after[a] == before[a]);
        if c < before.len() {
            assert(after[c] == before[c]);
            assert(before[a]@ != before[c]@);
        } else {
            assert(before[a]@ != way);
        }
    }
    assert forall|j: int, perm: Seq<usize>|
        0 <= j < i + 1 && #[trigger] moves_mask(p, j / 8, j % 8, perm) && !stays(perm) implies exists|
        q: int,
    |
        0 <= q < after.len() && (#[trigger] after[q])@ == perm by {
        if j < i {
            let q = choose|q: int| 0 <= q < before.len() && (#[trigger] before[q])@ == perm;
            assert(after[q]@ == perm);
        } else {
            let k = choose|k: int| #[trigger]
                first_image(p, m, s, k) && carries(p.masks@[m]@, s, p.masks@[k]@, perm);
            let l = choose|l: int| #[trigger]
                first_image(p, m, s, l) && carries(p.masks@[m]@, s, p.masks@[l]@, way);
            if k < l {
                assert(!carries(p.masks@[m]@, s, p.masks@[k]@, perm));
            } else if l < k {
                assert(!carries(p.masks@[m]@, s, p.masks@[l]@, way));
            }
            lemma_carries_once(p.masks@[m]@, s, p.masks@[k]@, perm, way);
            if exists|q: int| 0 <= q < before.len() && (#[trigger] before[q])@ == way {
                let q = choose|q: int| 0 <= q < before.len() && (#[trigger] before[q])@ == way;
                assert(after[q]@ == perm);
            } else {
                assert(after[before.len() as int]@ == perm);
            }
        }
    }
}

/// How the `s`-th symmetry moves the digits of mask `m`, if it takes it to a
/// mask of the shape.
fn image_of(p: &Pattern, m: usize, s: u8) -> (r: Option<Vec<usize>>)
    requires
        p.wf(),
        forall|m: int| 0 <= m < p.masks@.len() ==> no_repeats((#[trigger] p.masks@[m])@),
        m < p.masks@.len(),
        s < 8,
    ensures
        match r {
            Some(perm) => moves_mask(*p, m as int, s as int, perm@),
            None => forall|k: int, perm: Seq<usize>|
                0 <= k < p.masks@.len() ==> !#[trigger] carries(
                    p.masks@[m as int]@,
                    s as int,
                    p.masks@[k]@,
                    perm,
                ),
        },
{
    let mut k: usize = 0;
    while k < p.masks.len()
        invariant
            p.wf(),
            forall|m: int| 0 <= m < p.masks@.len() ==> no_repeats((#[trigger] p.masks@[m])@),
            m < p.masks@.len(),
            s < 8,
            k <= p.masks@.len(),
            forall|q: int, perm: Seq<usize>|
                0 <= q < k ==> !#[trigger] carries(
                    p.masks@[m as int]@,
                    s as int,
                    p.masks@[q]@,
                    perm,
                ),
        decreases p.masks@.len() - k,
    {
        assert(p.masks@[m as int]@.len() == p.size);
        assert(p.masks@[k as int]@.len() == p.size);
        match carried(&p.masks[m], s, &p.masks[k]) {
            Some(perm) => {
                assert(first_image(*p, m as int, s as int, k as int));
                return Some(perm);
            },
            None => {},
        }
        k = k + 1;
    }
    None
}

/// Entry `i` comes from an entry before it.
pub open spec fn linked(orbit: Seq<usize>, i: int, n: nat, perms: Seq<Vec<usize>>) -> bool {
    exists|k: int, q: int|
        0 <= k < i && 0 <= q < perms.len() && orbit[i] == #[trigger] moved(
            orbit[k] as nat,
            n,
            perms[q]@,
        )
}

/// The list holds its first index, and what the moves make of it, each once.
pub open spec fn is_orbit(orbit: Seq<usize>, n: nat, perms: Seq<Vec<usize>>) -> bool {
    &&& orbit.len() > 0
    &&& forall|i: int| 0 <= i < orbit.len() ==> #[trigger] orbit[i] < pow3(n)
    &&& orbit.no_duplicates()
    &&& forall|i: int, q: int|
        0 <= i < orbit.len() && 0 <= q < perms.len() ==> orbit.contains(
            #[trigger] moved(orbit[i] as nat, n, perms[q]@) as usize,
        )
    &&& forall|i: int| 0 < i < orbit.len() ==> #[trigger] linked(orbit, i, n, perms)
}

/// Some list holds the index.
pub open spec fn covered(orbits: Seq<Vec<usize>>, x: usize) -> bool {
    exists|o: int| 0 <= o < orbits.len() && (#[trigger] orbits[o])@.contains(x)
}

/// The lists share out all indices by what the moves make of them.
pub open spec fn are_orbits(orbits: Seq<Vec<usize>>, n: nat, perms: Seq<Vec<usize>>) -> bool {
    &&& forall|o: int| 0 <= o < orbits.len() ==> is_orbit((#[trigger] orbits[o])@, n, perms)
    &&& forall|a: int, c: int, x: usize|
        0 <= a < c < orbits.len() ==> !(#[trigger] orbits[a]@.contains(x)
            && #[trigger] orbits[c]@.contains(x))
}

/// An index whose image is in an orbit is in it.
proof fn lemma_orbit_back(orbit: Seq<usize>, n: nat, perms: Seq<Vec<usize>>, q: int, c: usize)
    requires
        n <= 10,
        is_orbit(orbit, n, perms),
        0 <= q < perms.len(),
        is_perm(perms[q]@, n as int),
        c < pow3(n),
        orbit.contains(moved(c as nat, n, perms[q]@) as usize),
    ensures
        orbit.contains(c),
{
    broadcast use vstd::seq_lib::seq_to_set_is_finite;

    let perm = perms[q]@;
    let f = |x: usize| moved(x as nat, n, perm) as usize;
    let set = orbit.to_set();
    let image = set.map(f);
    lemma_pow3_mono(n, 10);
    lemma_pow3_values();
    lemma_moved(c as nat, n, perm);
    assert forall|x: usize, y: usize| set.contains(x) && set.contains(y) && #[trigger] f(x)
        == #[trigger] f(y) implies x == y by {
        let i = choose|i: int| 0 <= i < orbit.len() && orbit[i] == x;
        let j = choose|j: int| 0 <= j < orbit.len() && orbit[j] == y;
        assert(orbit[i] < pow3(n) && orbit[j] < pow3(n));
        lemma_moved(x as nat, n, perm);
        lemma_moved(y as nat, n, perm);
        lemma_moved_injective(x as nat, y as nat, n, perm);
    }
    assert(vstd::relations::injective_on(f, set));
    vstd::set_lib::lemma_map_size(set, image, f);
    assert forall|y: usize| image.contains(y) implies set.contains(y) by {
        let x = choose|x: usize| set.contains(x) && f(x) == y;
        let i = choose|i: int| 0 <= i < orbit.len() && orbit[i] == x;
        assert(orbit.contains(moved(orbit[i] as nat, n, perms[q]@) as usize));
    }
    vstd::set_lib::lemma_subset_equality(image, set);
    let y = f(c);
    assert(set.contains(y));
    assert(image.contains(y));
    let x = choose|x: usize| set.contains(x) && f(x) == y;
    let i = choose|i: int| 0 <= i < orbit.len() && orbit[i] == x;
    assert(orbit[i] < pow3(n));
    lemma_moved(x as nat, n, perm);
    lemma_moved_injective(x as nat, c as nat, n, perm);
}

/// A list without repeats of numbers below a bound is no longer than the bound.
proof fn lemma_short(list: Seq<usize>, bound: nat)
    requires
        list.no_duplicates(),
        forall|i: int| 0 <= i < list.len() ==> #[trigger] list[i] < bound,
    ensures
        list.len() <= bound,
{
    let ints = list.map_values(|x: usize| x as int);
    assert forall|i: int, j: int| 0 <= i < ints.len() && 0 <= j < ints.len() && i != j implies ints[i]
        != ints[j] by {
        assert(list[i] != list[j]);
    }
    ints.unique_seq_to_set();
    vstd::set_lib::lemma_int_range(0, bound as int);
    assert forall|x: int| ints.to_set().contains(x) implies vstd::set_lib::set_int_range(
        0,
        bound as int,
    ).contains(x) by {
        let i = choose|i: int| 0 <= i < ints.len() && ints[i] == x;
        assert(list[i] < bound);
    }
    vstd::set_lib::lemma_len_subset(
        ints.to_set(),
        vstd::set_lib::set_int_range(0, bound as int),
    );
}

/// Follow the moves from `x`: its orbit, marked as seen.
fn orbit_of(
    x: usize,
    size: usize,
    table: usize,
    perms: &Vec<Vec<usize>>,
    seen: &mut Vec<bool>,
    Ghost(done): Ghost<Seq<Vec<usize>>>,
) -> (orbit: Vec<usize>)
    requires
        size <= 10,
        table == pow3(size as nat),
        forall|q: int| 0 <= q < perms@.len() ==> is_perm((#[trigger] perms@[q])@, size as int),
        are_orbits(done, size as nat, perms@),
        old(seen)@.len() == table,
        forall|y: int| 0 <= y < table ==> #[trigger] old(seen)@[y] == covered(done, y as usize),
        x < table,
        !old(seen)@[x as int],
    ensures
        is_orbit(orbit@, size as nat, perms@),
        orbit@[0] == x,
        final(seen)@.len() == table,
        forall|y: int|
            0 <= y < table ==> #[trigger] final(seen)@[y] == (covered(done, y as usize)
                || orbit@.contains(y as usize)),
        forall|i: int| 0 <= i < orbit@.len() ==> !covered(done, #[trigger] orbit@[i]),
{
    let ghost n = size as nat;
    let mut orbit: Vec<usize> = Vec::new();
    orbit.push(x);
    seen.set(x, true);
    let mut i: usize = 0;
    assert(orbit@[0] == x);
    while i < orbit.len()
        invariant
            size <= 10,
            n == size,
            table == pow3(n),
            forall|q: int| 0 <= q < perms@.len() ==> is_perm((#[trigger] perms@[q])@, size as int),
            are_orbits(done, n, perms@),
            seen@.len() == table,
            forall|y: int|
                0 <= y < table ==> #[trigger] seen@[y] == (covered(done, y as usize)
                    || orbit@.contains(y as usize)),
            i <= orbit@.len(),
            orbit@.len() > 0,
            orbit@[0] == x,
            orbit@.no_duplicates(),
            forall|k: int|
                0 <= k < orbit@.len() ==> #[trigger] orbit@[k] < table && !covered(
                    done,
                    orbit@[k],
                ),
            forall|k: int, q: int|
                0 <= k < i && 0 <= q < perms@.len() ==> orbit@.contains(
                    #[trigger] moved(orbit@[k] as nat, n, perms@[q]@) as usize,
                ),
            forall|k: int| 0 < k < orbit@.len() ==> #[trigger] linked(orbit@, k, n, perms@),
        decreases table - i,
    {
        let cur: usize = orbit[i];
        proof {
            lemma_short(orbit@, table as nat);
        }
        let mut q: usize = 0;
        while q < perms.len()
            invariant
                size <= 10,
                n == size,
                table == pow3(n),
                forall|q: int|
                    0 <= q < perms@.len() ==> is_perm((#[trigger] perms@[q])@, size as int),
                are_orbits(done, n, perms@),
                seen@.len() == table,
                forall|y: int|
                    0 <= y < table ==> #[trigger] seen@[y] == (covered(done, y as usize)
                        || orbit@.contains(y as usize)),
                i < orbit@.len(),
                orbit@[0] == x,
                cur == orbit@[i as int],
                orbit@.no_duplicates(),
                forall|k: int|
                    0 <= k < orbit@.len() ==> #[trigger] orbit@[k] < table && !covered(
                        done,
                        orbit@[k],
                    ),
                forall|k: int, p: int|
                    0 <= k < i && 0 <= p < perms@.len() ==> orbit@.contains(
                        #[trigger] moved(orbit@[k] as nat, n, perms@[p]@) as usize,
                    ),
                q <= perms@.len(),
                forall|p: int|
                    0 <= p < q ==> orbit@.contains(
                        #[trigger] moved(cur as nat, n, perms@[p]@) as usize,
                    ),
                forall|k: int| 0 < k < orbit@.len() ==> #[trigger] linked(orbit@, k, n, perms@),
            decreases perms@.len() - q,
        {
            assert(is_perm(perms@[q as int]@, size as int));
            let y: usize = apply_index_perm(cur, size, &perms[q]);
            let ghost before = orbit@;
            if !seen[y] {
                seen.set(y, true);
                orbit.push(y);
                proof {
                    assert(!before.contains(y));
                    let last = before.len() as int;
                    assert(orbit@[last] == y);
                    assert forall|k: int| 0 <= k < last implies #[trigger] orbit@[k] == before[k] by {}
                    assert forall|z: usize| before.contains(z) implies orbit@.contains(z) by {
                        let k = choose|k: int| 0 <= k < before.len() && before[k] == z;
                        assert(orbit@[k] == z);
                    }
                    assert forall|z: usize| orbit@.contains(z) implies before.contains(z) || z == y by {
                        let k = choose|k: int| 0 <= k < orbit@.len() && orbit@[k] == z;
                        if k < last {
                            assert(before[k] == z);
                        }
                    }
                    assert(orbit@.contains(y));
                    assert(!covered(done, y));
                    assert forall|k: int| 0 < k < orbit@.len() implies #[trigger] linked(
                        orbit@,
                        k,
                        n,
                        perms@,
                    ) by {
                        if k < last {
                            assert(linked(before, k, n, perms@));
                            let (a, p) = choose|a: int, p: int|
                                0 <= a < k && 0 <= p < perms@.len() && before[k]
                                    == #[trigger] moved(before[a] as nat, n, perms@[p]@);
                            assert(orbit@[k] == moved(orbit@[a] as nat, n, perms@[p]@));
                        } else {
                            assert(orbit@[k] == moved(
                                orbit@[i as int] as nat,
                                n,
                                perms@[q as int]@,
                            ));
                        }
                    }
                    assert forall|k: int, p: int| 0 <= k < i && 0 <= p < perms@.len() implies orbit@.contains(
                        #[trigger] moved(orbit@[k] as nat, n, perms@[p]@) as usize,
                    ) by {
                        assert(before.contains(moved(before[k] as nat, n, perms@[p]@) as usize));
                    }
                }
            } else {
                proof {
                    if covered(done, y) {
                        let o = choose|o: int| 0 <= o < done.len() && (#[trigger] done[o])@.contains(y);
                        lemma_orbit_back(done[o]@, n, perms@, q as int, cur);
                        assert(covered(done, cur));
                    }
                }
            }
            q = q + 1;
        }
        proof {
            lemma_short(orbit@, table as nat);
        }
        i = i + 1;
    }
    orbit
}

/// The indices of a table shared out by what the moves make of them.
pub fn orbits(size: usize, perms: &Vec<Vec<usize>>) -> (out: Vec<Vec<usize>>)
    requires
        size <= 10,
        forall|q: int| 0 <= q < perms@.len() ==> is_perm((#[trigger] perms@[q])@, size as int),
    ensures
        are_orbits(out@, size as nat, perms@),
        forall|x: usize| x < pow3(size as nat) ==> #[trigger] covered(out@, x),
{
    let ghost n = size as nat;
    let mut table: usize = 1;
    let mut k: usize = 0;
    proof {
        lemma_pow3_mono(n, 10);
        lemma_pow3_values();
    }
    while k < size
        invariant
            k <= size <= 10,
            table == pow3(k as nat),
            pow3(10) == 59049,
        decreases size - k,
    {
        proof {
            lemma_pow3_mono((k + 1) as nat, 10);
        }
        table = table * 3;
        k = k + 1;
    }
    let mut seen: Vec<bool> = Vec::new();
    while seen.len() < table
        invariant
            seen@.len() <= table,
            forall|y: int| 0 <= y < seen@.len() ==> !#[trigger] seen@[y],
        decreases table - seen@.len(),
    {
        seen.push(false);
    }
    let mut out: Vec<Vec<usize>> = Vec::new();
    let mut x: usize = 0;
    while x < table
        invariant
            size <= 10,
            n == size,
            table == pow3(n),
            forall|q: int| 0 <= q < perms@.len() ==> is_perm((#[trigger] perms@[q])@, size as int),
            are_orbits(out@, n, perms@),
            seen@.len() == table,
            forall|y: int| 0 <= y < table ==> #[trigger] seen@[y] == covered(out@, y as usize),
            x <= table,
            forall|y: int| 0 <= y < x ==> #[trigger] seen@[y],
        decreases table - x,
    {
        if !seen[x] {
            let ghost before = out@;
            let ghost was = seen@;
            let orbit: Vec<usize> = orbit_of(x, size, table, perms, &mut seen, Ghost(out@));
            let ghost new = orbit@;
            out.push(orbit);
            proof {
                let last = before.len() as int;
                assert(out@[last]@ == new);
                assert forall|o: int| 0 <= o < last implies #[trigger] out@[o] == before[o] by {}
                assert forall|y: int| 0 <= y < table implies #[trigger] seen@[y] == covered(
                    out@,
                    y as usize,
                ) by {
                    let z = y as usize;
                    if covered(before, z) {
                        let o = choose|o: int| 0 <= o < before.len() && (#[trigger] before[o])@.contains(z);
                        assert(out@[o]@.contains(z));
                    }
                    if new.contains(z) {
                        assert(out@[last]@.contains(z));
                    }
                    if covered(out@, z) {
                        let o = choose|o: int| 0 <= o < out@.len() && (#[trigger] out@[o])@.contains(z);
                        if o < last {
                            assert(before[o]@.contains(z));
                        }
                    }
                }
                assert forall|a: int, c: int, z: usize| 0 <= a < c < out@.len() implies !(
                #[trigger] out@[a]@.contains(z) && #[trigger] out@[c]@.contains(z)) by {
                    assert(out@[a] == before[a]);
                    if c < last {
                        assert(out@[c] == before[c]);
                    } else if out@[a]@.contains(z) && new.contains(z) {
                        assert(before[a]@.contains(z));
                        let i = choose|i: int| 0 <= i < new.len() && new[i] == z;
                        assert(!covered(before, new[i]));
                    }
                }
                assert forall|y: int| 0 <= y < x + 1 implies #[trigger] seen@[y] by {
                    if y < x {
                        assert(was[y]);
                    } else {
                        assert(new[0] == x);
                        assert(new.contains(x));
                    }
                }
            }
        }
        x = x + 1;
    }
    proof {
        assert forall|y: usize| y < pow3(n) implies #[trigger] covered(out@, y) by {
            assert(seen@[y as int]);
        }
    }
    out
}

} // verus!
