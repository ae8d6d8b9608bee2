//! Bookkeeping of sparse gradients: which feature rows a batch touches.

use vstd::prelude::*;

verus! {

/// The part of a batch to which a row belongs. Parts share no row.
pub fn row_part(row: u32, parts: usize) -> (p: usize)
    requires
        parts > 0,
    ensures
        p == row as int % parts as int,
        p < parts,
{
    row as usize % parts
}

/// Marks on the rows that the current batch has touched.
#[derive(Debug)]
pub struct RowStamps {
    pub stamps: Vec<u32>,
    pub current: u32,
}

impl RowStamps {
    /// No row bears a mark of a batch to come.
    pub open spec fn wf(self) -> bool {
        forall|r: int| 0 <= r < self.stamps@.len() ==> #[trigger] self.stamps@[r] <= self.current
    }

    /// The batch has touched the row.
    pub open spec fn touched(self, r: int) -> bool {
        self.current > 0 && self.stamps@[r] == self.current
    }

    /// Marks for the given number of rows, before any batch.
    pub fn new(rows: usize) -> (s: RowStamps)
        ensures
            s.wf(),
            s.stamps@.len() == rows,
            s.current == 0,
    {
        let mut stamps: Vec<u32> = Vec::new();
        while stamps.len() < rows
            invariant
                stamps@.len() <= rows,
                forall|r: int| 0 <= r < stamps@.len() ==> #[trigger] stamps@[r] == 0,
            decreases rows - stamps@.len(),
        {
            stamps.push(0);
        }
        RowStamps { stamps, current: 0 }
    }

    /// Start a batch: no row has been touched. When the marks run out, all are
    /// wiped and counting starts over.
    pub fn next_batch(&mut self)
        requires
            old(self).wf(),
        ensures
            final(self).wf(),
            final(self).stamps@.len() == old(self).stamps@.len(),
            final(self).current == if old(self).current == u32::MAX {
                1
            } else {
                old(self).current + 1
            },
            forall|r: int|
                0 <= r < final(self).stamps@.len() ==> !#[trigger] final(self).touched(r),
    {
        if self.current == u32::MAX {
            let n: usize = self.stamps.len();
            let mut stamps: Vec<u32> = Vec::new();
            while stamps.len() < n
                invariant
                    stamps@.len() <= n,
                    forall|r: int| 0 <= r < stamps@.len() ==> #[trigger] stamps@[r] == 0,
                decreases n - stamps@.len(),
            {
                stamps.push(0);
            }
            self.stamps = stamps;
            self.current = 1;
        } else {
            let ghost before = self.stamps@;
            self.current = self.current + 1;
            assert forall|r: int| 0 <= r < self.stamps@.len() implies !#[trigger] self.touched(r) by {
                assert(before[r] < self.current);
            }
        }
    }

    /// Touch a row: whether the batch has not touched it before.
    pub fn touch(&mut self, row: u32) -> (first: bool)
        requires
            old(self).wf(),
            old(self).current > 0,
            row < old(self).stamps@.len(),
        ensures
            final(self).wf(),
            final(self).current == old(self).current,
            first == !old(self).touched(row as int),
            final(self).stamps@ == old(self).stamps@.update(row as int, old(self).current),
    {
        let r: usize = row as usize;
        let first: bool = self.stamps[r] != self.current;
        let ghost before = self.stamps@;
        self.stamps.set(r, self.current);
        assert(self.stamps@ =~= before.update(row as int, self.current));
        first
    }

    /// Touch the rows of a batch one after the other: for each whether it is
    /// the row's first, so that its gradient starts the sum, or a later one,
    /// whose gradient is added.
    pub fn coalesce(&mut self, rows: &Vec<u32>) -> (r: (Vec<bool>, Vec<u32>))
        requires
            old(self).wf(),
            old(self).current > 0,
            forall|i: int|
                0 <= i < rows@.len() ==> #[trigger] rows@[i] < old(self).stamps@.len(),
        ensures
            final(self).wf(),
            final(self).current == old(self).current,
            final(self).stamps@.len() == old(self).stamps@.len(),
            forall|x: int|
                0 <= x < old(self).stamps@.len() ==> #[trigger] final(self).touched(x) == (old(
                    self,
                ).touched(x) || listed(rows@, x, rows@.len() as int)),
            r.0@.len() == rows@.len(),
            forall|i: int|
                0 <= i < rows@.len() ==> #[trigger] r.0@[i] == (!old(self).touched(
                    rows@[i] as int,
                ) && !listed(rows@, rows@[i] as int, i)),
            r.1@ == chosen(rows@, r.0@, rows@.len() as int),
    {
        let mut first: Vec<bool> = Vec::new();
        let mut touched: Vec<u32> = Vec::new();
        let mut i: usize = 0;
        while i < rows.len()
            invariant
                self.wf(),
                old(self).current > 0,
                self.current == old(self).current,
                self.stamps@.len() == old(self).stamps@.len(),
                forall|i: int|
                    0 <= i < rows@.len() ==> #[trigger] rows@[i] < old(self).stamps@.len(),
                i <= rows@.len(),
                forall|x: int|
                    0 <= x < self.stamps@.len() ==> #[trigger] self.touched(x) == (old(
                        self,
                    ).touched(x) || listed(rows@, x, i as int)),
                first@.len() == i,
                forall|j: int|
                    0 <= j < i ==> #[trigger] first@[j] == (!old(self).touched(rows@[j] as int)
                        && !listed(rows@, rows@[j] as int, j)),
                touched@ == chosen(rows@, first@, i as int),
            decreases rows@.len() - i,
        {
            let ghost before = *self;
            let ghost firsts = first@;
            let row: u32 = rows[i];
            let new: bool = self.touch(row);
            first.push(new);
            if new {
                touched.push(row);
            }
            proof {
                assert(before.touched(row as int) == (old(self).touched(row as int) || listed(
                    rows@,
                    row as int,
                    i as int,
                )));
                assert forall|x: int| 0 <= x < self.stamps@.len() implies #[trigger] self.touched(x)
                    == (old(self).touched(x) || listed(rows@, x, i + 1)) by {
                    assert(before.touched(x) == (old(self).touched(x) || listed(
                        rows@,
                        x,
                        i as int,
                    )));
                    if listed(rows@, x, i as int) {
                        let j = choose|j: int| 0 <= j < i && #[trigger] rows@[j] == x;
                        assert(rows@[j] == x);
                    }
                    if x == row {
                        assert(rows@[i as int] == x);
                    }
                }
                lemma_chosen(rows@, firsts, first@, i as int);
            }
            i = i + 1;
        }
        (first, touched)
    }
}

/// The row is among the first `n`.
pub open spec fn listed(rows: Seq<u32>, x: int, n: int) -> bool {
    exists|j: int| 0 <= j < n && #[trigger] rows[j] == x
}

/// Those of the first `n` rows that are marked, in their order.
pub open spec fn chosen(rows: Seq<u32>, first: Seq<bool>, n: int) -> Seq<u32>
    decreases n,
{
    if n <= 0 {
        Seq::empty()
    } else if first[n - 1] {
        chosen(rows, first, n - 1).push(rows[n - 1])
    } else {
        chosen(rows, first, n - 1)
    }
}

proof fn lemma_chosen(rows: Seq<u32>, a: Seq<bool>, c: Seq<bool>, n: int)
    requires
        0 <= n <= a.len(),
        n <= c.len(),
        forall|j: int| 0 <= j < n ==> #[trigger] a[j] == c[j],
    ensures
        chosen(rows, a, n) == chosen(rows, c, n),
    decreases n,
{
    if n > 0 {
        lemma_chosen(rows, a, c, n - 1);
        assert(a[n - 1] == c[n - 1]);
    }
}

/// A row is chosen exactly where it is marked, and the chosen ones keep their order:
/// each has before it as many as were chosen before.
pub proof fn law_chosen_rows(rows: Seq<u32>, first: Seq<bool>, n: int, k: int)
    requires
        0 <= k < n,
    ensures
        chosen(rows, first, k).len() <= chosen(rows, first, n).len() <= n,
        first[k] ==> chosen(rows, first, k).len() < chosen(rows, first, n).len() && chosen(rows, first, n)[chosen(
            rows,
            first,
            k,
        ).len() as int] == rows[k],
        (forall|i: int| k <= i < n ==> !#[trigger] first[i]) ==> chosen(rows, first, n) == chosen(
            rows,
            first,
            k,
        ),
    decreases n,
{
    lemma_chosen_bound(rows, first, k);
    if k < n - 1 {
        law_chosen_rows(rows, first, n - 1, k);
    }
}

proof fn lemma_chosen_bound(rows: Seq<u32>, first: Seq<bool>, n: int)
    requires
        0 <= n,
    ensures
        chosen(rows, first, n).len() <= n,
    decreases n,
{
    if n > 0 {
        lemma_chosen_bound(rows, first, n - 1);
    }
}

} // verus!
