//! What a search does with several workers: who helps, who gets which move,
//! and what the answers amount to. The workers themselves run elsewhere.

use vstd::prelude::*;

use crate::search::fits_window;

verus! {

/// A task may be queued when the workers that are idle, and a little more, are
/// not yet provided for.
pub fn takes_task(workers: usize, idle: usize, slack: usize, queued: usize) -> (yes: bool)
    ensures
        yes == (workers > 0 && idle + slack > queued),
{
    workers > 0 && idle as u128 + slack as u128 > (queued as u128)
}

/// What a thread does that waits for a task and finds no other to run.
#[derive(Clone, Copy, Debug, PartialEq, Eq, Structural)]
pub enum Backoff {
    Spin,
    Yield,
    Sleep,
}

/// What a thread does at its `idle`-th look in vain.
pub fn backoff(idle: u32) -> (b: Backoff)
    ensures
        b == if idle < 8 {
            Backoff::Spin
        } else if idle <= 64 {
            Backoff::Yield
        } else {
            Backoff::Sleep
        },
{
    if idle < 8 {
        Backoff::Spin
    } else if idle <= 64 {
        Backoff::Yield
    } else {
        Backoff::Sleep
    }
}

/// How many workers count as busy in a sample.
pub fn busy_sample(workers: usize, idle: usize) -> (n: usize)
    ensures
        n <= 16,
        n == if idle >= workers {
            0
        } else if workers - idle > 16 {
            16
        } else {
            workers - idle
        },
{
    if idle >= workers {
        0
    } else if workers - idle > 16 {
        16
    } else {
        workers - idle
    }
}

/// Helpers search along only while an iteration is cheap.
pub fn helpers_run(iteration: u32, min_depth: u32, max_depth: u32) -> (yes: bool)
    ensures
        yes == (min_depth <= iteration <= max_depth),
{
    min_depth <= iteration && iteration <= max_depth
}

/// The depth of a helper.
pub open spec fn helper_depth(idx: int, iteration: int, depth: int, spread: int) -> int {
    let ahead = vstd::std_specs::bits::u32_trailing_zeros((idx + 1) as u32) * spread;
    if iteration + ahead < depth {
        iteration + ahead
    } else {
        depth
    }
}

/// By how much less a helper cuts.
pub open spec fn helper_relax(idx: int, sharpen_max: int) -> int {
    if idx / 2 < sharpen_max {
        idx / 2
    } else {
        sharpen_max
    }
}

/// Each second helper searches to the main search's depth; none falls behind it, and
/// none goes beyond the last depth. Helpers come in pairs that cut alike, each pair
/// by one step less than the pair before, as far as the setting allows.
pub proof fn law_helpers_stay_within(idx: u32, iteration: int, depth: int, spread: int, sharpen_max: int)
    requires
        idx < u32::MAX,
        0 <= iteration <= depth,
        0 <= spread,
        0 <= sharpen_max,
    ensures
        iteration <= helper_depth(idx as int, iteration, depth, spread) <= depth,
        idx % 2 == 0 ==> helper_depth(idx as int, iteration, depth, spread) == iteration,
        0 <= helper_relax(idx as int, sharpen_max) <= sharpen_max,
        idx % 2 == 0 ==> helper_relax(idx as int, sharpen_max) == helper_relax(
            idx + 1,
            sharpen_max,
        ),
        helper_relax(idx as int, sharpen_max) <= helper_relax(idx + 2, sharpen_max)
            <= helper_relax(idx as int, sharpen_max) + 1,
{
    let n = (idx + 1) as u32;
    let zeros = vstd::std_specs::bits::u32_trailing_zeros(n);
    vstd::std_specs::bits::axiom_u32_trailing_zeros(n);
    assert(zeros * spread >= 0) by (nonlinear_arith)
        requires
            spread >= 0,
            zeros >= 0,
    ;
    if idx % 2 == 0 {
        assert(n % 2 == 1 ==> (n >> 0u32) & 1u32 == 1u32) by (bit_vector);
        assert(zeros == 0);
        assert(0 * spread == 0) by (nonlinear_arith);
    }
}

/// The depth and the accuracy of a helper: half of the helpers share the main
/// search's depth, a quarter goes `spread` deeper, an eighth twice as much; of
/// those at one depth each second one cuts less.
pub fn helper_plan(
    idx: u32,
    iteration: u32,
    depth: u32,
    spread: u32,
    sharpen_max: u32,
) -> (r: (u32, u32))
    requires
        idx < u32::MAX,
    ensures
        r.0 == helper_depth(idx as int, iteration as int, depth as int, spread as int),
        r.1 == helper_relax(idx as int, sharpen_max as int),
{
    let n: u32 = idx + 1;
    let zeros: u32 = n.trailing_zeros();
    assert(zeros * spread <= u32::MAX * u32::MAX) by (nonlinear_arith)
        requires
            zeros <= u32::MAX,
            spread <= u32::MAX,
    ;
    let goal: u128 = iteration as u128 + zeros as u128 * spread as u128;
    let d: u32 = if goal < depth as u128 {
        goal as u32
    } else {
        depth
    };
    let relax: u32 = if idx / 2 < sharpen_max {
        idx / 2
    } else {
        sharpen_max
    };
    (d, relax)
}

/// An iteration is started while there is time, and, once one was finished,
/// while three times what the last one took is left.
pub open spec fn may_start(now: int, deadline: int, reached: int, last_pass: int) -> bool {
    now < deadline && (reached == 0 || now + 3 * last_pass < deadline)
}

/// No iteration is started once the deadline has come. One that is started after
/// another leaves room for three like it, and an earlier start, a later deadline or
/// a shorter iteration before it never stand in the way. The first is always started
/// while there is time.
pub proof fn law_starts_in_time(now: int, deadline: int, reached: int, last_pass: int, slack: int)
    requires
        slack >= 0,
    ensures
        may_start(now, deadline, reached, last_pass) ==> now < deadline,
        may_start(now, deadline, reached, last_pass) && reached != 0 ==> deadline - now > 3 * last_pass,
        now < deadline && reached == 0 ==> may_start(now, deadline, reached, last_pass),
        now < deadline && deadline - now > 3 * last_pass ==> may_start(now, deadline, reached, last_pass),
        may_start(now, deadline, reached, last_pass) ==> may_start(now - slack, deadline, reached, last_pass)
            && may_start(now, deadline + slack, reached, last_pass) && may_start(
            now,
            deadline,
            reached,
            last_pass - slack,
        ),
{
}

/// An iteration is started while there is time, and, once one was finished,
/// while three times what the last one took is left.
pub fn starts_pass(now: u64, deadline: u64, reached: u32, last_pass: u64) -> (yes: bool)
    ensures
        yes == may_start(now as int, deadline as int, reached as int, last_pass as int),
{
    now < deadline && (reached == 0 || now as u128 + 3 * (last_pass as u128) < (deadline as u128))
}

/// How long a watcher sleeps before it looks at the clock again, in
/// nanoseconds; none when the deadline has come.
pub open spec fn nap(now: u64, deadline: u64) -> Option<u64> {
    if now >= deadline {
        None
    } else if deadline - now < 20_000_000 {
        Some((deadline - now) as u64)
    } else {
        Some(20_000_000)
    }
}

/// A watcher sleeps exactly while the deadline has not come, never past it and never
/// longer than a fiftieth of a second, and as long as both allow.
pub proof fn law_watcher_wakes_in_time(now: u64, deadline: u64)
    ensures
        nap(now, deadline) is Some == (now < deadline),
        nap(now, deadline) matches Some(ns) ==> 0 < ns <= 20_000_000 && now + ns <= deadline && (ns
            == 20_000_000 || now + ns == deadline),
{
}

/// How long a watcher sleeps before it looks at the clock again, in
/// nanoseconds; none when the deadline has come.
pub fn watch_sleep(now: u64, deadline: u64) -> (ns: Option<u64>)
    ensures
        ns == nap(now, deadline),
{
    if now >= deadline {
        None
    } else if deadline - now < 20_000_000 {
        Some(deadline - now)
    } else {
        Some(20_000_000)
    }
}

/// The younger brothers of a searched move, probed round by round. All probes
/// of a round ask whether a move is worth more than `alpha`; the moves that are
/// end the round and are searched again with the window up to `beta`.
#[derive(Debug)]
pub struct Fanout {
    pub alpha: i32,
    pub beta: i32,
    pub best: i32,
    pub best_move: usize,
    /// The highest probe of the round.
    pub next_alpha: i32,
    /// The moves that have their answer.
    pub settled: Vec<bool>,
    /// The moves that were worth more than `alpha`.
    pub research: Vec<usize>,
}

/// What follows a round.
#[derive(Clone, Copy, Debug, PartialEq, Eq, Structural)]
pub enum Round {
    /// The node has its answer.
    Done,
    /// Search the winners again.
    Winners,
}

impl Fanout {
    pub open spec fn wf(self) -> bool {
        &&& self.best_move <= self.settled@.len()
        &&& forall|i: int|
            0 <= i < self.research@.len() ==> #[trigger] self.research@[i] < self.settled@.len()
    }

    /// A node whose eldest move is worth `best`; the brothers are numbered from
    /// 0, the eldest counts as their number.
    pub fn new(alpha: i32, beta: i32, best: i32, brothers: usize) -> (f: Fanout)
        ensures
            f.wf(),
            f.alpha == alpha,
            f.beta == beta,
            f.best == best,
            f.best_move == brothers,
            f.next_alpha == alpha,
            f.settled@.len() == brothers,
            forall|i: int| 0 <= i < brothers ==> !(#[trigger] f.settled@[i]),
            f.research@.len() == 0,
    {
        let mut settled: Vec<bool> = Vec::new();
        let mut i: usize = 0;
        while i < brothers
            invariant
                i <= brothers,
                settled@.len() == i,
                forall|k: int| 0 <= k < i ==> !(#[trigger] settled@[k]),
            decreases brothers - i,
        {
            settled.push(false);
            i = i + 1;
        }
        Fanout {
            alpha,
            beta,
            best,
            best_move: brothers,
            next_alpha: alpha,
            settled,
            research: Vec::new(),
        }
    }

    /// The first brother from `from` on that has no answer, unless the round
    /// has ended.
    pub fn next(&self, from: usize) -> (i: Option<usize>)
        ensures
            match i {
                Some(i) => {
                    &&& from <= i < self.settled@.len()
                    &&& !self.settled@[i as int]
                    &&& self.research@.len() == 0
                    &&& forall|k: int| from <= k < i ==> #[trigger] self.settled@[k]
                },
                None => self.research@.len() > 0 || forall|k: int|
                    from <= k < self.settled@.len() ==> #[trigger] self.settled@[k],
            },
    {
        if self.research.len() > 0 {
            return None;
        }
        let n: usize = self.settled.len();
        let mut i: usize = from;
        while i < n
            invariant
                n == self.settled@.len(),
                from <= i,
                self.research@.len() == 0,
                forall|k: int| from <= k < i && k < n ==> #[trigger] self.settled@[k],
            decreases n - i,
        {
            if !self.settled[i] {
                return Some(i);
            }
            i = i + 1;
        }
        None
    }

    /// No brother behind this one waits: the splitting thread searches it
    /// itself.
    pub fn is_last(&self, i: usize) -> (yes: bool)
        requires
            i < self.settled@.len(),
        ensures
            yes == forall|k: int| i < k < self.settled@.len() ==> #[trigger] self.settled@[k],
    {
        let n: usize = self.settled.len();
        let mut k: usize = i + 1;
        while k < n
            invariant
                n == self.settled@.len(),
                i < k <= n,
                forall|j: int| i < j < k ==> #[trigger] self.settled@[j],
            decreases n - k,
        {
            if !self.settled[k] {
                return false;
            }
            k = k + 1;
        }
        true
    }

    /// The node after the probe of brother `i` found `g`.
    pub open spec fn after_probe(self, i: int, g: i32, next: Fanout) -> bool {
        &&& next.alpha == self.alpha
        &&& next.beta == self.beta
        &&& next.best == if g > self.best {
            g
        } else {
            self.best
        }
        &&& next.best_move == if g > self.best {
            i
        } else {
            self.best_move as int
        }
        &&& g > self.alpha ==> {
            &&& next.next_alpha == if g > self.next_alpha {
                g
            } else {
                self.next_alpha
            }
            &&& next.research@ == self.research@.push(i as usize)
            &&& next.settled@ == self.settled@
        }
        &&& g <= self.alpha ==> {
            &&& next.next_alpha == self.next_alpha
            &&& next.research@ == self.research@
            &&& next.settled@ == self.settled@.update(i, true)
        }
    }

    /// A probe of brother `i` found `g`.
    pub fn probed(&mut self, i: usize, g: i32)
        requires
            old(self).wf(),
            i < old(self).settled@.len(),
        ensures
            final(self).wf(),
            old(self).after_probe(i as int, g, *final(self)),
    {
        if g > self.best {
            self.best = g;
            self.best_move = i;
        }
        if g > self.alpha {
            if g > self.next_alpha {
                self.next_alpha = g;
            }
            self.research.push(i);
        } else {
            self.settled.set(i, true);
        }
    }

    /// What follows when the answers of a round are in. When winners are
    /// searched again, they are searched against the highest probe.
    pub fn end_round(&mut self) -> (r: Round)
        ensures
            r == if old(self).research@.len() == 0 || old(self).next_alpha >= old(self).beta {
                Round::Done
            } else {
                Round::Winners
            },
            r is Done ==> *final(self) == *old(self),
            r is Winners ==> *final(self) == (Fanout {
                alpha: old(self).next_alpha,
                ..*old(self)
            }),
    {
        if self.research.len() == 0 || self.next_alpha >= self.beta {
            Round::Done
        } else {
            self.alpha = self.next_alpha;
            Round::Winners
        }
    }

    /// The node after the second search of brother `i` found `g`.
    pub open spec fn after_search(self, i: int, g: i32, next: Fanout) -> bool {
        let best = if g > self.best {
            g
        } else {
            self.best
        };
        &&& next.beta == self.beta
        &&& next.best == best
        &&& next.best_move == if g > self.best {
            i
        } else {
            self.best_move as int
        }
        &&& next.alpha == if best > self.alpha {
            best
        } else {
            self.alpha
        }
        &&& next.next_alpha == self.next_alpha
        &&& next.settled@ == self.settled@.update(i, true)
        &&& next.research@ == self.research@
    }

    /// The second search of brother `i` found `g`.
    pub fn searched(&mut self, i: usize, g: i32)
        requires
            old(self).wf(),
            i < old(self).settled@.len(),
        ensures
            final(self).wf(),
            old(self).after_search(i as int, g, *final(self)),
    {
        self.settled.set(i, true);
        if g > self.best {
            self.best = g;
            self.best_move = i;
        }
        if self.best > self.alpha {
            self.alpha = self.best;
        }
    }

    /// Start the next round, unless the node has its answer.
    pub fn next_round(&mut self) -> (yes: bool)
        requires
            old(self).wf(),
        ensures
            final(self).wf(),
            yes == (old(self).alpha < old(self).beta && exists|k: int|
                0 <= k < old(self).settled@.len() && !(#[trigger] old(self).settled@[k])),
            final(self).alpha == old(self).alpha,
            final(self).beta == old(self).beta,
            final(self).best == old(self).best,
            final(self).best_move == old(self).best_move,
            final(self).settled == old(self).settled,
            yes ==> final(self).research@.len() == 0 && final(self).next_alpha == old(self).alpha,
    {
        if self.alpha >= self.beta {
            return false;
        }
        let n: usize = self.settled.len();
        let mut i: usize = 0;
        while i < n
            invariant
                *self == *old(self),
                self.wf(),
                self.alpha < self.beta,
                n == self.settled@.len(),
                i <= n,
                forall|k: int| 0 <= k < i ==> #[trigger] self.settled@[k],
            decreases n - i,
        {
            if !self.settled[i] {
                assert(!old(self).settled@[i as int]);
                self.research = Vec::new();
                self.next_alpha = self.alpha;
                return true;
            }
            i = i + 1;
        }
        false
    }

    /// The node is right about the brothers, worth `values`, and the eldest,
    /// worth `eldest`: no move that has its answer is worth more than the best,
    /// unless the best reached beta, and beyond the window's lower edge `floor`
    /// some move is worth the best at least. A winner is worth the highest
    /// probe at most by what is known of it.
    pub open spec fn right(self, values: Seq<int>, eldest: int, floor: int) -> bool {
        &&& self.settled@.len() == values.len()
        &&& floor <= self.alpha
        &&& self.alpha <= self.next_alpha
        &&& self.best >= self.next_alpha || self.next_alpha == floor
        &&& self.best < self.beta ==> eldest <= self.best && forall|k: int|
            0 <= k < values.len() && self.settled@[k] ==> #[trigger] values[k] <= self.best
        &&& self.best > floor ==> eldest >= self.best || exists|k: int|
            0 <= k < values.len() && #[trigger] values[k] >= self.best
    }
}

/// A node starts right after its eldest move was searched with its window.
pub proof fn law_fanout_start(f: Fanout, values: Seq<int>, eldest: int, floor: int)
    requires
        floor < f.beta,
        f.settled@.len() == values.len(),
        forall|k: int| 0 <= k < values.len() ==> !(#[trigger] f.settled@[k]),
        f.alpha == if f.best > floor {
            f.best as int
        } else {
            floor
        },
        f.next_alpha == f.alpha,
        fits_window(f.best as int, eldest, floor, f.beta as int),
    ensures
        f.right(values, eldest, floor),
{
}

/// Each probe of a round keeps the node right, in whatever order the answers
/// come.
pub proof fn law_fanout_probe(
    f: Fanout,
    next: Fanout,
    values: Seq<int>,
    eldest: int,
    floor: int,
    i: int,
    g: i32,
)
    requires
        f.right(values, eldest, floor),
        0 <= i < values.len(),
        fits_window(g as int, values[i], f.alpha as int, f.alpha + 1),
        f.after_probe(i, g, next),
    ensures
        next.right(values, eldest, floor),
{
    if next.best > floor && !(eldest >= next.best) {
        if g > f.best {
            assert(values[i] >= next.best);
        } else {
            let k = choose|k: int| 0 <= k < values.len() && #[trigger] values[k] >= f.best;
            assert(values[k] >= next.best);
        }
    }
}

/// Each second search keeps the node right.
pub proof fn law_fanout_search(
    f: Fanout,
    next: Fanout,
    values: Seq<int>,
    eldest: int,
    floor: int,
    i: int,
    g: i32,
)
    requires
        f.right(values, eldest, floor),
        f.alpha < f.beta,
        f.best >= f.alpha,
        f.next_alpha <= f.alpha,
        0 <= i < values.len(),
        fits_window(g as int, values[i], f.alpha as int, f.beta as int),
        f.after_search(i, g, next),
    ensures
        (Fanout { next_alpha: next.alpha, ..next }).right(values, eldest, floor),
{
    let n = Fanout { next_alpha: next.alpha, ..next };
    if n.best > floor && !(eldest >= n.best) {
        if g > f.best {
            assert(values[i] >= n.best);
        } else {
            let k = choose|k: int| 0 <= k < values.len() && #[trigger] values[k] >= f.best;
            assert(values[k] >= n.best);
        }
    }
}

/// Once every brother has its answer or the best reached beta, the best says of
/// the highest value what a search with the node's window says.
pub proof fn law_fanout_result(f: Fanout, values: Seq<int>, eldest: int, floor: int, top: int)
    requires
        floor < f.beta,
        f.right(values, eldest, floor),
        eldest <= top,
        forall|k: int| 0 <= k < values.len() ==> #[trigger] values[k] <= top,
        eldest == top || exists|k: int| 0 <= k < values.len() && #[trigger] values[k] == top,
        f.best >= f.beta || forall|k: int| 0 <= k < values.len() ==> #[trigger] f.settled@[k],
    ensures
        fits_window(f.best as int, top, floor, f.beta as int),
{
    if f.best < f.beta && eldest != top {
        let k = choose|k: int| 0 <= k < values.len() && #[trigger] values[k] == top;
        assert(f.settled@[k]);
        assert(values[k] <= f.best);
    }
    if f.best > floor && !(eldest >= f.best) {
        let k = choose|k: int| 0 <= k < values.len() && #[trigger] values[k] >= f.best;
        assert(values[k] <= top);
    }
}

} // verus!
