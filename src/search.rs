use vstd::arithmetic::div_mod::lemma_fundamental_div_mod;
use vstd::arithmetic::mul::lemma_mul_inequality;
use vstd::prelude::*;

use crate::determinist::{
    floor_sqrt, has_divisor_in, is_floor_sqrt, lemma_even_divisor, lemma_floor_sqrt_unique,
    lemma_no_small_divisor, trial_division_prime,
};

verus! {

/// One worker's share of a round: test `number` against `start..end`.
#[derive(Clone, Copy, Debug, PartialEq, Eq)]
pub struct Assignment {
    pub number: u128,
    pub start: u128,
    pub end: u128,
}

/// Where the divisor search for `number` stops (exclusive): one past its
/// integer square root, and never below 2.
pub open spec fn interval_end(number: int) -> int {
    let b = floor_sqrt(number as nat) + 1int;
    if b < 2 {
        2
    } else {
        b
    }
}

/// The width of every sub-range but the last, which also takes the remainder.
pub open spec fn share_width(number: int, workers: int) -> int {
    (interval_end(number) - 2) / workers
}

/// The assignments of one round: `[2, interval_end)` cut into `workers`
/// contiguous pieces of equal width, the last one ending at the bound.
pub open spec fn partition(number: u128, workers: nat) -> Seq<Assignment> {
    let w = share_width(number as int, workers as int);
    Seq::new(
        workers,
        |i: int|
            Assignment {
                number,
                start: (2 + i * w) as u128,
                end: (if i == workers - 1 {
                    interval_end(number as int)
                } else {
                    2 + (i + 1) * w
                }) as u128,
            },
    )
}

/// `a` lies end to end over `[lo, hi)`, each piece about `number`.
pub open spec fn tiles(a: Seq<Assignment>, number: u128, lo: int, hi: int) -> bool {
    &&& a.len() >= 1
    &&& a[0].start == lo
    &&& a[a.len() - 1].end == hi
    &&& forall|i: int| 0 <= i < a.len() ==> (#[trigger] a[i]).number == number && a[i].start <= a[i].end
    &&& forall|i: int| 0 <= i < a.len() - 1 ==> (#[trigger] a[i]).end == a[i + 1].start
}

/// Some piece of `a` holds `d`.
pub open spec fn covers(a: Seq<Assignment>, d: int) -> bool {
    exists|i: int| 0 <= i < a.len() && (#[trigger] a[i]).start <= d < a[i].end
}

/// Relies on num_integer::Roots::sqrt for u128: the truncated square root,
/// `r * r <= n < (r + 1) * (r + 1)`.
#[verifier::external_body]
fn integer_sqrt(n: u128) -> (r: u128)
    ensures
        is_floor_sqrt(n as int, r as int),
{
    num::integer::Roots::sqrt(&n)
}

/// The exclusive upper end of the divisor search: the integer square root
/// of `number`, plus one.
pub fn search_bound(number: u128) -> (r: u128)
    ensures
        r == floor_sqrt(number as nat) + 1,
{
    let s = integer_sqrt(number);
    proof {
        lemma_floor_sqrt_unique(number as int, s as int);
        let t = s as int;
        assert(t < 0x1_0000_0000_0000_0000) by (nonlinear_arith)
            requires
                t * t <= number,
                number <= u128::MAX,
                t >= 0,
        ;
    }
    s + 1
}

proof fn lemma_partition_tiles(number: u128, workers: nat)
    requires
        workers >= 1,
        interval_end(number as int) <= u128::MAX,
    ensures
        tiles(partition(number, workers), number, 2, interval_end(number as int)),
{
    let a = partition(number, workers);
    let hi = interval_end(number as int);
    let w = share_width(number as int, workers as int);
    lemma_fundamental_div_mod(hi - 2, workers as int);
    assert(w * workers <= hi - 2) by (nonlinear_arith)
        requires
            hi - 2 == workers * w + (hi - 2) % (workers as int),
            (hi - 2) % (workers as int) >= 0,
    ;
    assert(w >= 0) by (nonlinear_arith)
        requires
            hi - 2 >= 0,
            workers >= 1,
            w == (hi - 2) / (workers as int),
    ;
    assert forall|i: int| 0 <= i < a.len() implies (#[trigger] a[i]).number == number && a[i].start
        <= a[i].end by {
        assert(0 <= i * w <= (workers - 1) * w) by (nonlinear_arith)
            requires
                0 <= i <= workers - 1,
                w >= 0,
        ;
        assert(i * w + w <= workers * w) by (nonlinear_arith)
            requires
                0 <= i <= workers - 1,
                w >= 0,
        ;
        assert((i + 1) * w == i * w + w) by (nonlinear_arith);
        assert((workers - 1) * w + w == workers * w) by (nonlinear_arith);
    }
    assert forall|i: int| 0 <= i < a.len() - 1 implies (#[trigger] a[i]).end == a[i + 1].start by {
        assert(i * w + w <= workers * w) by (nonlinear_arith)
            requires
                0 <= i <= workers - 1,
                w >= 0,
        ;
        assert(0 <= i * w) by (nonlinear_arith)
            requires
                0 <= i,
                w >= 0,
        ;
        assert((i + 1) * w == i * w + w) by (nonlinear_arith);
    }
}

/// Pieces that lie end to end are ordered: an earlier one ends no later
/// than a later one starts.
proof fn lemma_tiles_ordered(a: Seq<Assignment>, number: u128, lo: int, hi: int, i: int, j: int)
    requires
        tiles(a, number, lo, hi),
        0 <= i < j < a.len(),
    ensures
        a[i].end <= a[j].start,
    decreases j - i,
{
    assert(a[j - 1].end == a[j].start);
    if i < j - 1 {
        lemma_tiles_ordered(a, number, lo, hi, i, j - 1);
        assert(a[j - 1].start <= a[j - 1].end);
    }
}

proof fn lemma_tiles_cover_prefix(a: Seq<Assignment>, number: u128, lo: int, hi: int, k: int, d: int)
    requires
        tiles(a, number, lo, hi),
        0 <= k < a.len(),
        lo <= d < a[k].end,
    ensures
        covers(a, d),
    decreases k,
{
    if k == 0 {
        assert(a[0].start <= d < a[0].end);
    } else if d < a[k - 1].end {
        lemma_tiles_cover_prefix(a, number, lo, hi, k - 1, d);
    } else {
        assert(a[k - 1].end == a[k].start);
        assert(a[k].start <= d < a[k].end);
    }
}

/// Pieces that lie end to end over `[lo, hi)` hold each of its points,
/// hold nothing outside it, and never overlap.
pub proof fn lemma_tiles_partition(a: Seq<Assignment>, number: u128, lo: int, hi: int, d: int)
    requires
        tiles(a, number, lo, hi),
    ensures
        (lo <= d < hi) == covers(a, d),
        forall|i: int, j: int| 0 <= i < j < a.len() ==> (#[trigger] a[i]).end <= (#[trigger] a[j]).start,
{
    assert forall|i: int, j: int| 0 <= i < j < a.len() implies (#[trigger] a[i]).end <= (
    #[trigger] a[j]).start by {
        lemma_tiles_ordered(a, number, lo, hi, i, j);
    }
    if lo <= d < hi {
        lemma_tiles_cover_prefix(a, number, lo, hi, a.len() - 1, d);
    }
    if covers(a, d) {
        let i = choose|i: int| 0 <= i < a.len() && (#[trigger] a[i]).start <= d < a[i].end;
        if i > 0 {
            lemma_tiles_ordered(a, number, lo, hi, 0, i);
            assert(a[0].start <= a[0].end);
        }
        if i < a.len() - 1 {
            lemma_tiles_ordered(a, number, lo, hi, i, a.len() - 1);
            assert(a[a.len() - 1].start <= a[a.len() - 1].end);
        }
    }
}

/// The sub-ranges of a round cover the search interval `[2, interval_end)`
/// of `number` exactly: every point of it lies in one of them, none lies
/// outside it, and no two of them overlap.
pub proof fn lemma_partition_complete(number: u128, workers: nat, d: int)
    requires
        workers >= 1,
    ensures
        partition(number, workers).len() == workers,
        (2 <= d < interval_end(number as int)) == covers(partition(number, workers), d),
        forall|i: int, j: int|
            0 <= i < j < workers ==> (#[trigger] partition(number, workers)[i]).end <= (
            #[trigger] partition(number, workers)[j]).start,
{
    lemma_interval_end_fits(number);
    lemma_partition_tiles(number, workers);
    lemma_tiles_partition(partition(number, workers), number, 2, interval_end(number as int), d);
}

proof fn lemma_interval_end_fits(number: u128)
    ensures
        2 <= interval_end(number as int) <= 0x1_0000_0000_0000_0000,
{
    crate::determinist::lemma_floor_sqrt(number as nat);
    let t = floor_sqrt(number as nat) as int;
    assert(t < 0x1_0000_0000_0000_0000) by (nonlinear_arith)
        requires
            t * t <= number,
            number <= u128::MAX,
            t >= 0,
    ;
}

/// The assignments of one round for `number` over `thread_count` workers.
pub fn assignments(number: u128, thread_count: usize) -> (r: Vec<Assignment>)
    requires
        thread_count >= 1,
    ensures
        r@ == partition(number, thread_count as nat),
{
    let bound = search_bound(number);
    let end: u128 = if bound < 2 {
        2
    } else {
        bound
    };
    proof {
        lemma_interval_end_fits(number);
    }
    let workers = thread_count as u128;
    let width = (end - 2) / workers;
    let ghost w = share_width(number as int, thread_count as int);
    proof {
        lemma_fundamental_div_mod(end - 2, workers as int);
        assert(workers * w <= end - 2) by (nonlinear_arith)
            requires
                end - 2 == workers * w + (end - 2) % (workers as int),
                (end - 2) % (workers as int) >= 0,
        ;
    }
    let mut r: Vec<Assignment> = Vec::new();
    let mut start: u128 = 2;
    let mut i: usize = 0;
    while i < thread_count
        invariant
            width == w,
            w == share_width(number as int, thread_count as int),
            w >= 0,
            workers * w <= end - 2,
            workers == thread_count,
            end == interval_end(number as int),
            i <= thread_count,
            i < thread_count ==> start == 2 + i * w,
            r.len() == i,
            forall|k: int| 0 <= k < i ==> r@[k] == #[trigger] partition(number, thread_count as nat)[k],
        decreases thread_count - i,
    {
        proof {
            assert(i * w + w <= workers * w && 0 <= i * w) by (nonlinear_arith)
                requires
                    0 <= i < workers,
                    w >= 0,
            ;
            assert((i + 1) * w == i * w + w) by (nonlinear_arith);
        }
        let stop = if i + 1 == thread_count {
            end
        } else {
            start + width
        };
        let ghost p = partition(number, thread_count as nat)[i as int];
        assert(p.number == number);
        assert(p.start == start);
        assert(p.end == stop);
        r.push(Assignment { number, start, end: stop });
        assert(r@[i as int] == p);
        start = stop;
        i = i + 1;
    }
    assert(r@ =~= partition(number, thread_count as nat));
    r
}

/// `d` is tried by a scan: 2 itself, and odd numbers. Any other even `d`
/// divides only even numbers, which 2 already settles.
pub open spec fn candidate(d: int) -> bool {
    d == 2 || d % 2 == 1
}

/// No candidate in `[lo, hi)` divides `number`.
pub open spec fn clear_between(number: int, lo: int, hi: int) -> bool {
    forall|d: int| lo <= d < hi && candidate(d) ==> #[trigger] (number % d) != 0
}

/// `d` is a proper divisor of `number` (neither 1 nor `number` itself).
pub fn divisor_is_proper(number: u128, d: u128) -> (r: bool)
    ensures
        r == (2 <= d < number && number % d == 0),
{
    2 <= d && d < number && number % d == 0
}

/// What one step of a scan came to.
#[derive(Clone, Copy, Debug, PartialEq, Eq)]
pub enum ScanStep {
    /// A candidate was tested and does not divide the number.
    Continue,
    /// This candidate divides the number.
    Found(u128),
    /// Every candidate of the sub-range was tested: none divides.
    Exhausted,
    /// The round was called off before the next test.
    Cancelled,
}

/// A worker's search through its sub-range, one divisibility test per step.
#[derive(Clone, Copy, Debug)]
pub struct Scan {
    pub number: u128,
    pub start: u128,
    pub end: u128,
    /// The next candidate to test.
    pub next: u128,
}

impl Scan {
    pub open spec fn wf(&self) -> bool {
        &&& 2 <= self.start <= self.next
        &&& self.next % 2 == 1 || self.next == self.start
        &&& clear_between(
            self.number as int,
            self.start as int,
            if self.next < self.end {
                self.next as int
            } else {
                self.end as int
            },
        )
    }

    /// A scan at the start of the sub-range of `a`.
    pub fn new(a: &Assignment) -> (r: Scan)
        requires
            a.start >= 2,
        ensures
            r.wf(),
            r.number == a.number,
            r.start == a.start,
            r.end == a.end,
            r.next == a.start,
    {
        Scan { number: a.number, start: a.start, end: a.end, next: a.start }
    }

    /// Tests the next candidate, unless the sub-range is done or the round
    /// has been `cancelled`, in which case nothing is tested. An even
    /// candidate other than 2 is passed over untested; a scan that found a
    /// divisor stays at it.
    pub fn step(&mut self, cancelled: bool) -> (r: ScanStep)
        requires
            old(self).wf(),
        ensures
            final(self).wf(),
            final(self).number == old(self).number,
            final(self).start == old(self).start,
            final(self).end == old(self).end,
            old(self).next >= old(self).end ==> r == ScanStep::Exhausted && *final(self)
                == *old(self),
            old(self).next < old(self).end && cancelled ==> r == ScanStep::Cancelled
                && *final(self) == *old(self),
            old(self).next < old(self).end && !cancelled ==> {
                let d = old(self).next as int;
                if candidate(d) && (old(self).number as int) % d == 0 {
                    r == ScanStep::Found(d as u128) && *final(self) == *old(self)
                } else {
                    r == ScanStep::Continue && final(self).next == if d % 2 == 0 {
                        d + 1
                    } else {
                        d + 2
                    }
                }
            },
            r == ScanStep::Exhausted ==> clear_between(
                old(self).number as int,
                old(self).start as int,
                old(self).end as int,
            ),
            forall|d: u128|
                r == ScanStep::Found(d) ==> old(self).start <= d < old(self).end && candidate(
                    d as int,
                ) && old(self).number % d == 0,
    {
        if self.next >= self.end {
            return ScanStep::Exhausted;
        }
        if cancelled {
            return ScanStep::Cancelled;
        }
        let d = self.next;
        if d % 2 == 0 {
            if d == 2 && self.number % 2 == 0 {
                return ScanStep::Found(2);
            }
            self.next = d + 1;
            return ScanStep::Continue;
        }
        if self.number % d == 0 {
            return ScanStep::Found(d);
        }
        assert(d + 2 <= u128::MAX);
        self.next = d + 2;
        ScanStep::Continue
    }
}

/// When every worker of a round has tested its whole sub-range without a
/// divisor, the number passes trial division.
pub proof fn lemma_all_clear_means_prime(number: u128, workers: nat)
    requires
        number >= 1,
        workers >= 1,
        forall|i: int|
            0 <= i < workers ==> clear_between(
                number as int,
                (#[trigger] partition(number, workers)[i]).start as int,
                partition(number, workers)[i].end as int,
            ),
    ensures
        trial_division_prime(number as int),
{
    let a = partition(number, workers);
    let n = number as int;
    crate::determinist::lemma_floor_sqrt(number as nat);
    let s = floor_sqrt(number as nat) as int;
    if has_divisor_in(n, 2, s + 1) {
        let d = choose|d: int| 2 <= d < s + 1 && #[trigger] (n % d) == 0;
        let e = if d % 2 == 0 {
            lemma_even_divisor(n, d);
            2
        } else {
            d
        };
        assert(n % e == 0 && candidate(e) && 2 <= e < interval_end(n));
        lemma_partition_complete(number, workers, e);
        let i = choose|i: int| 0 <= i < a.len() && (#[trigger] a[i]).start <= e < a[i].end;
        assert(clear_between(n, a[i].start as int, a[i].end as int));
    }
    lemma_no_small_divisor(n, s);
}

/// A proper divisor means the number fails trial division.
pub proof fn lemma_divisor_means_composite(number: u128, d: u128)
    requires
        2 <= d < number,
        number % d == 0,
    ensures
        !trial_division_prime(number as int),
{
    assert((number as int) % (d as int) == 0);
}

} // verus!
