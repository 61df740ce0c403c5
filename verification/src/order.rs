use crate::point::Point;
use vstd::prelude::*;

verus! {

/// A value with a rank by which it is sorted: lower ranks come first.
pub trait Ranked {
    spec fn rank(&self) -> int;

    /// Whether `self` may stand before `other` in a sorted sequence.
    fn ranks_no_later(&self, other: &Self) -> (b: bool)
        ensures
            b == (self.rank() <= other.rank()),
    ;
}

/// A scalar is ranked by itself, so sorting scalars is ascending.
impl Ranked for i64 {
    open spec fn rank(&self) -> int {
        *self as int
    }

    fn ranks_no_later(&self, other: &Self) -> (b: bool) {
        *self <= *other
    }
}

/// A vertex is ranked by its elevation, highest first.
impl Ranked for Point {
    open spec fn rank(&self) -> int {
        -self@.z
    }

    fn ranks_no_later(&self, other: &Self) -> (b: bool) {
        self.z() >= other.z()
    }
}

/// The test that picks the items of rank `k`.
pub open spec fn has_rank<T: Ranked>(k: int) -> spec_fn(T) -> bool {
    |t: T| t.rank() == k
}

/// The items of rank `k`, in the order in which `s` holds them.
pub open spec fn of_rank<T: Ranked>(s: Seq<T>, k: int) -> Seq<T> {
    s.filter(has_rank::<T>(k))
}

/// No item stands before one of lower rank.
pub open spec fn ascending<T: Ranked>(s: Seq<T>) -> bool {
    forall|i: int, j: int| 0 <= i <= j < s.len() ==> s[i].rank() <= s[j].rank()
}

/// `output` holds the items of `input` by ascending rank, and items of equal
/// rank in the order in which `input` holds them.
pub open spec fn is_stable_sort<T: Ranked>(input: Seq<T>, output: Seq<T>) -> bool {
    &&& ascending(output)
    &&& forall|k: int| #[trigger] of_rank(output, k) == of_rank(input, k)
}

proof fn lemma_of_rank_push<T: Ranked>(s: Seq<T>, x: T, k: int)
    ensures
        of_rank(s.push(x), k) == if x.rank() == k {
            of_rank(s, k).push(x)
        } else {
            of_rank(s, k)
        },
{
    reveal(Seq::filter);
    assert(s.push(x).drop_last() =~= s);
}

proof fn lemma_of_rank_absent<T: Ranked>(s: Seq<T>, k: int)
    requires
        forall|i: int| 0 <= i < s.len() ==> s[i].rank() != k,
    ensures
        of_rank(s, k) == Seq::<T>::empty(),
    decreases s.len(),
{
    reveal(Seq::filter);
    if s.len() > 0 {
        lemma_of_rank_absent(s.drop_last(), k);
    }
}

proof fn lemma_of_rank_present<T: Ranked>(s: Seq<T>, i: int)
    requires
        0 <= i < s.len(),
    ensures
        of_rank(s, s[i].rank()).len() > 0,
    decreases s.len(),
{
    reveal(Seq::filter);
    if i < s.len() - 1 {
        lemma_of_rank_present(s.drop_last(), i);
    }
}

proof fn lemma_of_rank_witness<T: Ranked>(s: Seq<T>, k: int) -> (i: int)
    requires
        of_rank(s, k).len() > 0,
    ensures
        0 <= i < s.len(),
        s[i].rank() == k,
    decreases s.len(),
{
    reveal(Seq::filter);
    if s.last().rank() == k {
        s.len() - 1
    } else {
        lemma_of_rank_witness(s.drop_last(), k)
    }
}

/// Sorting is deterministic: the ranks and the order of equal items fix the
/// whole sequence, so two sorted rearrangements of one input are equal.
pub proof fn lemma_stable_sort_unique<T: Ranked>(input: Seq<T>, a: Seq<T>, b: Seq<T>)
    requires
        is_stable_sort(input, a),
        is_stable_sort(input, b),
    ensures
        a == b,
{
    assert forall|k: int| #[trigger] of_rank(a, k) == of_rank(b, k) by {
        assert(of_rank(a, k) == of_rank(input, k));
        assert(of_rank(b, k) == of_rank(input, k));
    }
    lemma_same_ranks_same_order(a, b);
}

proof fn lemma_same_ranks_same_order<T: Ranked>(a: Seq<T>, b: Seq<T>)
    requires
        ascending(a),
        ascending(b),
        forall|k: int| #[trigger] of_rank(a, k) == of_rank(b, k),
    ensures
        a == b,
    decreases a.len() + b.len(),
{
    if a.len() == 0 {
        if b.len() > 0 {
            lemma_of_rank_present(b, 0);
            lemma_of_rank_absent(a, b[0].rank());
            assert(of_rank(a, b[0].rank()) == of_rank(b, b[0].rank()));
        }
        assert(a =~= b);
    } else if b.len() == 0 {
        lemma_of_rank_present(a, 0);
        lemma_of_rank_absent(b, a[0].rank());
        assert(of_rank(a, a[0].rank()) == of_rank(b, a[0].rank()));
    } else {
        let ka = a.last().rank();
        let kb = b.last().rank();
        lemma_of_rank_present(a, a.len() - 1);
        lemma_of_rank_present(b, b.len() - 1);
        assert(of_rank(a, ka) == of_rank(b, ka));
        assert(of_rank(a, kb) == of_rank(b, kb));
        let ia = lemma_of_rank_witness(b, ka);
        let ib = lemma_of_rank_witness(a, kb);
        assert(ka == kb);
        let a0 = a.drop_last();
        let b0 = b.drop_last();
        assert(a0.push(a.last()) =~= a);
        assert(b0.push(b.last()) =~= b);
        assert forall|k: int| #[trigger] of_rank(a0, k) == of_rank(b0, k) by {
            lemma_of_rank_push(a0, a.last(), k);
            lemma_of_rank_push(b0, b.last(), k);
            assert(of_rank(a, k) == of_rank(b, k));
            if k == ka {
                assert(of_rank(a0, k).push(a.last()).drop_last() =~= of_rank(a0, k));
                assert(of_rank(b0, k).push(b.last()).drop_last() =~= of_rank(b0, k));
            }
        }
        lemma_of_rank_push(a0, a.last(), ka);
        lemma_of_rank_push(b0, b.last(), ka);
        assert(of_rank(a0, ka).push(a.last()).last() == a.last());
        assert(of_rank(b0, ka).push(b.last()).last() == b.last());
        assert(a.last() == b.last());
        lemma_same_ranks_same_order(a0, b0);
    }
}

/// `t` with `x` put behind every item that may stand before it.
pub open spec fn placed<T: Ranked>(t: Seq<T>, x: T) -> Seq<T>
    decreases t.len(),
{
    if t.len() == 0 || t.last().rank() <= x.rank() {
        t.push(x)
    } else {
        placed(t.drop_last(), x).push(t.last())
    }
}

/// The items of `s` by ascending rank, items of equal rank in the order in
/// which `s` holds them.
pub open spec fn sorted<T: Ranked>(s: Seq<T>) -> Seq<T>
    decreases s.len(),
{
    if s.len() == 0 {
        s
    } else {
        placed(sorted(s.drop_last()), s.last())
    }
}

proof fn lemma_placed_below<T: Ranked>(t: Seq<T>, x: T, bound: int)
    requires
        x.rank() <= bound,
        forall|j: int| 0 <= j < t.len() ==> t[j].rank() <= bound,
    ensures
        forall|i: int| 0 <= i < placed(t, x).len() ==> placed(t, x)[i].rank() <= bound,
    decreases t.len(),
{
    if t.len() == 0 || t.last().rank() <= x.rank() {
        assert forall|i: int| 0 <= i < placed(t, x).len() implies placed(t, x)[i].rank()
            <= bound by {
            if i < t.len() {
                assert(placed(t, x)[i] == t[i]);
            }
        }
    } else {
        let u = placed(t.drop_last(), x);
        lemma_placed_below(t.drop_last(), x, bound);
        assert forall|i: int| 0 <= i < placed(t, x).len() implies placed(t, x)[i].rank()
            <= bound by {
            if i < u.len() {
                assert(placed(t, x)[i] == u[i]);
            } else {
                assert(placed(t, x)[i] == t.last());
            }
        }
    }
}

proof fn lemma_placed<T: Ranked>(t: Seq<T>, x: T)
    requires
        ascending(t),
    ensures
        ascending(placed(t, x)),
        forall|k: int| #[trigger] of_rank(placed(t, x), k) == of_rank(t.push(x), k),
    decreases t.len(),
{
    if !(t.len() == 0 || t.last().rank() <= x.rank()) {
        let rest = t.drop_last();
        let u = placed(rest, x);
        lemma_placed(rest, x);
        lemma_placed_below(rest, x, t.last().rank());
        assert(rest.push(t.last()) =~= t);
        assert forall|k: int| #[trigger] of_rank(placed(t, x), k) == of_rank(t.push(x), k) by {
            lemma_of_rank_push(u, t.last(), k);
            lemma_of_rank_push(rest, x, k);
            lemma_of_rank_push(rest, t.last(), k);
            lemma_of_rank_push(t, x, k);
            assert(of_rank(u, k) == of_rank(rest.push(x), k));
        }
    }
}

/// `sorted` sorts: its result is by ascending rank and keeps the order of
/// items of equal rank.
pub proof fn lemma_sorted_is_stable_sort<T: Ranked>(s: Seq<T>)
    ensures
        is_stable_sort(s, sorted(s)),
    decreases s.len(),
{
    if s.len() > 0 {
        let rest = s.drop_last();
        lemma_sorted_is_stable_sort(rest);
        lemma_placed(sorted(rest), s.last());
        assert(rest.push(s.last()) =~= s);
        assert forall|k: int| #[trigger] of_rank(sorted(s), k) == of_rank(s, k) by {
            assert(of_rank(sorted(s), k) == of_rank(sorted(rest).push(s.last()), k));
            lemma_of_rank_push(sorted(rest), s.last(), k);
            lemma_of_rank_push(rest, s.last(), k);
            assert(of_rank(sorted(rest), k) == of_rank(rest, k));
        }
    }
}

/// Whatever sorts `input` gives `sorted(input)`.
pub proof fn lemma_stable_sort_is_sorted<T: Ranked>(input: Seq<T>, output: Seq<T>)
    requires
        is_stable_sort(input, output),
    ensures
        output == sorted(input),
{
    lemma_sorted_is_stable_sort(input);
    lemma_stable_sort_unique(input, output, sorted(input));
}

/// Merges two sorted sequences; of two items of equal rank the one from
/// `left` comes first.
fn merge<T: Ranked + Copy>(left: &Vec<T>, right: &Vec<T>) -> (out: Vec<T>)
    requires
        ascending(left@),
        ascending(right@),
        left@.len() + right@.len() <= usize::MAX,
    ensures
        ascending(out@),
        out@.len() == left@.len() + right@.len(),
        forall|k: int| #[trigger] of_rank(out@, k) == of_rank(left@, k) + of_rank(right@, k),
{
    let mut out: Vec<T> = Vec::new();
    let mut i: usize = 0;
    let mut j: usize = 0;
    proof {
        assert forall|k: int| #[trigger]
            of_rank(out@, k) == of_rank(left@.take(0), k) + of_rank(right@.take(0), k) by {
            lemma_of_rank_absent(out@, k);
            lemma_of_rank_absent(left@.take(0), k);
            lemma_of_rank_absent(right@.take(0), k);
            assert(of_rank(out@, k) =~= of_rank(left@.take(0), k) + of_rank(right@.take(0), k));
        }
    }
    while i < left.len() || j < right.len()
        invariant
            i <= left@.len(),
            j <= right@.len(),
            out@.len() == i + j,
            left@.len() + right@.len() <= usize::MAX,
            ascending(left@),
            ascending(right@),
            ascending(out@),
            forall|e: int|
                0 <= e < out@.len() && i < left@.len() ==> out@[e].rank() <= left@[i as int].rank(),
            forall|e: int|
                0 <= e < out@.len() && j < right@.len() ==> out@[e].rank()
                    <= right@[j as int].rank(),
            forall|e: int|
                0 <= e < j && i < left@.len() ==> right@[e].rank() < left@[i as int].rank(),
            forall|k: int| #[trigger]
                of_rank(out@, k) == of_rank(left@.take(i as int), k) + of_rank(
                    right@.take(j as int),
                    k,
                ),
        decreases left@.len() + right@.len() - i - j,
    {
        let ghost before = out@;
        let take_left: bool = if i >= left.len() {
            false
        } else if j >= right.len() {
            true
        } else {
            left[i].ranks_no_later(&right[j])
        };
        if take_left {
            let x: T = left[i];
            out.push(x);
            proof {
                assert(left@.take(i + 1) =~= left@.take(i as int).push(x));
                assert forall|k: int| #[trigger]
                    of_rank(out@, k) == of_rank(left@.take(i + 1), k) + of_rank(
                        right@.take(j as int),
                        k,
                    ) by {
                    lemma_of_rank_push(before, x, k);
                    lemma_of_rank_push(left@.take(i as int), x, k);
                    assert(of_rank(before, k) == of_rank(left@.take(i as int), k) + of_rank(
                        right@.take(j as int),
                        k,
                    ));
                    if x.rank() == k {
                        lemma_of_rank_absent(right@.take(j as int), k);
                        assert(of_rank(before, k).push(x) =~= of_rank(left@.take(i as int), k).push(
                            x,
                        ) + of_rank(right@.take(j as int), k));
                    }
                }
            }
            i = i + 1;
        } else {
            let x: T = right[j];
            out.push(x);
            proof {
                assert(right@.take(j + 1) =~= right@.take(j as int).push(x));
                assert forall|k: int| #[trigger]
                    of_rank(out@, k) == of_rank(left@.take(i as int), k) + of_rank(
                        right@.take(j + 1),
                        k,
                    ) by {
                    lemma_of_rank_push(before, x, k);
                    lemma_of_rank_push(right@.take(j as int), x, k);
                    assert(of_rank(before, k) == of_rank(left@.take(i as int), k) + of_rank(
                        right@.take(j as int),
                        k,
                    ));
                    if x.rank() == k {
                        assert(of_rank(before, k).push(x) =~= of_rank(left@.take(i as int), k)
                            + of_rank(right@.take(j as int), k).push(x));
                    }
                }
            }
            j = j + 1;
        }
    }
    proof {
        assert(left@.take(i as int) =~= left@);
        assert(right@.take(j as int) =~= right@);
    }
    out
}

/// Sorts the items of `v` from `lo` up to `hi`.
fn sort_range<T: Ranked + Copy>(v: &Vec<T>, lo: usize, hi: usize) -> (out: Vec<T>)
    requires
        lo <= hi <= v@.len(),
    ensures
        is_stable_sort(v@.subrange(lo as int, hi as int), out@),
        out@.len() == hi - lo,
    decreases hi - lo,
{
    let ghost whole = v@.subrange(lo as int, hi as int);
    if hi - lo <= 1 {
        let mut out: Vec<T> = Vec::new();
        if hi - lo == 1 {
            out.push(v[lo]);
        }
        proof {
            assert(out@ =~= whole);
        }
        out
    } else {
        let mid: usize = lo + (hi - lo) / 2;
        let left: Vec<T> = sort_range(v, lo, mid);
        let right: Vec<T> = sort_range(v, mid, hi);
        let out: Vec<T> = merge(&left, &right);
        proof {
            let first = v@.subrange(lo as int, mid as int);
            let second = v@.subrange(mid as int, hi as int);
            assert(first + second =~= whole);
            assert forall|k: int| #[trigger] of_rank(out@, k) == of_rank(whole, k) by {
                assert(of_rank(out@, k) == of_rank(left@, k) + of_rank(right@, k));
                assert(of_rank(left@, k) == of_rank(first, k));
                assert(of_rank(right@, k) == of_rank(second, k));
                Seq::filter_distributes_over_add(first, second, has_rank::<T>(k));
            }
        }
        out
    }
}

/// Sorts by ascending rank. Items of equal rank keep the order in which `v`
/// holds them.
pub fn stable_sort<T: Ranked + Copy>(v: &Vec<T>) -> (out: Vec<T>)
    ensures
        is_stable_sort(v@, out@),
        out@ == sorted(v@),
        out@.len() == v@.len(),
{
    proof {
        assert(v@.subrange(0, v@.len() as int) =~= v@);
    }
    let out: Vec<T> = sort_range(v, 0, v.len());
    proof {
        lemma_stable_sort_is_sorted(v@, out@);
    }
    out
}

} // verus!
