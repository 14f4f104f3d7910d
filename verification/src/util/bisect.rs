//! Binary search over a sorted list: the first position whose item does not
//! compare below the target.
use vstd::prelude::*;
use core::cmp::Ordering;
use vstd::std_specs::cmp::OrdSpec;

verus! {

/// Orders the three outcomes of a comparison: `Less` < `Equal` < `Greater`.
pub open spec fn rank(o: Ordering) -> int {
    match o {
        Ordering::Less => -1,
        Ordering::Equal => 0,
        Ordering::Greater => 1,
    }
}

/// `f` can be called on every item of `list` against `target`, and along the
/// list its outcomes never go down (what a list sorted by `f` gives).
pub open spec fn monotone_against<T, F: Fn(&T, &T) -> Ordering>(list: Seq<T>, target: &T, f: F) -> bool {
    &&& forall|i: int| 0 <= i < list.len() ==> call_requires(f, (&list[i], target))
    &&& forall|i: int, j: int, oi: Ordering, oj: Ordering|
        #![trigger call_ensures(f, (&list[i], target), oi), call_ensures(f, (&list[j], target), oj)]
        0 <= i <= j < list.len() && call_ensures(f, (&list[i], target), oi) && call_ensures(
            f,
            (&list[j], target),
            oj,
        ) ==> rank(oi) <= rank(oj)
}

/// What `simple_bisect` returns, given `p`, the first position whose item
/// does not compare below the target (the list's length if there is none):
/// `(p - 1, p or -1, next)` (the item before `p` was found below the
/// target), where the middle is `p` when the item at `p`
/// compares equal and -1 otherwise, and `next` is the position after `p` when
/// the item there is equal, else `p` itself, and -1 where that is past the end.
pub open spec fn bisect_result<T, F: Fn(&T, &T) -> Ordering>(
    list: Seq<T>,
    target: &T,
    f: F,
    res: (isize, isize, isize),
) -> bool {
    let (l, m, r) = res;
    let p = l + 1;
    &&& 0 <= p <= list.len()
    &&& forall|i: int, o: Ordering|
        #![trigger call_ensures(f, (&list[i], target), o)]
        0 <= i < p && call_ensures(f, (&list[i], target), o) ==> o == Ordering::Less
    &&& p > 0 ==> call_ensures(f, (&list[p - 1], target), Ordering::Less)
    &&& p < list.len() ==> exists|o: Ordering| #[trigger] call_ensures(f, (&list[p], target), o)
    &&& p < list.len() ==> forall|o: Ordering| #[trigger]
        call_ensures(f, (&list[p], target), o) ==> o != Ordering::Less
    &&& m == -1 || m == p
    &&& m == p ==> p < list.len() && forall|o: Ordering| #[trigger]
        call_ensures(f, (&list[p], target), o) ==> o == Ordering::Equal
    &&& (m == -1 && p < list.len()) ==> forall|o: Ordering| #[trigger]
        call_ensures(f, (&list[p], target), o) ==> o == Ordering::Greater
    &&& r == (if m >= 0 {
        if p < list.len() - 1 { p + 1 } else { -1 }
    } else {
        if p < list.len() { p } else { -1 }
    })
}

fn isize_of(x: usize) -> (r: isize)
    requires
        x <= isize::MAX,
    ensures
        r == x,
{
    x as isize
}

/// Simple binary search; `list` must be sorted ascending by `cmp_fn`.
/// Returns the indices `(left, mid, right)`, negative where there is none;
/// with a run of equal items the first of them is found.
pub fn simple_bisect<T, F: Fn(&T, &T) -> Ordering>(list: &[T], target: &T, cmp_fn: &F) -> (res: (
    isize,
    isize,
    isize,
))
    requires
        list@.len() < isize::MAX,
        monotone_against(list@, target, *cmp_fn),
    ensures
        bisect_result(list@, target, *cmp_fn, res),
{
    let n = list.len();
    if n == 0 {
        return (-1, -1, -1);
    }
    let mut found = false;
    let mut first: usize = 0;
    let mut mid: usize = 0;
    let mut len: usize = n;
    let mut half: usize = 0;
    while len > 0
        invariant
            n == list@.len(),
            n < isize::MAX,
            monotone_against(list@, target, *cmp_fn),
            first + len <= n,
            first > 0 ==> call_ensures(*cmp_fn, (&list@[first - 1], target), Ordering::Less),
            forall|i: int, o: Ordering|
                #![trigger call_ensures(*cmp_fn, (&list@[i], target), o)]
                0 <= i < first && call_ensures(*cmp_fn, (&list@[i], target), o) ==> o
                    == Ordering::Less,
            forall|i: int, o: Ordering|
                #![trigger call_ensures(*cmp_fn, (&list@[i], target), o)]
                first + len <= i < n && call_ensures(*cmp_fn, (&list@[i], target), o) ==> o
                    != Ordering::Less,
            first + len < n ==> exists|o: Ordering|
                #[trigger] call_ensures(*cmp_fn, (&list@[first + len], target), o) && (o
                    == Ordering::Equal ==> found),
            found ==> exists|j: int|
                first + len <= j < n && #[trigger] call_ensures(
                    *cmp_fn,
                    (&list@[j], target),
                    Ordering::Equal,
                ),
        decreases len,
    {
        half = len / 2;
        mid = first + half;
        let mid_item = &list[mid];
        let o = cmp_fn(mid_item, target);
        proof {
            assert(call_ensures(*cmp_fn, (&list@[mid + 0int], target), o));
        }
        match o {
            Ordering::Less => {
                first = mid + 1;
                len = len - half - 1;
            },
            Ordering::Equal => {
                len = half;
                found = true;
            },
            _ => {
                len = half;
            },
        }
    }
    let ghost p = first + 0int;
    proof {
        if found {
            let j = choose|j: int|
                first <= j < n && #[trigger] call_ensures(*cmp_fn, (&list@[j], target), Ordering::Equal);
            assert forall|o: Ordering| #[trigger]
                call_ensures(*cmp_fn, (&list@[p], target), o) implies o == Ordering::Equal by {
                assert(rank(o) <= rank(Ordering::Equal));
            }
        }
    }
    let ni = isize_of(n);
    let mut m = isize_of(first);
    let left = m - 1;
    let mut right: isize = -1;
    if found {
        if m < ni - 1 {
            right = m + 1;
        }
    } else {
        if m < ni {
            right = m;
        }
        m = -1;
    }
    (left, m, right)
}

/// Binary search over a list sorted ascending by `Ord`; see `simple_bisect`.
pub fn simple_bisect_ord<T: Ord>(list: &[T], target: &T) -> (res: (isize, isize, isize))
    requires
        list@.len() < isize::MAX,
        T::obeys_cmp_spec(),
        forall|i: int, j: int|
            #![trigger list@[i].cmp_spec(target), list@[j].cmp_spec(target)]
            0 <= i <= j < list@.len() ==> rank(list@[i].cmp_spec(target)) <= rank(
                list@[j].cmp_spec(target),
            ),
    ensures
        ({
            let (l, m, r) = res;
            let p = l + 1;
            &&& 0 <= p <= list@.len()
            &&& forall|i: int| 0 <= i < p ==> #[trigger] list@[i].cmp_spec(target) == Ordering::Less
            &&& p < list@.len() ==> list@[p].cmp_spec(target) != Ordering::Less
            &&& m == (if p < list@.len() && list@[p].cmp_spec(target) == Ordering::Equal { p } else { -1 })
            &&& r == (if m >= 0 {
                if p < list@.len() - 1 { p + 1 } else { -1 }
            } else {
                if p < list@.len() { p } else { -1 }
            })
        }),
{
    let by_ord = |a: &T, b: &T| -> (o: Ordering)
        requires
            T::obeys_cmp_spec(),
        ensures
            o == a.cmp_spec(b),
        { a.cmp(b) };
    proof {
        assert forall|i: int| 0 <= i < list@.len() implies call_requires(by_ord, (&list@[i], target)) by {}
        assert forall|i: int, j: int, oi: Ordering, oj: Ordering|
            #![trigger call_ensures(by_ord, (&list@[i], target), oi), call_ensures(by_ord, (&list@[j], target), oj)]
            0 <= i <= j < list@.len() && call_ensures(by_ord, (&list@[i], target), oi) && call_ensures(
                by_ord,
                (&list@[j], target),
                oj,
            ) implies rank(oi) <= rank(oj) by {
            assert(rank(list@[i].cmp_spec(target)) <= rank(list@[j].cmp_spec(target)));
        }
    }
    let res = simple_bisect(list, target, &by_ord);
    proof {
        let p = res.0 + 1;
        if p > 0 {
            assert(list@[p - 1].cmp_spec(target) == Ordering::Less);
        }
        assert forall|i: int| 0 <= i < p implies #[trigger] list@[i].cmp_spec(target) == Ordering::Less by {
            assert(rank(list@[i].cmp_spec(target)) <= rank(list@[p - 1].cmp_spec(target)));
        }
    }
    res
}

} // verus!
