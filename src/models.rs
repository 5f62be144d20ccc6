//! The sort engine: a multi-key comparator over windows and a stable sort.
use vstd::prelude::*;
use core::cmp::Ordering;
use crate::text::{
    compare_text, flip, lemma_text_cmp_equal, lemma_text_cmp_flip, lemma_text_cmp_trans,
    lower_of, lowercase, text_cmp,
};
use crate::types::{FilterCriteria, PositionSort, SortCriteria, WindowInfo};
use crate::utils::{filter_matching, filtered};

verus! {

/// `o` in the given direction: reversed when `dir` is below zero.
pub open spec fn directed(o: Ordering, dir: i8) -> Ordering {
    if dir < 0 {
        flip(o)
    } else {
        o
    }
}

/// The numeric order of two integers.
pub open spec fn num_cmp(a: int, b: int) -> Ordering {
    if a < b {
        Ordering::Less
    } else if a > b {
        Ordering::Greater
    } else {
        Ordering::Equal
    }
}

/// The order of two windows by position.
pub open spec fn position_cmp(a: WindowInfo, b: WindowInfo, ps: PositionSort) -> Ordering {
    match ps {
        PositionSort::X(o) => directed(num_cmp(a.position.x as int, b.position.x as int), o),
        PositionSort::Y(o) => directed(num_cmp(a.position.y as int, b.position.y as int), o),
        PositionSort::XY(xo, yo) => if a.position.x != b.position.x {
            directed(num_cmp(a.position.x as int, b.position.x as int), xo)
        } else {
            directed(num_cmp(a.position.y as int, b.position.y as int), yo)
        },
    }
}

/// The order of two windows by process id; `Equal` when the key is inactive.
pub open spec fn pid_cmp(a: WindowInfo, b: WindowInfo, dir: i8) -> Ordering {
    if dir == 0 {
        Ordering::Equal
    } else {
        directed(num_cmp(a.pid as int, b.pid as int), dir)
    }
}

/// The order of two windows by lower-case title; `Equal` when the key is
/// inactive.
pub open spec fn title_cmp(a: WindowInfo, b: WindowInfo, dir: i8) -> Ordering {
    if dir == 0 {
        Ordering::Equal
    } else {
        directed(text_cmp(lower_of(a.title@), lower_of(b.title@)), dir)
    }
}

/// The order of two windows under `c`: by process id, ties by title, ties
/// by position; `Equal` when every key ties or is inactive.
pub open spec fn window_cmp(a: WindowInfo, b: WindowInfo, c: SortCriteria) -> Ordering {
    let p = pid_cmp(a, b, c.pid);
    if p != Ordering::Equal {
        p
    } else {
        let t = title_cmp(a, b, c.title);
        if t != Ordering::Equal {
            t
        } else {
            match c.position {
                Some(ps) => position_cmp(a, b, ps),
                None => Ordering::Equal,
            }
        }
    }
}

/// No key of `c` is active.
pub open spec fn no_keys(c: SortCriteria) -> bool {
    c.pid == 0 && c.title == 0 && c.position is None
}

proof fn lemma_text_order(x: Seq<char>, y: Seq<char>, z: Seq<char>)
    ensures
        (text_cmp(x, y) == Ordering::Equal) == (x == y),
        (text_cmp(y, z) == Ordering::Equal) == (y == z),
        (text_cmp(x, z) == Ordering::Equal) == (x == z),
        text_cmp(y, x) == flip(text_cmp(x, y)),
        text_cmp(z, y) == flip(text_cmp(y, z)),
        text_cmp(z, x) == flip(text_cmp(x, z)),
        text_cmp(x, y) != Ordering::Greater && text_cmp(y, z) != Ordering::Greater ==> text_cmp(
            x,
            z,
        ) != Ordering::Greater,
        text_cmp(x, y) != Ordering::Less && text_cmp(y, z) != Ordering::Less ==> text_cmp(x, z)
            != Ordering::Less,
{
    lemma_text_cmp_equal(x, y);
    lemma_text_cmp_equal(y, z);
    lemma_text_cmp_equal(x, z);
    lemma_text_cmp_flip(x, y);
    lemma_text_cmp_flip(y, z);
    lemma_text_cmp_flip(x, z);
    if text_cmp(x, y) != Ordering::Greater && text_cmp(y, z) != Ordering::Greater {
        lemma_text_cmp_trans(x, y, z);
    }
    if text_cmp(x, y) != Ordering::Less && text_cmp(y, z) != Ordering::Less {
        lemma_text_cmp_trans(z, y, x);
    }
}

/// Swapping the windows flips their order.
pub proof fn lemma_window_cmp_flip(a: WindowInfo, b: WindowInfo, c: SortCriteria)
    ensures
        window_cmp(b, a, c) == flip(window_cmp(a, b, c)),
{
    lemma_text_order(lower_of(a.title@), lower_of(b.title@), lower_of(b.title@));
}

/// The order of windows is transitive.
pub proof fn lemma_window_cmp_trans(a: WindowInfo, b: WindowInfo, d: WindowInfo, c: SortCriteria)
    requires
        window_cmp(a, b, c) != Ordering::Greater,
        window_cmp(b, d, c) != Ordering::Greater,
    ensures
        window_cmp(a, d, c) != Ordering::Greater,
{
    lemma_text_order(lower_of(a.title@), lower_of(b.title@), lower_of(d.title@));
}

fn direct(o: Ordering, dir: i8) -> (r: Ordering)
    ensures
        r == directed(o, dir),
{
    if dir < 0 {
        match o {
            Ordering::Less => Ordering::Greater,
            Ordering::Equal => Ordering::Equal,
            Ordering::Greater => Ordering::Less,
        }
    } else {
        o
    }
}

fn compare_numbers(a: i64, b: i64) -> (r: Ordering)
    ensures
        r == num_cmp(a as int, b as int),
{
    if a < b {
        Ordering::Less
    } else if a > b {
        Ordering::Greater
    } else {
        Ordering::Equal
    }
}

fn is_equal(o: Ordering) -> (r: bool)
    ensures
        r == (o == Ordering::Equal),
{
    match o {
        Ordering::Equal => true,
        _ => false,
    }
}

/// `s` is ordered under `c`: no window is greater than one after it.
pub open spec fn sorted_by(s: Seq<WindowInfo>, c: SortCriteria) -> bool {
    forall|i: int, j: int|
        0 <= i < j < s.len() ==> window_cmp(s[i], s[j], c) != Ordering::Greater
}

/// `p` maps the positions `0..n` one to one into `0..n`.
pub open spec fn is_permutation(p: Seq<int>, n: int) -> bool {
    &&& p.len() == n
    &&& forall|k: int| 0 <= k < n ==> 0 <= #[trigger] p[k] < n
    &&& forall|i: int, j: int| 0 <= i < j < n ==> p[i] != p[j]
}

/// `out` is `s` rearranged by `p` (the window at position `k` of `out`
/// comes from position `p[k]` of `s`), ordered under `c`, with windows that
/// tie kept in their order in `s`.
pub open spec fn arranged(
    out: Seq<WindowInfo>,
    s: Seq<WindowInfo>,
    p: Seq<int>,
    c: SortCriteria,
) -> bool {
    &&& out.len() == s.len()
    &&& is_permutation(p, s.len() as int)
    &&& forall|k: int| 0 <= k < s.len() ==> out[k] == s[p[k]]
    &&& sorted_by(out, c)
    &&& forall|i: int, j: int|
        0 <= i < j < out.len() && window_cmp(out[i], out[j], c) == Ordering::Equal ==> p[i]
            < p[j]
}

/// `out` is the stable sort of `s` under `c`.
pub open spec fn stably_sorted(out: Seq<WindowInfo>, s: Seq<WindowInfo>, c: SortCriteria) -> bool {
    exists|p: Seq<int>| arranged(out, s, p, c)
}

proof fn lemma_swap_permutation(p: Seq<int>, n: int, x: int, y: int)
    requires
        is_permutation(p, n),
        0 <= x < n,
        0 <= y < n,
    ensures
        is_permutation(p.update(x, p[y]).update(y, p[x]), n),
{
    let q = p.update(x, p[y]).update(y, p[x]);
    assert forall|i: int, j: int| 0 <= i < j < n implies q[i] != q[j] by {
        let pi = if i == y {
            x
        } else if i == x {
            y
        } else {
            i
        };
        let pj = if j == y {
            x
        } else if j == x {
            y
        } else {
            j
        };
        assert(q[i] == p[pi]);
        assert(q[j] == p[pj]);
        if pi < pj {
            assert(p[pi] != p[pj]);
        } else {
            assert(p[pj] != p[pi]);
        }
    }
}

fn is_greater(o: Ordering) -> (r: bool)
    ensures
        r == (o == Ordering::Greater),
{
    match o {
        Ordering::Greater => true,
        _ => false,
    }
}

/// Sorts windows with a multi-key comparator and filters before sorting.
pub struct WindowSorter;

impl WindowSorter {
    /// Compares two windows by position.
    pub fn compare_positions(a: &WindowInfo, b: &WindowInfo, position_sort: &PositionSort) -> (r:
        Ordering)
        ensures
            r == position_cmp(*a, *b, *position_sort),
    {
        match position_sort {
            PositionSort::X(order) => direct(
                compare_numbers(a.position.x as i64, b.position.x as i64),
                *order,
            ),
            PositionSort::Y(order) => direct(
                compare_numbers(a.position.y as i64, b.position.y as i64),
                *order,
            ),
            PositionSort::XY(x_order, y_order) => {
                let x_ordering = compare_numbers(a.position.x as i64, b.position.x as i64);
                if a.position.x != b.position.x {
                    direct(x_ordering, *x_order)
                } else {
                    direct(compare_numbers(a.position.y as i64, b.position.y as i64), *y_order)
                }
            },
        }
    }

    /// Compares two windows under `sort_criteria`: process id first, then
    /// the lower-case title, then position, each key only when active.
    pub fn compare_windows(a: &WindowInfo, b: &WindowInfo, sort_criteria: &SortCriteria) -> (r:
        Ordering)
        ensures
            r == window_cmp(*a, *b, *sort_criteria),
    {
        if sort_criteria.pid != 0 {
            let ordering = direct(compare_numbers(a.pid as i64, b.pid as i64), sort_criteria.pid);
            if !is_equal(ordering) {
                return ordering;
            }
        }
        if sort_criteria.title != 0 {
            let ta = lowercase(a.title.as_str());
            let tb = lowercase(b.title.as_str());
            let ordering = direct(compare_text(ta.as_str(), tb.as_str()), sort_criteria.title);
            if !is_equal(ordering) {
                return ordering;
            }
        }
        match &sort_criteria.position {
            Some(position_sort) => Self::compare_positions(a, b, position_sort),
            None => Ordering::Equal,
        }
    }

    /// Sorts `windows` in place under `sort_criteria`, keeping windows that
    /// tie in their order; with every key inactive nothing moves.
    pub fn sort_windows(windows: &mut [WindowInfo], sort_criteria: &SortCriteria)
        ensures
            stably_sorted(final(windows)@, old(windows)@, *sort_criteria),
            no_keys(*sort_criteria) ==> final(windows)@ == old(windows)@,
    {
        let n = windows.len();
        let ghost s = windows@;
        let ghost c = *sort_criteria;
        let ghost mut p: Seq<int> = Seq::new(n as nat, |k: int| k);
        if sort_criteria.pid == 0 && sort_criteria.title == 0 && sort_criteria.position.is_none() {
            assert(forall|k: int| 0 <= k < n ==> windows@[k] == s[p[k]]);
            assert(arranged(windows@, s, p, c));
            return;
        }
        let mut i: usize = 0;
        while i < n
            invariant
                windows@.len() == n,
                n == s.len(),
                c == *sort_criteria,
                is_permutation(p, n as int),
                forall|k: int| 0 <= k < n ==> windows@[k] == s[p[k]],
                forall|k: int| i <= k < n ==> p[k] == k,
                forall|k: int| 0 <= k < i ==> p[k] < i,
                i <= n,
                forall|a: int, b: int|
                    0 <= a < b < i ==> window_cmp(windows@[a], windows@[b], c)
                        != Ordering::Greater,
                forall|a: int, b: int|
                    0 <= a < b < i && window_cmp(windows@[a], windows@[b], c) == Ordering::Equal
                        ==> p[a] < p[b],
            decreases n - i,
        {
            let mut j: usize = i;
            let mut moving = j > 0 && is_greater(
                Self::compare_windows(&windows[j - 1], &windows[j], sort_criteria),
            );
            while moving
                invariant
                    windows@.len() == n,
                    n == s.len(),
                    c == *sort_criteria,
                    is_permutation(p, n as int),
                    forall|k: int| 0 <= k < n ==> windows@[k] == s[p[k]],
                    forall|k: int| i < k < n ==> p[k] == k,
                    0 <= j <= i < n,
                    p[j as int] == i,
                    forall|k: int| 0 <= k <= i && k != j ==> p[k] < i,
                    forall|a: int, b: int|
                        0 <= a < b < j ==> window_cmp(windows@[a], windows@[b], c)
                            != Ordering::Greater,
                    forall|a: int, b: int|
                        j < a < b <= i ==> window_cmp(windows@[a], windows@[b], c)
                            != Ordering::Greater,
                    forall|a: int, b: int|
                        0 <= a < j < b <= i ==> window_cmp(windows@[a], windows@[b], c)
                            != Ordering::Greater,
                    forall|b: int|
                        j < b <= i ==> window_cmp(windows@[j as int], windows@[b], c)
                            == Ordering::Less,
                    forall|a: int, b: int|
                        0 <= a < b <= i && a != j && b != j && window_cmp(
                            windows@[a],
                            windows@[b],
                            c,
                        ) == Ordering::Equal ==> p[a] < p[b],
                    moving ==> j > 0 && window_cmp(windows@[j - 1], windows@[j as int], c)
                        == Ordering::Greater,
                    !moving ==> j == 0 || window_cmp(windows@[j - 1], windows@[j as int], c)
                        != Ordering::Greater,
                decreases j,
            {
                let ghost before = windows@;
                let left = windows[j - 1].clone();
                let right = windows[j].clone();
                windows[j - 1] = right;
                windows[j] = left;
                proof {
                    lemma_swap_permutation(p, n as int, j - 1, j as int);
                    p = p.update(j - 1, p[j as int]).update(j as int, p[j - 1]);
                    lemma_window_cmp_flip(left, right, c);
                    assert(windows@ == before.update(j - 1, right).update(j as int, left));
                }
                j = j - 1;
                moving = j > 0 && is_greater(
                    Self::compare_windows(&windows[j - 1], &windows[j], sort_criteria),
                );
            }
            proof {
                assert forall|a: int| 0 <= a < j implies window_cmp(
                    windows@[a],
                    windows@[j as int],
                    c,
                ) != Ordering::Greater by {
                    if a < j - 1 {
                        lemma_window_cmp_trans(windows@[a], windows@[j - 1], windows@[j as int], c);
                    }
                }
            }
            i = i + 1;
        }
        assert(arranged(windows@, s, p, c));
    }

    /// The windows that meet `criteria`, stably sorted under `sort_criteria`.
    pub fn filter_and_sort_windows(
        windows: &[WindowInfo],
        criteria: &FilterCriteria,
        sort_criteria: &SortCriteria,
    ) -> (r: Vec<WindowInfo>)
        ensures
            stably_sorted(r@, filtered(windows@, *criteria), *sort_criteria),
    {
        let mut filtered = filter_matching(windows, criteria);
        Self::sort_windows(filtered.as_mut_slice(), sort_criteria);
        filtered
    }
}

} // verus!
