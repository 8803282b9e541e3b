//! Ascending lists of indices: the sets of events and objects that the engine works on.

use vstd::prelude::*;

verus! {

/// A strictly ascending list: a set of indices in its one canonical form.
pub open spec fn ascending(s: Seq<usize>) -> bool {
    forall|i: int, j: int| 0 <= i < j < s.len() ==> s[i] < s[j]
}

/// The indices below `n` for which `p` holds, in ascending order.
pub open spec fn indices_where(n: nat, p: spec_fn(usize) -> bool) -> Seq<usize>
    decreases n,
{
    if n == 0 {
        Seq::empty()
    } else {
        let rest = indices_where((n - 1) as nat, p);
        if p((n - 1) as usize) {
            rest.push((n - 1) as usize)
        } else {
            rest
        }
    }
}

/// `indices_where` is ascending and holds exactly the indices below `n` for which `p` holds.
pub proof fn lemma_indices_where(n: nat, p: spec_fn(usize) -> bool)
    requires
        n <= usize::MAX,
    ensures
        ascending(indices_where(n, p)),
        forall|x: usize| #[trigger] indices_where(n, p).contains(x) <==> x < n && p(x),
        indices_where(n, p).len() <= n,
    decreases n,
{
    if n > 0 {
        let rest = indices_where((n - 1) as nat, p);
        lemma_indices_where((n - 1) as nat, p);
        let last = (n - 1) as usize;
        let r = indices_where(n, p);
        assert forall|i: int, j: int| 0 <= i < j < r.len() implies r[i] < r[j] by {
            if j == rest.len() {
                assert(rest.contains(rest[i]));
            }
        }
        assert forall|x: usize| #[trigger] r.contains(x) <==> x < n && p(x) by {
            if r.contains(x) {
                let i = choose|i: int| 0 <= i < r.len() && r[i] == x;
                if i < rest.len() {
                    assert(rest.contains(x));
                }
            }
            if x < n && p(x) {
                if x == last {
                    assert(r[r.len() - 1] == x);
                } else {
                    assert(rest.contains(x));
                    let i = choose|i: int| 0 <= i < rest.len() && rest[i] == x;
                    assert(r[i] == x);
                }
            }
        }
    }
}

/// An ascending list is determined by what it holds.
pub proof fn lemma_ascending_unique(s: Seq<usize>, t: Seq<usize>)
    requires
        ascending(s),
        ascending(t),
        forall|x: usize| s.contains(x) <==> t.contains(x),
    ensures
        s == t,
    decreases s.len(),
{
    if s.len() == 0 {
        if t.len() > 0 {
            assert(t.contains(t[0]));
        }
        assert(s =~= t);
    } else {
        let a = s.last();
        assert(s.contains(a));
        assert(t.contains(a));
        let b = t.last();
        assert(t.contains(b));
        assert(s.contains(b));
        let ia = choose|i: int| 0 <= i < t.len() && t[i] == a;
        let ib = choose|i: int| 0 <= i < s.len() && s[i] == b;
        assert(a == b);
        let s1 = s.drop_last();
        let t1 = t.drop_last();
        assert forall|x: usize| s1.contains(x) <==> t1.contains(x) by {
            if s1.contains(x) {
                let i = choose|i: int| 0 <= i < s1.len() && s1[i] == x;
                assert(s[i] == x);
                assert(t.contains(x));
                let j = choose|j: int| 0 <= j < t.len() && t[j] == x;
                assert(t1[j] == x);
            }
            if t1.contains(x) {
                let i = choose|i: int| 0 <= i < t1.len() && t1[i] == x;
                assert(t[i] == x);
                assert(s.contains(x));
                let j = choose|j: int| 0 <= j < s.len() && s[j] == x;
                assert(s1[j] == x);
            }
        }
        lemma_ascending_unique(s1, t1);
        assert(s =~= s1.push(a));
        assert(t =~= t1.push(b));
    }
}

/// An ascending list that holds exactly the indices below `n` for which `p` holds is
/// `indices_where(n, p)`.
pub proof fn lemma_is_indices_where(s: Seq<usize>, n: nat, p: spec_fn(usize) -> bool)
    requires
        n <= usize::MAX,
        ascending(s),
        forall|x: usize| s.contains(x) <==> x < n && p(x),
    ensures
        s == indices_where(n, p),
{
    lemma_indices_where(n, p);
    lemma_ascending_unique(s, indices_where(n, p));
}

/// Where `p` implies `q` below `n`, no more indices meet `p` than `q`.
pub proof fn lemma_indices_where_monotone(
    n: nat,
    p: spec_fn(usize) -> bool,
    q: spec_fn(usize) -> bool,
)
    requires
        forall|x: usize| x < n && #[trigger] p(x) ==> q(x),
    ensures
        indices_where(n, p).len() <= indices_where(n, q).len(),
    decreases n,
{
    if n > 0 {
        lemma_indices_where_monotone((n - 1) as nat, p, q);
    }
}

/// What a prefix holds once it grows by one item.
pub proof fn lemma_prefix_step<A>(s: Seq<A>, k: int)
    requires
        0 <= k < s.len(),
    ensures
        s.subrange(0, k + 1) == s.subrange(0, k).push(s[k]),
        forall|y: A|
            s.subrange(0, k + 1).contains(y) <==> s.subrange(0, k).contains(y) || y == s[k],
{
    let s0 = s.subrange(0, k);
    let s1 = s.subrange(0, k + 1);
    assert(s1 =~= s0.push(s[k]));
    assert forall|y: A| s1.contains(y) <==> s0.contains(y) || y == s[k] by {
        if s1.contains(y) {
            let j = choose|j: int| 0 <= j < s1.len() && s1[j] == y;
            if j < k {
                assert(s0[j] == y);
            }
        }
        if s0.contains(y) {
            let j = choose|j: int| 0 <= j < s0.len() && s0[j] == y;
            assert(s1[j] == y);
        }
        if y == s[k] {
            assert(s1[k] == y);
        }
    }
}

/// The number of items of `s` for which `q` holds.
pub open spec fn count_in(s: Seq<usize>, q: spec_fn(usize) -> bool) -> nat
    decreases s.len(),
{
    if s.len() == 0 {
        0
    } else {
        count_in(s.drop_last(), q) + if q(s.last()) {
            1nat
        } else {
            0nat
        }
    }
}

/// The count over a prefix is no more than the count over the whole list, and falls
/// short of it by no more than the list is longer.
pub proof fn lemma_count_in_bounds(s: Seq<usize>, q: spec_fn(usize) -> bool, i: int)
    requires
        0 <= i <= s.len(),
    ensures
        count_in(s.subrange(0, i), q) <= count_in(s, q),
        count_in(s, q) <= count_in(s.subrange(0, i), q) + (s.len() - i),
        count_in(s, q) <= s.len(),
    decreases s.len() - i,
{
    if i == s.len() {
        assert(s.subrange(0, i) =~= s);
        lemma_count_in_len(s, q);
    } else {
        lemma_count_in_bounds(s.drop_last(), q, i);
        assert(s.drop_last().subrange(0, i) =~= s.subrange(0, i));
    }
}

/// No more items are counted than the list holds.
pub proof fn lemma_count_in_len(s: Seq<usize>, q: spec_fn(usize) -> bool)
    ensures
        count_in(s, q) <= s.len(),
    decreases s.len(),
{
    if s.len() > 0 {
        lemma_count_in_len(s.drop_last(), q);
    }
}

/// Where `p` implies `q` on the items of `s`, no more items meet `p` than `q`.
pub proof fn lemma_count_in_monotone(
    s: Seq<usize>,
    p: spec_fn(usize) -> bool,
    q: spec_fn(usize) -> bool,
)
    requires
        forall|i: int| 0 <= i < s.len() && p(#[trigger] s[i]) ==> q(s[i]),
    ensures
        count_in(s, p) <= count_in(s, q),
    decreases s.len(),
{
    if s.len() > 0 {
        lemma_count_in_monotone(s.drop_last(), p, q);
    }
}

/// Whether the list holds `x`.
pub fn holds_index(list: &Vec<usize>, x: usize) -> (r: bool)
    ensures
        r == list@.contains(x),
{
    let mut i: usize = 0;
    while i < list.len()
        invariant
            i <= list.len(),
            forall|j: int| 0 <= j < i ==> list@[j] != x,
        decreases list.len() - i,
    {
        if list[i] == x {
            return true;
        }
        i += 1;
    }
    false
}

/// Puts `x` into an ascending list, unless the list holds it already.
pub fn insert_ascending(list: &mut Vec<usize>, x: usize)
    requires
        ascending(old(list)@),
    ensures
        ascending(final(list)@),
        forall|y: usize| #[trigger] final(list)@.contains(y) <==> old(list)@.contains(y) || y == x,
{
    let ghost before = list@;
    let mut i: usize = list.len();
    while i > 0 && list[i - 1] > x
        invariant
            i <= list.len(),
            list@ == before,
            forall|j: int| i <= j < before.len() ==> before[j] > x,
        decreases i,
    {
        i -= 1;
    }
    if i > 0 && list[i - 1] == x {
        return ;
    }
    list.insert(i, x);
    proof {
        let after = list@;
        assert(after =~= before.insert(i as int, x));
        assert forall|a: int, b: int| 0 <= a < b < after.len() implies after[a] < after[b] by {
            let a0 = if a < i { a } else { a - 1 };
            let b0 = if b < i { b } else { b - 1 };
            if a != i && b != i {
                assert(after[a] == before[a0]);
                assert(after[b] == before[b0]);
            } else if b == i {
                assert(after[a] == before[a]);
                if i > 0 {
                    assert(before[a] <= before[i - 1]);
                }
            } else {
                assert(after[b] == before[b - 1]);
            }
        }
        assert forall|y: usize| #[trigger] after.contains(y) <==> before.contains(y) || y == x by {
            if after.contains(y) {
                let k = choose|k: int| 0 <= k < after.len() && after[k] == y;
                if k < i {
                    assert(before[k] == y);
                } else if k > i {
                    assert(before[k - 1] == y);
                }
            }
            if before.contains(y) {
                let k = choose|k: int| 0 <= k < before.len() && before[k] == y;
                if k < i {
                    assert(after[k] == y);
                } else {
                    assert(after[k + 1] == y);
                }
            }
            if y == x {
                assert(after[i as int] == y);
            }
        }
    }
}

/// Whether the list is ascending and holds only indices below `bound`.
pub fn is_ascending_below(list: &Vec<usize>, bound: usize) -> (r: bool)
    ensures
        r == (ascending(list@) && forall|k: int| 0 <= k < list@.len() ==> list@[k] < bound),
{
    let mut i: usize = 0;
    while i < list.len()
        invariant
            i <= list.len(),
            forall|k: int| 0 <= k < i ==> list@[k] < bound,
            forall|a: int, b: int| 0 <= a < b < i ==> list@[a] < list@[b],
        decreases list.len() - i,
    {
        if list[i] >= bound {
            return false;
        }
        if i > 0 && list[i - 1] >= list[i] {
            return false;
        }
        proof {
            assert forall|a: int, b: int| 0 <= a < b < i + 1 implies list@[a] < list@[b] by {
                if b == i && a < i - 1 {
                    assert(list@[a] < list@[i - 1]);
                }
            }
        }
        i += 1;
    }
    true
}

/// For each index below `m`, the ascending list of the positions of `forward` whose
/// list holds it.
pub fn reverse_index(forward: &Vec<Vec<usize>>, m: usize) -> (r: Vec<Vec<usize>>)
    requires
        forall|e: int|
            0 <= e < forward@.len() ==> ascending(#[trigger] forward@[e]@) && forall|k: int|
                0 <= k < forward@[e]@.len() ==> forward@[e]@[k] < m,
    ensures
        r@.len() == m,
        forall|o: int|
            0 <= o < m ==> ascending(#[trigger] r@[o]@) && forall|x: usize|
                r@[o]@.contains(x) <==> x < forward@.len() && forward@[x as int]@.contains(
                    o as usize,
                ),
{
    let mut r: Vec<Vec<usize>> = Vec::new();
    let mut o: usize = 0;
    while o < m
        invariant
            o <= m,
            r@.len() == o,
            forall|i: int| 0 <= i < o ==> (#[trigger] r@[i])@.len() == 0,
        decreases m - o,
    {
        r.push(Vec::new());
        o += 1;
    }
    let n: usize = forward.len();
    let mut e: usize = 0;
    while e < n
        invariant
            e <= n,
            n == forward@.len(),
            r@.len() == m,
            forall|e: int|
                0 <= e < forward@.len() ==> ascending(#[trigger] forward@[e]@) && forall|k: int|
                    0 <= k < forward@[e]@.len() ==> forward@[e]@[k] < m,
            forall|o: int|
                0 <= o < m ==> ascending(#[trigger] r@[o]@) && forall|x: usize|
                    r@[o]@.contains(x) <==> x < e && forward@[x as int]@.contains(o as usize),
        decreases n - e,
    {
        let items = &forward[e];
        let mut k: usize = 0;
        while k < items.len()
            invariant
                k <= items.len(),
                e < n,
                n == forward@.len(),
                items@ == forward@[e as int]@,
                ascending(items@),
                forall|j: int| 0 <= j < items@.len() ==> items@[j] < m,
                r@.len() == m,
                forall|o: int|
                    0 <= o < m ==> ascending(#[trigger] r@[o]@) && forall|x: usize|
                        r@[o]@.contains(x) <==> (x < e && forward@[x as int]@.contains(
                            o as usize,
                        )) || (x == e && items@.subrange(0, k as int).contains(o as usize)),
            decreases items.len() - k,
        {
            let target: usize = items[k];
            let ghost prev = r@;
            let ghost seen = items@.subrange(0, k as int);
            let ghost seen1 = items@.subrange(0, k as int + 1);
            proof {
                assert(!seen.contains(target)) by {
                    if seen.contains(target) {
                        let j = choose|j: int| 0 <= j < seen.len() && seen[j] == target;
                        assert(items@[j] < items@[k as int]);
                    }
                }
                assert forall|y: usize| seen1.contains(y) <==> seen.contains(y) || y
                    == target by {
                    if seen1.contains(y) {
                        let j = choose|j: int| 0 <= j < seen1.len() && seen1[j] == y;
                        if j < k {
                            assert(seen[j] == y);
                        }
                    }
                    if seen.contains(y) {
                        let j = choose|j: int| 0 <= j < seen.len() && seen[j] == y;
                        assert(seen1[j] == y);
                    }
                    if y == target {
                        assert(seen1[k as int] == y);
                    }
                }
            }
            r[target].push(e);
            proof {
                let old_list = prev[target as int]@;
                let new_list = r@[target as int]@;
                assert(new_list == old_list.push(e));
                assert forall|o: int| 0 <= o < m implies ascending(#[trigger] r@[o]@)
                    && forall|x: usize|
                    r@[o]@.contains(x) <==> (x < e && forward@[x as int]@.contains(o as usize))
                        || (x == e && seen1.contains(o as usize)) by {
                    if o == target {
                        assert(ascending(prev[o]@));
                        assert forall|a: int, b: int| 0 <= a < b < new_list.len() implies new_list[a]
                            < new_list[b] by {
                            if b == old_list.len() {
                                assert(old_list.contains(old_list[a]));
                            }
                        }
                        assert forall|x: usize|
                            new_list.contains(x) <==> (x < e && forward@[x as int]@.contains(
                                o as usize,
                            )) || (x == e && seen1.contains(o as usize)) by {
                            if new_list.contains(x) {
                                let j = choose|j: int| 0 <= j < new_list.len() && new_list[j] == x;
                                if j < old_list.len() {
                                    assert(old_list.contains(x));
                                }
                            }
                            if old_list.contains(x) {
                                let j = choose|j: int| 0 <= j < old_list.len() && old_list[j] == x;
                                assert(new_list[j] == x);
                            }
                            if x == e {
                                assert(new_list[old_list.len() as int] == x);
                            }
                        }
                    } else {
                        assert(r@[o] == prev[o]);
                        assert(ascending(prev[o]@));
                    }
                }
            }
            k += 1;
        }
        proof {
            assert(items@.subrange(0, k as int) =~= items@);
        }
        e += 1;
        proof {
            assert forall|o: int| 0 <= o < m implies ascending(#[trigger] r@[o]@) && forall|
                x: usize,
            |
                r@[o]@.contains(x) <==> x < e && forward@[x as int]@.contains(o as usize) by {
                assert(ascending(r@[o]@));
            }
        }
    }
    r
}

} // verus!
