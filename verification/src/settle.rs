//! The search for labels ends by itself: no join has more associations than there are
//! candidates, so the bound of one round per candidate never cuts the search short.

use vstd::prelude::*;
use vstd::seq_lib::seq_to_set_is_finite;
use vstd::set_lib::lemma_len_subset;
use crate::association::{assoc_less, lemma_assoc_less_order, AssociationView};
use crate::discovery::{
    acceptable, accepted, add_all_new, add_pair, merge, mined_labels, pair_row, pair_rows, search,
    seed, seeds, surpassed, undominated, SearchView,
};
use crate::label::{
    all_label, canonical, each_label, is_join, join, label_size, LabelView,
};
use crate::seqs::{lemma_filter_members, push_new};

verus! {

/// `x` put into a list in canonical form, unless the list holds it already.
pub open spec fn canon_insert(s: Seq<AssociationView>, x: AssociationView) -> Seq<AssociationView>
    decreases s.len(),
{
    if s.len() == 0 {
        seq![x]
    } else if s.last() == x {
        s
    } else if assoc_less(s.last(), x) {
        s.push(x)
    } else {
        canon_insert(s.drop_last(), x).push(s.last())
    }
}

/// The items of a list in canonical form.
pub open spec fn canon_of(items: Seq<AssociationView>) -> Seq<AssociationView>
    decreases items.len(),
{
    if items.len() == 0 {
        Seq::empty()
    } else {
        canon_insert(canon_of(items.drop_last()), items.last())
    }
}

proof fn lemma_canon_insert(s: Seq<AssociationView>, x: AssociationView)
    requires
        canonical(s),
    ensures
        canonical(canon_insert(s, x)),
        forall|y: AssociationView| #[trigger]
            canon_insert(s, x).contains(y) <==> s.contains(y) || y == x,
    decreases s.len(),
{
    let r = canon_insert(s, x);
    if s.len() == 0 {
        assert forall|y: AssociationView| #[trigger] r.contains(y) <==> s.contains(y) || y == x by {
            if y == x {
                assert(r[0] == y);
            }
        }
    } else if s.last() == x {
        assert forall|y: AssociationView| #[trigger] r.contains(y) <==> s.contains(y) || y == x by {
            if y == x {
                assert(s[s.len() - 1] == y);
            }
        }
    } else if assoc_less(s.last(), x) {
        assert forall|i: int, j: int| 0 <= i < j < r.len() implies assoc_less(r[i], r[j]) by {
            if j == s.len() && i < s.len() - 1 {
                lemma_assoc_less_order(s[i], s.last(), x);
            }
        }
        assert forall|y: AssociationView| #[trigger] r.contains(y) <==> s.contains(y) || y == x by {
            if r.contains(y) {
                let k = choose|k: int| 0 <= k < r.len() && r[k] == y;
                if k < s.len() {
                    assert(s[k] == y);
                }
            }
            if s.contains(y) {
                let k = choose|k: int| 0 <= k < s.len() && s[k] == y;
                assert(r[k] == y);
            }
            if y == x {
                assert(r[s.len() as int] == y);
            }
        }
    } else {
        let rest = s.drop_last();
        let inner = canon_insert(rest, x);
        lemma_canon_insert(rest, x);
        lemma_assoc_less_order(s.last(), x, s.last());
        assert(assoc_less(x, s.last()));
        assert forall|i: int, j: int| 0 <= i < j < r.len() implies assoc_less(r[i], r[j]) by {
            if j == inner.len() {
                assert(inner.contains(inner[i]));
                if rest.contains(inner[i]) {
                    let k = choose|k: int| 0 <= k < rest.len() && rest[k] == inner[i];
                    assert(assoc_less(s[k], s[s.len() - 1]));
                }
            } else {
                assert(r[i] == inner[i] && r[j] == inner[j]);
            }
        }
        assert forall|y: AssociationView| #[trigger] r.contains(y) <==> s.contains(y) || y == x by {
            if r.contains(y) {
                let k = choose|k: int| 0 <= k < r.len() && r[k] == y;
                if k < inner.len() {
                    assert(inner.contains(y));
                    if rest.contains(y) {
                        let q = choose|q: int| 0 <= q < rest.len() && rest[q] == y;
                        assert(s[q] == y);
                    }
                } else {
                    assert(s[s.len() - 1] == y);
                }
            }
            if s.contains(y) {
                let k = choose|k: int| 0 <= k < s.len() && s[k] == y;
                if k < rest.len() {
                    assert(rest[k] == y);
                    assert(inner.contains(y));
                    let q = choose|q: int| 0 <= q < inner.len() && inner[q] == y;
                    assert(r[q] == y);
                } else {
                    assert(r[inner.len() as int] == y);
                }
            }
            if y == x {
                assert(inner.contains(y));
                let q = choose|q: int| 0 <= q < inner.len() && inner[q] == y;
                assert(r[q] == y);
            }
        }
    }
}

proof fn lemma_canon_of(items: Seq<AssociationView>)
    ensures
        canonical(canon_of(items)),
        forall|y: AssociationView| #[trigger] canon_of(items).contains(y) <==> items.contains(y),
    decreases items.len(),
{
    if items.len() > 0 {
        let rest = items.drop_last();
        lemma_canon_of(rest);
        lemma_canon_insert(canon_of(rest), items.last());
        assert forall|y: AssociationView| #[trigger]
            canon_of(items).contains(y) <==> items.contains(y) by {
            if items.contains(y) {
                let k = choose|k: int| 0 <= k < items.len() && items[k] == y;
                if k < rest.len() {
                    assert(rest[k] == y);
                }
            }
            if rest.contains(y) {
                let k = choose|k: int| 0 <= k < rest.len() && rest[k] == y;
                assert(items[k] == y);
            }
            if y == items.last() {
                assert(items[items.len() - 1] == y);
            }
        }
    }
}

proof fn lemma_concat_contains(a: Seq<AssociationView>, b: Seq<AssociationView>)
    ensures
        forall|y: AssociationView| #[trigger] (a + b).contains(y) <==> a.contains(y) || b.contains(y),
{
    assert forall|y: AssociationView| #[trigger] (a + b).contains(y) <==> a.contains(y)
        || b.contains(y) by {
        let s = a + b;
        if s.contains(y) {
            let k = choose|k: int| 0 <= k < s.len() && s[k] == y;
            if k < a.len() {
                assert(a[k] == y);
            } else {
                assert(b[k - a.len()] == y);
            }
        }
        if a.contains(y) {
            let k = choose|k: int| 0 <= k < a.len() && a[k] == y;
            assert(s[k] == y);
        }
        if b.contains(y) {
            let k = choose|k: int| 0 <= k < b.len() && b[k] == y;
            assert(s[a.len() + k] == y);
        }
    }
}

/// Any two labels have a join.
pub proof fn lemma_join_exists(a: LabelView, b: LabelView)
    ensures
        is_join(a, b, join(a, b)),
{
    let all = canon_of(a.all + b.all);
    let keep_each = |x: AssociationView| !all.contains(x);
    let each = canon_of((a.each + b.each).filter(keep_each));
    let keep_any = |x: AssociationView| !all.contains(x) && !each.contains(x);
    let any = canon_of((a.any + b.any).filter(keep_any));
    lemma_canon_of(a.all + b.all);
    lemma_canon_of((a.each + b.each).filter(keep_each));
    lemma_canon_of((a.any + b.any).filter(keep_any));
    lemma_concat_contains(a.all, b.all);
    lemma_concat_contains(a.each, b.each);
    lemma_concat_contains(a.any, b.any);
    lemma_filter_members(a.each + b.each, keep_each);
    lemma_filter_members(a.any + b.any, keep_any);
    let r = LabelView { each, any, all };
    assert(is_join(a, b, r));
}

/// Whether every association of the label is one of `u`.
pub open spec fn within(l: LabelView, u: Seq<AssociationView>) -> bool {
    &&& forall|i: int| 0 <= i < l.each.len() ==> u.contains(#[trigger] l.each[i])
    &&& forall|i: int| 0 <= i < l.any.len() ==> u.contains(#[trigger] l.any[i])
    &&& forall|i: int| 0 <= i < l.all.len() ==> u.contains(#[trigger] l.all[i])
}

/// Whether every label of the list is within `u` and one of `size` associations, of
/// which there are no more than in `u`.
pub open spec fn all_fit(s: Seq<LabelView>, u: Seq<AssociationView>, size: nat) -> bool {
    forall|k: int|
        0 <= k < s.len() ==> within(#[trigger] s[k], u) && label_size(s[k]) == size && size
            <= u.len()
}

/// Whether every label of the list is within `u`.
pub open spec fn all_within(s: Seq<LabelView>, u: Seq<AssociationView>) -> bool {
    forall|k: int| 0 <= k < s.len() ==> within(#[trigger] s[k], u)
}

proof fn lemma_canonical_distinct(s: Seq<AssociationView>)
    requires
        canonical(s),
    ensures
        s.no_duplicates(),
{
    assert forall|i: int, j: int| 0 <= i < s.len() && 0 <= j < s.len() && i != j implies s[i]
        != s[j] by {
        lemma_assoc_less_order(s[i], s[j], s[i]);
        if i < j {
            assert(assoc_less(s[i], s[j]));
        } else {
            assert(assoc_less(s[j], s[i]));
        }
    }
}

/// The join of two labels within `u` is within `u`, and has no more associations than
/// `u`.
proof fn lemma_join_fits(x: LabelView, y: LabelView, u: Seq<AssociationView>)
    requires
        within(x, u),
        within(y, u),
    ensures
        within(join(x, y), u),
        label_size(join(x, y)) <= u.len(),
{
    lemma_join_exists(x, y);
    let j = join(x, y);
    assert forall|i: int| 0 <= i < j.all.len() implies u.contains(#[trigger] j.all[i]) by {
        let a = j.all[i];
        assert(j.all.contains(a));
        if x.all.contains(a) {
            let k = choose|k: int| 0 <= k < x.all.len() && x.all[k] == a;
            assert(u.contains(x.all[k]));
        } else {
            let k = choose|k: int| 0 <= k < y.all.len() && y.all[k] == a;
            assert(u.contains(y.all[k]));
        }
    }
    assert forall|i: int| 0 <= i < j.each.len() implies u.contains(#[trigger] j.each[i]) by {
        let a = j.each[i];
        assert(j.each.contains(a));
        if x.each.contains(a) {
            let k = choose|k: int| 0 <= k < x.each.len() && x.each[k] == a;
            assert(u.contains(x.each[k]));
        } else {
            let k = choose|k: int| 0 <= k < y.each.len() && y.each[k] == a;
            assert(u.contains(y.each[k]));
        }
    }
    assert forall|i: int| 0 <= i < j.any.len() implies u.contains(#[trigger] j.any[i]) by {
        let a = j.any[i];
        assert(j.any.contains(a));
        if x.any.contains(a) {
            let k = choose|k: int| 0 <= k < x.any.len() && x.any[k] == a;
            assert(u.contains(x.any[k]));
        } else {
            let k = choose|k: int| 0 <= k < y.any.len() && y.any[k] == a;
            assert(u.contains(y.any[k]));
        }
    }
    let whole = j.each + j.any + j.all;
    lemma_canonical_distinct(j.each);
    lemma_canonical_distinct(j.any);
    lemma_canonical_distinct(j.all);
    assert forall|p: int, q: int| 0 <= p < whole.len() && 0 <= q < whole.len() && p != q implies whole[p]
        != whole[q] by {
        let e = j.each.len() as int;
        let n = j.any.len() as int;
        if p < e {
            assert(j.each.contains(j.each[p]));
        } else if p < e + n {
            assert(j.any.contains(j.any[p - e]));
        } else {
            assert(j.all.contains(j.all[p - e - n]));
        }
        if q < e {
            assert(j.each.contains(j.each[q]));
        } else if q < e + n {
            assert(j.any.contains(j.any[q - e]));
        } else {
            assert(j.all.contains(j.all[q - e - n]));
        }
    }
    whole.unique_seq_to_set();
    seq_to_set_is_finite(u);
    assert(whole.to_set().subset_of(u.to_set())) by {
        assert forall|a: AssociationView| whole.to_set().contains(a) implies u.to_set().contains(
            a,
        ) by {
            let k = choose|k: int| 0 <= k < whole.len() && whole[k] == a;
            let e = j.each.len() as int;
            let n = j.any.len() as int;
            if k < e {
                assert(u.contains(j.each[k]));
            } else if k < e + n {
                assert(u.contains(j.any[k - e]));
            } else {
                assert(u.contains(j.all[k - e - n]));
            }
        }
    }
    lemma_len_subset(whole.to_set(), u.to_set());
    u.lemma_cardinality_of_set();
}

proof fn lemma_pair_row_fits(
    c: SearchView,
    f: Seq<LabelView>,
    size: nat,
    i: int,
    j: nat,
    acc: Seq<LabelView>,
    u: Seq<AssociationView>,
)
    requires
        0 <= i < f.len(),
        j <= f.len(),
        all_within(f, u),
        all_fit(acc, u, size + 1),
    ensures
        all_fit(pair_row(c, f, size, i, j, acc), u, size + 1),
    decreases j,
{
    if !(j == 0 || j <= i + 1) {
        lemma_pair_row_fits(c, f, size, i, (j - 1) as nat, acc, u);
        let before = pair_row(c, f, size, i, (j - 1) as nat, acc);
        let after = add_pair(c, f, size, i, j - 1, before);
        if acceptable(c, f[i], f[j - 1], size) {
            lemma_join_fits(f[i], f[j - 1], u);
            let x = join(f[i], f[j - 1]);
            assert forall|k: int| 0 <= k < after.len() implies within(#[trigger] after[k], u)
                && label_size(after[k]) == size + 1 && size + 1 <= u.len() by {
                if k < before.len() {
                    assert(after[k] == before[k]);
                }
            }
        }
    }
}

proof fn lemma_pair_rows_fit(
    c: SearchView,
    f: Seq<LabelView>,
    size: nat,
    i: nat,
    u: Seq<AssociationView>,
)
    requires
        i <= f.len(),
        all_within(f, u),
    ensures
        all_fit(pair_rows(c, f, size, i), u, size + 1),
    decreases i,
{
    if i > 0 {
        lemma_pair_rows_fit(c, f, size, (i - 1) as nat, u);
        lemma_pair_row_fits(c, f, size, i - 1, f.len(), pair_rows(c, f, size, (i - 1) as nat), u);
    }
}

/// With more rounds allowed than it takes to reach labels of as many associations as
/// `u` holds, the search keeps the same labels.
pub proof fn lemma_search_settles(
    c: SearchView,
    kept: Seq<LabelView>,
    frontier: Seq<LabelView>,
    size: nat,
    fuel: nat,
    extra: nat,
    u: Seq<AssociationView>,
)
    requires
        all_within(frontier, u),
        size + fuel >= u.len(),
    ensures
        search(c, kept, frontier, size, fuel + extra) == search(c, kept, frontier, size, fuel),
    decreases fuel,
{
    let fresh = accepted(c, frontier, size);
    lemma_pair_rows_fit(c, frontier, size, frontier.len(), u);
    assert(fresh == pair_rows(c, frontier, size, frontier.len()));
    assert(all_fit(fresh, u, size + 1));
    if fuel == 0 {
        if extra > 0 && fresh.len() > 0 {
            let l = fresh[0];
            assert(within(l, u));
            assert(label_size(l) == size + 1);
            assert(size + 1 <= u.len());
            assert(false);
        }
        assert(search(c, kept, frontier, size, extra) == kept);
    } else if fresh.len() > 0 {
        let next = undominated(fresh);
        lemma_filter_members(fresh, |x: LabelView| !surpassed(x, fresh));
        assert forall|k: int| 0 <= k < next.len() implies within(#[trigger] next[k], u) by {
            assert(next.contains(next[k]));
            assert(fresh.contains(next[k]));
            let q = choose|q: int| 0 <= q < fresh.len() && fresh[q] == next[k];
            assert(within(fresh[q], u));
        }
        lemma_search_settles(
            c,
            merge(kept, fresh),
            next,
            size + 1,
            (fuel - 1) as nat,
            extra,
            u,
        );
        assert((fuel + extra - 1) as nat == (fuel - 1) as nat + extra);
    }
}

/// The associations of the candidates, in order.
pub open spec fn tried(cands: Seq<(AssociationView, bool)>) -> Seq<AssociationView> {
    cands.map_values(|x: (AssociationView, bool)| x.0)
}

proof fn lemma_seeds_within(c: SearchView, cands: Seq<(AssociationView, bool)>, k: nat)
    requires
        k <= cands.len(),
    ensures
        all_within(seeds(c, cands.subrange(0, k as int)), tried(cands)),
    decreases k,
{
    let u = tried(cands);
    let part = cands.subrange(0, k as int);
    if k > 0 {
        lemma_seeds_within(c, cands, (k - 1) as nat);
        assert(part.drop_last() =~= cands.subrange(0, k - 1));
        let a = part.last().0;
        assert(u[k - 1] == a);
        assert(u.contains(a));
        let rest = seeds(c, part.drop_last());
        let s = seeds(c, part);
        assert(each_label(a).each[0] == a);
        assert(all_label(a).all[0] == a);
        assert(within(each_label(a), u));
        assert(within(all_label(a), u));
        assert forall|q: int| 0 <= q < s.len() implies within(#[trigger] s[q], u) by {
            if q < rest.len() {
                assert(s[q] == rest[q]);
            } else {
                assert(seed(c, a, part.last().1) is Some);
                assert(s[q] == seed(c, a, part.last().1)->0);
            }
        }
    }
}

/// The labels mined for the candidates are those that the search keeps when its rounds
/// end by themselves: however many more rounds are allowed, the result is the same.
pub proof fn lemma_mined_labels_settled(
    c: SearchView,
    cands: Seq<(AssociationView, bool)>,
    extra: nat,
)
    ensures
        undominated(
            search(
                c,
                add_all_new(Seq::empty(), seeds(c, cands)),
                seeds(c, cands),
                1,
                cands.len() + extra,
            ),
        ) == mined_labels(c, cands),
{
    lemma_seeds_within(c, cands, cands.len());
    assert(cands.subrange(0, cands.len() as int) =~= cands);
    lemma_search_settles(
        c,
        add_all_new(Seq::empty(), seeds(c, cands)),
        seeds(c, cands),
        1,
        cands.len(),
        extra,
        tried(cands),
    );
}

} // verus!
