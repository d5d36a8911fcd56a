use vstd::prelude::*;

use vstd::seq_lib::{lemma_multiset_commutative, to_multiset_build};

use super::mapper::OfferData;

verus! {

broadcast use vstd::seq_lib::group_seq_properties;

/// Whether price `a` ranks strictly ahead of price `b`: lower first on the ask
/// side (`ascending`), higher first on the bid side.
pub open spec fn ranks_before(a: u64, b: u64, ascending: bool) -> bool {
    if ascending {
        a < b
    } else {
        a > b
    }
}

/// No level ranks strictly ahead of a level placed before it.
pub open spec fn is_ranked(s: Seq<OfferData>, ascending: bool) -> bool {
    forall|i: int, j: int|
        0 <= i < j < s.len() ==> !ranks_before(#[trigger] s[j].price, #[trigger] s[i].price, ascending)
}

/// The levels of `s` at price `p`, in their order in `s`.
pub open spec fn at_price(s: Seq<OfferData>, p: u64) -> Seq<OfferData> {
    s.filter(|o: OfferData| o.price == p)
}

/// `r` is `s` stably sorted by price: ranked, and at every price the levels
/// of `r` are those of `s` in their input order.
pub open spec fn is_stable_ranking(r: Seq<OfferData>, s: Seq<OfferData>, ascending: bool) -> bool {
    &&& r.len() == s.len()
    &&& is_ranked(r, ascending)
    &&& forall|p: u64| #[trigger] at_price(r, p) == at_price(s, p)
}

/// Whether price `a` ranks strictly ahead of price `b`.
pub fn price_ranks_before(a: u64, b: u64, ascending: bool) -> (r: bool)
    ensures
        r == ranks_before(a, b, ascending),
{
    if ascending {
        a < b
    } else {
        a > b
    }
}

proof fn lemma_at_price_split(s: Seq<OfferData>, k: int, p: u64)
    requires
        0 <= k <= s.len(),
    ensures
        at_price(s, p) == at_price(s.take(k), p) + at_price(s.skip(k), p),
{
    assert(s == s.take(k) + s.skip(k));
    Seq::filter_distributes_over_add(s.take(k), s.skip(k), |o: OfferData| o.price == p);
}

proof fn lemma_at_price_absent(s: Seq<OfferData>, p: u64)
    requires
        forall|i: int| 0 <= i < s.len() ==> (#[trigger] s[i]).price != p,
    ensures
        at_price(s, p) == Seq::<OfferData>::empty(),
{
    let pred = |o: OfferData| o.price == p;
    assert(s.all(|x: OfferData| !pred(x)));
    s.lemma_all_neg_filter_empty(pred);
}

/// Placing `x` into ranked `a` at the position after every level that it
/// does not rank ahead of keeps the sequence ranked, and at each price gives
/// what appending `x` would give.
proof fn lemma_insert_ranked(a: Seq<OfferData>, x: OfferData, j: int, ascending: bool)
    requires
        is_ranked(a, ascending),
        0 <= j <= a.len(),
        forall|k: int| j <= k < a.len() ==> ranks_before(x.price, #[trigger] a[k].price, ascending),
        j == 0 || !ranks_before(x.price, a[j - 1].price, ascending),
    ensures
        is_ranked(a.take(j) + seq![x] + a.skip(j), ascending),
        forall|p: u64| #[trigger] at_price(a.take(j) + seq![x] + a.skip(j), p) == at_price(a.push(x), p),
{
    let r = a.take(j) + seq![x] + a.skip(j);
    assert forall|i: int, l: int| 0 <= i < l < r.len() implies !ranks_before(
        #[trigger] r[l].price,
        #[trigger] r[i].price,
        ascending,
    ) by {
        if l < j {
            assert(r[l] == a[l] && r[i] == a[i]);
        } else if l == j {
            assert(r[i] == a[i]);
            assert(!ranks_before(a[j - 1].price, a[i].price, ascending) || i == j - 1);
        } else if i == j {
            assert(r[l] == a[l - 1]);
        } else if i < j {
            assert(r[l] == a[l - 1] && r[i] == a[i]);
        } else {
            assert(r[l] == a[l - 1] && r[i] == a[i - 1]);
        }
    }
    assert forall|p: u64| #[trigger] at_price(r, p) == at_price(a.push(x), p) by {
        let pred = |o: OfferData| o.price == p;
        Seq::filter_distributes_over_add(a.take(j) + seq![x], a.skip(j), pred);
        Seq::filter_distributes_over_add(a.take(j), seq![x], pred);
        lemma_at_price_split(a, j, p);
        a.lemma_filter_push(x, pred);
        Seq::<OfferData>::empty().lemma_filter_push(x, pred);
        assert(seq![x] == Seq::<OfferData>::empty().push(x));
        if x.price == p {
            assert forall|i: int| 0 <= i < a.skip(j).len() implies (#[trigger] a.skip(j)[i]).price
                != p by {
                assert(a.skip(j)[i] == a[j + i]);
            }
            lemma_at_price_absent(a.skip(j), p);
        }
    }
}

/// The levels of `r` at price `p`: those before position `m`, then `r[m]`
/// if it is at `p`, then those after it.
proof fn lemma_at_price_from(r: Seq<OfferData>, m: int, p: u64)
    requires
        0 <= m < r.len(),
    ensures
        at_price(r, p) == at_price(r.take(m), p) + (if r[m].price == p {
            seq![r[m]]
        } else {
            Seq::empty()
        }) + at_price(r.skip(m + 1), p),
{
    lemma_at_price_split(r, m, p);
    assert(r.skip(m) == seq![r[m]] + r.skip(m + 1));
    r.skip(m + 1).lemma_filter_prepend(r[m], |o: OfferData| o.price == p);
}

proof fn lemma_rankings_agree_on_prefix(
    r1: Seq<OfferData>,
    r2: Seq<OfferData>,
    s: Seq<OfferData>,
    ascending: bool,
    k: int,
)
    requires
        is_stable_ranking(r1, s, ascending),
        is_stable_ranking(r2, s, ascending),
        0 <= k <= s.len(),
    ensures
        r1.take(k) == r2.take(k),
    decreases k,
{
    if k > 0 {
        let m = k - 1;
        lemma_rankings_agree_on_prefix(r1, r2, s, ascending, m);
        let t = r1.take(m);
        assert(r2.take(m) == t);
        let p1 = r1[m].price;
        let p2 = r2[m].price;
        if p1 == p2 {
            lemma_at_price_from(r1, m, p1);
            lemma_at_price_from(r2, m, p1);
            assert(at_price(r1, p1) == at_price(r2, p1));
            let idx = at_price(t, p1).len() as int;
            assert(at_price(r1, p1)[idx] == r1[m]);
            assert(at_price(r2, p1)[idx] == r2[m]);
        } else {
            // The level ranked ahead cannot occur from position m on in the
            // other ranking, so its price has fewer levels there.
            let (ra, rb, pa) = if ranks_before(p1, p2, ascending) {
                (r1, r2, p1)
            } else {
                (r2, r1, p2)
            };
            assert(ranks_before(ra[m].price, rb[m].price, ascending));
            lemma_at_price_from(ra, m, pa);
            lemma_at_price_split(rb, m, pa);
            assert forall|i: int| 0 <= i < rb.skip(m).len() implies (#[trigger] rb.skip(m)[i]).price
                != pa by {
                assert(rb.skip(m)[i] == rb[m + i]);
                if i > 0 {
                    assert(!ranks_before(rb[m + i].price, rb[m].price, ascending));
                }
            }
            lemma_at_price_absent(rb.skip(m), pa);
            assert(at_price(ra, pa).len() > at_price(rb, pa).len());
            assert(at_price(ra, pa) == at_price(s, pa));
            assert(at_price(rb, pa) == at_price(s, pa));
        }
        assert(r1.take(k) =~= r1.take(m).push(r1[m]));
        assert(r2.take(k) =~= r2.take(m).push(r2[m]));
    }
}

/// Ranking is a function of its input: two stable rankings of the same
/// levels are the same sequence.
pub proof fn lemma_stable_ranking_unique(
    r1: Seq<OfferData>,
    r2: Seq<OfferData>,
    s: Seq<OfferData>,
    ascending: bool,
)
    requires
        is_stable_ranking(r1, s, ascending),
        is_stable_ranking(r2, s, ascending),
    ensures
        r1 == r2,
{
    lemma_rankings_agree_on_prefix(r1, r2, s, ascending, s.len() as int);
    assert(r1 =~= r1.take(s.len() as int));
    assert(r2 =~= r2.take(s.len() as int));
}

/// Truncating a stable ranking of `s` to `n <= s.len()` levels leaves exactly
/// `n` levels; none of them ranks behind a dropped level; every input level
/// at a price strictly ahead of the last kept one is kept; and at every price
/// the kept levels are the first input levels at that price.
pub proof fn lemma_truncated_ranking_keeps_best(
    r: Seq<OfferData>,
    s: Seq<OfferData>,
    n: int,
    ascending: bool,
)
    requires
        is_stable_ranking(r, s, ascending),
        0 <= n <= s.len(),
    ensures
        r.take(n).len() == n,
        forall|i: int, j: int|
            0 <= i < n <= j < r.len() ==> !ranks_before(#[trigger] r[j].price, #[trigger] r[i].price, ascending),
        n > 0 ==> forall|p: u64|
            ranks_before(p, r[n - 1].price, ascending) ==> #[trigger] at_price(r.take(n), p)
                == at_price(s, p),
        forall|p: u64|
            #[trigger] at_price(r.take(n), p) == at_price(s, p).take(at_price(r.take(n), p).len() as int),
{
    assert forall|p: u64| #[trigger]
        at_price(r.take(n), p) == at_price(s, p).take(at_price(r.take(n), p).len() as int) by {
        lemma_at_price_split(r, n, p);
        assert(at_price(r, p).take(at_price(r.take(n), p).len() as int) =~= at_price(r.take(n), p));
    }
    if n > 0 {
        assert forall|p: u64| ranks_before(p, r[n - 1].price, ascending) implies #[trigger] at_price(
            r.take(n),
            p,
        ) == at_price(s, p) by {
            lemma_at_price_split(r, n, p);
            assert forall|i: int| 0 <= i < r.skip(n).len() implies (#[trigger] r.skip(n)[i]).price
                != p by {
                assert(r.skip(n)[i] == r[n + i]);
                assert(!ranks_before(r[n + i].price, r[n - 1].price, ascending));
            }
            lemma_at_price_absent(r.skip(n), p);
            assert(at_price(r, p) =~= at_price(r.take(n), p));
        }
    }
}

/// The first `k` levels of a stable ranking of `s` all come from `s`, and
/// hold every level of `s` at a price strictly ahead of the last of them.
pub proof fn lemma_kept_levels_are_best_inputs(
    r: Seq<OfferData>,
    s: Seq<OfferData>,
    k: int,
    ascending: bool,
)
    requires
        is_stable_ranking(r, s, ascending),
        0 <= k <= s.len(),
    ensures
        forall|i: int| 0 <= i < k ==> s.contains(#[trigger] r[i]),
        k > 0 ==> forall|j: int|
            0 <= j < s.len() && ranks_before(#[trigger] s[j].price, r[k - 1].price, ascending)
                ==> r.take(k).contains(s[j]),
{
    assert forall|i: int| 0 <= i < k implies s.contains(#[trigger] r[i]) by {
        let pred = |o: OfferData| o.price == r[i].price;
        r.lemma_filter_contains(pred, i);
        assert(at_price(r, r[i].price) == at_price(s, r[i].price));
        s.lemma_filter_contains_rev(pred, r[i]);
    }
    if k > 0 {
        lemma_truncated_ranking_keeps_best(r, s, k, ascending);
        assert forall|j: int|
            0 <= j < s.len() && ranks_before(#[trigger] s[j].price, r[k - 1].price, ascending)
                implies r.take(k).contains(s[j]) by {
            let p = s[j].price;
            let pred = |o: OfferData| o.price == p;
            s.lemma_filter_contains(pred, j);
            assert(at_price(r.take(k), p) == at_price(s, p));
            r.take(k).lemma_filter_contains_rev(pred, s[j]);
        }
    }
}

proof fn lemma_count_at_price(s: Seq<OfferData>, e: OfferData)
    ensures
        s.to_multiset().count(e) == at_price(s, e.price).to_multiset().count(e),
    decreases s.len(),
{
    let pred = |o: OfferData| o.price == e.price;
    if s.len() == 0 {
        s.to_multiset_ensures();
        s.lemma_filter_len(pred);
        at_price(s, e.price).to_multiset_ensures();
        assert(!at_price(s, e.price).contains(e));
    } else {
        let t = s.drop_last();
        let a = s.last();
        lemma_count_at_price(t, e);
        assert(s == t.push(a));
        to_multiset_build(t, a);
        t.lemma_filter_push(a, pred);
        if a.price == e.price {
            to_multiset_build(at_price(t, e.price), a);
        }
    }
}

/// A stable ranking holds the same levels as its input, counted with
/// multiplicity.
pub proof fn lemma_stable_ranking_same_levels(r: Seq<OfferData>, s: Seq<OfferData>, ascending: bool)
    requires
        is_stable_ranking(r, s, ascending),
    ensures
        r.to_multiset() == s.to_multiset(),
{
    assert forall|e: OfferData| r.to_multiset().count(e) == s.to_multiset().count(e) by {
        lemma_count_at_price(r, e);
        lemma_count_at_price(s, e);
        assert(at_price(r, e.price) == at_price(s, e.price));
    }
    assert(r.to_multiset() =~= s.to_multiset());
}

/// Truncating a stable ranking of `s` to `k <= s.len()` levels keeps `k`
/// levels that form a sub-multiset of `s`, and every level of `s` left out
/// (counted with multiplicity) ranks no better than the last one kept: the
/// `k` lowest-priced asks, or the `k` highest-priced bids.
pub proof fn lemma_truncated_ranking_best_submultiset(
    r: Seq<OfferData>,
    s: Seq<OfferData>,
    k: int,
    ascending: bool,
)
    requires
        is_stable_ranking(r, s, ascending),
        0 <= k <= s.len(),
    ensures
        r.take(k).len() == k,
        r.take(k).to_multiset().subset_of(s.to_multiset()),
        k > 0 ==> forall|o: OfferData|
            #[trigger] s.to_multiset().count(o) > r.take(k).to_multiset().count(o) ==> !ranks_before(
                o.price,
                r[k - 1].price,
                ascending,
            ),
{
    lemma_stable_ranking_same_levels(r, s, ascending);
    assert(r == r.take(k) + r.skip(k));
    lemma_multiset_commutative(r.take(k), r.skip(k));
    assert forall|o: OfferData| r.take(k).to_multiset().count(o) <= #[trigger] s.to_multiset().count(o) by {
    }
    if k > 0 {
        assert forall|o: OfferData| #[trigger]
            s.to_multiset().count(o) > r.take(k).to_multiset().count(o) implies !ranks_before(
            o.price,
            r[k - 1].price,
            ascending,
        ) by {
            r.skip(k).to_multiset_ensures();
            assert(r.skip(k).contains(o));
            let i = choose|i: int| 0 <= i < r.skip(k).len() && r.skip(k)[i] == o;
            assert(r[k + i] == o);
        }
    }
}

/// Sorts `levels` stably by price: ascending on the ask side, descending on
/// the bid side.
pub fn rank_levels(levels: &mut [OfferData], ascending: bool)
    ensures
        is_stable_ranking(final(levels)@, old(levels)@, ascending),
{
    let n = levels.len();
    let mut i: usize = 0;
    while i < n
        invariant
            levels@.len() == n,
            n == old(levels)@.len(),
            i <= n,
            is_stable_ranking(levels@.take(i as int), old(levels)@.take(i as int), ascending),
            levels@.skip(i as int) == old(levels)@.skip(i as int),
        decreases n - i,
    {
        let x = levels[i];
        let ghost a = levels@.take(i as int);
        let ghost before = levels@;
        assert(before.skip(i as int)[0] == x);
        assert(old(levels)@[i as int] == x);
        let mut j: usize = i;
        while j > 0 && price_ranks_before(x.price, levels[j - 1].price, ascending)
            invariant
                levels@.len() == n,
                j <= i < n,
                levels@[j as int] == x,
                levels@.take(j as int) + levels@.subrange(j + 1, i + 1) == a,
                forall|k: int|
                    j < k <= i ==> ranks_before(x.price, #[trigger] levels@[k].price, ascending),
                levels@.skip(i + 1) == before.skip(i + 1),
            decreases j,
        {
            let y = levels[j - 1];
            let ghost prev = levels@;
            levels[j] = y;
            levels[j - 1] = x;
            assert(levels@.take(j - 1) == prev.take(j - 1));
            assert(levels@.subrange(j as int, i + 1) == seq![y] + prev.subrange(j + 1, i + 1));
            assert(prev.take(j as int) == prev.take(j - 1).push(y));
            assert(levels@.take(j - 1) + levels@.subrange(j as int, i + 1) =~= a);
            assert(levels@.skip(i + 1) =~= prev.skip(i + 1));
            j = j - 1;
        }
        proof {
            let l = levels@;
            assert(a.take(j as int) =~= l.take(j as int));
            assert(a.skip(j as int) =~= l.subrange(j + 1, i + 1));
            assert forall|k: int| j <= k < a.len() implies ranks_before(
                x.price,
                #[trigger] a[k].price,
                ascending,
            ) by {
                assert(a[k] == l[k + 1]);
            }
            if j > 0 {
                assert(a[j - 1] == l[j - 1]);
            }
            lemma_insert_ranked(a, x, j as int, ascending);
            assert(l.take(i + 1) =~= a.take(j as int) + seq![x] + a.skip(j as int));
            let o = old(levels)@;
            assert(o.take(i + 1) =~= o.take(i as int).push(x));
            assert forall|p: u64| #[trigger] at_price(l.take(i + 1), p) == at_price(o.take(i + 1), p) by {
                let pred = |q: OfferData| q.price == p;
                a.lemma_filter_push(x, pred);
                o.take(i as int).lemma_filter_push(x, pred);
                assert(at_price(a, p) == at_price(o.take(i as int), p));
            }
            assert(l.skip(i + 1) =~= o.skip(i + 1)) by {
                assert(l.skip(i + 1) =~= before.skip(i + 1));
                assert(before.skip(i + 1) =~= before.skip(i as int).skip(1));
                assert(o.skip(i + 1) =~= o.skip(i as int).skip(1));
            }
        }
        i = i + 1;
    }
    proof {
        assert(levels@.take(n as int) =~= levels@);
        assert(old(levels)@.take(n as int) =~= old(levels)@);
    }
}

} // verus!
