use vstd::prelude::*;

verus! {

/// Each element is strictly smaller than every element after it.
pub open spec fn strictly_sorted(s: Seq<i64>) -> bool {
    forall|a: int, b: int| 0 <= a < b < s.len() ==> s[a] < s[b]
}

/// `s` with `v` placed between the elements below it and those above it;
/// an element equal to `v` is replaced by it.
pub open spec fn insert_sorted(s: Seq<i64>, v: i64) -> Seq<i64> {
    s.filter(below(v)) + seq![v] + s.filter(above(v))
}

/// Holds of the keys smaller than `v`.
pub open spec fn below(v: i64) -> spec_fn(i64) -> bool {
    |x: i64| x < v
}

/// Holds of the keys greater than `v`.
pub open spec fn above(v: i64) -> spec_fn(i64) -> bool {
    |x: i64| x > v
}

/// The sequence a set of keys shows after `v` is offered to it: unchanged
/// when `v` is already there, `insert_sorted(s, v)` otherwise.
pub open spec fn offer(s: Seq<i64>, v: i64) -> Seq<i64> {
    if s.contains(v) {
        s
    } else {
        insert_sorted(s, v)
    }
}

/// What offering each of `vals` in turn, to an empty sequence, leaves.
pub open spec fn offer_all(vals: Seq<i64>) -> Seq<i64>
    decreases vals.len(),
{
    if vals.len() == 0 {
        Seq::empty()
    } else {
        offer(offer_all(vals.drop_last()), vals.last())
    }
}

/// Filtering keeps a sequence whole when every element passes.
pub proof fn lemma_filter_keeps_all(s: Seq<i64>, p: spec_fn(i64) -> bool)
    requires
        forall|k: int| 0 <= k < s.len() ==> p(#[trigger] s[k]),
    ensures
        s.filter(p) == s,
    decreases s.len(),
{
    reveal(Seq::filter);
    if s.len() > 0 {
        lemma_filter_keeps_all(s.drop_last(), p);
        assert(s.drop_last().push(s.last()) =~= s);
    }
}

/// Filtering empties a sequence when no element passes.
pub proof fn lemma_filter_drops_all(s: Seq<i64>, p: spec_fn(i64) -> bool)
    requires
        forall|k: int| 0 <= k < s.len() ==> !p(#[trigger] s[k]),
    ensures
        s.filter(p) == Seq::<i64>::empty(),
    decreases s.len(),
{
    reveal(Seq::filter);
    if s.len() > 0 {
        lemma_filter_drops_all(s.drop_last(), p);
    }
}

/// In a strictly sorted sequence without `v`, the elements below `v` form a
/// prefix and those above it the rest.
proof fn lemma_split(s: Seq<i64>, v: i64) -> (k: int)
    requires
        strictly_sorted(s),
        !s.contains(v),
    ensures
        0 <= k <= s.len(),
        forall|i: int| 0 <= i < k ==> s[i] < v,
        forall|i: int| k <= i < s.len() ==> s[i] > v,
    decreases s.len(),
{
    if s.len() == 0 {
        0
    } else {
        let d = s.drop_last();
        assert(!d.contains(v)) by {
            if d.contains(v) {
                let i = choose|i: int| 0 <= i < d.len() && d[i] == v;
                assert(s[i] == v);
            }
        }
        let k0 = lemma_split(d, v);
        assert(s.last() != v) by {
            assert(s[s.len() - 1] == s.last());
        }
        if s.last() > v {
            assert forall|i: int| k0 <= i < s.len() implies s[i] > v by {
                if i < d.len() {
                    assert(d[i] == s[i]);
                }
            }
            assert forall|i: int| 0 <= i < k0 implies s[i] < v by {
                assert(d[i] == s[i]);
            }
            k0
        } else {
            assert forall|i: int| 0 <= i < s.len() implies s[i] < v by {
                if i < s.len() - 1 {
                    assert(s[i] < s[s.len() - 1]);
                }
            }
            s.len() as int
        }
    }
}

/// Placing a new key keeps a strictly sorted sequence strictly sorted, adds
/// that key and nothing else.
pub proof fn lemma_insert_sorted(s: Seq<i64>, v: i64)
    requires
        strictly_sorted(s),
        !s.contains(v),
    ensures
        strictly_sorted(insert_sorted(s, v)),
        insert_sorted(s, v).len() == s.len() + 1,
        forall|x: i64| #[trigger] insert_sorted(s, v).contains(x) <==> s.contains(x) || x == v,
{
    let k = lemma_split(s, v);
    let lo = s.subrange(0, k);
    let hi = s.subrange(k, s.len() as int);
    assert(s =~= lo + hi);
    Seq::filter_distributes_over_add(lo, hi, below(v));
    Seq::filter_distributes_over_add(lo, hi, above(v));
    lemma_filter_keeps_all(lo, below(v));
    lemma_filter_drops_all(hi, below(v));
    lemma_filter_drops_all(lo, above(v));
    lemma_filter_keeps_all(hi, above(v));
    let r = lo + seq![v] + hi;
    assert(insert_sorted(s, v) =~= r);
    assert forall|a: int, b: int| 0 <= a < b < r.len() implies r[a] < r[b] by {
        if b < k {
            assert(r[a] == s[a] && r[b] == s[b]);
        } else if a < k && b == k {
            assert(r[a] == s[a]);
        } else if a < k {
            assert(r[a] == s[a] && r[b] == s[b - 1]);
        } else if a == k {
            assert(r[b] == s[b - 1]);
        } else {
            assert(r[a] == s[a - 1] && r[b] == s[b - 1]);
        }
    }
    assert forall|x: i64| #[trigger] r.contains(x) <==> s.contains(x) || x == v by {
        if r.contains(x) {
            let i = choose|i: int| 0 <= i < r.len() && r[i] == x;
            if i < k {
                assert(s[i] == x);
            } else if i > k {
                assert(s[i - 1] == x);
            }
        }
        if s.contains(x) {
            let i = choose|i: int| 0 <= i < s.len() && s[i] == x;
            if i < k {
                assert(r[i] == x);
            } else {
                assert(r[i + 1] == x);
            }
        }
        if x == v {
            assert(r[k] == x);
        }
    }
}

/// Placing `v` in an empty sequence gives `v` alone.
pub proof fn lemma_insert_sorted_empty(v: i64)
    ensures
        insert_sorted(Seq::empty(), v) == seq![v],
{
    lemma_filter_drops_all(Seq::empty(), below(v));
    lemma_filter_drops_all(Seq::empty(), above(v));
    assert(insert_sorted(Seq::empty(), v) =~= seq![v]);
}

/// A key below `k`, with everything after `k` above `k`, is placed within
/// the part before `k`.
pub proof fn lemma_insert_sorted_before(l: Seq<i64>, k: i64, r: Seq<i64>, v: i64)
    requires
        v < k,
        forall|j: int| 0 <= j < r.len() ==> k < #[trigger] r[j],
    ensures
        insert_sorted(l + seq![k] + r, v) == insert_sorted(l, v) + seq![k] + r,
{
    let kr = seq![k] + r;
    assert(l + seq![k] + r =~= l + kr);
    assert(forall|j: int| 0 <= j < kr.len() ==> v < #[trigger] kr[j]) by {
        assert forall|j: int| 0 <= j < kr.len() implies v < #[trigger] kr[j] by {
            if j > 0 {
                assert(kr[j] == r[j - 1]);
            }
        }
    }
    let fb = l.filter(below(v));
    let fa = l.filter(above(v));
    assert((l + kr).filter(below(v)) == fb) by {
        lemma_filter_drops_all(kr, below(v));
        Seq::filter_distributes_over_add(l, kr, below(v));
        assert(fb + Seq::<i64>::empty() =~= fb);
    }
    assert((l + kr).filter(above(v)) == fa + kr) by {
        lemma_filter_keeps_all(kr, above(v));
        Seq::filter_distributes_over_add(l, kr, above(v));
    }
    assert(fb + seq![v] + (fa + kr) =~= fb + seq![v] + fa + kr);
    assert(insert_sorted(l, v) + kr =~= insert_sorted(l, v) + seq![k] + r);
}

/// A key above `k`, with everything before `k` below `k`, is placed within
/// the part after `k`.
pub proof fn lemma_insert_sorted_after(l: Seq<i64>, k: i64, r: Seq<i64>, v: i64)
    requires
        v > k,
        forall|j: int| 0 <= j < l.len() ==> #[trigger] l[j] < k,
    ensures
        insert_sorted(l + seq![k] + r, v) == l + seq![k] + insert_sorted(r, v),
{
    let lk = l + seq![k];
    assert(forall|j: int| 0 <= j < lk.len() ==> #[trigger] lk[j] < v) by {
        assert forall|j: int| 0 <= j < lk.len() implies #[trigger] lk[j] < v by {
            if j < l.len() {
                assert(lk[j] == l[j]);
            }
        }
    }
    let fb = r.filter(below(v));
    let fa = r.filter(above(v));
    assert((lk + r).filter(below(v)) == lk + fb) by {
        lemma_filter_keeps_all(lk, below(v));
        Seq::filter_distributes_over_add(lk, r, below(v));
    }
    assert((lk + r).filter(above(v)) == fa) by {
        lemma_filter_drops_all(lk, above(v));
        Seq::filter_distributes_over_add(lk, r, above(v));
        assert(Seq::<i64>::empty() + fa =~= fa);
    }
    assert(lk + fb + seq![v] + fa =~= lk + (fb + seq![v] + fa));
}

/// Offering duplicate-free values one by one to an empty sequence yields
/// those values exactly, each once, in strictly increasing order.
/// `gddset::insert` changes a tree's keys by `offer`, so this is what the
/// in-order keys of a tree built by inserting `vals` into an empty one are.
pub proof fn lemma_offer_all_sorted(vals: Seq<i64>)
    requires
        vals.no_duplicates(),
    ensures
        strictly_sorted(offer_all(vals)),
        offer_all(vals).len() == vals.len(),
        forall|x: i64| #[trigger] offer_all(vals).contains(x) <==> vals.contains(x),
    decreases vals.len(),
{
    if vals.len() > 0 {
        let d = vals.drop_last();
        let v = vals.last();
        assert(d.no_duplicates());
        lemma_offer_all_sorted(d);
        assert(!d.contains(v)) by {
            if d.contains(v) {
                let i = choose|i: int| 0 <= i < d.len() && d[i] == v;
                assert(vals[i] == vals[vals.len() - 1]);
            }
        }
        lemma_insert_sorted(offer_all(d), v);
        assert(vals =~= d.push(v));
    }
}

} // verus!
