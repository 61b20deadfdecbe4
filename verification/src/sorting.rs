//! Sorting by a strict total order, and the fact that a strictly sorted
//! arrangement of a set of items is unique.
use vstd::prelude::*;

verus! {

/// Items with a strict order on their views.
pub trait Ranked: DeepView + Sized {
    spec fn precedes(a: Self::V, b: Self::V) -> bool;

    proof fn lemma_precedes_order()
        ensures
            forall|x: Self::V| !#[trigger] Self::precedes(x, x),
            forall|x: Self::V, y: Self::V, z: Self::V|
                #[trigger] Self::precedes(x, y) && #[trigger] Self::precedes(y, z)
                    ==> Self::precedes(x, z),
    ;

    fn goes_before(&self, other: &Self) -> (r: bool)
        ensures
            r == Self::precedes(self.deep_view(), other.deep_view()),
    ;
}

/// Each item of `s` precedes every later one.
pub open spec fn strictly_sorted<T: Ranked>(s: Seq<T::V>) -> bool {
    forall|i: int, j: int| 0 <= i < j < s.len() ==> T::precedes(#[trigger] s[i], #[trigger] s[j])
}

/// Any two items of `s` at different places are ordered one way or the
/// other.
pub open spec fn comparable<T: Ranked>(s: Seq<T::V>) -> bool {
    forall|i: int, j: int|
        0 <= i < s.len() && 0 <= j < s.len() && i != j ==> T::precedes(#[trigger] s[i], #[trigger] s[j])
            || T::precedes(s[j], s[i])
}

/// `a` and `b` hold the same items.
pub open spec fn same_items<A>(a: Seq<A>, b: Seq<A>) -> bool {
    forall|v: A| a.contains(v) <==> b.contains(v)
}

proof fn lemma_order_facts<T: Ranked>()
    ensures
        forall|x: T::V| !#[trigger] T::precedes(x, x),
        forall|x: T::V, y: T::V, z: T::V|
            #[trigger] T::precedes(x, y) && #[trigger] T::precedes(y, z) ==> T::precedes(x, z),
{
    T::lemma_precedes_order();
}

/// Two strictly sorted sequences that hold the same items are equal.
pub proof fn lemma_sorted_unique<T: Ranked>(a: Seq<T::V>, b: Seq<T::V>)
    requires
        strictly_sorted::<T>(a),
        strictly_sorted::<T>(b),
        same_items(a, b),
    ensures
        a == b,
    decreases a.len(),
{
    lemma_order_facts::<T>();
    if a.len() == 0 {
        if b.len() > 0 {
            assert(b.contains(b[0]));
        }
        assert(a =~= b);
    } else {
        assert(a.contains(a[0]));
        assert(b.len() > 0);
        assert(b.contains(b[0]));
        let ia = choose|i: int| 0 <= i < a.len() && a[i] == b[0];
        let ib = choose|i: int| 0 <= i < b.len() && b[i] == a[0];
        // a[0] and b[0] are the least items of both sequences
        if a[0] != b[0] {
            assert(ia > 0 && ib > 0);
            assert(T::precedes(a[0], a[ia]));
            assert(T::precedes(b[0], b[ib]));
        }
        let a1 = a.drop_first();
        let b1 = b.drop_first();
        assert forall|v: T::V| a1.contains(v) <==> b1.contains(v) by {
            if a1.contains(v) {
                let k = choose|k: int| 0 <= k < a1.len() && a1[k] == v;
                assert(a[k + 1] == v);
                assert(T::precedes(a[0], a[k + 1]));
                assert(b.contains(v));
                let m = choose|m: int| 0 <= m < b.len() && b[m] == v;
                assert(m != 0);
                assert(b1[m - 1] == v);
            }
            if b1.contains(v) {
                let k = choose|k: int| 0 <= k < b1.len() && b1[k] == v;
                assert(b[k + 1] == v);
                assert(T::precedes(b[0], b[k + 1]));
                assert(a.contains(v));
                let m = choose|m: int| 0 <= m < a.len() && a[m] == v;
                assert(m != 0);
                assert(a1[m - 1] == v);
            }
        }
        assert forall|i: int, j: int| 0 <= i < j < a1.len() implies T::precedes(
            #[trigger] a1[i],
            #[trigger] a1[j],
        ) by {
            assert(a1[i] == a[i + 1] && a1[j] == a[j + 1]);
        }
        assert forall|i: int, j: int| 0 <= i < j < b1.len() implies T::precedes(
            #[trigger] b1[i],
            #[trigger] b1[j],
        ) by {
            assert(b1[i] == b[i + 1] && b1[j] == b[j + 1]);
        }
        lemma_sorted_unique::<T>(a1, b1);
        assert(a =~= seq![a[0]] + a1);
        assert(b =~= seq![b[0]] + b1);
    }
}

/// The items of `items`, sorted by `Ranked::precedes`.
pub fn sort_ranked<T: Ranked>(items: Vec<T>) -> (r: Vec<T>)
    requires
        comparable::<T>(items.deep_view()),
    ensures
        strictly_sorted::<T>(r.deep_view()),
        same_items(r.deep_view(), items.deep_view()),
        r.len() == items.len(),
{
    proof {
        lemma_order_facts::<T>();
    }
    let ghost all = items.deep_view();
    let mut rest = items;
    let mut sorted: Vec<T> = Vec::new();
    while rest.len() > 0
        invariant
            forall|x: T::V| !#[trigger] T::precedes(x, x),
            forall|x: T::V, y: T::V, z: T::V|
                #[trigger] T::precedes(x, y) && #[trigger] T::precedes(y, z) ==> T::precedes(x, z),
            strictly_sorted::<T>(sorted.deep_view()),
            comparable::<T>(rest.deep_view()),
            forall|u: T::V, v: T::V|
                sorted.deep_view().contains(u) && rest.deep_view().contains(v) ==> T::precedes(u, v)
                    || T::precedes(v, u),
            forall|v: T::V|
                #[trigger] all.contains(v) <==> (sorted.deep_view().contains(v)
                    || rest.deep_view().contains(v)),
            forall|v: T::V|
                sorted.deep_view().contains(v) ==> !#[trigger] rest.deep_view().contains(v),
            sorted.len() + rest.len() == all.len(),
        decreases rest.len(),
    {
        let ghost rest_before = rest.deep_view();
        let ghost sorted_before = sorted.deep_view();
        let x = rest.pop().unwrap();
        let ghost xv = x.deep_view();
        proof {
            assert(rest_before =~= rest.deep_view().push(xv));
            assert(rest_before[rest_before.len() - 1] == xv);
            assert(rest_before.contains(xv));
            assert(!sorted_before.contains(xv));
            assert forall|u: T::V| sorted_before.contains(u) implies T::precedes(u, xv)
                || T::precedes(xv, u) by {
                assert(rest_before.contains(xv));
            }
        }
        let mut j: usize = 0;
        while j < sorted.len() && !x.goes_before(&sorted[j])
            invariant
                j <= sorted.len(),
                sorted.deep_view() == sorted_before,
                xv == x.deep_view(),
                forall|k: int| 0 <= k < j ==> !T::precedes(xv, #[trigger] sorted_before[k]),
            decreases sorted.len() - j,
        {
            j = j + 1;
        }
        sorted.insert(j, x);
        proof {
            let s = sorted.deep_view();
            assert(s =~= sorted_before.insert(j as int, xv));
            assert forall|a: int, b: int| 0 <= a < b < s.len() implies T::precedes(
                #[trigger] s[a],
                #[trigger] s[b],
            ) by {
                if a < j && b == j {
                    assert(sorted_before.contains(sorted_before[a]));
                    assert(!T::precedes(xv, sorted_before[a]));
                    assert(T::precedes(sorted_before[a], xv) || T::precedes(xv, sorted_before[a]));
                } else if a == j && b > j {
                    assert(T::precedes(xv, sorted_before[j as int]));
                    if b > j + 1 {
                        assert(T::precedes(sorted_before[j as int], sorted_before[b - 1]));
                    }
                } else if a < j && b > j {
                    assert(s[a] == sorted_before[a] && s[b] == sorted_before[b - 1]);
                } else if b < j {
                    assert(s[a] == sorted_before[a] && s[b] == sorted_before[b]);
                } else {
                    assert(a > j);
                    assert(s[a] == sorted_before[a - 1] && s[b] == sorted_before[b - 1]);
                }
            }
            assert forall|v: T::V| s.contains(v) <==> (sorted_before.contains(v) || v == xv) by {
                if s.contains(v) {
                    let k = choose|k: int| 0 <= k < s.len() && s[k] == v;
                    if k < j {
                        assert(sorted_before[k] == v);
                    } else if k > j {
                        assert(sorted_before[k - 1] == v);
                    }
                }
                if sorted_before.contains(v) {
                    let k = choose|k: int| 0 <= k < sorted_before.len() && sorted_before[k] == v;
                    if k < j {
                        assert(s[k] == v);
                    } else {
                        assert(s[k + 1] == v);
                    }
                }
                if v == xv {
                    assert(s[j as int] == v);
                }
            }
            let r = rest.deep_view();
            assert forall|v: T::V| rest_before.contains(v) <==> (r.contains(v) || v == xv) by {
                if rest_before.contains(v) {
                    let k = choose|k: int| 0 <= k < rest_before.len() && rest_before[k] == v;
                    if k < r.len() {
                        assert(r[k] == v);
                    }
                }
                if r.contains(v) {
                    let k = choose|k: int| 0 <= k < r.len() && r[k] == v;
                    assert(rest_before[k] == v);
                }
            }
            assert(!r.contains(xv)) by {
                if r.contains(xv) {
                    let k = choose|k: int| 0 <= k < r.len() && r[k] == xv;
                    let last = rest_before.len() - 1;
                    assert(rest_before[k] == rest_before[last]);
                    assert(T::precedes(rest_before[k], rest_before[last]) || T::precedes(
                        rest_before[last],
                        rest_before[k],
                    ));
                }
            }
            assert forall|a: int, b: int|
                0 <= a < r.len() && 0 <= b < r.len() && a != b implies T::precedes(
                #[trigger] r[a],
                #[trigger] r[b],
            ) || T::precedes(r[b], r[a]) by {
                assert(r[a] == rest_before[a] && r[b] == rest_before[b]);
            }
            assert forall|u: T::V, v: T::V| s.contains(u) && r.contains(v) implies T::precedes(u, v)
                || T::precedes(v, u) by {
                assert(rest_before.contains(v));
                if u == xv {
                    let k = choose|k: int| 0 <= k < r.len() && r[k] == v;
                    let last = rest_before.len() - 1;
                    assert(rest_before[k] == v);
                    assert(T::precedes(rest_before[k], rest_before[last]) || T::precedes(
                        rest_before[last],
                        rest_before[k],
                    ));
                }
            }
        }
    }
    proof {
        assert(rest.deep_view().len() == 0);
        assert forall|v: T::V| sorted.deep_view().contains(v) <==> all.contains(v) by {
            if all.contains(v) {
                assert(!rest.deep_view().contains(v));
            }
        }
    }
    sorted
}

} // verus!
