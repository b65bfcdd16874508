//! Sorting the indices of things by a strict total order on them.
use vstd::prelude::*;
use vstd::slice::slice_subrange;
use vstd::slice::slice_to_vec;

verus! {

/// A strict total order on the indices below a bound.
pub trait IndexOrder {
    /// The bound.
    spec fn bound(&self) -> int;

    /// Index `i` stands before index `j`.
    spec fn lt(&self, i: int, j: int) -> bool;

    /// No index stands before itself.
    proof fn irreflexive(&self, i: int)
        ensures
            !self.lt(i, i),
    ;

    /// Of two indices one stands before the other.
    proof fn connected(&self, i: int, j: int)
        requires
            i != j,
        ensures
            self.lt(i, j) || self.lt(j, i),
    ;

    /// What stands before something that stands before `k` stands before `k`.
    proof fn transitive(&self, i: int, j: int, k: int)
        requires
            self.lt(i, j),
            self.lt(j, k),
        ensures
            self.lt(i, k),
    ;

    /// Whether index `i` stands before index `j`.
    fn before(&self, i: usize, j: usize) -> (r: bool)
        requires
            i < self.bound(),
            j < self.bound(),
        ensures
            r == self.lt(i as int, j as int),
    ;
}

/// The indices stand in order.
pub open spec fn ascending<O: IndexOrder>(o: O, s: Seq<usize>) -> bool {
    forall|i: int, j: int|
        0 <= i < j < s.len() ==> o.lt(#[trigger] s[i] as int, #[trigger] s[j] as int)
}

/// Every index is below the bound of the order.
pub open spec fn bounded<O: IndexOrder>(o: O, s: Seq<usize>) -> bool {
    forall|i: int| 0 <= i < s.len() ==> #[trigger] s[i] < o.bound()
}

/// Every index of `a` stands before every index of `b`.
spec fn all_before<O: IndexOrder>(o: O, a: Seq<usize>, b: Seq<usize>) -> bool {
    forall|i: int, j: int|
        0 <= i < a.len() && 0 <= j < b.len() ==> o.lt(
            #[trigger] a[i] as int,
            #[trigger] b[j] as int,
        )
}

proof fn lemma_push_least<O: IndexOrder>(
    o: O,
    r: Seq<usize>,
    x: usize,
    a: Seq<usize>,
    b: Seq<usize>,
)
    requires
        ascending(o, r),
        a.len() > 0,
        a[0] == x,
        ascending(o, a),
        ascending(o, b),
        all_before(o, r, a),
        all_before(o, r, b),
        b.len() > 0 ==> o.lt(x as int, b[0] as int),
    ensures
        ascending(o, r.push(x)),
        ascending(o, a.skip(1)),
        all_before(o, r.push(x), a.skip(1)),
        all_before(o, r.push(x), b),
{
    assert forall|j: int| 0 <= j < b.len() implies o.lt(x as int, #[trigger] b[j] as int) by {
        if j > 0 {
            o.transitive(x as int, b[0] as int, b[j] as int);
        }
    }
}

fn merge<O: IndexOrder>(o: &O, a: &[usize], b: &[usize]) -> (r: Vec<usize>)
    requires
        ascending(*o, a@),
        ascending(*o, b@),
        bounded(*o, a@),
        bounded(*o, b@),
        forall|i: int, j: int|
            0 <= i < a@.len() && 0 <= j < b@.len() ==> #[trigger] a@[i] != #[trigger] b@[j],
    ensures
        ascending(*o, r@),
        r@.to_multiset() == (a@ + b@).to_multiset(),
{
    let mut r: Vec<usize> = Vec::new();
    let mut i: usize = 0;
    let mut j: usize = 0;
    assert(a@.skip(0) =~= a@);
    assert(b@.skip(0) =~= b@);
    assert(r@ + a@.skip(0) =~= a@);
    while i < a.len() || j < b.len()
        invariant
            bounded(*o, a@),
            bounded(*o, b@),
            forall|i: int, j: int|
                0 <= i < a@.len() && 0 <= j < b@.len() ==> #[trigger] a@[i] != #[trigger] b@[j],
            i <= a@.len(),
            j <= b@.len(),
            ascending(*o, r@),
            ascending(*o, a@.skip(i as int)),
            ascending(*o, b@.skip(j as int)),
            all_before(*o, r@, a@.skip(i as int)),
            all_before(*o, r@, b@.skip(j as int)),
            (r@ + a@.skip(i as int) + b@.skip(j as int)).to_multiset() == (a@ + b@).to_multiset(),
        decreases a@.len() - i + b@.len() - j,
    {
        let ghost before = r@;
        let ghost sa = a@.skip(i as int);
        let ghost sb = b@.skip(j as int);
        let left: bool = if i == a.len() {
            false
        } else if j == b.len() {
            true
        } else {
            o.before(a[i], b[j])
        };
        broadcast use vstd::seq_lib::lemma_multiset_commutative;

        if left {
            proof {
                lemma_push_least(*o, before, sa[0], sa, sb);
                assert(sa.skip(1) =~= a@.skip(i + 1));
                assert(before.push(sa[0]) + sa.skip(1) =~= before + sa);
            }
            r.push(a[i]);
            i += 1;
        } else {
            proof {
                if sa.len() > 0 {
                    o.connected(sa[0] as int, sb[0] as int);
                }
                lemma_push_least(*o, before, sb[0], sb, sa);
                assert(sb.skip(1) =~= b@.skip(j + 1));
                assert(before.push(sb[0]) + sb.skip(1) =~= before + sb);
                let one = seq![sb[0]];
                assert(before.push(sb[0]) =~= before + one);
                assert(sb =~= one + sb.skip(1));
                assert((before + one + sa + sb.skip(1)).to_multiset() =~= (before + sa + (one
                    + sb.skip(1))).to_multiset());
            }
            r.push(b[j]);
            j += 1;
        }
    }
    assert(r@ + a@.skip(i as int) + b@.skip(j as int) =~= r@);
    r
}

/// The indices in order.
pub fn merge_sort<O: IndexOrder>(o: &O, items: &[usize]) -> (r: Vec<usize>)
    requires
        bounded(*o, items@),
        items@.no_duplicates(),
    ensures
        ascending(*o, r@),
        r@.to_multiset() == items@.to_multiset(),
    decreases items@.len(),
{
    let n: usize = items.len();
    if n < 2 {
        return slice_to_vec(items);
    }
    let mid: usize = n / 2;
    let left = slice_subrange(items, 0, mid);
    let right = slice_subrange(items, mid, n);
    let a = merge_sort(o, left);
    let b = merge_sort(o, right);
    proof {
        broadcast use vstd::seq_lib::group_to_multiset_ensures;
        broadcast use vstd::seq_lib::lemma_multiset_commutative;

        assert(left@ + right@ =~= items@);
        assert forall|i: int| 0 <= i < a@.len() implies #[trigger] left@.contains(a@[i]) by {
            assert(a@.contains(a@[i]));
            assert(a@.to_multiset().count(a@[i]) > 0);
        }
        assert forall|i: int| 0 <= i < b@.len() implies #[trigger] right@.contains(b@[i]) by {
            assert(b@.contains(b@[i]));
            assert(b@.to_multiset().count(b@[i]) > 0);
        }
        assert forall|i: int, j: int| 0 <= i < a@.len() && 0 <= j < b@.len() implies
            #[trigger] a@[i] != #[trigger] b@[j] by {
            assert(left@.contains(a@[i]));
            assert(right@.contains(b@[j]));
        }
        assert forall|i: int| 0 <= i < a@.len() implies #[trigger] a@[i] < o.bound() by {
            assert(left@.contains(a@[i]));
        }
        assert forall|i: int| 0 <= i < b@.len() implies #[trigger] b@[i] < o.bound() by {
            assert(right@.contains(b@[i]));
        }
    }
    merge(o, a.as_slice(), b.as_slice())
}

/// A sorted rearrangement holds what was there, each thing once.
pub proof fn lemma_rearranged<O: IndexOrder>(o: O, items: Seq<usize>, r: Seq<usize>)
    requires
        ascending(o, r),
        r.to_multiset() == items.to_multiset(),
    ensures
        r.len() == items.len(),
        forall|x: usize| #[trigger] r.contains(x) <==> items.contains(x),
        r.no_duplicates(),
{
    r.to_multiset_ensures();
    items.to_multiset_ensures();
    assert(r.to_multiset().len() == items.to_multiset().len());
    assert forall|x: usize| #[trigger] r.contains(x) <==> items.contains(x) by {
        vstd::seq_lib::to_multiset_contains(r, x);
        vstd::seq_lib::to_multiset_contains(items, x);
    }
    assert forall|i: int, j: int| 0 <= i < r.len() && 0 <= j < r.len() && i != j implies r[i]
        != r[j] by {
        o.irreflexive(r[i] as int);
        if i < j {
            assert(o.lt(r[i] as int, r[j] as int));
        } else {
            assert(o.lt(r[j] as int, r[i] as int));
        }
    }
}

} // verus!
