//! Stable sorting.

use vstd::prelude::*;

verus! {

/// `s` with `x` put in: behind everything that need not come after it.
pub open spec fn stable_insert<A>(s: Seq<A>, x: A, before: spec_fn(A, A) -> bool) -> Seq<A>
    decreases s.len(),
{
    if s.len() == 0 || !before(x, s.last()) {
        s.push(x)
    } else {
        stable_insert(s.drop_last(), x, before).push(s.last())
    }
}

/// `s` in the order of `before`; what `before` does not order stays in the
/// order it had.
pub open spec fn stable_sorted<A>(s: Seq<A>, before: spec_fn(A, A) -> bool) -> Seq<A>
    decreases s.len(),
{
    if s.len() == 0 {
        s
    } else {
        stable_insert(stable_sorted(s.drop_last(), before), s.last(), before)
    }
}

/// Whether `before` is a strict weak order: no two elements are before each
/// other, and what is before `z` has every `y` either behind it or before `z`.
pub open spec fn weak_order<A>(before: spec_fn(A, A) -> bool) -> bool {
    &&& forall|x: A, y: A| #[trigger] before(x, y) ==> !before(y, x)
    &&& forall|x: A, y: A, z: A|
        #[trigger] before(x, z) ==> #[trigger] before(x, y) || before(y, z)
}

/// Whether nothing in `s` is before something ahead of it.
pub open spec fn in_order<A>(s: Seq<A>, before: spec_fn(A, A) -> bool) -> bool {
    forall|i: int, j: int|
        0 <= i < j < s.len() ==> !before(#[trigger] s[j], #[trigger] s[i])
}

proof fn lemma_inserted_in_order<A>(s: Seq<A>, x: A, before: spec_fn(A, A) -> bool)
    requires
        weak_order(before),
        in_order(s, before),
    ensures
        in_order(stable_insert(s, x, before), before),
        stable_insert(s, x, before).to_multiset() == s.to_multiset().insert(x),
        stable_insert(s, x, before).len() == s.len() + 1,
        forall|i: int|
            0 <= i < stable_insert(s, x, before).len() ==> stable_insert(s, x, before)[i] == x
                || s.contains(#[trigger] stable_insert(s, x, before)[i]),
    decreases s.len(),
{
    broadcast use vstd::seq_lib::group_to_multiset_ensures;

    let r = stable_insert(s, x, before);
    if s.len() == 0 || !before(x, s.last()) {
        assert forall|i: int, j: int| 0 <= i < j < r.len() implies !before(
            #[trigger] r[j],
            #[trigger] r[i],
        ) by {
            if j == s.len() {
                if before(x, s[i]) {
                    assert(before(x, s.last()) || before(s.last(), s[i]));
                    if i < s.len() - 1 {
                        assert(!before(s[s.len() - 1], s[i]));
                    }
                }
            } else {
                assert(!before(s[j], s[i]));
            }
        }
        assert forall|i: int| 0 <= i < r.len() implies r[i] == x || s.contains(
            #[trigger] r[i],
        ) by {
            if i < s.len() {
                assert(s[i] == r[i]);
            }
        }
    } else {
        let front = s.drop_last();
        assert forall|i: int, j: int| 0 <= i < j < front.len() implies !before(
            #[trigger] front[j],
            #[trigger] front[i],
        ) by {
            assert(!before(s[j], s[i]));
        }
        lemma_inserted_in_order(front, x, before);
        let inner = stable_insert(front, x, before);
        assert(r == inner.push(s.last()));
        assert forall|i: int, j: int| 0 <= i < j < r.len() implies !before(
            #[trigger] r[j],
            #[trigger] r[i],
        ) by {
            if j == inner.len() {
                assert(r[i] == inner[i]);
                if inner[i] == x {
                    assert(before(x, s.last()));
                } else {
                    let k = front.index_of(inner[i]);
                    assert(front[k] == inner[i]);
                    assert(!before(s[s.len() - 1], s[k]));
                }
            } else {
                assert(!before(inner[j], inner[i]));
            }
        }
        assert forall|i: int| 0 <= i < r.len() implies r[i] == x || s.contains(
            #[trigger] r[i],
        ) by {
            if i < inner.len() {
                assert(r[i] == inner[i]);
                if inner[i] != x {
                    let k = front.index_of(inner[i]);
                    assert(s[k] == r[i]);
                }
            } else {
                assert(s[s.len() - 1] == r[i]);
            }
        }
        assert(s =~= front.push(s.last()));
        assert(r.to_multiset() =~= s.to_multiset().insert(x));
    }
}

/// A sorted sequence is in order and holds what the sequence before sorting
/// held.
pub proof fn lemma_stable_sorted<A>(s: Seq<A>, before: spec_fn(A, A) -> bool)
    requires
        weak_order(before),
    ensures
        in_order(stable_sorted(s, before), before),
        stable_sorted(s, before).to_multiset() == s.to_multiset(),
        stable_sorted(s, before).len() == s.len(),
    decreases s.len(),
{
    broadcast use vstd::seq_lib::group_to_multiset_ensures;

    if s.len() > 0 {
        lemma_stable_sorted(s.drop_last(), before);
        lemma_inserted_in_order(stable_sorted(s.drop_last(), before), s.last(), before);
        assert(s =~= s.drop_last().push(s.last()));
    }
}

proof fn lemma_inserted_stable<A>(
    s: Seq<A>,
    x: A,
    before: spec_fn(A, A) -> bool,
    class: spec_fn(A) -> bool,
)
    requires
        forall|a: A, b: A| class(a) && class(b) ==> !#[trigger] before(a, b),
    ensures
        stable_insert(s, x, before).filter(class) == s.push(x).filter(class),
    decreases s.len(),
{
    if s.len() > 0 && before(x, s.last()) {
        let front = s.drop_last();
        lemma_inserted_stable(front, x, before, class);
        stable_insert(front, x, before).lemma_filter_push(s.last(), class);
        front.lemma_filter_push(x, class);
        front.lemma_filter_push(s.last(), class);
        s.lemma_filter_push(x, class);
        assert(s =~= front.push(s.last()));
    }
}

/// Sorting is stable: elements that `before` does not order among each other
/// keep their order.
pub proof fn lemma_stable<A>(
    s: Seq<A>,
    before: spec_fn(A, A) -> bool,
    class: spec_fn(A) -> bool,
)
    requires
        forall|a: A, b: A| class(a) && class(b) ==> !#[trigger] before(a, b),
    ensures
        stable_sorted(s, before).filter(class) == s.filter(class),
    decreases s.len(),
{
    if s.len() > 0 {
        let front = s.drop_last();
        lemma_stable(front, before, class);
        lemma_inserted_stable(stable_sorted(front, before), s.last(), before, class);
        stable_sorted(front, before).lemma_filter_push(s.last(), class);
        front.lemma_filter_push(s.last(), class);
        assert(s =~= front.push(s.last()));
    }
}

proof fn lemma_insert_place<A>(s: Seq<A>, x: A, at: int, before: spec_fn(A, A) -> bool)
    requires
        0 <= at <= s.len(),
        at > 0 ==> !before(x, s[at - 1]),
        forall|i: int| at <= i < s.len() ==> before(x, #[trigger] s[i]),
    ensures
        stable_insert(s, x, before) == s.insert(at, x),
    decreases s.len(),
{
    if at < s.len() {
        let front = s.drop_last();
        assert forall|i: int| at <= i < front.len() implies before(x, #[trigger] front[i]) by {
            assert(before(x, s[i]));
        }
        lemma_insert_place(front, x, at, before);
        assert(s.insert(at, x) =~= front.insert(at, x).push(s.last()));
    } else {
        assert(s.insert(at, x) =~= s.push(x));
    }
}

/// Sorting commutes with a mapping that keeps the order.
pub proof fn lemma_stable_sorted_map<A, B>(
    s: Seq<A>,
    f: spec_fn(A) -> B,
    before_a: spec_fn(A, A) -> bool,
    before_b: spec_fn(B, B) -> bool,
)
    requires
        forall|x: A, y: A| #[trigger] before_a(x, y) == before_b(f(x), f(y)),
    ensures
        stable_sorted(s, before_a).map_values(f) == stable_sorted(s.map_values(f), before_b),
    decreases s.len(),
{
    if s.len() > 0 {
        lemma_stable_sorted_map(s.drop_last(), f, before_a, before_b);
        lemma_insert_map(stable_sorted(s.drop_last(), before_a), s.last(), f, before_a, before_b);
        assert(s.map_values(f).drop_last() =~= s.drop_last().map_values(f));
    } else {
        assert(s.map_values(f) =~= Seq::empty());
    }
}

proof fn lemma_insert_map<A, B>(
    s: Seq<A>,
    x: A,
    f: spec_fn(A) -> B,
    before_a: spec_fn(A, A) -> bool,
    before_b: spec_fn(B, B) -> bool,
)
    requires
        forall|x: A, y: A| #[trigger] before_a(x, y) == before_b(f(x), f(y)),
    ensures
        stable_insert(s, x, before_a).map_values(f) == stable_insert(
            s.map_values(f),
            f(x),
            before_b,
        ),
    decreases s.len(),
{
    if s.len() > 0 && before_a(x, s.last()) {
        lemma_insert_map(s.drop_last(), x, f, before_a, before_b);
        assert(s.map_values(f).drop_last() =~= s.drop_last().map_values(f));
        assert(stable_insert(s, x, before_a).map_values(f) =~= stable_insert(
            s.drop_last(),
            x,
            before_a,
        ).map_values(f).push(f(s.last())));
    } else {
        assert(s.push(x).map_values(f) =~= s.map_values(f).push(f(x)));
    }
}

/// A type whose values are sorted.
pub trait Sortable: Sized {
    /// Whether `self` comes before `other`.
    spec fn comes_before(self, other: Self) -> bool;

    /// Two values do not both come before each other.
    proof fn asymmetric(x: Self, y: Self)
        requires
            x.comes_before(y),
        ensures
            !y.comes_before(x),
    ;

    /// What comes before `z` has every `y` either behind it or before `z`.
    proof fn negatively_transitive(x: Self, y: Self, z: Self)
        requires
            x.comes_before(z),
        ensures
            x.comes_before(y) || y.comes_before(z),
    ;

    /// Whether `self` comes before `other`.
    fn is_before(&self, other: &Self) -> (r: bool)
        ensures
            r == self.comes_before(*other),
    ;
}

/// The order of a sortable type.
pub open spec fn order<T: Sortable>() -> spec_fn(T, T) -> bool {
    |x: T, y: T| x.comes_before(y)
}

/// The order of a sortable type is a strict weak order.
pub proof fn lemma_order<T: Sortable>()
    ensures
        weak_order(order::<T>()),
{
    let before = order::<T>();
    assert forall|x: T, y: T| #[trigger] before(x, y) implies !before(y, x) by {
        T::asymmetric(x, y);
    }
    assert forall|x: T, y: T, z: T| #[trigger] before(x, z) implies #[trigger] before(x, y)
        || before(y, z) by {
        T::negatively_transitive(x, y, z);
    }
}

/// Sorts `items`, keeping the order of what is not ordered.
pub fn stable_sort<T: Sortable>(items: Vec<T>) -> (r: Vec<T>)
    ensures
        r@ == stable_sorted(items@, order::<T>()),
{
    let ghost all = items@;
    let ghost before = order::<T>();
    let mut rest = items;
    let mut reversed: Vec<T> = Vec::new();
    while rest.len() > 0
        invariant
            rest@ + reversed@.reverse() == all,
        decreases rest@.len(),
    {
        let ghost was = rest@;
        let ghost done = reversed@;
        if let Some(x) = rest.pop() {
            reversed.push(x);
            assert(rest@ + reversed@.reverse() =~= was + done.reverse());
        }
    }
    assert(rest@ + reversed@.reverse() =~= reversed@.reverse());
    let mut out: Vec<T> = Vec::new();
    while reversed.len() > 0
        invariant
            before == order::<T>(),
            reversed@.len() <= all.len(),
            reversed@.reverse() == all.skip(all.len() - reversed@.len()),
            out@ == stable_sorted(all.take(all.len() - reversed@.len()), before),
        decreases reversed@.len(),
    {
        let ghost left = reversed@;
        let ghost n = all.len() - left.len();
        if let Some(x) = reversed.pop() {
            proof {
                assert(left.reverse()[0] == x);
                assert(all[n] == x);
                assert(all.take(n + 1).drop_last() =~= all.take(n));
                assert(reversed@.reverse() =~= left.reverse().drop_first());
                assert(all.skip(n + 1) =~= all.skip(n).drop_first());
                lemma_order::<T>();
                lemma_stable_sorted(all.take(n), before);
            }
            let mut lo: usize = 0;
            let mut hi: usize = out.len();
            while lo < hi
                invariant
                    before == order::<T>(),
                    weak_order(before),
                    in_order(out@, before),
                    lo <= hi <= out@.len(),
                    forall|i: int| 0 <= i < lo ==> !before(x, #[trigger] out@[i]),
                    forall|i: int| hi <= i < out@.len() ==> before(x, #[trigger] out@[i]),
                decreases hi - lo,
            {
                let mid = lo + (hi - lo) / 2;
                if x.is_before(&out[mid]) {
                    assert(before(x, out@[mid as int]));
                    assert forall|i: int| mid <= i < out@.len() implies before(
                        x,
                        #[trigger] out@[i],
                    ) by {
                        if i > mid {
                            assert(!before(out@[i], out@[mid as int]));
                            assert(before(x, out@[i]) || before(out@[i], out@[mid as int]));
                        }
                    }
                    hi = mid;
                } else {
                    assert(!before(x, out@[mid as int]));
                    assert forall|i: int| 0 <= i < mid + 1 implies !before(
                        x,
                        #[trigger] out@[i],
                    ) by {
                        if i < mid && before(x, out@[i]) {
                            assert(before(x, out@[mid as int]) || before(
                                out@[mid as int],
                                out@[i],
                            ));
                        }
                    }
                    lo = mid + 1;
                }
            }
            proof {
                lemma_insert_place(out@, x, lo as int, before);
            }
            out.insert(lo, x);
        }
    }
    assert(all.take(all.len() as int) =~= all);
    out
}

} // verus!
