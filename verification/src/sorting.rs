//! Stable sorting by a total preorder.

use vstd::prelude::*;

verus! {

broadcast use vstd::seq_lib::group_filter_ensures;

/// A total preorder on `Self`, with an executable comparison.
pub trait Ordered: Sized {
    /// `a` may come before `b`.
    spec fn le(a: Self, b: Self) -> bool;

    proof fn le_total(a: Self, b: Self)
        ensures
            Self::le(a, b) || Self::le(b, a),
    ;

    proof fn le_trans(a: Self, b: Self, c: Self)
        requires
            Self::le(a, b),
            Self::le(b, c),
        ensures
            Self::le(a, c),
    ;

    fn le_exec(&self, other: &Self) -> (r: bool)
        ensures
            r == Self::le(*self, *other),
    ;
}

/// Neither of `a` and `b` goes before the other.
pub open spec fn equiv<T: Ordered>(a: T, b: T) -> bool {
    T::le(a, b) && T::le(b, a)
}

/// The items that the order does not tell apart from `x`.
pub open spec fn class_of<T: Ordered>(x: T) -> spec_fn(T) -> bool {
    |y: T| equiv(x, y)
}

pub open spec fn sorted_by_le<T: Ordered>(s: Seq<T>) -> bool {
    forall|i: int, j: int| 0 <= i < j < s.len() ==> T::le(s[i], s[j])
}

/// `new` is `old` sorted stably: in order, and with the items of each class
/// of equivalent items in the order they had in `old`.
pub open spec fn is_stable_sort_of<T: Ordered>(new: Seq<T>, old: Seq<T>) -> bool {
    &&& sorted_by_le(new)
    &&& forall|x: T| #[trigger] new.filter(class_of(x)) == old.filter(class_of(x))
}

proof fn lemma_filter_none<T>(s: Seq<T>, p: spec_fn(T) -> bool)
    requires
        forall|i: int| 0 <= i < s.len() ==> !p(#[trigger] s[i]),
    ensures
        s.filter(p) == Seq::<T>::empty(),
{
    assert(s.all(|y: T| !p(y)));
    s.lemma_all_neg_filter_empty(p);
    assert(s.filter(p) =~= Seq::<T>::empty());
}

/// Inserting `x` after every item not above it keeps a sorted sequence
/// sorted, and puts `x` last in its class.
proof fn lemma_insert<T: Ordered>(s: Seq<T>, x: T, j: int)
    requires
        sorted_by_le(s),
        0 <= j <= s.len(),
        forall|i: int| 0 <= i < j ==> T::le(#[trigger] s[i], x),
        forall|i: int| j <= i < s.len() ==> !T::le(#[trigger] s[i], x),
    ensures
        sorted_by_le(s.insert(j, x)),
        forall|c: T|
            #[trigger] s.insert(j, x).filter(class_of(c)) == if equiv(c, x) {
                s.filter(class_of(c)).push(x)
            } else {
                s.filter(class_of(c))
            },
{
    let t = s.insert(j, x);
    assert forall|a: int, b: int| 0 <= a < b < t.len() implies T::le(t[a], t[b]) by {
        if b < j {
            assert(t[a] == s[a] && t[b] == s[b]);
        } else if b == j {
            assert(t[a] == s[a]);
        } else if a == j {
            assert(t[b] == s[b - 1]);
            T::le_total(s[b - 1], x);
        } else if a < j {
            assert(t[a] == s[a] && t[b] == s[b - 1]);
        } else {
            assert(t[a] == s[a - 1] && t[b] == s[b - 1]);
        }
    }
    assert(t =~= s.take(j) + seq![x] + s.skip(j));
    assert(s =~= s.take(j) + s.skip(j));
    assert forall|c: T| #[trigger] t.filter(class_of(c)) == if equiv(c, x) {
        s.filter(class_of(c)).push(x)
    } else {
        s.filter(class_of(c))
    } by {
        let p = class_of(c);
        Seq::filter_distributes_over_add(s.take(j), s.skip(j), p);
        Seq::filter_distributes_over_add(s.take(j) + seq![x], s.skip(j), p);
        Seq::filter_distributes_over_add(s.take(j), seq![x], p);
        reveal_with_fuel(Seq::filter, 2);
        assert(seq![x].drop_last() =~= Seq::<T>::empty());
        if equiv(c, x) {
            assert forall|i: int| 0 <= i < s.skip(j).len() implies !p(#[trigger] s.skip(j)[i]) by {
                let e = s.skip(j)[i];
                assert(e == s[i + j]);
                if equiv(c, e) {
                    T::le_trans(e, c, x);
                }
            }
            lemma_filter_none(s.skip(j), p);
            assert(s.filter(p) =~= s.take(j).filter(p) + s.skip(j).filter(p));
            assert(t.filter(p) =~= s.filter(p).push(x));
        } else {
            assert(t.filter(p) =~= s.filter(p));
        }
    }
}

/// Swaps items `i` and `j` of `s` with `<[T]>::swap`.
#[verifier::external_body]
fn swap_items<T>(s: &mut [T], i: usize, j: usize)
    requires
        i < old(s)@.len(),
        j < old(s)@.len(),
    ensures
        final(s)@ == old(s)@.update(i as int, old(s)@[j as int]).update(j as int, old(s)@[i as int]),
{
    s.swap(i, j);
}

/// Sorts `v` stably by the order of `T`, in place: each item moves left past
/// the items above it.
pub fn stable_sort<T: Ordered>(v: &mut [T])
    ensures
        is_stable_sort_of(final(v)@, old(v)@),
{
    let ghost input = v@;
    let n = v.len();
    let mut i: usize = 0;
    while i < n
        invariant
            n == input.len(),
            v@.len() == n,
            i <= n,
            sorted_by_le(v@.take(i as int)),
            forall|c: T| #[trigger] v@.take(i as int).filter(class_of(c)) == input.take(i as int).filter(class_of(c)),
            v@.skip(i as int) == input.skip(i as int),
        decreases n - i,
    {
        let ghost prefix = v@.take(i as int);
        let ghost x = input[i as int];
        let ghost rest = input.skip(i + 1);
        assert(v@[i as int] == v@.skip(i as int)[0]);
        assert(v@ =~= prefix + seq![x] + rest) by {
            assert(v@ =~= v@.take(i as int) + v@.skip(i as int));
            assert(input.skip(i as int) =~= seq![x] + rest);
        }
        let mut j: usize = i;
        while j > 0 && !v[j - 1].le_exec(&v[j])
            invariant
                0 <= j <= i < n,
                v@.len() == n,
                sorted_by_le(prefix),
                prefix.len() == i,
                v@ == prefix.take(j as int) + seq![x] + prefix.skip(j as int) + rest,
                forall|k: int| j <= k < i ==> !T::le(#[trigger] prefix[k], x),
            decreases j,
        {
            assert(v@[j as int] == x);
            assert(v@[j - 1] == prefix[j - 1]);
            swap_items(v, j - 1, j);
            assert(v@ =~= prefix.take(j - 1) + seq![x] + prefix.skip(j - 1) + rest);
            j -= 1;
        }
        proof {
            assert(v@[j as int] == x);
            assert forall|k: int| 0 <= k < j implies T::le(#[trigger] prefix[k], x) by {
                assert(v@[j - 1] == prefix[j - 1]);
                assert(T::le(prefix[j - 1], x));
                if k < j - 1 {
                    T::le_trans(prefix[k], prefix[j - 1], x);
                }
            }
            lemma_insert(prefix, x, j as int);
            assert(v@.take(i + 1) =~= prefix.insert(j as int, x));
            assert(v@.skip(i + 1) =~= rest);
            assert(input.take(i + 1) =~= input.take(i as int).push(x));
            assert forall|c: T| #[trigger] v@.take(i + 1).filter(class_of(c)) == input.take(i + 1).filter(
                class_of(c),
            ) by {
                input.take(i as int).lemma_filter_push(x, class_of(c));
            }
        }
        i += 1;
    }
    assert(v@.take(n as int) =~= v@);
    assert(input.take(n as int) =~= input);
}


/// Law: a stable sort neither drops nor adds items: every item of the input
/// is in the output, and every item of the output was in the input.
pub proof fn lemma_stable_sort_same_items<T: Ordered>(new: Seq<T>, old: Seq<T>)
    requires
        is_stable_sort_of(new, old),
    ensures
        forall|x: T| old.contains(x) <==> new.contains(x),
{
    assert forall|x: T| old.contains(x) <==> new.contains(x) by {
        T::le_total(x, x);
        let p = class_of(x);
        assert(p(x));
        assert(new.filter(p) == old.filter(p));
        if old.contains(x) {
            let i = choose|i: int| 0 <= i < old.len() && old[i] == x;
            old.lemma_filter_contains(p, i);
            assert(new.filter(p).contains(x));
            new.lemma_filter_contains_rev(p, x);
        }
        if new.contains(x) {
            let i = choose|i: int| 0 <= i < new.len() && new[i] == x;
            new.lemma_filter_contains(p, i);
            assert(old.filter(p).contains(x));
            old.lemma_filter_contains_rev(p, x);
        }
    }
}


proof fn lemma_filter_cons<T>(x: T, r: Seq<T>, p: spec_fn(T) -> bool)
    ensures
        (seq![x] + r).filter(p) == if p(x) {
            seq![x] + r.filter(p)
        } else {
            r.filter(p)
        },
{
    Seq::filter_distributes_over_add(seq![x], r, p);
    reveal_with_fuel(Seq::filter, 2);
    assert(seq![x].drop_last() =~= Seq::<T>::empty());
    if p(x) {
        assert(seq![x].filter(p) =~= seq![x]);
    } else {
        assert(seq![x].filter(p) =~= Seq::<T>::empty());
        assert(Seq::<T>::empty() + r.filter(p) =~= r.filter(p));
    }
}

proof fn lemma_sorted_same_classes_equal<T: Ordered>(a: Seq<T>, b: Seq<T>)
    requires
        sorted_by_le(a),
        sorted_by_le(b),
        forall|c: T| #[trigger] a.filter(class_of(c)) == b.filter(class_of(c)),
    ensures
        a == b,
    decreases a.len() + b.len(),
{
    if a.len() == 0 || b.len() == 0 {
        if a.len() > 0 {
            T::le_total(a[0], a[0]);
            a.lemma_filter_contains(class_of(a[0]), 0);
            assert(b.filter(class_of(a[0])).contains(a[0]));
            b.lemma_filter_contains_rev(class_of(a[0]), a[0]);
        } else if b.len() > 0 {
            T::le_total(b[0], b[0]);
            b.lemma_filter_contains(class_of(b[0]), 0);
            assert(a.filter(class_of(b[0])).contains(b[0]));
            a.lemma_filter_contains_rev(class_of(b[0]), b[0]);
        }
        assert(a =~= b);
    } else {
        let x = a[0];
        let y = b[0];
        T::le_total(x, x);
        T::le_total(y, y);
        // y is in `a`, and x is in `b`, so each is at most the other.
        b.lemma_filter_contains(class_of(y), 0);
        assert(a.filter(class_of(y)).contains(y));
        a.lemma_filter_contains_rev(class_of(y), y);
        let i = choose|i: int| 0 <= i < a.len() && a[i] == y;
        a.lemma_filter_contains(class_of(x), 0);
        assert(b.filter(class_of(x)).contains(x));
        b.lemma_filter_contains_rev(class_of(x), x);
        let j = choose|j: int| 0 <= j < b.len() && b[j] == x;
        assert(T::le(x, y)) by {
            if i > 0 {
                assert(T::le(a[0], a[i]));
            }
        }
        assert(T::le(y, x)) by {
            if j > 0 {
                assert(T::le(b[0], b[j]));
            }
        }
        let ra = a.drop_first();
        let rb = b.drop_first();
        assert(a =~= seq![x] + ra);
        assert(b =~= seq![y] + rb);
        let cx = class_of(x);
        lemma_filter_cons(x, ra, cx);
        lemma_filter_cons(y, rb, cx);
        assert(cx(y));
        assert(a.filter(cx)[0] == x);
        assert(b.filter(cx)[0] == y);
        assert(x == y);
        assert forall|c: T| #[trigger] ra.filter(class_of(c)) == rb.filter(class_of(c)) by {
            let p = class_of(c);
            lemma_filter_cons(x, ra, p);
            lemma_filter_cons(y, rb, p);
            if p(x) {
                assert(ra.filter(p) =~= a.filter(p).drop_first());
                assert(rb.filter(p) =~= b.filter(p).drop_first());
            }
        }
        assert forall|m: int, n: int| 0 <= m < n < ra.len() implies T::le(ra[m], ra[n]) by {
            assert(T::le(a[m + 1], a[n + 1]));
        }
        assert forall|m: int, n: int| 0 <= m < n < rb.len() implies T::le(rb[m], rb[n]) by {
            assert(T::le(b[m + 1], b[n + 1]));
        }
        lemma_sorted_same_classes_equal(ra, rb);
    }
}

/// Law: a sequence has exactly one stable sort, so `is_stable_sort_of`
/// pins down what a sort returns.
pub proof fn lemma_stable_sort_unique<T: Ordered>(a: Seq<T>, b: Seq<T>, old: Seq<T>)
    requires
        is_stable_sort_of(a, old),
        is_stable_sort_of(b, old),
    ensures
        a == b,
{
    assert forall|c: T| #[trigger] a.filter(class_of(c)) == b.filter(class_of(c)) by {
        assert(a.filter(class_of(c)) == old.filter(class_of(c)));
        assert(b.filter(class_of(c)) == old.filter(class_of(c)));
    }
    lemma_sorted_same_classes_equal(a, b);
}

} // verus!
