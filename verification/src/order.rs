//! A stable sort whose result is stated exactly.

use vstd::prelude::*;

verus! {

/// `sorted` with `x` put behind the last element that does not come after it.
pub open spec fn inserted<T>(sorted: Seq<T>, x: T, le: spec_fn(T, T) -> bool) -> Seq<T>
    decreases sorted.len(),
{
    if sorted.len() == 0 || le(sorted.last(), x) {
        sorted.push(x)
    } else {
        inserted(sorted.drop_last(), x, le).push(sorted.last())
    }
}

/// `s` in the order of `le`; elements that `le` ranks alike keep their order.
pub open spec fn sorted_by<T>(s: Seq<T>, le: spec_fn(T, T) -> bool) -> Seq<T>
    decreases s.len(),
{
    if s.len() == 0 {
        s
    } else {
        inserted(sorted_by(s.drop_last(), le), s.last(), le)
    }
}

/// Sorts `v` in place, by insertion. `le` decides whether its first argument
/// may stand before its second; `rel` is what `le` computes.
pub(crate) fn sort_by<T, F: Fn(&T, &T) -> bool>(
    v: &mut Vec<T>,
    le: F,
    Ghost(rel): Ghost<spec_fn(T, T) -> bool>,
)
    requires
        forall|a: &T, b: &T| #[trigger] le.requires((a, b)),
        forall|a: &T, b: &T, r: bool| #[trigger] le.ensures((a, b), r) ==> r == rel(*a, *b),
    ensures
        final(v)@ == sorted_by(old(v)@, rel),
{
    let ghost given = v@;
    let n = v.len();
    let mut i: usize = 0;
    proof {
        assert(v@.take(0) =~= sorted_by(given.take(0), rel));
    }
    while i < n
        invariant
            i <= n,
            v.len() == n,
            given.len() == n,
            forall|a: &T, b: &T| #[trigger] le.requires((a, b)),
            forall|a: &T, b: &T, r: bool| #[trigger] le.ensures((a, b), r) ==> r == rel(*a, *b),
            v@.take(i as int) == sorted_by(given.take(i as int), rel),
            v@.skip(i as int) == given.skip(i as int),
        decreases n - i,
    {
        let ghost before = v@;
        let ghost head = before.take(i as int);
        let x = v.remove(i);
        let mut j: usize = i;
        proof {
            assert(given.take(i + 1).drop_last() =~= given.take(i as int));
            assert(x == before.skip(i as int)[0]);
            assert(given.take(i + 1).last() == x);
            assert(head.take(i as int) =~= head);
            assert(head.skip(i as int) =~= Seq::<T>::empty());
            assert(inserted(head, x, rel) =~= inserted(head.take(i as int), x, rel) + head.skip(
                i as int,
            ));
        }
        while j > 0 && !le(&v[j - 1], &x)
            invariant
                j <= i < n,
                v.len() == n - 1,
                before.len() == n,
                v@ == before.remove(i as int),
                head == before.take(i as int),
                forall|a: &T, b: &T| #[trigger] le.requires((a, b)),
                forall|a: &T, b: &T, r: bool| #[trigger] le.ensures((a, b), r) ==> r == rel(*a, *b),
                inserted(head, x, rel) == inserted(head.take(j as int), x, rel) + head.skip(
                    j as int,
                ),
            decreases j,
        {
            proof {
                let part = head.take(j as int);
                assert(part.last() == v@[j - 1]);
                assert(part.drop_last() =~= head.take(j - 1));
                assert(inserted(part.drop_last(), x, rel).push(part.last()) + head.skip(j as int)
                    =~= inserted(head.take(j - 1), x, rel) + head.skip(j - 1));
            }
            j -= 1;
        }
        proof {
            let part = head.take(j as int);
            if j > 0 {
                assert(part.last() == v@[j - 1]);
            }
            assert(inserted(part, x, rel) == part.push(x));
        }
        v.insert(j, x);
        proof {
            let part = head.take(j as int);
            assert(v@.take(i + 1) =~= part.push(x) + head.skip(j as int));
            let tail = v@.skip(i + 1);
            assert(tail =~= given.skip(i + 1)) by {
                assert forall|k: int| 0 <= k < n - i - 1 implies #[trigger] tail[k] == given[i + 1
                    + k] by {
                    assert(before.skip(i as int)[k + 1] == given.skip(i as int)[k + 1]);
                }
            }
        }
        i += 1;
    }
    proof {
        assert(v@.take(n as int) =~= v@);
        assert(given.take(n as int) =~= given);
    }
}

/// Whether every element of `s` may stand before all that follow it.
pub open spec fn ordered<T>(s: Seq<T>, le: spec_fn(T, T) -> bool) -> bool {
    forall|i: int, j: int| 0 <= i < j < s.len() ==> le(#[trigger] s[i], #[trigger] s[j])
}

/// Whether `le` ranks any two elements, and ranks them consistently.
pub open spec fn is_total_preorder<T>(le: spec_fn(T, T) -> bool) -> bool {
    &&& forall|a: T, b: T| #[trigger] le(a, b) || #[trigger] le(b, a)
    &&& forall|a: T, b: T, c: T| #[trigger] le(a, b) && #[trigger] le(b, c) ==> le(a, c)
}

/// Inserting adds one element and keeps all others.
pub proof fn lemma_inserted_holds<T>(sorted: Seq<T>, x: T, le: spec_fn(T, T) -> bool)
    ensures
        inserted(sorted, x, le).len() == sorted.len() + 1,
        inserted(sorted, x, le).to_multiset() == sorted.to_multiset().insert(x),
        forall|k: int|
            0 <= k < inserted(sorted, x, le).len() ==> (#[trigger] inserted(sorted, x, le)[k] == x
                || sorted.contains(inserted(sorted, x, le)[k])),
    decreases sorted.len(),
{
    broadcast use vstd::seq_lib::group_to_multiset_ensures;

    if sorted.len() == 0 || le(sorted.last(), x) {
        let r = sorted.push(x);
        assert forall|k: int| 0 <= k < r.len() implies (#[trigger] r[k] == x || sorted.contains(
            r[k],
        )) by {
            if k < sorted.len() {
                assert(sorted[k] == r[k]);
            }
        }
    } else {
        let front = sorted.drop_last();
        let inner = inserted(front, x, le);
        lemma_inserted_holds(front, x, le);
        let r = inner.push(sorted.last());
        assert(front.push(sorted.last()) =~= sorted);
        assert(r.to_multiset() =~= sorted.to_multiset().insert(x));
        assert forall|k: int| 0 <= k < r.len() implies (#[trigger] r[k] == x || sorted.contains(
            r[k],
        )) by {
            if k < inner.len() {
                if inner[k] != x {
                    let m = choose|m: int| 0 <= m < front.len() && front[m] == inner[k];
                    assert(sorted[m] == r[k]);
                }
            } else {
                assert(sorted[sorted.len() - 1] == r[k]);
            }
        }
    }
}

/// Inserting into an ordered sequence leaves it ordered.
pub proof fn lemma_inserted_ordered<T>(sorted: Seq<T>, x: T, le: spec_fn(T, T) -> bool)
    requires
        is_total_preorder(le),
        ordered(sorted, le),
    ensures
        ordered(inserted(sorted, x, le), le),
    decreases sorted.len(),
{
    if sorted.len() == 0 || le(sorted.last(), x) {
        let r = sorted.push(x);
        assert forall|i: int, j: int| 0 <= i < j < r.len() implies le(
            #[trigger] r[i],
            #[trigger] r[j],
        ) by {
            if j == sorted.len() && i < sorted.len() - 1 {
                assert(le(sorted[i], sorted.last()));
            }
        }
    } else {
        let front = sorted.drop_last();
        let inner = inserted(front, x, le);
        lemma_inserted_ordered(front, x, le);
        lemma_inserted_holds(front, x, le);
        let r = inner.push(sorted.last());
        assert(le(x, sorted.last()));
        assert forall|i: int, j: int| 0 <= i < j < r.len() implies le(
            #[trigger] r[i],
            #[trigger] r[j],
        ) by {
            if j == inner.len() {
                if inner[i] != x {
                    let m = choose|m: int| 0 <= m < front.len() && front[m] == inner[i];
                    assert(le(sorted[m], sorted[sorted.len() - 1]));
                }
            }
        }
    }
}

/// The sorted sequence holds the same elements, as often, and is ordered.
pub proof fn lemma_sorted_by<T>(s: Seq<T>, le: spec_fn(T, T) -> bool)
    ensures
        sorted_by(s, le).len() == s.len(),
        sorted_by(s, le).to_multiset() == s.to_multiset(),
        is_total_preorder(le) ==> ordered(sorted_by(s, le), le),
    decreases s.len(),
{
    broadcast use vstd::seq_lib::group_to_multiset_ensures;

    if s.len() > 0 {
        let front = s.drop_last();
        lemma_sorted_by(front, le);
        lemma_inserted_holds(sorted_by(front, le), s.last(), le);
        if is_total_preorder(le) {
            lemma_inserted_ordered(sorted_by(front, le), s.last(), le);
        }
        assert(front.push(s.last()) =~= s);
    }
}

/// Sorting leaves an ordered sequence as it is.
pub proof fn lemma_sorted_by_keeps_ordered<T>(s: Seq<T>, le: spec_fn(T, T) -> bool)
    requires
        ordered(s, le),
    ensures
        sorted_by(s, le) == s,
    decreases s.len(),
{
    if s.len() > 0 {
        let front = s.drop_last();
        lemma_sorted_by_keeps_ordered(front, le);
        if front.len() > 0 {
            assert(le(s[front.len() - 1], s[s.len() - 1]));
        }
        assert(front.push(s.last()) =~= s);
    }
}

/// Sorting by what `f` makes of the elements is sorting what `f` makes of
/// them: where `le_t` ranks two elements as `le_u` ranks their images, the
/// images of the sorted sequence are the sorted images.
pub proof fn lemma_sorted_by_map<T, U>(
    s: Seq<T>,
    f: spec_fn(T) -> U,
    le_t: spec_fn(T, T) -> bool,
    le_u: spec_fn(U, U) -> bool,
)
    requires
        forall|a: T, b: T| #[trigger] le_t(a, b) == le_u(f(a), f(b)),
    ensures
        sorted_by(s, le_t).map_values(f) == sorted_by(s.map_values(f), le_u),
    decreases s.len(),
{
    if s.len() == 0 {
        assert(sorted_by(s, le_t).map_values(f) =~= sorted_by(s.map_values(f), le_u));
    } else {
        let front = s.drop_last();
        lemma_sorted_by_map(front, f, le_t, le_u);
        lemma_inserted_map(sorted_by(front, le_t), s.last(), f, le_t, le_u);
        assert(s.map_values(f).drop_last() =~= front.map_values(f));
    }
}

proof fn lemma_inserted_map<T, U>(
    sorted: Seq<T>,
    x: T,
    f: spec_fn(T) -> U,
    le_t: spec_fn(T, T) -> bool,
    le_u: spec_fn(U, U) -> bool,
)
    requires
        forall|a: T, b: T| #[trigger] le_t(a, b) == le_u(f(a), f(b)),
    ensures
        inserted(sorted, x, le_t).map_values(f) == inserted(sorted.map_values(f), f(x), le_u),
    decreases sorted.len(),
{
    let images = sorted.map_values(f);
    if sorted.len() == 0 {
        assert(inserted(sorted, x, le_t).map_values(f) =~= inserted(images, f(x), le_u));
    } else {
        assert(le_t(sorted.last(), x) == le_u(images.last(), f(x)));
        if le_t(sorted.last(), x) {
            assert(sorted.push(x).map_values(f) =~= images.push(f(x)));
        } else {
            let front = sorted.drop_last();
            lemma_inserted_map(front, x, f, le_t, le_u);
            assert(images.drop_last() =~= front.map_values(f));
            assert(inserted(front, x, le_t).push(sorted.last()).map_values(f) =~= inserted(
                front,
                x,
                le_t,
            ).map_values(f).push(images.last()));
        }
    }
}

} // verus!
