//! Ascending lists over a strict total order.
use vstd::prelude::*;

verus! {

/// `lt` is a strict total order.
pub open spec fn strict_order<A>(lt: spec_fn(A, A) -> bool) -> bool {
    &&& forall|a: A| !#[trigger] lt(a, a)
    &&& forall|a: A, b: A, c: A| #[trigger] lt(a, b) && #[trigger] lt(b, c) ==> lt(a, c)
    &&& forall|a: A, b: A| a == b || #[trigger] lt(a, b) || lt(b, a)
}

/// The members of `s` stand in ascending order, each once.
pub open spec fn ascends<A>(s: Seq<A>, lt: spec_fn(A, A) -> bool) -> bool {
    forall|i: int, j: int| 0 <= i < j < s.len() ==> lt(#[trigger] s[i], #[trigger] s[j])
}

/// Members of an ascending list differ.
pub proof fn lemma_ascends_distinct<A>(s: Seq<A>, lt: spec_fn(A, A) -> bool)
    requires
        strict_order(lt),
        ascends(s, lt),
    ensures
        s.no_duplicates(),
{
    assert forall|i: int, j: int| 0 <= i < s.len() && 0 <= j < s.len() && i != j implies s[i] != s[j] by {
        if i < j {
            assert(lt(s[i], s[j]));
        } else {
            assert(lt(s[j], s[i]));
        }
    }
}

/// The members determine the ascending list.
pub proof fn lemma_ascends_unique<A>(a: Seq<A>, b: Seq<A>, lt: spec_fn(A, A) -> bool)
    requires
        strict_order(lt),
        ascends(a, lt),
        ascends(b, lt),
        a.to_set() == b.to_set(),
    ensures
        a == b,
    decreases a.len(),
{
    if a.len() == 0 {
        if b.len() > 0 {
            assert(b.to_set().contains(b[0]));
            assert(a.to_set().contains(b[0]));
        }
        assert(a =~= b);
    } else {
        assert(a.to_set().contains(a.last()));
        assert(b.to_set().contains(a.last()));
        let j = choose|j: int| 0 <= j < b.len() && b[j] == a.last();
        assert(b.to_set().contains(b.last()));
        assert(a.to_set().contains(b.last()));
        let i = choose|i: int| 0 <= i < a.len() && a[i] == b.last();
        assert(a.last() == b.last()) by {
            if j < b.len() - 1 {
                assert(lt(b[j], b[b.len() - 1]));
                if i < a.len() - 1 {
                    assert(lt(a[i], a[a.len() - 1]));
                    assert(lt(a.last(), a.last()));
                }
            }
        }
        lemma_ascends_distinct(a, lt);
        lemma_ascends_distinct(b, lt);
        let a0 = a.drop_last();
        let b0 = b.drop_last();
        assert(a0.to_set() =~= b0.to_set()) by {
            assert forall|x: A| a0.to_set().contains(x) implies b0.to_set().contains(x) by {
                let k = choose|k: int| 0 <= k < a0.len() && a0[k] == x;
                assert(a[k] == x);
                assert(a.to_set().contains(x));
                assert(b.to_set().contains(x));
                let m = choose|m: int| 0 <= m < b.len() && b[m] == x;
                assert(m != b.len() - 1);
                assert(b0[m] == x);
            }
            assert forall|x: A| b0.to_set().contains(x) implies a0.to_set().contains(x) by {
                let k = choose|k: int| 0 <= k < b0.len() && b0[k] == x;
                assert(b[k] == x);
                assert(b.to_set().contains(x));
                assert(a.to_set().contains(x));
                let m = choose|m: int| 0 <= m < a.len() && a[m] == x;
                assert(m != a.len() - 1);
                assert(a0[m] == x);
            }
        }
        lemma_ascends_unique(a0, b0, lt);
        assert(a =~= a0.push(a.last()));
        assert(b =~= b0.push(b.last()));
    }
}

/// The members of `s` in ascending order.
pub open spec fn listed<A>(s: Set<A>, lt: spec_fn(A, A) -> bool) -> Seq<A> {
    choose|q: Seq<A>| ascends(q, lt) && q.to_set() == s
}

/// An ascending list is the list of its members.
pub proof fn lemma_listed<A>(q: Seq<A>, lt: spec_fn(A, A) -> bool)
    requires
        strict_order(lt),
        ascends(q, lt),
    ensures
        listed(q.to_set(), lt) == q,
{
    lemma_ascends_unique(listed(q.to_set(), lt), q, lt);
}

/// The first place in an ordered list behind everything that does not come after
/// `x`.
pub open spec fn place_in<A>(s: Seq<A>, x: A, lt: spec_fn(A, A) -> bool) -> int
    decreases s.len(),
{
    if s.len() == 0 || !lt(x, s.last()) {
        s.len() as int
    } else {
        place_in(s.drop_last(), x, lt)
    }
}

/// The members of a list in order; those that come neither before nor after each
/// other stay in the order in which they came.
pub open spec fn stably_ordered<A>(s: Seq<A>, lt: spec_fn(A, A) -> bool) -> Seq<A>
    decreases s.len(),
{
    if s.len() == 0 {
        Seq::empty()
    } else {
        let front = stably_ordered(s.drop_last(), lt);
        front.insert(place_in(front, s.last(), lt), s.last())
    }
}

/// Where a member is put in, those in front do not come after it and those behind do.
proof fn lemma_place_in<A>(s: Seq<A>, x: A, lt: spec_fn(A, A) -> bool)
    ensures
        0 <= place_in(s, x, lt) <= s.len(),
        place_in(s, x, lt) > 0 ==> !lt(x, s[place_in(s, x, lt) - 1]),
        forall|i: int| place_in(s, x, lt) <= i < s.len() ==> lt(x, #[trigger] s[i]),
    decreases s.len(),
{
    if s.len() > 0 && lt(x, s.last()) {
        lemma_place_in(s.drop_last(), x, lt);
        let p = place_in(s, x, lt);
        if p > 0 {
            assert(s.drop_last()[p - 1] == s[p - 1]);
        }
        assert forall|i: int| p <= i < s.len() implies lt(x, #[trigger] s[i]) by {
            if i < s.len() - 1 {
                assert(s.drop_last()[i] == s[i]);
            }
        }
    }
}

/// Ordering a list keeps its members, each as often as it was there.
pub proof fn law_ordering_keeps_the_members<A>(s: Seq<A>, lt: spec_fn(A, A) -> bool)
    ensures
        stably_ordered(s, lt).len() == s.len(),
        stably_ordered(s, lt).to_multiset() == s.to_multiset(),
        forall|x: A| #[trigger] stably_ordered(s, lt).contains(x) <==> s.contains(x),
    decreases s.len(),
{
    broadcast use vstd::seq_lib::group_to_multiset_ensures;

    if s.len() > 0 {
        let front = stably_ordered(s.drop_last(), lt);
        law_ordering_keeps_the_members(s.drop_last(), lt);
        let p = place_in(front, s.last(), lt);
        lemma_place_in(front, s.last(), lt);
        let all = front.insert(p, s.last());
        assert(all.remove(p) =~= front);
        assert(all[p] == s.last());
        assert(all.contains(s.last()));
        assert(front.to_multiset() == all.to_multiset().remove(s.last()));
        assert(all.to_multiset() =~= front.to_multiset().insert(s.last()));
        assert(s.drop_last().push(s.last()) =~= s);
        assert(all.to_multiset() =~= s.to_multiset());
        assert forall|x: A| #[trigger] all.contains(x) <==> s.contains(x) by {
            assert(all.to_multiset().count(x) > 0 <==> all.contains(x));
            assert(s.to_multiset().count(x) > 0 <==> s.contains(x));
        }
    } else {
        assert(stably_ordered(s, lt) =~= s);
    }
}

/// Ordering a list puts it in order: none comes before one that stands in front of it.
pub proof fn law_ordering_orders<A>(s: Seq<A>, lt: spec_fn(A, A) -> bool)
    requires
        forall|a: A, b: A, c: A| !#[trigger] lt(a, b) && !#[trigger] lt(b, c) ==> !lt(a, c),
        forall|a: A, b: A| #[trigger] lt(a, b) ==> !lt(b, a),
    ensures
        forall|i: int, j: int|
            0 <= i < j < s.len() ==> !lt(
                #[trigger] stably_ordered(s, lt)[j],
                #[trigger] stably_ordered(s, lt)[i],
            ),
    decreases s.len(),
{
    law_ordering_keeps_the_members(s, lt);
    if s.len() > 0 {
        let x = s.last();
        let front = stably_ordered(s.drop_last(), lt);
        law_ordering_orders(s.drop_last(), lt);
        law_ordering_keeps_the_members(s.drop_last(), lt);
        let p = place_in(front, x, lt);
        lemma_place_in(front, x, lt);
        let all = front.insert(p, x);
        assert forall|i: int, j: int| 0 <= i < j < all.len() implies !lt(
            #[trigger] all[j],
            #[trigger] all[i],
        ) by {
            let fi = if i < p {
                i
            } else {
                i - 1
            };
            let fj = if j < p {
                j
            } else {
                j - 1
            };
            if i == p {
                assert(all[j] == front[fj]);
                assert(lt(x, front[fj]));
            } else if j == p {
                assert(all[i] == front[fi]);
                if fi < p - 1 {
                    assert(!lt(front[p - 1], front[fi]));
                    assert(!lt(x, front[p - 1]));
                }
            } else {
                assert(all[i] == front[fi] && all[j] == front[fj]);
            }
        }
    }
}

/// A finite set has its list in ascending order.
pub proof fn law_finite_sets_have_their_list<A>(s: Set<A>, lt: spec_fn(A, A) -> bool)
    requires
        s.finite(),
        strict_order(lt),
    ensures
        ascends(listed(s, lt), lt),
        listed(s, lt).to_set() == s,
{
    let q = lemma_list_of(s, lt);
    assert(ascends(q, lt) && q.to_set() == s);
}

proof fn lemma_list_of<A>(s: Set<A>, lt: spec_fn(A, A) -> bool) -> (q: Seq<A>)
    requires
        s.finite(),
        strict_order(lt),
    ensures
        ascends(q, lt),
        q.to_set() == s,
    decreases s.len(),
{
    if s.len() == 0 {
        let q = Seq::<A>::empty();
        assert(q.to_set() =~= s);
        q
    } else {
        let x = s.choose();
        let r = lemma_list_of(s.remove(x), lt);
        let p = place_in(r, x, lt);
        lemma_place_in(r, x, lt);
        let q = r.insert(p, x);
        assert forall|y: A| r.contains(y) implies y != x && s.contains(y) by {
            assert(r.to_set().contains(y));
        }
        assert forall|i: int, j: int| 0 <= i < j < q.len() implies lt(
            #[trigger] q[i],
            #[trigger] q[j],
        ) by {
            let ri = if i < p {
                i
            } else {
                i - 1
            };
            let rj = if j < p {
                j
            } else {
                j - 1
            };
            if i == p {
                assert(q[j] == r[rj]);
            } else if j == p {
                assert(q[i] == r[ri]);
                assert(r.contains(r[p - 1]));
                assert(lt(r[p - 1], x));
                if ri < p - 1 {
                    assert(lt(r[ri], r[p - 1]));
                }
            } else {
                assert(q[i] == r[ri] && q[j] == r[rj]);
            }
        }
        assert forall|y: A| q.to_set().contains(y) <==> s.contains(y) by {
            if q.contains(y) {
                let i = q.index_of(y);
                if i < p {
                    assert(r[i] == y);
                    assert(r.contains(y));
                } else if i > p {
                    assert(r[i - 1] == y);
                    assert(r.contains(y));
                }
            }
            if s.contains(y) {
                if y == x {
                    assert(q[p] == y);
                } else {
                    assert(r.to_set().contains(y));
                    let i = r.index_of(y);
                    assert(q[if i < p {
                        i
                    } else {
                        i + 1
                    }] == y);
                }
            }
        }
        assert(q.to_set() =~= s);
        q
    }
}

} // verus!
