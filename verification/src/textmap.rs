//! An ordered map from texts to values, kept as a sorted list.
use crate::chars::{
    copy_text, lemma_text_lt_asymmetric, lemma_text_lt_irreflexive, lemma_text_lt_total,
    lemma_text_lt_transitive, text_less, text_lt,
};
use vstd::prelude::*;

verus! {

/// The texts stand in ascending order, each once.
pub open spec fn ascending(s: Seq<Seq<char>>) -> bool {
    forall|i: int, j: int| 0 <= i < j < s.len() ==> text_lt(#[trigger] s[i], #[trigger] s[j])
}

/// Ascending texts differ.
pub proof fn lemma_ascending_distinct(s: Seq<Seq<char>>)
    requires
        ascending(s),
    ensures
        s.no_duplicates(),
{
    assert forall|i: int, j: int| 0 <= i < s.len() && 0 <= j < s.len() && i != j implies s[i] != s[j] by {
        if i < j {
            lemma_text_lt_asymmetric(s[i], s[j]);
        } else {
            lemma_text_lt_asymmetric(s[j], s[i]);
        }
    }
}

/// The members of a set of texts determine their ascending list.
pub proof fn lemma_ascending_unique(a: Seq<Seq<char>>, b: Seq<Seq<char>>)
    requires
        ascending(a),
        ascending(b),
        a.to_set() == b.to_set(),
    ensures
        a == b,
    decreases a.len(),
{
    if a.len() == 0 {
        if b.len() > 0 {
            assert(b.to_set().contains(b[0]));
            assert(a.to_set().contains(b[0]));
        }
        assert(a =~= b);
    } else {
        assert(a.to_set().contains(a.last()));
        assert(b.to_set().contains(a.last()));
        let j = choose|j: int| 0 <= j < b.len() && b[j] == a.last();
        assert(b.to_set().contains(b.last()));
        assert(a.to_set().contains(b.last()));
        let i = choose|i: int| 0 <= i < a.len() && a[i] == b.last();
        assert(j == b.len() - 1 && i == a.len() - 1) by {
            if j < b.len() - 1 {
                assert(text_lt(b[j], b[b.len() - 1]));
                if i < a.len() - 1 {
                    assert(text_lt(a[i], a[a.len() - 1]));
                    lemma_text_lt_asymmetric(a.last(), b.last());
                } else {
                    lemma_text_lt_irreflexive(a.last());
                }
            } else if i < a.len() - 1 {
                assert(text_lt(a[i], a[a.len() - 1]));
                lemma_text_lt_irreflexive(a.last());
            }
        }
        lemma_ascending_distinct(a);
        lemma_ascending_distinct(b);
        let a0 = a.drop_last();
        let b0 = b.drop_last();
        assert(a0.to_set() =~= b0.to_set()) by {
            assert forall|x: Seq<char>| a0.to_set().contains(x) implies b0.to_set().contains(x) by {
                let k = choose|k: int| 0 <= k < a0.len() && a0[k] == x;
                assert(a[k] == x);
                assert(a.to_set().contains(x));
                assert(b.to_set().contains(x));
                let m = choose|m: int| 0 <= m < b.len() && b[m] == x;
                assert(m != b.len() - 1);
                assert(b0[m] == x);
            }
            assert forall|x: Seq<char>| b0.to_set().contains(x) implies a0.to_set().contains(x) by {
                let k = choose|k: int| 0 <= k < b0.len() && b0[k] == x;
                assert(b[k] == x);
                assert(b.to_set().contains(x));
                assert(a.to_set().contains(x));
                let m = choose|m: int| 0 <= m < a.len() && a[m] == x;
                assert(m != a.len() - 1);
                assert(a0[m] == x);
            }
        }
        lemma_ascending_unique(a0, b0);
        assert(a =~= a0.push(a.last()));
        assert(b =~= b0.push(b.last()));
    }
}

/// The members of `s` in ascending order.
pub open spec fn in_order(s: Set<Seq<char>>) -> Seq<Seq<char>> {
    choose|q: Seq<Seq<char>>| ascending(q) && q.to_set() == s
}

/// An ascending list is the ascending list of its members.
pub proof fn lemma_in_order(q: Seq<Seq<char>>)
    requires
        ascending(q),
    ensures
        in_order(q.to_set()) == q,
{
    lemma_ascending_unique(in_order(q.to_set()), q);
}

/// One more member has its place in an ascending list.
proof fn lemma_ascending_insert(q: Seq<Seq<char>>, x: Seq<char>) -> (r: Seq<Seq<char>>)
    requires
        ascending(q),
    ensures
        ascending(r),
        r.to_set() == q.to_set().insert(x),
    decreases q.len(),
{
    if q.contains(x) {
        assert(q.to_set().insert(x) =~= q.to_set());
        q
    } else if q.len() == 0 || text_lt(q.last(), x) {
        let r = q.push(x);
        assert forall|i: int, j: int| 0 <= i < j < r.len() implies text_lt(
            #[trigger] r[i],
            #[trigger] r[j],
        ) by {
            if j == q.len() && i < q.len() - 1 {
                assert(text_lt(q[i], q[q.len() - 1]));
                lemma_text_lt_transitive(q[i], q.last(), x);
            }
        }
        lemma_push_members(q, x);
        r
    } else {
        assert(q.contains(q.last()));
        lemma_text_lt_total(q.last(), x);
        let front = q.drop_last();
        let r0 = lemma_ascending_insert(front, x);
        let r = r0.push(q.last());
        assert forall|i: int, j: int| 0 <= i < j < r.len() implies text_lt(
            #[trigger] r[i],
            #[trigger] r[j],
        ) by {
            if j == r0.len() {
                assert(r0.to_set().contains(r0[i]));
                if r0[i] != x {
                    assert(front.to_set().contains(r0[i]));
                    let k = choose|k: int| 0 <= k < front.len() && front[k] == r0[i];
                    assert(text_lt(q[k], q[q.len() - 1]));
                }
            }
        }
        lemma_push_members(r0, q.last());
        lemma_push_members(front, q.last());
        assert(front.push(q.last()) =~= q);
        assert(r.to_set() =~= q.to_set().insert(x));
        r
    }
}

proof fn lemma_push_members(q: Seq<Seq<char>>, x: Seq<char>)
    ensures
        q.push(x).to_set() == q.to_set().insert(x),
{
    let r = q.push(x);
    assert forall|y: Seq<char>| r.to_set().contains(y) <==> q.to_set().insert(x).contains(y) by {
        if q.contains(y) {
            assert(r[q.index_of(y)] == y);
        }
        if y == x {
            assert(r[q.len() as int] == y);
        }
        if r.contains(y) && y != x {
            assert(q[r.index_of(y)] == y);
        }
    }
    assert(r.to_set() =~= q.to_set().insert(x));
}

/// Every finite set of texts has an ascending list.
pub proof fn lemma_in_order_exists(s: Set<Seq<char>>)
    requires
        s.finite(),
    ensures
        ascending(in_order(s)),
        in_order(s).to_set() == s,
    decreases s.len(),
{
    if s.len() == 0 {
        let q = Seq::<Seq<char>>::empty();
        assert(q.to_set() =~= s);
        assert(ascending(q) && q.to_set() == s);
    } else {
        let x = s.choose();
        lemma_in_order_exists(s.remove(x));
        let q = lemma_ascending_insert(in_order(s.remove(x)), x);
        assert(s.remove(x).insert(x) =~= s);
        assert(ascending(q) && q.to_set() == s);
    }
}

/// `got` lists the members of `from` that are in `want`, ascending.
pub open spec fn picks(got: Seq<Seq<char>>, from: Seq<Seq<char>>, want: Set<Seq<char>>) -> bool {
    &&& ascending(got)
    &&& forall|x: Seq<char>| #[trigger] got.contains(x) <==> from.contains(x) && want.contains(x)
}

/// One more key extends the list, if it is wanted.
pub proof fn lemma_picks_step(got: Seq<Seq<char>>, keys: Seq<Seq<char>>, i: int, want: Set<Seq<char>>)
    requires
        ascending(keys),
        0 <= i < keys.len(),
        picks(got, keys.take(i), want),
    ensures
        want.contains(keys[i]) ==> picks(got.push(keys[i]), keys.take(i + 1), want),
        !want.contains(keys[i]) ==> picks(got, keys.take(i + 1), want),
{
    let x = keys[i];
    let a = keys.take(i);
    let b = keys.take(i + 1);
    assert forall|y: Seq<char>| #[trigger] b.contains(y) <==> a.contains(y) || y == x by {
        if a.contains(y) {
            assert(b[a.index_of(y)] == y);
        }
        if y == x {
            assert(b[i] == y);
        }
        if b.contains(y) && y != x {
            assert(a[b.index_of(y)] == y);
        }
    }
    if want.contains(x) {
        let now = got.push(x);
        assert forall|p: int, q: int| 0 <= p < q < now.len() implies text_lt(
            #[trigger] now[p],
            #[trigger] now[q],
        ) by {
            if q == got.len() {
                assert(got.contains(got[p]));
                let j = a.index_of(got[p]);
                assert(text_lt(keys[j], keys[i]));
            } else {
                assert(text_lt(got[p], got[q]));
            }
        }
        assert forall|y: Seq<char>| #[trigger] now.contains(y) <==> b.contains(y) && want.contains(y) by {
            if got.contains(y) {
                assert(now[got.index_of(y)] == y);
            }
            if y == x {
                assert(now[got.len() as int] == y);
            }
            if now.contains(y) && y != x {
                assert(got[now.index_of(y)] == y);
            }
        }
    } else {
        assert forall|y: Seq<char>| #[trigger] got.contains(y) <==> b.contains(y) && want.contains(y) by {
            assert(b.contains(y) <==> a.contains(y) || y == x);
        }
    }
}

/// Once all keys are through, the list is that of the wanted ones.
pub proof fn lemma_picks_done(
    got: Seq<Seq<char>>,
    keys: Seq<Seq<char>>,
    dom: Set<Seq<char>>,
    want: Set<Seq<char>>,
)
    requires
        keys.to_set() == dom,
        want.subset_of(dom),
        picks(got, keys, want),
    ensures
        got == in_order(want),
{
    assert(got.to_set() =~= want) by {
        assert forall|x: Seq<char>| want.contains(x) implies got.contains(x) by {
            assert(keys.to_set().contains(x));
        }
    }
    lemma_in_order(got);
}

/// An ordered map from texts to values.
pub struct TextMap<V> {
    names: Vec<String>,
    items: Vec<V>,
}

/// The map that two parallel lists describe.
pub open spec fn zipped<V>(keys: Seq<Seq<char>>, items: Seq<V>) -> Map<Seq<char>, V> {
    Map::new(|k: Seq<char>| keys.contains(k), |k: Seq<char>| items[keys.index_of(k)])
}

impl<V> View for TextMap<V> {
    type V = Map<Seq<char>, V>;

    open spec fn view(&self) -> Map<Seq<char>, V> {
        zipped(self.keys(), self.values())
    }
}

impl<V> TextMap<V> {
    /// The keys, in ascending order.
    pub closed spec fn keys(&self) -> Seq<Seq<char>> {
        crate::chars::texts(self.names@)
    }

    /// The values, in the order of their keys.
    pub closed spec fn values(&self) -> Seq<V> {
        self.items@
    }

    /// The keys ascend, and each has a value.
    pub open spec fn wf(&self) -> bool {
        &&& self.keys().len() == self.values().len()
        &&& ascending(self.keys())
    }

    /// The map without entries.
    pub fn new() -> (r: Self)
        ensures
            r.wf(),
            r@ == Map::<Seq<char>, V>::empty(),
            r.keys().len() == 0,
    {
        let r = TextMap { names: Vec::new(), items: Vec::new() };
        assert(r.keys() =~= Seq::empty());
        assert(r@ =~= Map::empty());
        r
    }

    /// The number of entries.
    pub fn len(&self) -> (r: usize)
        ensures
            r == self.keys().len(),
    {
        self.names.len()
    }

    /// The `i`-th key in order.
    pub fn key(&self, i: usize) -> (r: &str)
        requires
            i < self.keys().len(),
        ensures
            r@ == self.keys()[i as int],
    {
        self.names[i].as_str()
    }

    /// The value of the `i`-th key in order.
    pub fn value(&self, i: usize) -> (r: &V)
        requires
            self.wf(),
            i < self.keys().len(),
        ensures
            *r == self.values()[i as int],
            self@.contains_key(self.keys()[i as int]),
            *r == self@[self.keys()[i as int]],
    {
        proof {
            self.lemma_entry(i as int);
        }
        &self.items[i]
    }

    /// Each listed key has the value beside it.
    pub proof fn lemma_entry(&self, i: int)
        requires
            self.wf(),
            0 <= i < self.keys().len(),
        ensures
            self@.contains_key(self.keys()[i]),
            self@[self.keys()[i]] == self.values()[i],
    {
        lemma_ascending_distinct(self.keys());
        assert(self.keys().contains(self.keys()[i]));
    }

    /// Every key of the map is listed.
    pub proof fn lemma_listed(&self, k: Seq<char>) -> (i: int)
        requires
            self.wf(),
            self@.contains_key(k),
        ensures
            0 <= i < self.keys().len(),
            self.keys()[i] == k,
            self.values()[i] == self@[k],
    {
        let i = self.keys().index_of(k);
        self.lemma_entry(i);
        i
    }

    /// The keys are the domain of the map, in order.
    pub proof fn lemma_keys(&self)
        requires
            self.wf(),
        ensures
            self.keys() == in_order(self@.dom()),
            self.keys().to_set() == self@.dom(),
            self@.dom().finite(),
    {
        assert(self.keys().to_set() =~= self@.dom());
        lemma_in_order(self.keys());
        vstd::seq_lib::seq_to_set_is_finite(self.keys());
    }

    /// The first place whose key is not below `k`.
    fn lower_bound(&self, k: &str) -> (r: usize)
        requires
            self.wf(),
        ensures
            r <= self.keys().len(),
            forall|j: int| 0 <= j < r ==> text_lt(#[trigger] self.keys()[j], k@),
            forall|j: int| r <= j < self.keys().len() ==> !text_lt(#[trigger] self.keys()[j], k@),
    {
        let mut lo: usize = 0;
        let mut hi: usize = self.names.len();
        while lo < hi
            invariant
                self.wf(),
                lo <= hi <= self.keys().len(),
                forall|j: int| 0 <= j < lo ==> text_lt(#[trigger] self.keys()[j], k@),
                forall|j: int|
                    hi <= j < self.keys().len() ==> !text_lt(#[trigger] self.keys()[j], k@),
            decreases hi - lo,
        {
            let mid: usize = lo + (hi - lo) / 2;
            let ghost m = self.keys()[mid as int];
            if text_less(self.names[mid].as_str(), k) {
                assert forall|j: int| 0 <= j < mid + 1 implies text_lt(
                    #[trigger] self.keys()[j],
                    k@,
                ) by {
                    if j < mid {
                        lemma_text_lt_transitive(self.keys()[j], m, k@);
                    }
                }
                lo = mid + 1;
            } else {
                assert forall|j: int| mid <= j < self.keys().len() implies !text_lt(
                    #[trigger] self.keys()[j],
                    k@,
                ) by {
                    if j > mid && text_lt(self.keys()[j], k@) {
                        lemma_text_lt_transitive(m, self.keys()[j], k@);
                    }
                }
                hi = mid;
            }
        }
        lo
    }

    /// The place of `k`, if it has one.
    pub fn position(&self, k: &str) -> (r: Option<usize>)
        requires
            self.wf(),
        ensures
            r is Some <==> self@.contains_key(k@),
            r matches Some(i) ==> i < self.keys().len() && self.keys()[i as int] == k@
                && self.values()[i as int] == self@[k@],
    {
        let i = self.lower_bound(k);
        if i < self.names.len() && !text_less(k, self.names[i].as_str()) {
            proof {
                if self.keys()[i as int] != k@ {
                    lemma_text_lt_total(self.keys()[i as int], k@);
                }
                self.lemma_entry(i as int);
            }
            Some(i)
        } else {
            proof {
                if self@.contains_key(k@) {
                    let j = self.lemma_listed(k@);
                    lemma_text_lt_irreflexive(k@);
                    if j > i {
                        assert(text_lt(self.keys()[i as int], self.keys()[j]));
                        lemma_text_lt_asymmetric(self.keys()[i as int], k@);
                    }
                }
            }
            None
        }
    }

    /// The value of `k`, if it has one.
    pub fn get(&self, k: &str) -> (r: Option<&V>)
        requires
            self.wf(),
        ensures
            match r {
                Some(v) => self@.contains_key(k@) && *v == self@[k@],
                None => !self@.contains_key(k@),
            },
    {
        match self.position(k) {
            Some(i) => Some(&self.items[i]),
            None => None,
        }
    }

    /// Whether `k` has a value.
    pub fn contains_key(&self, k: &str) -> (r: bool)
        requires
            self.wf(),
        ensures
            r == self@.contains_key(k@),
    {
        match self.position(k) {
            Some(_) => true,
            None => false,
        }
    }

    /// Replaces the value at a place that is in use.
    pub fn set(&mut self, i: usize, v: V)
        requires
            old(self).wf(),
            i < old(self).keys().len(),
        ensures
            final(self).wf(),
            final(self).keys() == old(self).keys(),
            final(self).values() == old(self).values().update(i as int, v),
            final(self)@ == old(self)@.insert(old(self).keys()[i as int], v),
    {
        let ghost k = self.keys()[i as int];
        self.items[i] = v;
        proof {
            assert(self.items@ =~= old(self).items@.update(i as int, v));
            lemma_ascending_distinct(self.keys());
            assert(self.keys().contains(k));
            assert(self@ =~= old(self)@.insert(k, v));
        }
    }

    /// Gives `k` the value `v`.
    pub fn insert(&mut self, k: &str, v: V)
        requires
            old(self).wf(),
        ensures
            final(self).wf(),
            final(self)@ == old(self)@.insert(k@, v),
    {
        let i = self.lower_bound(k);
        if i < self.names.len() && !text_less(k, self.names[i].as_str()) {
            proof {
                if self.keys()[i as int] != k@ {
                    lemma_text_lt_total(self.keys()[i as int], k@);
                }
            }
            self.set(i, v);
        } else {
            let ghost keys = self.keys();
            let ghost items = self.items@;
            proof {
                if i < keys.len() {
                    assert forall|j: int| i <= j < keys.len() implies text_lt(
                        k@,
                        #[trigger] keys[j],
                    ) by {
                        if j > i {
                            lemma_text_lt_transitive(k@, keys[i as int], keys[j]);
                        }
                    }
                }
            }
            self.names.insert(i, copy_text(k));
            self.items.insert(i, v);
            proof {
                assert(self.keys() =~= keys.insert(i as int, k@));
                assert(ascending(self.keys()));
                lemma_ascending_distinct(keys);
                lemma_ascending_distinct(self.keys());
                assert forall|x: Seq<char>| self.keys().contains(x) <==> keys.contains(x) || x == k@ by {
                    if keys.contains(x) {
                        let j = keys.index_of(x);
                        assert(self.keys()[if j < i {
                            j
                        } else {
                            j + 1
                        }] == x);
                    }
                    if x == k@ {
                        assert(self.keys()[i as int] == x);
                    }
                }
                assert forall|x: Seq<char>| self.keys().contains(x) implies #[trigger] self@[x]
                    == old(self)@.insert(k@, v)[x] by {
                    let j = self.keys().index_of(x);
                    assert(self.keys()[j] == x);
                    assert(self.keys()[i as int] == k@);
                    assert(self.items@ =~= items.insert(i as int, v));
                    if j < i {
                        assert(keys[j] == x);
                        assert(keys.contains(x));
                        assert(keys.index_of(x) == j);
                    } else if j > i {
                        assert(keys[j - 1] == x);
                        assert(keys.contains(x));
                        assert(keys.index_of(x) == j - 1);
                    }
                }
                let m = old(self)@.insert(k@, v);
                assert forall|x: Seq<char>| #[trigger] self@.dom().contains(x) <==> m.dom().contains(x) by {
                    assert(self.keys().contains(x) <==> keys.contains(x) || x == k@);
                }
                assert(self@.dom() =~= m.dom());
                assert(self@ =~= m);
            }
        }
    }

    /// Takes `k` and its value out.
    pub fn remove(&mut self, k: &str) -> (r: Option<V>)
        requires
            old(self).wf(),
        ensures
            final(self).wf(),
            final(self)@ == old(self)@.remove(k@),
            match r {
                Some(v) => old(self)@.contains_key(k@) && v == old(self)@[k@],
                None => !old(self)@.contains_key(k@),
            },
    {
        match self.position(k) {
            Some(i) => {
                let ghost keys = self.keys();
                self.names.remove(i);
                let v = self.items.remove(i);
                proof {
                    assert(self.keys() =~= keys.remove(i as int));
                    lemma_ascending_distinct(keys);
                    lemma_ascending_distinct(self.keys());
                    assert forall|x: Seq<char>| self.keys().contains(x) <==> keys.contains(x) && x
                        != k@ by {
                        if keys.contains(x) && x != k@ {
                            let j = keys.index_of(x);
                            assert(self.keys()[if j < i {
                                j
                            } else {
                                j - 1
                            }] == x);
                        }
                        if self.keys().contains(x) {
                            let j = self.keys().index_of(x);
                            assert(keys[if j < i {
                                j
                            } else {
                                j + 1
                            }] == x);
                        }
                    }
                    assert forall|x: Seq<char>| self.keys().contains(x) implies #[trigger] self@[x]
                        == old(self)@[x] by {
                        let j = self.keys().index_of(x);
                        assert(keys[if j < i {
                            j
                        } else {
                            j + 1
                        }] == x);
                        assert(keys.contains(x));
                    }
                    assert(self@ =~= old(self)@.remove(k@));
                }
                Some(v)
            },
            None => {
                assert(self@ =~= old(self)@.remove(k@));
                None
            },
        }
    }
}

} // verus!
