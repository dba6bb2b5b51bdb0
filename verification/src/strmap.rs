//! A map keyed by strings, kept as a list of entries with distinct keys.
use vstd::prelude::*;
use crate::value::Value;

verus! {

/// Values that can be copied with their view preserved.
pub trait Duplicate: View + Sized {
    fn duplicate(&self) -> (r: Self)
        ensures
            r@ == self@,
    ;
}

impl Duplicate for Value {
    fn duplicate(&self) -> (r: Value) {
        self.copy()
    }
}

impl Duplicate for i64 {
    fn duplicate(&self) -> (r: i64) {
        *self
    }
}

impl Duplicate for u64 {
    fn duplicate(&self) -> (r: u64) {
        *self
    }
}

impl Duplicate for bool {
    fn duplicate(&self) -> (r: bool) {
        *self
    }
}

impl Duplicate for String {
    fn duplicate(&self) -> (r: String) {
        self.clone()
    }
}

impl Duplicate for Vec<u64> {
    fn duplicate(&self) -> (r: Vec<u64>) {
        let mut out: Vec<u64> = Vec::new();
        let mut i: usize = 0;
        while i < self.len()
            invariant
                i <= self@.len(),
                out@ == self@.take(i as int),
            decreases self@.len() - i,
        {
            out.push(self[i]);
            assert(out@ =~= self@.take(i + 1));
            i = i + 1;
        }
        assert(self@.take(self@.len() as int) =~= self@);
        out
    }
}

/// A map from strings to values. Entries keep their insertion order and keys never repeat.
pub struct StrMap<V> {
    pub entries: Vec<(String, V)>,
}

/// The map that a list of entries denotes.
pub open spec fn map_of<V: View>(e: Seq<(String, V)>) -> Map<Seq<char>, V::V>
    decreases e.len(),
{
    if e.len() == 0 {
        Map::empty()
    } else {
        map_of(e.drop_last()).insert(e.last().0@, e.last().1@)
    }
}

/// No key occurs twice.
pub open spec fn keys_distinct<V>(e: Seq<(String, V)>) -> bool {
    forall|i: int, j: int| 0 <= i < j < e.len() ==> #[trigger] e[i].0@ != #[trigger] e[j].0@
}

pub proof fn lemma_map_of_contains<V: View>(e: Seq<(String, V)>, k: Seq<char>)
    ensures
        map_of(e).dom().contains(k) <==> exists|i: int| 0 <= i < e.len() && #[trigger] e[i].0@ == k,
    decreases e.len(),
{
    if e.len() > 0 {
        lemma_map_of_contains(e.drop_last(), k);
        if map_of(e.drop_last()).dom().contains(k) {
            let i = choose|i: int| 0 <= i < e.drop_last().len() && #[trigger] e.drop_last()[i].0@ == k;
            assert(e[i].0@ == k);
        }
        if exists|i: int| 0 <= i < e.len() && #[trigger] e[i].0@ == k {
            let i = choose|i: int| 0 <= i < e.len() && #[trigger] e[i].0@ == k;
            if i < e.len() - 1 {
                assert(e.drop_last()[i].0@ == k);
            }
        }
    }
}

pub proof fn lemma_map_of_value<V: View>(e: Seq<(String, V)>, i: int)
    requires
        keys_distinct(e),
        0 <= i < e.len(),
    ensures
        map_of(e).dom().contains(e[i].0@),
        map_of(e)[e[i].0@] == e[i].1@,
    decreases e.len(),
{
    if i < e.len() - 1 {
        lemma_map_of_value(e.drop_last(), i);
        assert(e[i].0@ != e[e.len() - 1].0@);
    }
}

pub proof fn lemma_map_of_update<V: View>(e: Seq<(String, V)>, i: int, kv: (String, V))
    requires
        keys_distinct(e),
        0 <= i < e.len(),
        e[i].0@ == kv.0@,
    ensures
        keys_distinct(e.update(i, kv)),
        map_of(e.update(i, kv)) == map_of(e).insert(kv.0@, kv.1@),
{
    let u = e.update(i, kv);
    assert(keys_distinct(u)) by {
        assert forall|p: int, q: int| 0 <= p < q < u.len() implies #[trigger] u[p].0@ != #[trigger] u[q].0@ by {
            assert(u[p].0@ == e[p].0@);
            assert(u[q].0@ == e[q].0@);
        }
    }
    let m = map_of(e).insert(kv.0@, kv.1@);
    assert forall|k: Seq<char>| #[trigger] map_of(u).dom().contains(k) == m.dom().contains(k) by {
        lemma_map_of_contains(u, k);
        lemma_map_of_contains(e, k);
        if exists|j: int| 0 <= j < e.len() && #[trigger] e[j].0@ == k {
            let j = choose|j: int| 0 <= j < e.len() && #[trigger] e[j].0@ == k;
            assert(u[j].0@ == k);
        }
        if exists|j: int| 0 <= j < u.len() && #[trigger] u[j].0@ == k {
            let j = choose|j: int| 0 <= j < u.len() && #[trigger] u[j].0@ == k;
            assert(e[j].0@ == k);
        }
    }
    assert forall|k: Seq<char>| #[trigger] map_of(u).dom().contains(k) implies map_of(u)[k] == m[k] by {
        lemma_map_of_contains(u, k);
        let j = choose|j: int| 0 <= j < u.len() && #[trigger] u[j].0@ == k;
        lemma_map_of_value(u, j);
        if j != i {
            lemma_map_of_value(e, j);
        }
    }
    assert(map_of(u) =~= m);
}

pub proof fn lemma_map_of_push<V: View>(e: Seq<(String, V)>, kv: (String, V))
    requires
        keys_distinct(e),
        !map_of(e).dom().contains(kv.0@),
    ensures
        keys_distinct(e.push(kv)),
        map_of(e.push(kv)) == map_of(e).insert(kv.0@, kv.1@),
{
    let u = e.push(kv);
    assert(u.drop_last() =~= e);
    assert forall|p: int, q: int| 0 <= p < q < u.len() implies #[trigger] u[p].0@ != #[trigger] u[q].0@ by {
        if q == e.len() {
            lemma_map_of_contains(e, kv.0@);
            assert(e[p].0@ != kv.0@);
        }
    }
}

pub proof fn lemma_map_of_remove<V: View>(e: Seq<(String, V)>, i: int)
    requires
        keys_distinct(e),
        0 <= i < e.len(),
    ensures
        keys_distinct(e.remove(i)),
        map_of(e.remove(i)) == map_of(e).remove(e[i].0@),
{
    let u = e.remove(i);
    let k0 = e[i].0@;
    assert(keys_distinct(u)) by {
        assert forall|p: int, q: int| 0 <= p < q < u.len() implies #[trigger] u[p].0@ != #[trigger] u[q].0@ by {
            let pp = if p < i { p } else { p + 1 };
            let qq = if q < i { q } else { q + 1 };
            assert(u[p] == e[pp]);
            assert(u[q] == e[qq]);
        }
    }
    let m = map_of(e).remove(k0);
    assert forall|k: Seq<char>| #[trigger] map_of(u).dom().contains(k) == m.dom().contains(k) by {
        lemma_map_of_contains(u, k);
        lemma_map_of_contains(e, k);
        if exists|j: int| 0 <= j < u.len() && #[trigger] u[j].0@ == k {
            let j = choose|j: int| 0 <= j < u.len() && #[trigger] u[j].0@ == k;
            let jj = if j < i { j } else { j + 1 };
            assert(e[jj].0@ == k);
            assert(jj != i);
        }
        if k != k0 && exists|j: int| 0 <= j < e.len() && #[trigger] e[j].0@ == k {
            let j = choose|j: int| 0 <= j < e.len() && #[trigger] e[j].0@ == k;
            assert(j != i);
            let jj = if j < i { j } else { j - 1 };
            assert(u[jj].0@ == k);
        }
    }
    assert forall|k: Seq<char>| #[trigger] map_of(u).dom().contains(k) implies map_of(u)[k] == m[k] by {
        lemma_map_of_contains(u, k);
        let j = choose|j: int| 0 <= j < u.len() && #[trigger] u[j].0@ == k;
        lemma_map_of_value(u, j);
        let jj = if j < i { j } else { j + 1 };
        assert(u[j] == e[jj]);
        lemma_map_of_value(e, jj);
    }
    assert(map_of(u) =~= m);
}

/// Entries after position `n` that do not mention `k` leave what `k` maps to unchanged.
pub proof fn lemma_map_of_tail_absent<V: View>(e: Seq<(String, V)>, n: int, k: Seq<char>)
    requires
        0 <= n <= e.len(),
        forall|j: int| n <= j < e.len() ==> #[trigger] e[j].0@ != k,
    ensures
        map_of(e).dom().contains(k) == map_of(e.take(n)).dom().contains(k),
        map_of(e).dom().contains(k) ==> map_of(e)[k] == map_of(e.take(n))[k],
    decreases e.len() - n,
{
    if n < e.len() {
        let d = e.drop_last();
        assert forall|j: int| n <= j < d.len() implies #[trigger] d[j].0@ != k by {
            assert(d[j] == e[j]);
        }
        lemma_map_of_tail_absent(d, n, k);
        assert(d.take(n) =~= e.take(n));
        assert(e.last().0@ != k);
    } else {
        assert(e.take(n) =~= e);
    }
}

impl<V: View> View for StrMap<V> {
    type V = Map<Seq<char>, V::V>;

    open spec fn view(&self) -> Map<Seq<char>, V::V> {
        map_of(self.entries@)
    }
}

impl<V: View> StrMap<V> {
    /// Keys are distinct.
    pub open spec fn wf(&self) -> bool {
        keys_distinct(self.entries@)
    }

    /// The keys in insertion order.
    pub open spec fn key_order(&self) -> Seq<Seq<char>> {
        Seq::new(self.entries@.len(), |i: int| self.entries@[i].0@)
    }

    pub fn new() -> (m: Self)
        ensures
            m.wf(),
            m@ == Map::<Seq<char>, V::V>::empty(),
            m.entries@.len() == 0,
    {
        StrMap { entries: Vec::new() }
    }

    /// The position of `key` among the entries, if present.
    pub fn position(&self, key: &String) -> (r: Option<usize>)
        requires
            self.wf(),
        ensures
            r is None <==> !self@.dom().contains(key@),
            r matches Some(i) ==> i < self.entries@.len() && self.entries@[i as int].0@ == key@,
    {
        let mut i: usize = 0;
        while i < self.entries.len()
            invariant
                i <= self.entries.len(),
                forall|j: int| 0 <= j < i ==> #[trigger] self.entries@[j].0@ != key@,
            decreases self.entries.len() - i,
        {
            if self.entries[i].0 == *key {
                proof {
                    lemma_map_of_contains(self.entries@, key@);
                    assert(self.entries@[i as int].0@ == key@);
                }
                return Some(i);
            }
            i = i + 1;
        }
        proof {
            lemma_map_of_contains(self.entries@, key@);
        }
        None
    }

    pub fn contains_key(&self, key: &String) -> (r: bool)
        requires
            self.wf(),
        ensures
            r == self@.dom().contains(key@),
    {
        self.position(key).is_some()
    }

    /// The value stored under `key`, if any.
    pub fn get(&self, key: &String) -> (r: Option<&V>)
        requires
            self.wf(),
        ensures
            r is Some <==> self@.dom().contains(key@),
            r matches Some(v) ==> v@ == self@[key@],
    {
        match self.position(key) {
            Some(i) => {
                proof {
                    lemma_map_of_value(self.entries@, i as int);
                }
                Some(&self.entries[i].1)
            },
            None => None,
        }
    }

    /// The value that `key` maps to, found from the last entry backwards; unlike `get`, this
    /// asks nothing of the entries.
    pub fn lookup(&self, key: &String) -> (r: Option<&V>)
        ensures
            r is Some <==> self@.dom().contains(key@),
            r matches Some(v) ==> v@ == self@[key@],
    {
        let mut i: usize = self.entries.len();
        while i > 0
            invariant
                i <= self.entries@.len(),
                forall|j: int| i <= j < self.entries@.len() ==> #[trigger] self.entries@[j].0@ != key@,
            decreases i,
        {
            if self.entries[i - 1].0 == *key {
                proof {
                    let e = self.entries@;
                    lemma_map_of_tail_absent(e, i as int, key@);
                    assert(e.take(i as int).drop_last() =~= e.take(i - 1));
                }
                return Some(&self.entries[i - 1].1);
            }
            i = i - 1;
        }
        proof {
            lemma_map_of_tail_absent(self.entries@, 0, key@);
            assert(self.entries@.take(0) =~= Seq::<(String, V)>::empty());
        }
        None
    }

    /// Stores `value` under `key`; an existing key keeps its place, a new key goes last.
    pub fn insert(&mut self, key: String, value: V)
        requires
            old(self).wf(),
        ensures
            final(self).wf(),
            final(self)@ == old(self)@.insert(key@, value@),
            old(self).entries@.len() <= final(self).entries@.len() <= old(self).entries@.len() + 1,
            forall|j: int|
                0 <= j < final(self).entries@.len() ==> #[trigger] final(self).entries@[j] == (
                key, value) || (j < old(self).entries@.len() && final(self).entries@[j] == old(
                self,
            ).entries@[j]),
    {
        match self.position(&key) {
            Some(i) => {
                proof {
                    lemma_map_of_update(self.entries@, i as int, (key, value));
                }
                self.entries.set(i, (key, value));
            },
            None => {
                proof {
                    lemma_map_of_push(self.entries@, (key, value));
                }
                self.entries.push((key, value));
            },
        }
    }

    /// Removes `key` and returns what it held.
    pub fn remove(&mut self, key: &String) -> (r: Option<V>)
        requires
            old(self).wf(),
        ensures
            final(self).wf(),
            final(self)@ == old(self)@.remove(key@),
            r is Some <==> old(self)@.dom().contains(key@),
            r matches Some(v) ==> v@ == old(self)@[key@],
    {
        match self.position(key) {
            Some(i) => {
                proof {
                    lemma_map_of_remove(self.entries@, i as int);
                    lemma_map_of_value(self.entries@, i as int);
                }
                let (_, v) = self.entries.remove(i);
                Some(v)
            },
            None => {
                assert(old(self)@.remove(key@) =~= old(self)@);
                None
            },
        }
    }

    pub fn len(&self) -> (n: usize)
        ensures
            n == self.entries@.len(),
    {
        self.entries.len()
    }
}

impl<V: Duplicate> StrMap<V> {
    /// A copy of the map with the same entries in the same order.
    pub fn duplicate_map(&self) -> (r: Self)
        ensures
            r.entries@.len() == self.entries@.len(),
            forall|i: int|
                0 <= i < self.entries@.len() ==> (#[trigger] r.entries@[i]).0@ == self.entries@[i].0@
                    && r.entries@[i].1@ == self.entries@[i].1@,
            r@ == self@,
            r.wf() == self.wf(),
            r.key_order() == self.key_order(),
    {
        let mut out: Vec<(String, V)> = Vec::new();
        let mut i: usize = 0;
        while i < self.entries.len()
            invariant
                i <= self.entries.len(),
                out@.len() == i,
                forall|j: int|
                    0 <= j < i ==> (#[trigger] out@[j]).0@ == self.entries@[j].0@ && out@[j].1@
                        == self.entries@[j].1@,
            decreases self.entries.len() - i,
        {
            out.push((self.entries[i].0.clone(), self.entries[i].1.duplicate()));
            i = i + 1;
        }
        let r = StrMap { entries: out };
        proof {
            lemma_map_of_same(r.entries@, self.entries@);
        }
        assert(r.key_order() =~= self.key_order());
        r
    }

    /// Stores every entry of `other` in order; a key already present takes the new value.
    pub fn extend_from(&mut self, other: &StrMap<V>)
        requires
            old(self).wf(),
        ensures
            final(self).wf(),
            final(self)@ == old(self)@.union_prefer_right(other@),
    {
        let ghost start = self@;
        let mut i: usize = 0;
        assert(start.union_prefer_right(map_of(other.entries@.take(0))) =~= start);
        while i < other.entries.len()
            invariant
                i <= other.entries@.len(),
                self.wf(),
                self@ == start.union_prefer_right(map_of(other.entries@.take(i as int))),
            decreases other.entries@.len() - i,
        {
            let k = other.entries[i].0.clone();
            let v = other.entries[i].1.duplicate();
            let ghost before = map_of(other.entries@.take(i as int));
            self.insert(k, v);
            proof {
                let t = other.entries@.take(i + 1);
                assert(t.drop_last() =~= other.entries@.take(i as int));
                assert(map_of(t) == before.insert(k@, v@));
                assert(self@ =~= start.union_prefer_right(map_of(t)));
            }
            i = i + 1;
        }
        assert(other.entries@.take(other.entries@.len() as int) =~= other.entries@);
    }
}

/// Entry lists with the same key and value views in every position denote the same map.
pub proof fn lemma_map_of_same<V: View>(a: Seq<(String, V)>, b: Seq<(String, V)>)
    requires
        a.len() == b.len(),
        forall|i: int| 0 <= i < a.len() ==> (#[trigger] a[i]).0@ == b[i].0@ && a[i].1@ == b[i].1@,
    ensures
        map_of(a) == map_of(b),
        keys_distinct(a) == keys_distinct(b),
    decreases a.len(),
{
    if a.len() > 0 {
        lemma_map_of_same(a.drop_last(), b.drop_last());
    }
    if keys_distinct(a) {
        assert forall|p: int, q: int| 0 <= p < q < b.len() implies #[trigger] b[p].0@ != #[trigger] b[q].0@ by {
            assert(a[p].0@ != a[q].0@);
        }
    }
    if keys_distinct(b) {
        assert forall|p: int, q: int| 0 <= p < q < a.len() implies #[trigger] a[p].0@ != #[trigger] a[q].0@ by {
            assert(b[p].0@ != b[q].0@);
        }
    }
}

} // verus!
