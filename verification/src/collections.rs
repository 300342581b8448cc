//! Order-preserving sets and association lists backing the node state: the
//! delivered-value set, the neighbor set, the per-peer seen map and the
//! topology mapping. Each keeps its elements in first-insertion order, so
//! every outbound batch the node produces is fully determined by its state.

use vstd::prelude::*;

verus! {

/// A set of characters sequences has no element twice.
pub open spec fn distinct_strings(s: Seq<Seq<char>>) -> bool {
    forall|i: int, j: int| 0 <= i < j < s.len() ==> s[i] != s[j]
}

/// A set of values has no element twice.
pub open spec fn distinct_values(s: Seq<i64>) -> bool {
    forall|i: int, j: int| 0 <= i < j < s.len() ==> s[i] != s[j]
}

/// Set insertion on the sequence model: append the value unless present.
pub open spec fn insert_value(s: Seq<i64>, v: i64) -> Seq<i64> {
    if s.contains(v) {
        s
    } else {
        s.push(v)
    }
}

/// Set insertion for strings on the sequence model.
pub open spec fn insert_string(s: Seq<Seq<char>>, x: Seq<char>) -> Seq<Seq<char>> {
    if s.contains(x) {
        s
    } else {
        s.push(x)
    }
}

/// The sequence without every occurrence of `x`, order kept.
pub open spec fn remove_string(s: Seq<Seq<char>>, x: Seq<char>) -> Seq<Seq<char>> {
    s.filter(|n: Seq<char>| n != x)
}

/// Covering one more element extends the removal's result exactly when the
/// element differs from the one being removed.
pub proof fn lemma_remove_string_take_step(s: Seq<Seq<char>>, x: Seq<char>, i: int)
    requires
        0 <= i < s.len(),
    ensures
        remove_string(s.take(i + 1), x) == if s[i] != x {
            remove_string(s.take(i), x).push(s[i])
        } else {
            remove_string(s.take(i), x)
        },
{
    reveal(Seq::filter);
    assert(s.take(i + 1).drop_last() =~= s.take(i));
    assert(s.take(i + 1).last() == s[i]);
}

/// Every element of the removal's result occurs in the original and is not
/// the removed string.
pub proof fn lemma_remove_string_origin(s: Seq<Seq<char>>, x: Seq<char>, k: int)
    requires
        0 <= k < remove_string(s, x).len(),
    ensures
        remove_string(s, x)[k] != x,
        exists|l: int| 0 <= l < s.len() && s[l] == remove_string(s, x)[k],
    decreases s.len(),
{
    reveal(Seq::filter);
    let r = remove_string(s, x);
    if s.len() > 0 {
        let prefix = s.drop_last();
        let rp = remove_string(prefix, x);
        if s.last() != x && k == rp.len() {
            assert(r[k] == s.last());
            assert(s[s.len() - 1] == r[k]);
        } else {
            lemma_remove_string_origin(prefix, x, k);
            let l = choose|l: int| 0 <= l < prefix.len() && prefix[l] == rp[k];
            assert(s[l] == r[k]);
        }
    }
}

/// Removing a string removes it: it never occurs in the result.
pub proof fn lemma_remove_string_absent(s: Seq<Seq<char>>, x: Seq<char>)
    ensures
        !remove_string(s, x).contains(x),
{
    if remove_string(s, x).contains(x) {
        let k = choose|k: int|
            0 <= k < remove_string(s, x).len() && remove_string(s, x)[k] == x;
        lemma_remove_string_origin(s, x, k);
    }
}

/// Removing from a duplicate-free sequence leaves it duplicate-free.
pub proof fn lemma_remove_string_distinct(s: Seq<Seq<char>>, x: Seq<char>)
    requires
        distinct_strings(s),
    ensures
        distinct_strings(remove_string(s, x)),
    decreases s.len(),
{
    reveal(Seq::filter);
    if s.len() > 0 {
        let prefix = s.drop_last();
        assert(distinct_strings(prefix));
        lemma_remove_string_distinct(prefix, x);
        let rp = remove_string(prefix, x);
        if s.last() != x {
            assert forall|i: int| 0 <= i < rp.len() implies rp[i] != s.last() by {
                lemma_remove_string_origin(prefix, x, i);
                let l = choose|l: int| 0 <= l < prefix.len() && prefix[l] == rp[i];
                assert(s[l] == prefix[l]);
                assert(s.last() == s[s.len() - 1]);
            }
        }
    }
}

/// A set of broadcast values, kept in first-insertion order.
#[derive(Debug, Clone, PartialEq, Eq)]
pub struct IntSet {
    pub items: Vec<i64>,
}

impl View for IntSet {
    type V = Seq<i64>;

    open spec fn view(&self) -> Seq<i64> {
        self.items@
    }
}

impl IntSet {
    pub open spec fn wf(&self) -> bool {
        distinct_values(self@)
    }

    pub fn new() -> (s: IntSet)
        ensures
            s@ == Seq::<i64>::empty(),
            s.wf(),
    {
        IntSet { items: Vec::new() }
    }

    pub fn len(&self) -> (n: usize)
        ensures
            n == self@.len(),
    {
        self.items.len()
    }

    pub fn contains(&self, v: i64) -> (b: bool)
        ensures
            b == self@.contains(v),
    {
        let n = self.items.len();
        let mut i: usize = 0;
        while i < n
            invariant
                i <= n,
                n == self@.len(),
                forall|j: int| 0 <= j < i ==> self@[j] != v,
            decreases n - i,
        {
            if self.items[i] == v {
                return true;
            }
            i += 1;
        }
        false
    }

    /// Deduplicating insertion; reports whether the value was new.
    pub fn insert(&mut self, v: i64) -> (novel: bool)
        ensures
            novel == !old(self)@.contains(v),
            final(self)@ == insert_value(old(self)@, v),
            old(self).wf() ==> final(self).wf(),
    {
        if self.contains(v) {
            false
        } else {
            self.items.push(v);
            true
        }
    }

    /// A deep copy with the same contents.
    pub fn duplicate(&self) -> (r: IntSet)
        ensures
            r@ == self@,
    {
        let n = self.items.len();
        let mut items: Vec<i64> = Vec::new();
        let mut i: usize = 0;
        while i < n
            invariant
                i <= n,
                n == self@.len(),
                items@ == self@.take(i as int),
            decreases n - i,
        {
            items.push(self.items[i]);
            proof {
                assert(self@.take(i + 1 as int) =~= self@.take(i as int).push(self@[i as int]));
            }
            i += 1;
        }
        proof {
            assert(self@.take(n as int) =~= self@);
        }
        IntSet { items }
    }
}

/// A set of node identifiers, kept in first-insertion order.
#[derive(Debug, Clone, PartialEq, Eq)]
pub struct StringSet {
    pub items: Vec<String>,
}

impl View for StringSet {
    type V = Seq<Seq<char>>;

    open spec fn view(&self) -> Seq<Seq<char>> {
        self.items@.map_values(|s: String| s@)
    }
}

impl StringSet {
    pub open spec fn wf(&self) -> bool {
        distinct_strings(self@)
    }

    pub fn new() -> (s: StringSet)
        ensures
            s@ == Seq::<Seq<char>>::empty(),
            s.wf(),
    {
        let s = StringSet { items: Vec::new() };
        proof {
            assert(s@ =~= Seq::<Seq<char>>::empty());
        }
        s
    }

    pub fn len(&self) -> (n: usize)
        ensures
            n == self@.len(),
    {
        self.items.len()
    }

    pub fn contains(&self, x: &String) -> (b: bool)
        ensures
            b == self@.contains(x@),
    {
        let n = self.items.len();
        let mut i: usize = 0;
        while i < n
            invariant
                i <= n,
                n == self@.len(),
                forall|j: int| 0 <= j < i ==> self@[j] != x@,
            decreases n - i,
        {
            if self.items[i] == *x {
                proof {
                    assert(self@[i as int] == x@);
                }
                return true;
            }
            i += 1;
        }
        false
    }

    /// Deduplicating insertion.
    pub fn insert(&mut self, x: String)
        ensures
            final(self)@ == insert_string(old(self)@, x@),
            old(self).wf() ==> final(self).wf(),
    {
        if !self.contains(&x) {
            let ghost pre = self@;
            self.items.push(x);
            proof {
                assert(self@ =~= pre.push(x@));
            }
        }
    }

    /// The same set without every element equal to `x`.
    pub fn without(&self, x: &String) -> (r: StringSet)
        ensures
            r@ == remove_string(self@, x@),
            self.wf() ==> r.wf(),
    {
        let n = self.items.len();
        let mut items: Vec<String> = Vec::new();
        let mut i: usize = 0;
        proof {
            reveal(Seq::filter);
            assert(self@.take(0) =~= Seq::<Seq<char>>::empty());
            assert(remove_string(self@.take(0), x@) =~= Seq::<Seq<char>>::empty());
        }
        while i < n
            invariant
                i <= n,
                n == self@.len(),
                items@.map_values(|s: String| s@) == remove_string(self@.take(i as int), x@),
            decreases n - i,
        {
            proof {
                lemma_remove_string_take_step(self@, x@, i as int);
            }
            if !(self.items[i] == *x) {
                let ghost prefix = items@.map_values(|s: String| s@);
                items.push(self.items[i].clone());
                proof {
                    assert(items@.map_values(|s: String| s@) =~= prefix.push(self@[i as int]));
                }
            }
            i += 1;
        }
        proof {
            assert(self@.take(n as int) =~= self@);
        }
        let r = StringSet { items };
        proof {
            if self.wf() {
                lemma_remove_string_distinct(self@, x@);
            }
        }
        r
    }

    /// A deep copy with the same contents.
    pub fn duplicate(&self) -> (r: StringSet)
        ensures
            r@ == self@,
    {
        let n = self.items.len();
        let mut items: Vec<String> = Vec::new();
        let mut i: usize = 0;
        while i < n
            invariant
                i <= n,
                n == self@.len(),
                items@.map_values(|s: String| s@) == self@.take(i as int),
            decreases n - i,
        {
            let ghost prefix = items@.map_values(|s: String| s@);
            items.push(self.items[i].clone());
            proof {
                assert(items@.map_values(|s: String| s@) =~= prefix.push(self@[i as int]));
                assert(self@.take(i + 1 as int) =~= self@.take(i as int).push(self@[i as int]));
            }
            i += 1;
        }
        proof {
            assert(self@.take(n as int) =~= self@);
        }
        StringSet { items }
    }
}

/// Recording on the sequence model that peer `k` has seen value `v`: the
/// first entry for `k` gains `v`, or a fresh entry is appended.
pub open spec fn record_seen(
    seen: Seq<(Seq<char>, Seq<i64>)>,
    k: Seq<char>,
    v: i64,
) -> Seq<(Seq<char>, Seq<i64>)>
    decreases seen.len(),
{
    if seen.len() == 0 {
        seq![(k, seq![v])]
    } else if seen.first().0 == k {
        seq![(seen.first().0, insert_value(seen.first().1, v))] + seen.drop_first()
    } else {
        seq![seen.first()] + record_seen(seen.drop_first(), k, v)
    }
}

/// The value of the first entry for key `k`, if any.
pub open spec fn topo_lookup(
    t: Seq<(Seq<char>, Seq<Seq<char>>)>,
    k: Seq<char>,
) -> Option<Seq<Seq<char>>>
    decreases t.len(),
{
    if t.len() == 0 {
        None
    } else if t.first().0 == k {
        Some(t.first().1)
    } else {
        topo_lookup(t.drop_first(), k)
    }
}

/// Tracks, for each peer, the set of values that peer is believed to have
/// seen; entries are created in first-contact order.
#[derive(Debug, Clone, PartialEq, Eq)]
pub struct SeenMap {
    pub entries: Vec<(String, IntSet)>,
}

impl View for SeenMap {
    type V = Seq<(Seq<char>, Seq<i64>)>;

    open spec fn view(&self) -> Seq<(Seq<char>, Seq<i64>)> {
        self.entries@.map_values(|e: (String, IntSet)| (e.0@, e.1@))
    }
}

impl SeenMap {
    /// Keys are unique and every per-peer set is duplicate-free.
    pub open spec fn wf(&self) -> bool {
        &&& forall|i: int, j: int| 0 <= i < j < self@.len() ==> self@[i].0 != self@[j].0
        &&& forall|i: int| 0 <= i < self@.len() ==> distinct_values(#[trigger] self@[i].1)
    }

    pub fn new() -> (m: SeenMap)
        ensures
            m@ == Seq::<(Seq<char>, Seq<i64>)>::empty(),
            m.wf(),
    {
        let m = SeenMap { entries: Vec::new() };
        proof {
            assert(m@ =~= Seq::<(Seq<char>, Seq<i64>)>::empty());
        }
        m
    }

    /// The position of the first entry for `k`, if one exists.
    fn index_of_key(&self, k: &String) -> (r: Option<usize>)
        ensures
            match r {
                Some(j) => j < self@.len() && self@[j as int].0 == k@ && (forall|l: int|
                    0 <= l < j ==> self@[l].0 != k@),
                None => forall|l: int| 0 <= l < self@.len() ==> self@[l].0 != k@,
            },
    {
        let n = self.entries.len();
        let mut i: usize = 0;
        while i < n
            invariant
                i <= n,
                n == self@.len(),
                forall|l: int| 0 <= l < i ==> self@[l].0 != k@,
            decreases n - i,
        {
            if self.entries[i].0 == *k {
                return Some(i);
            }
            i += 1;
        }
        None
    }

    /// Record that peer `k` has seen value `v`.
    pub fn record(&mut self, k: &String, v: i64)
        requires
            old(self).wf(),
        ensures
            final(self)@ == record_seen(old(self)@, k@, v),
            final(self).wf(),
    {
        match self.index_of_key(k) {
            Some(j) => {
                let ghost pre = self@;
                let entry = &mut self.entries[j];
                entry.1.insert(v);
                proof {
                    assert(self@ =~= pre.update(j as int, (pre[j as int].0, insert_value(
                        pre[j as int].1,
                        v,
                    ))));
                    lemma_record_seen_at(pre, k@, v, j as int);
                }
            },
            None => {
                let ghost pre = self@;
                let mut fresh = IntSet::new();
                fresh.insert(v);
                self.entries.push((k.clone(), fresh));
                proof {
                    assert(fresh@ =~= seq![v]);
                    assert(self@ =~= pre.push((k@, seq![v])));
                    lemma_record_seen_absent(pre, k@, v);
                }
            },
        }
    }
}

/// Updating the first matching entry realizes `record_seen`.
proof fn lemma_record_seen_at(seen: Seq<(Seq<char>, Seq<i64>)>, k: Seq<char>, v: i64, j: int)
    requires
        0 <= j < seen.len(),
        seen[j].0 == k,
        forall|l: int| 0 <= l < j ==> seen[l].0 != k,
    ensures
        record_seen(seen, k, v) == seen.update(j, (seen[j].0, insert_value(seen[j].1, v))),
    decreases j,
{
    if j == 0 {
        assert(seen.first().0 == k);
        assert(record_seen(seen, k, v) =~= seen.update(0, (seen[0].0, insert_value(
            seen[0].1,
            v,
        ))));
    } else {
        assert(seen.first().0 != k);
        lemma_record_seen_at(seen.drop_first(), k, v, j - 1);
        assert(record_seen(seen, k, v) =~= seen.update(j, (seen[j].0, insert_value(
            seen[j].1,
            v,
        ))));
    }
}

/// Appending a fresh entry realizes `record_seen` when the key is absent.
proof fn lemma_record_seen_absent(seen: Seq<(Seq<char>, Seq<i64>)>, k: Seq<char>, v: i64)
    requires
        forall|l: int| 0 <= l < seen.len() ==> seen[l].0 != k,
    ensures
        record_seen(seen, k, v) == seen.push((k, seq![v])),
    decreases seen.len(),
{
    if seen.len() == 0 {
        assert(record_seen(seen, k, v) =~= seen.push((k, seq![v])));
    } else {
        assert(seen.first().0 != k);
        lemma_record_seen_absent(seen.drop_first(), k, v);
        assert(record_seen(seen, k, v) =~= seen.push((k, seq![v])));
    }
}

/// A topology message's mapping from node id to that node's neighbor set,
/// kept in arrival order.
#[derive(Debug, Clone, PartialEq, Eq)]
pub struct TopologyMap {
    pub entries: Vec<(String, StringSet)>,
}

impl View for TopologyMap {
    type V = Seq<(Seq<char>, Seq<Seq<char>>)>;

    open spec fn view(&self) -> Seq<(Seq<char>, Seq<Seq<char>>)> {
        self.entries@.map_values(|e: (String, StringSet)| (e.0@, e.1@))
    }
}

impl TopologyMap {
    pub fn new() -> (m: TopologyMap)
        ensures
            m@ == Seq::<(Seq<char>, Seq<Seq<char>>)>::empty(),
    {
        let m = TopologyMap { entries: Vec::new() };
        proof {
            assert(m@ =~= Seq::<(Seq<char>, Seq<Seq<char>>)>::empty());
        }
        m
    }

    /// Append one mapping entry.
    pub fn insert(&mut self, k: String, v: StringSet)
        ensures
            final(self)@ == old(self)@.push((k@, v@)),
    {
        let ghost pre = self@;
        let ghost kv = (k@, v@);
        self.entries.push((k, v));
        proof {
            assert(self@ =~= pre.push(kv));
        }
    }

    /// The neighbor set this mapping assigns to `k`, if any.
    pub fn get(&self, k: &String) -> (r: Option<&StringSet>)
        ensures
            match r {
                Some(s) => topo_lookup(self@, k@) == Some(s@),
                None => topo_lookup(self@, k@) is None,
            },
    {
        let n = self.entries.len();
        let mut i: usize = 0;
        proof {
            assert(self@.skip(0) =~= self@);
        }
        while i < n
            invariant
                i <= n,
                n == self@.len(),
                topo_lookup(self@, k@) == topo_lookup(self@.skip(i as int), k@),
                forall|l: int| 0 <= l < i ==> self@[l].0 != k@,
            decreases n - i,
        {
            proof {
                assert(self@.skip(i as int).first() == self@[i as int]);
                assert(self@.skip(i as int).drop_first() =~= self@.skip(i + 1));
            }
            if self.entries[i].0 == *k {
                return Some(&self.entries[i].1);
            }
            i += 1;
        }
        proof {
            assert(self@.skip(n as int) =~= Seq::<(Seq<char>, Seq<Seq<char>>)>::empty());
        }
        None
    }
}

} // verus!
