//! Collections keyed by node names: the highest sequence number applied per
//! remote node, and sets of event identities.

use vstd::prelude::*;

use crate::event::{EventId, EventKey};
use crate::order::{lemma_text_before_strict_total, text_before, text_less};

verus! {

/// The entries of a node map as mathematical pairs.
pub open spec fn entry_pairs(entries: Seq<(String, u64)>) -> Seq<(Seq<char>, u64)> {
    entries.map_values(|e: (String, u64)| (e.0@, e.1))
}

/// No node name occurs twice among `pairs`.
pub open spec fn unique_names(pairs: Seq<(Seq<char>, u64)>) -> bool {
    forall|i: int, j: int| 0 <= i < j < pairs.len() ==> #[trigger] pairs[i].0 != #[trigger] pairs[j].0
}

/// The map that `pairs` stand for, later pairs overriding earlier ones.
pub open spec fn map_of(pairs: Seq<(Seq<char>, u64)>) -> Map<Seq<char>, u64>
    decreases pairs.len(),
{
    if pairs.len() == 0 {
        Map::empty()
    } else {
        map_of(pairs.drop_last()).insert(pairs.last().0, pairs.last().1)
    }
}

/// The names that `map_of(pairs)` holds are exactly those of the pairs.
pub proof fn lemma_map_of_dom(pairs: Seq<(Seq<char>, u64)>, k: Seq<char>)
    ensures
        map_of(pairs).contains_key(k) <==> exists|i: int| 0 <= i < pairs.len() && pairs[i].0 == k,
    decreases pairs.len(),
{
    if pairs.len() > 0 {
        let init = pairs.drop_last();
        lemma_map_of_dom(init, k);
        if map_of(pairs).contains_key(k) {
            if k != pairs.last().0 {
                let i = choose|i: int| 0 <= i < init.len() && init[i].0 == k;
                assert(pairs[i].0 == k);
            } else {
                assert(pairs[pairs.len() - 1].0 == k);
            }
        } else {
            assert forall|i: int| 0 <= i < pairs.len() implies pairs[i].0 != k by {
                if i < pairs.len() - 1 {
                    assert(init[i] == pairs[i]);
                }
            }
        }
    }
}

/// With unique names, `map_of(pairs)` maps each name to the value paired with it.
pub proof fn lemma_map_of_index(pairs: Seq<(Seq<char>, u64)>, i: int)
    requires
        unique_names(pairs),
        0 <= i < pairs.len(),
    ensures
        map_of(pairs).contains_key(pairs[i].0),
        map_of(pairs)[pairs[i].0] == pairs[i].1,
    decreases pairs.len(),
{
    let init = pairs.drop_last();
    if i < pairs.len() - 1 {
        assert(init[i] == pairs[i]);
        assert(unique_names(init)) by {
            assert forall|a: int, b: int| 0 <= a < b < init.len() implies #[trigger] init[a].0
                != #[trigger] init[b].0 by {
                assert(init[a] == pairs[a] && init[b] == pairs[b]);
            }
        }
        lemma_map_of_index(init, i);
        assert(pairs[i].0 != pairs[pairs.len() - 1].0);
    }
}

/// With unique names, replacing the value of the pair at `i` replaces it in the map.
pub proof fn lemma_map_of_update(pairs: Seq<(Seq<char>, u64)>, i: int, v: u64)
    requires
        unique_names(pairs),
        0 <= i < pairs.len(),
    ensures
        map_of(pairs.update(i, (pairs[i].0, v))) =~= map_of(pairs).insert(pairs[i].0, v),
    decreases pairs.len(),
{
    let k = pairs[i].0;
    let updated = pairs.update(i, (k, v));
    let init = pairs.drop_last();
    if i == pairs.len() - 1 {
        assert(updated.drop_last() =~= init);
    } else {
        assert(updated.drop_last() =~= init.update(i, (k, v)));
        assert(init[i] == pairs[i]);
        assert(unique_names(init)) by {
            assert forall|a: int, b: int| 0 <= a < b < init.len() implies #[trigger] init[a].0
                != #[trigger] init[b].0 by {
                assert(init[a] == pairs[a] && init[b] == pairs[b]);
            }
        }
        lemma_map_of_update(init, i, v);
        assert(pairs.last().0 != k);
        assert(updated.last() == pairs.last());
    }
}

/// The names of `pairs` are in strictly ascending order of `str`.
pub open spec fn names_ascending(pairs: Seq<(Seq<char>, u64)>) -> bool {
    forall|i: int, j: int|
        0 <= i < j < pairs.len() ==> text_before(#[trigger] pairs[i].0, #[trigger] pairs[j].0)
}

/// Names in strictly ascending order are unique.
pub proof fn lemma_ascending_unique(pairs: Seq<(Seq<char>, u64)>)
    requires
        names_ascending(pairs),
    ensures
        unique_names(pairs),
{
    assert forall|i: int, j: int| 0 <= i < j < pairs.len() implies #[trigger] pairs[i].0
        != #[trigger] pairs[j].0 by {
        lemma_text_before_strict_total(pairs[i].0, pairs[j].0, pairs[j].0);
    }
}

/// Two sequences of uniquely named pairs that hold the same pairs stand for the
/// same map.
pub proof fn lemma_map_of_same_pairs(s: Seq<(Seq<char>, u64)>, t: Seq<(Seq<char>, u64)>)
    requires
        unique_names(s),
        unique_names(t),
        forall|p: (Seq<char>, u64)| s.contains(p) <==> t.contains(p),
    ensures
        map_of(s) == map_of(t),
{
    assert forall|k: Seq<char>| #[trigger] map_of(s).contains_key(k) == map_of(t).contains_key(k) by {
        lemma_map_of_dom(s, k);
        lemma_map_of_dom(t, k);
        if map_of(s).contains_key(k) {
            let i = choose|i: int| 0 <= i < s.len() && s[i].0 == k;
            assert(s.contains(s[i]));
            let j = choose|j: int| 0 <= j < t.len() && t[j] == s[i];
            assert(t[j].0 == k);
        }
        if map_of(t).contains_key(k) {
            let j = choose|j: int| 0 <= j < t.len() && t[j].0 == k;
            assert(t.contains(t[j]));
            let i = choose|i: int| 0 <= i < s.len() && s[i] == t[j];
            assert(s[i].0 == k);
        }
    }
    assert forall|k: Seq<char>| #[trigger] map_of(s).contains_key(k) implies map_of(s)[k]
        == map_of(t)[k] by {
        lemma_map_of_dom(s, k);
        let i = choose|i: int| 0 <= i < s.len() && s[i].0 == k;
        assert(s.contains(s[i]));
        let j = choose|j: int| 0 <= j < t.len() && t[j] == s[i];
        lemma_map_of_index(s, i);
        lemma_map_of_index(t, j);
    }
    assert(map_of(s) =~= map_of(t));
}

/// With unique names, the map of all but the last pair is the map without the
/// last name.
pub proof fn lemma_map_of_drop_last(s: Seq<(Seq<char>, u64)>)
    requires
        unique_names(s),
        s.len() > 0,
    ensures
        map_of(s.drop_last()) == map_of(s).remove(s.last().0),
        map_of(s)[s.last().0] == s.last().1,
        map_of(s).contains_key(s.last().0),
{
    let init = s.drop_last();
    let k = s.last().0;
    lemma_map_of_dom(init, k);
    if map_of(init).contains_key(k) {
        let i = choose|i: int| 0 <= i < init.len() && init[i].0 == k;
        assert(s[i].0 == s[s.len() - 1].0);
    }
    assert(map_of(init) =~= map_of(s).remove(k));
}

/// A map has only one sequence of pairs with names in strictly ascending order.
pub proof fn lemma_ascending_pairs_unique(s: Seq<(Seq<char>, u64)>, t: Seq<(Seq<char>, u64)>)
    requires
        names_ascending(s),
        names_ascending(t),
        map_of(s) == map_of(t),
    ensures
        s == t,
    decreases s.len(),
{
    lemma_ascending_unique(s);
    lemma_ascending_unique(t);
    if s.len() == 0 {
        if t.len() > 0 {
            lemma_map_of_dom(t, t[0].0);
        }
        assert(s =~= t);
    } else if t.len() == 0 {
        lemma_map_of_dom(s, s[0].0);
    } else {
        let ks = s.last().0;
        let kt = t.last().0;
        lemma_map_of_drop_last(s);
        lemma_map_of_drop_last(t);
        if ks != kt {
            lemma_map_of_dom(t, ks);
            lemma_map_of_dom(s, kt);
            let j = choose|j: int| 0 <= j < t.len() && t[j].0 == ks;
            let i = choose|i: int| 0 <= i < s.len() && s[i].0 == kt;
            assert(j < t.len() - 1);
            assert(i < s.len() - 1);
            assert(text_before(t[j].0, t[t.len() - 1].0));
            assert(text_before(s[i].0, s[s.len() - 1].0));
            lemma_text_before_strict_total(ks, kt, ks);
        }
        let si = s.drop_last();
        let ti = t.drop_last();
        assert(names_ascending(si)) by {
            assert forall|a: int, b: int| 0 <= a < b < si.len() implies text_before(
                #[trigger] si[a].0,
                #[trigger] si[b].0,
            ) by {
                assert(si[a] == s[a] && si[b] == s[b]);
            }
        }
        assert(names_ascending(ti)) by {
            assert forall|a: int, b: int| 0 <= a < b < ti.len() implies text_before(
                #[trigger] ti[a].0,
                #[trigger] ti[b].0,
            ) by {
                assert(ti[a] == t[a] && ti[b] == t[b]);
            }
        }
        lemma_ascending_pairs_unique(si, ti);
        assert(s =~= t) by {
            assert forall|i: int| 0 <= i < s.len() implies s[i] == t[i] by {
                if i < s.len() - 1 {
                    assert(s[i] == si[i] && t[i] == ti[i]);
                }
            }
        }
    }
}

/// The pairs of `m` with names in strictly ascending order of `str`.
pub open spec fn ascending_pairs(m: Map<Seq<char>, u64>) -> Seq<(Seq<char>, u64)> {
    choose|s: Seq<(Seq<char>, u64)>| names_ascending(s) && map_of(s) == m
}

/// The highest sequence number applied from each remote node: a map from node
/// names to sequence numbers.
#[derive(Debug)]
pub struct NodeSeqMap {
    entries: Vec<(String, u64)>,
}

impl NodeSeqMap {
    #[verifier::type_invariant]
    closed spec fn names_unique(self) -> bool {
        unique_names(entry_pairs(self.entries@))
    }
}

impl View for NodeSeqMap {
    type V = Map<Seq<char>, u64>;

    closed spec fn view(&self) -> Map<Seq<char>, u64> {
        map_of(entry_pairs(self.entries@))
    }
}

impl NodeSeqMap {
    /// An empty map.
    pub fn new() -> (m: Self)
        ensures
            m@ == Map::<Seq<char>, u64>::empty(),
    {
        let m = NodeSeqMap { entries: Vec::new() };
        proof {
            assert(entry_pairs(m.entries@).len() == 0);
        }
        m
    }

    /// The map holds `node` exactly when some entry is named `node`.
    proof fn lemma_contains(&self, node: Seq<char>)
        ensures
            self@.contains_key(node) <==> exists|i: int|
                0 <= i < self.entries@.len() && #[trigger] self.entries@[i].0@ == node,
    {
        let pairs = entry_pairs(self.entries@);
        lemma_map_of_dom(pairs, node);
        if self@.contains_key(node) {
            let i = choose|i: int| 0 <= i < pairs.len() && pairs[i].0 == node;
            assert(self.entries@[i].0@ == node);
        }
        if exists|i: int| 0 <= i < self.entries@.len() && #[trigger] self.entries@[i].0@ == node {
            let i = choose|i: int| 0 <= i < self.entries@.len() && #[trigger] self.entries@[i].0@ == node;
            assert(pairs[i].0 == node);
        }
    }

    /// The sequence number recorded for `node`, if any.
    pub fn get(&self, node: &str) -> (r: Option<u64>)
        ensures
            r == (if self@.contains_key(node@) {
                Some(self@[node@])
            } else {
                None::<u64>
            }),
    {
        proof {
            use_type_invariant(self);
            self.lemma_contains(node@);
        }
        let key = node.to_owned();
        match find_name(&self.entries, &key) {
            Some(i) => {
                proof {
                    lemma_map_of_index(entry_pairs(self.entries@), i as int);
                }
                Some(self.entries[i].1)
            },
            None => None,
        }
    }

    /// Sets the sequence number of `node` to `seq`, returning the one it replaces.
    pub fn insert(&mut self, node: String, seq: u64) -> (old_seq: Option<u64>)
        ensures
            final(self)@ == old(self)@.insert(node@, seq),
            old_seq == (if old(self)@.contains_key(node@) {
                Some(old(self)@[node@])
            } else {
                None::<u64>
            }),
    {
        proof {
            use_type_invariant(&*self);
            self.lemma_contains(node@);
        }
        let mut entries: Vec<(String, u64)> = Vec::new();
        std::mem::swap(&mut entries, &mut self.entries);
        let ghost pairs = entry_pairs(entries@);
        let r = match find_name(&entries, &node) {
            Some(i) => {
                let prev = entries[i].1;
                proof {
                    lemma_map_of_index(pairs, i as int);
                    lemma_map_of_update(pairs, i as int, seq);
                }
                entries.set(i, (node, seq));
                proof {
                    assert(entry_pairs(entries@) =~= pairs.update(i as int, (pairs[i as int].0, seq)));
                }
                Some(prev)
            },
            None => {
                let ghost k = node@;
                entries.push((node, seq));
                proof {
                    assert(entry_pairs(entries@) =~= pairs.push((k, seq)));
                    assert(entry_pairs(entries@).drop_last() =~= pairs);
                    assert forall|a: int, b: int|
                        0 <= a < b < entry_pairs(entries@).len() implies #[trigger] entry_pairs(
                        entries@,
                    )[a].0 != #[trigger] entry_pairs(entries@)[b].0 by {
                        if b == pairs.len() {
                            assert(entry_pairs(entries@)[a] == pairs[a]);
                            assert(pairs[a].0 == entries@[a].0@);
                        } else {
                            assert(entry_pairs(entries@)[a] == pairs[a]);
                            assert(entry_pairs(entries@)[b] == pairs[b]);
                        }
                    }
                }
                None
            },
        };
        self.entries = entries;
        r
    }

    /// Records that `seq` was applied from `node`: the stored number becomes the
    /// larger of the old one and `seq` (or `seq` when `node` had none).
    pub fn raise(&mut self, node: String, seq: u64)
        ensures
            final(self)@ == old(self)@.insert(
                node@,
                if old(self)@.contains_key(node@) && old(self)@[node@] > seq {
                    old(self)@[node@]
                } else {
                    seq
                },
            ),
    {
        let current = self.get(node.as_str());
        let value = match current {
            Some(v) => if v > seq {
                v
            } else {
                seq
            },
            None => seq,
        };
        self.insert(node, value);
    }

    /// Whether the map is empty.
    pub fn is_empty(&self) -> (r: bool)
        ensures
            r == (self@ == Map::<Seq<char>, u64>::empty()),
    {
        proof {
            let pairs = entry_pairs(self.entries@);
            if pairs.len() > 0 {
                lemma_map_of_dom(pairs, pairs[0].0);
                assert(self@.contains_key(pairs[0].0));
            } else {
                assert(self@ =~= Map::<Seq<char>, u64>::empty());
            }
        }
        self.entries.len() == 0
    }

    /// The entries of the map as (node, sequence number) pairs, each node once.
    pub fn entries(&self) -> (r: Vec<(String, u64)>)
        ensures
            map_of(entry_pairs(r@)) == self@,
            unique_names(entry_pairs(r@)),
    {
        proof {
            use_type_invariant(self);
        }
        let mut r: Vec<(String, u64)> = Vec::new();
        let mut i: usize = 0;
        while i < self.entries.len()
            invariant
                i <= self.entries@.len(),
                entry_pairs(r@) == entry_pairs(self.entries@).take(i as int),
            decreases self.entries@.len() - i,
        {
            let name = self.entries[i].0.clone();
            let ghost before = r@;
            r.push((name, self.entries[i].1));
            proof {
                assert(r@ == before.push((name, self.entries@[i as int].1)));
                assert(name@ == self.entries@[i as int].0@);
                assert(entry_pairs(before).len() == i);
                assert(before.len() == i);
                assert forall|k: int| 0 <= k < i implies #[trigger] entry_pairs(r@)[k]
                    == entry_pairs(self.entries@)[k] by {
                    assert(entry_pairs(before)[k] == entry_pairs(self.entries@).take(i as int)[k]);
                    assert(r@[k] == before[k]);
                    assert(entry_pairs(r@)[k] == (r@[k].0@, r@[k].1));
                    assert(entry_pairs(before)[k] == (before[k].0@, before[k].1));
                }
                assert(entry_pairs(r@)[i as int] == (r@[i as int].0@, r@[i as int].1));
                assert(entry_pairs(self.entries@)[i as int] == (
                    self.entries@[i as int].0@,
                    self.entries@[i as int].1,
                ));
                assert(entry_pairs(r@) =~= entry_pairs(self.entries@).take(i + 1));
            }
            i = i + 1;
        }
        proof {
            assert(entry_pairs(self.entries@).take(i as int) =~= entry_pairs(self.entries@));
        }
        r
    }
    /// The entries of the map as (node, sequence number) pairs, with node names
    /// in strictly ascending order of `str`.
    pub fn sorted_entries(&self) -> (r: Vec<(String, u64)>)
        ensures
            names_ascending(entry_pairs(r@)),
            map_of(entry_pairs(r@)) == self@,
            entry_pairs(r@) == ascending_pairs(self@),
    {
        let src = self.entries();
        let ghost sp = entry_pairs(src@);
        let mut r: Vec<(String, u64)> = Vec::new();
        let mut k: usize = 0;
        proof {
            assert(entry_pairs(r@) =~= Seq::<(Seq<char>, u64)>::empty());
        }
        while k < src.len()
            invariant
                k <= src@.len(),
                sp == entry_pairs(src@),
                unique_names(sp),
                map_of(sp) == self@,
                names_ascending(entry_pairs(r@)),
                r@.len() == k,
                forall|p: (Seq<char>, u64)|
                    entry_pairs(r@).contains(p) <==> sp.take(k as int).contains(p),
            decreases src@.len() - k,
        {
            let ghost rp = entry_pairs(r@);
            let ghost x = sp[k as int];
            assert(x == (src@[k as int].0@, src@[k as int].1));
            // The name of the new pair is not among those placed so far.
            assert forall|q: int| 0 <= q < rp.len() implies #[trigger] rp[q].0 != x.0 by {
                assert(rp.contains(rp[q]));
                let j = choose|j: int| 0 <= j < k && sp.take(k as int)[j] == rp[q];
                assert(sp[j] == rp[q]);
            }
            let mut p: usize = 0;
            while p < r.len() && !text_less(src[k].0.as_str(), r[p].0.as_str())
                invariant
                    p <= r@.len(),
                    k < src@.len(),
                    rp == entry_pairs(r@),
                    x.0 == src@[k as int].0@,
                    forall|q: int| 0 <= q < p ==> !text_before(x.0, #[trigger] rp[q].0),
                decreases r@.len() - p,
            {
                assert(rp[p as int] == (r@[p as int].0@, r@[p as int].1));
                p = p + 1;
            }
            assert(p < rp.len() ==> text_before(x.0, rp[p as int].0)) by {
                if p < rp.len() {
                    assert(rp[p as int] == (r@[p as int].0@, r@[p as int].1));
                }
            }
            let name = src[k].0.clone();
            let ghost before = r@;
            r.insert(p, (name, src[k].1));
            proof {
                let np = entry_pairs(r@);
                assert(r@ == before.insert(p as int, (name, src@[k as int].1)));
                assert(np =~= rp.insert(p as int, x)) by {
                    assert forall|i: int| 0 <= i < np.len() implies np[i] == rp.insert(p as int, x)[i] by {
                        assert(np[i] == (r@[i].0@, r@[i].1));
                        if i < p {
                            assert(r@[i] == before[i]);
                            assert(rp[i] == (before[i].0@, before[i].1));
                        } else if i > p {
                            assert(r@[i] == before[i - 1]);
                            assert(rp[i - 1] == (before[i - 1].0@, before[i - 1].1));
                        }
                    }
                }
                assert forall|q: int| 0 <= q < p implies text_before(#[trigger] rp[q].0, x.0) by {
                    lemma_text_before_strict_total(rp[q].0, x.0, x.0);
                    lemma_text_before_strict_total(x.0, rp[q].0, x.0);
                }
                assert(names_ascending(np)) by {
                    assert forall|a: int, b: int| 0 <= a < b < np.len() implies text_before(
                        #[trigger] np[a].0,
                        #[trigger] np[b].0,
                    ) by {
                        if b < p {
                            assert(np[a] == rp[a] && np[b] == rp[b]);
                        } else if b == p {
                            assert(np[a] == rp[a] && np[b] == x);
                        } else if a < p {
                            assert(np[a] == rp[a] && np[b] == rp[b - 1]);
                        } else if a == p {
                            assert(np[a] == x && np[b] == rp[b - 1]);
                            if b - 1 > p {
                                assert(text_before(rp[p as int].0, rp[b - 1].0));
                                lemma_text_before_strict_total(x.0, rp[p as int].0, rp[b - 1].0);
                            }
                        } else {
                            assert(np[a] == rp[a - 1] && np[b] == rp[b - 1]);
                        }
                    }
                }
                let t1 = sp.take(k + 1);
                let t0 = sp.take(k as int);
                assert(t1 =~= t0.push(x));
                assert forall|pr: (Seq<char>, u64)| np.contains(pr) <==> t1.contains(pr) by {
                    if np.contains(pr) {
                        let i = choose|i: int| 0 <= i < np.len() && np[i] == pr;
                        if i < p {
                            assert(rp.contains(rp[i]));
                        } else if i > p {
                            assert(rp.contains(rp[i - 1]));
                        }
                        if pr != x {
                            assert(t0.contains(pr));
                            let j = choose|j: int| 0 <= j < k && t0[j] == pr;
                            assert(t1[j] == pr);
                        } else {
                            assert(t1[k as int] == pr);
                        }
                    }
                    if t1.contains(pr) {
                        let j = choose|j: int| 0 <= j < k + 1 && t1[j] == pr;
                        if j < k {
                            assert(t0[j] == pr);
                            assert(t0.contains(pr));
                            assert(rp.contains(pr));
                            let i = choose|i: int| 0 <= i < rp.len() && rp[i] == pr;
                            if i < p {
                                assert(np[i] == pr);
                            } else {
                                assert(np[i + 1] == pr);
                            }
                        } else {
                            assert(np[p as int] == pr);
                        }
                    }
                }
            }
            k = k + 1;
        }
        proof {
            assert(sp.take(k as int) =~= sp);
            lemma_ascending_unique(entry_pairs(r@));
            lemma_map_of_same_pairs(entry_pairs(r@), sp);
            let c = ascending_pairs(self@);
            assert(names_ascending(c) && map_of(c) == self@);
            lemma_ascending_pairs_unique(entry_pairs(r@), c);
        }
        r
    }
}

/// The position of `node` among `entries`, if it is there.
fn find_name(entries: &Vec<(String, u64)>, node: &String) -> (r: Option<usize>)
    ensures
        match r {
            Some(i) => i < entries@.len() && entries@[i as int].0@ == node@,
            None => forall|i: int| 0 <= i < entries@.len() ==> entries@[i].0@ != node@,
        },
{
    let mut i: usize = 0;
    while i < entries.len()
        invariant
            i <= entries@.len(),
            forall|j: int| 0 <= j < i ==> entries@[j].0@ != node@,
        decreases entries@.len() - i,
    {
        if entries[i].0 == *node {
            return Some(i);
        }
        i = i + 1;
    }
    None
}

/// The identities of `ids` as mathematical values.
pub open spec fn id_keys(ids: Seq<EventId>) -> Seq<EventKey> {
    ids.map_values(|id: EventId| id.key())
}

impl Clone for NodeSeqMap {
    fn clone(&self) -> (copy: Self)
        ensures
            copy@ == self@,
    {
        NodeSeqMap { entries: self.entries() }
    }
}

/// A set of event identities.
#[derive(Debug)]
pub struct EventIdSet {
    ids: Vec<EventId>,
}

impl EventIdSet {
    #[verifier::type_invariant]
    closed spec fn ids_unique(self) -> bool {
        id_keys(self.ids@).no_duplicates()
    }
}

impl View for EventIdSet {
    type V = Set<EventKey>;

    closed spec fn view(&self) -> Set<EventKey> {
        id_keys(self.ids@).to_set()
    }
}

impl EventIdSet {
    /// An empty set.
    pub fn new() -> (s: Self)
        ensures
            s@ == Set::<EventKey>::empty(),
    {
        let s = EventIdSet { ids: Vec::new() };
        proof {
            assert(id_keys(s.ids@).to_set() =~= Set::<EventKey>::empty());
        }
        s
    }

    /// Whether `id` is in the set.
    pub fn contains(&self, id: &EventId) -> (r: bool)
        ensures
            r == self@.contains(id.key()),
    {
        let mut i: usize = 0;
        while i < self.ids.len()
            invariant
                i <= self.ids@.len(),
                forall|j: int| 0 <= j < i ==> #[trigger] id_keys(self.ids@)[j] != id.key(),
            decreases self.ids@.len() - i,
        {
            if self.ids[i].seq == id.seq && self.ids[i].node == id.node {
                proof {
                    assert(id_keys(self.ids@)[i as int] == id.key());
                }
                return true;
            }
            proof {
                assert(id_keys(self.ids@)[i as int] == self.ids@[i as int].key());
            }
            i = i + 1;
        }
        proof {
            if id_keys(self.ids@).to_set().contains(id.key()) {
                let j = choose|j: int| 0 <= j < id_keys(self.ids@).len() && id_keys(self.ids@)[j] == id.key();
                assert(false);
            }
        }
        false
    }

    /// Adds `id`; the answer is whether it was not in the set before.
    pub fn insert(&mut self, id: EventId) -> (added: bool)
        ensures
            final(self)@ == old(self)@.insert(id.key()),
            added == !old(self)@.contains(id.key()),
    {
        proof {
            use_type_invariant(&*self);
        }
        if self.contains(&id) {
            proof {
                assert(old(self)@.insert(id.key()) =~= old(self)@);
            }
            return false;
        }
        let mut ids: Vec<EventId> = Vec::new();
        std::mem::swap(&mut ids, &mut self.ids);
        let ghost before = ids@;
        let ghost k = id.key();
        ids.push(id);
        proof {
            assert(id_keys(ids@) =~= id_keys(before).push(k));
            assert(!id_keys(before).contains(k));
            id_keys(before).lemma_push_to_set_commute(k);
            assert(id_keys(ids@).to_set() =~= id_keys(before).to_set().insert(k));
        }
        self.ids = ids;
        true
    }

    /// How many identities the set holds.
    pub fn len(&self) -> (n: usize)
        ensures
            n == self@.len(),
    {
        proof {
            use_type_invariant(self);
            id_keys(self.ids@).unique_seq_to_set();
        }
        self.ids.len()
    }

    /// Whether the set is empty.
    pub fn is_empty(&self) -> (r: bool)
        ensures
            r == (self@.len() == 0),
    {
        self.len() == 0
    }
}

} // verus!
