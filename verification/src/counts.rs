//! A table of counts keyed by strings, in order of first insertion.

use std::collections::HashMap;
use vstd::prelude::*;

use crate::text::chars_of;

verus! {

broadcast use vstd::std_specs::hash::group_hash_axioms;

/// The FNV-1a hash of a key's characters (each character by its code point),
/// which places the key in the table's index.
pub open spec fn key_hash(s: Seq<char>) -> u64
    decreases s.len(),
{
    if s.len() == 0 {
        0xcbf2_9ce4_8422_2325u64
    } else {
        (key_hash(s.drop_last()) ^ ((s.last() as u32) as u64)).wrapping_mul(0x0100_0000_01b3u64)
    }
}

/// Computes [`key_hash`].
fn hash_key(key: &String) -> (h: u64)
    ensures
        h == key_hash(key@),
{
    let cs = chars_of(key.as_str());
    let mut h: u64 = 0xcbf2_9ce4_8422_2325;
    let mut i: usize = 0;
    assert(cs@.take(0) == Seq::<char>::empty());
    while i < cs.len()
        invariant
            i <= cs@.len(),
            h == key_hash(cs@.take(i as int)),
        decreases cs@.len() - i,
    {
        assert(cs@.take(i + 1).drop_last() == cs@.take(i as int));
        h = (h ^ ((cs[i] as u32) as u64)).wrapping_mul(0x0100_0000_01b3);
        i = i + 1;
    }
    assert(cs@.take(cs@.len() as int) == key@);
    h
}

/// The index maps the hash of each entry's key to a bucket holding that
/// entry's position, and holds only positions of entries with that hash.
pub open spec fn index_wf(es: Seq<(Seq<char>, u64)>, idx: Map<u64, Vec<usize>>) -> bool {
    &&& forall|i: int|
        0 <= i < es.len() ==> idx.contains_key(key_hash(#[trigger] es[i].0)) && idx[key_hash(
            es[i].0,
        )]@.contains(i as usize)
    &&& forall|h: u64, j: int|
        idx.contains_key(h) && 0 <= j < idx[h]@.len() ==> (#[trigger] idx[h]@[j]) < es.len()
            && key_hash(es[idx[h]@[j] as int].0) == h
}

/// The entries of a count table, by their characters and counts.
pub open spec fn entries_view(v: Seq<(String, u64)>) -> Seq<(Seq<char>, u64)> {
    v.map_values(|e: (String, u64)| (e.0@, e.1))
}

/// The map from keys to counts that a sequence of entries holds (a later
/// entry for a key would override an earlier one; a well-formed table has
/// one entry per key).
pub open spec fn entries_map(es: Seq<(Seq<char>, u64)>) -> Map<Seq<char>, nat>
    decreases es.len(),
{
    if es.len() == 0 {
        Map::empty()
    } else {
        entries_map(es.drop_last()).insert(es.last().0, es.last().1 as nat)
    }
}

/// The sum of the counts of a sequence of entries.
pub open spec fn entries_total(es: Seq<(Seq<char>, u64)>) -> nat
    decreases es.len(),
{
    if es.len() == 0 {
        0
    } else {
        entries_total(es.drop_last()) + es.last().1 as nat
    }
}

/// No key occurs twice and every count is positive.
pub open spec fn entries_wf(es: Seq<(Seq<char>, u64)>) -> bool {
    &&& forall|i: int, j: int|
        0 <= i < es.len() && 0 <= j < es.len() && i != j ==> (#[trigger] es[i]).0 != (
        #[trigger] es[j]).0
    &&& forall|i: int| 0 <= i < es.len() ==> (#[trigger] es[i]).1 > 0
}

/// The count of `k` in `m`, zero when `k` is absent.
pub open spec fn count_of(m: Map<Seq<char>, nat>, k: Seq<char>) -> nat {
    if m.contains_key(k) {
        m[k]
    } else {
        0
    }
}

/// The pointwise sum of two count maps.
pub open spec fn add_counts(a: Map<Seq<char>, nat>, b: Map<Seq<char>, nat>) -> Map<
    Seq<char>,
    nat,
> {
    Map::new(
        |k: Seq<char>| a.contains_key(k) || b.contains_key(k),
        |k: Seq<char>| count_of(a, k) + count_of(b, k),
    )
}

/// `m` with the count of `k` raised by `n`.
pub open spec fn bump(m: Map<Seq<char>, nat>, k: Seq<char>, n: nat) -> Map<Seq<char>, nat> {
    m.insert(k, count_of(m, k) + n)
}

/// The entries `es` with `n` more for key `k`: the key's entry raised in
/// place, or, for a new key, a new entry last.
pub open spec fn add_entry(es: Seq<(Seq<char>, u64)>, k: Seq<char>, n: u64) -> Seq<(Seq<char>, u64)> {
    if exists|i: int| 0 <= i < es.len() && (#[trigger] es[i]).0 == k {
        let i = choose|i: int| 0 <= i < es.len() && (#[trigger] es[i]).0 == k;
        es.update(i, (k, (es[i].1 + n) as u64))
    } else {
        es.push((k, n))
    }
}

/// The entries `es` after the entries `os` were added one after the other.
pub open spec fn add_entries(es: Seq<(Seq<char>, u64)>, os: Seq<(Seq<char>, u64)>) -> Seq<
    (Seq<char>, u64),
>
    decreases os.len(),
{
    if os.len() == 0 {
        es
    } else {
        add_entry(add_entries(es, os.drop_last()), os.last().0, os.last().1)
    }
}

proof fn lemma_entries_map_dom(es: Seq<(Seq<char>, u64)>, k: Seq<char>)
    ensures
        entries_map(es).contains_key(k) <==> exists|i: int| 0 <= i < es.len() && (#[trigger] es[i]).0
            == k,
    decreases es.len(),
{
    if es.len() > 0 {
        lemma_entries_map_dom(es.drop_last(), k);
        if entries_map(es.drop_last()).contains_key(k) {
            let i = choose|i: int| 0 <= i < es.drop_last().len() && (#[trigger] es.drop_last()[i]).0 == k;
            assert(es[i] == es.drop_last()[i]);
        }
        if exists|i: int| 0 <= i < es.len() && (#[trigger] es[i]).0 == k {
            let i = choose|i: int| 0 <= i < es.len() && (#[trigger] es[i]).0 == k;
            if i < es.len() - 1 {
                assert(es.drop_last()[i] == es[i]);
            }
        }
    }
}

proof fn lemma_entries_map_at(es: Seq<(Seq<char>, u64)>, i: int)
    requires
        entries_wf(es),
        0 <= i < es.len(),
    ensures
        entries_map(es).contains_key(es[i].0),
        entries_map(es)[es[i].0] == es[i].1 as nat,
    decreases es.len(),
{
    let p = es.drop_last();
    if i < es.len() - 1 {
        assert(p[i] == es[i]);
        assert(entries_wf(p)) by {
            assert forall|a: int, b: int| 0 <= a < p.len() && 0 <= b < p.len() && a != b implies (
            #[trigger] p[a]).0 != (#[trigger] p[b]).0 by {
                assert(p[a] == es[a] && p[b] == es[b]);
            }
            assert forall|a: int| 0 <= a < p.len() implies (#[trigger] p[a]).1 > 0 by {
                assert(p[a] == es[a]);
            }
        }
        lemma_entries_map_at(p, i);
        assert(es[i].0 != es[es.len() - 1].0);
    }
}

proof fn lemma_entries_wf_drop_last(es: Seq<(Seq<char>, u64)>)
    requires
        entries_wf(es),
        es.len() > 0,
    ensures
        entries_wf(es.drop_last()),
{
    let p = es.drop_last();
    assert forall|a: int, b: int| 0 <= a < p.len() && 0 <= b < p.len() && a != b implies (
    #[trigger] p[a]).0 != (#[trigger] p[b]).0 by {
        assert(p[a] == es[a] && p[b] == es[b]);
    }
    assert forall|a: int| 0 <= a < p.len() implies (#[trigger] p[a]).1 > 0 by {
        assert(p[a] == es[a]);
    }
}

proof fn lemma_entries_update(es: Seq<(Seq<char>, u64)>, i: int, v: u64)
    requires
        entries_wf(es),
        0 <= i < es.len(),
    ensures
        entries_map(es.update(i, (es[i].0, v))) == entries_map(es).insert(es[i].0, v as nat),
        entries_total(es.update(i, (es[i].0, v))) + es[i].1 == entries_total(es) + v,
    decreases es.len(),
{
    let u = es.update(i, (es[i].0, v));
    let p = es.drop_last();
    if i == es.len() - 1 {
        assert(u.drop_last() == p);
        assert(entries_map(u) == entries_map(es).insert(es[i].0, v as nat));
    } else {
        lemma_entries_wf_drop_last(es);
        assert(p[i] == es[i]);
        lemma_entries_update(p, i, v);
        assert(u.drop_last() == p.update(i, (p[i].0, v)));
        assert(es[i].0 != es.last().0);
        assert(entries_map(u) == entries_map(es).insert(es[i].0, v as nat));
    }
}

proof fn lemma_entry_le_total(es: Seq<(Seq<char>, u64)>, i: int)
    requires
        0 <= i < es.len(),
    ensures
        es[i].1 <= entries_total(es),
    decreases es.len(),
{
    if i < es.len() - 1 {
        assert(es.drop_last()[i] == es[i]);
        lemma_entry_le_total(es.drop_last(), i);
    }
}

/// In well-formed entries, an entry occurs once when the map gives its key
/// its count, and not at all otherwise.
proof fn lemma_entries_multiset_count(es: Seq<(Seq<char>, u64)>, x: (Seq<char>, u64))
    requires
        entries_wf(es),
    ensures
        es.to_multiset().count(x) == if entries_map(es).contains_key(x.0) && entries_map(es)[x.0]
            == x.1 as nat {
            1nat
        } else {
            0nat
        },
    decreases es.len(),
{
    broadcast use vstd::seq_lib::group_to_multiset_ensures;
    broadcast use vstd::multiset::group_multiset_axioms;
    if es.len() > 0 {
        let p = es.drop_last();
        let l = es.last();
        assert(es == p.push(l));
        lemma_entries_wf_drop_last(es);
        lemma_entries_multiset_count(p, x);
        p.to_multiset_ensures();
        if x.0 == l.0 {
            lemma_entries_map_dom(p, l.0);
            if entries_map(p).contains_key(l.0) {
                let i = choose|i: int| 0 <= i < p.len() && (#[trigger] p[i]).0 == l.0;
                assert(p[i] == es[i]);
                assert(es[i].0 != es[es.len() - 1].0);
            }
        }
    } else {
        es.to_multiset_ensures();
    }
}

/// Counts per key, kept as entries in order of first insertion, with an
/// index from key hashes to entry positions.
#[derive(Debug, Clone)]
pub struct CountTable {
    entries: Vec<(String, u64)>,
    index: HashMap<u64, Vec<usize>>,
}

impl View for CountTable {
    type V = Map<Seq<char>, nat>;

    closed spec fn view(&self) -> Map<Seq<char>, nat> {
        entries_map(entries_view(self.entries@))
    }
}

impl CountTable {
    /// The entries, by characters and counts, in order of first insertion.
    pub closed spec fn ordered(&self) -> Seq<(Seq<char>, u64)> {
        entries_view(self.entries@)
    }

    /// The sum of all counts.
    pub closed spec fn total(&self) -> nat {
        entries_total(self.ordered())
    }

    /// One entry per key, every count positive, and the index up to date.
    pub closed spec fn wf(&self) -> bool {
        &&& entries_wf(self.ordered())
        &&& index_wf(self.ordered(), self.index@)
    }

    /// The entries determine the map: each key's entry holds its count, and
    /// the keys are exactly those of the entries.
    pub proof fn lemma_ordered(&self)
        requires
            self.wf(),
        ensures
            forall|i: int|
                0 <= i < self.ordered().len() ==> #[trigger] self@.contains_key(
                    self.ordered()[i].0,
                ) && self@[self.ordered()[i].0] == self.ordered()[i].1 as nat,
            forall|k: Seq<char>|
                #[trigger] self@.contains_key(k) ==> exists|i: int|
                    0 <= i < self.ordered().len() && (#[trigger] self.ordered()[i]).0 == k,
            forall|i: int| 0 <= i < self.ordered().len() ==> (#[trigger] self.ordered()[i]).1 > 0,
            forall|i: int|
                0 <= i < self.ordered().len() ==> (#[trigger] self.ordered()[i]).1
                    <= self.total(),
    {
        let es = self.ordered();
        assert forall|i: int| 0 <= i < es.len() implies #[trigger] self@.contains_key(es[i].0)
            && self@[es[i].0] == es[i].1 as nat by {
            lemma_entries_map_at(es, i);
        }
        assert forall|k: Seq<char>| #[trigger] self@.contains_key(k) implies exists|i: int|
            0 <= i < es.len() && (#[trigger] es[i]).0 == k by {
            lemma_entries_map_dom(es, k);
        }
        assert forall|i: int| 0 <= i < es.len() implies (#[trigger] es[i]).1 <= self.total() by {
            lemma_entry_le_total(es, i);
        }
    }

    /// Two tables that hold the same counts hold the same entries, in
    /// whatever order.
    pub proof fn lemma_same_counts_same_entries(&self, other: &CountTable)
        requires
            self.wf(),
            other.wf(),
            self@ == other@,
        ensures
            self.ordered().to_multiset() == other.ordered().to_multiset(),
    {
        assert forall|x: (Seq<char>, u64)| self.ordered().to_multiset().count(x)
            == other.ordered().to_multiset().count(x) by {
            lemma_entries_multiset_count(self.ordered(), x);
            lemma_entries_multiset_count(other.ordered(), x);
        }
        assert(self.ordered().to_multiset() =~= other.ordered().to_multiset());
    }

    /// An empty table.
    pub fn new() -> (t: CountTable)
        ensures
            t.wf(),
            t@ == Map::<Seq<char>, nat>::empty(),
            t.total() == 0,
            t.ordered() == Seq::<(Seq<char>, u64)>::empty(),
    {
        let t = CountTable { entries: Vec::new(), index: HashMap::new() };
        assert(t.ordered() == Seq::<(Seq<char>, u64)>::empty());
        t
    }

    /// The number of keys.
    pub fn len(&self) -> (n: usize)
        ensures
            n == self.ordered().len(),
    {
        self.entries.len()
    }

    /// The key and count of the `i`-th entry.
    pub fn entry(&self, i: usize) -> (r: (&String, u64))
        requires
            i < self.ordered().len(),
        ensures
            (r.0@, r.1) == self.ordered()[i as int],
    {
        (&self.entries[i].0, self.entries[i].1)
    }

    /// A copy of the entries, in order of first insertion.
    pub fn to_vec(&self) -> (r: Vec<(String, u64)>)
        ensures
            entries_view(r@) == self.ordered(),
    {
        let mut r: Vec<(String, u64)> = Vec::new();
        let mut i: usize = 0;
        while i < self.entries.len()
            invariant
                i <= self.entries@.len(),
                entries_view(r@) == self.ordered().take(i as int),
            decreases self.entries@.len() - i,
        {
            let ghost before = r@;
            let k = self.entries[i].0.clone();
            r.push((k, self.entries[i].1));
            assert(entries_view(r@) == entries_view(before).push(self.ordered()[i as int]));
            assert(self.ordered().take(i + 1) == self.ordered().take(i as int).push(
                self.ordered()[i as int],
            ));
            i = i + 1;
        }
        assert(self.ordered().take(self.entries@.len() as int) == self.ordered());
        r
    }

    /// The position of `key`'s entry, if it has one.
    fn position(&self, key: &String) -> (r: Option<usize>)
        requires
            self.wf(),
        ensures
            match r {
                Some(i) => i < self.ordered().len() && self.ordered()[i as int].0 == key@,
                None => !self@.contains_key(key@),
            },
    {
        let ghost es = self.ordered();
        let n = self.entries.len();
        assert(es.len() == n);
        let h = hash_key(key);
        match self.index.get(&h) {
            None => {
                proof {
                    lemma_entries_map_dom(es, key@);
                    if self@.contains_key(key@) {
                        let i = choose|i: int| 0 <= i < es.len() && (#[trigger] es[i]).0 == key@;
                        assert(self.index@.contains_key(key_hash(es[i].0)));
                    }
                }
                None
            },
            Some(bucket) => {
                let ghost b = self.index@[h];
                assert(*bucket == b);
                let mut j: usize = 0;
                while j < bucket.len()
                    invariant
                        j <= b@.len(),
                        *bucket == b,
                        self.wf(),
                        es == self.ordered(),
                        self.index@.contains_key(h),
                        self.index@[h] == b,
                        h == key_hash(key@),
                        es.len() == n,
                        forall|t: int| 0 <= t < j ==> es[(#[trigger] b@[t]) as int].0 != key@,
                    decreases b@.len() - j,
                {
                    let p = bucket[j];
                    assert(b@[j as int] == p);
                    assert(p < es.len());
                    assert(es[p as int].0 == self.entries@[p as int].0@);
                    if self.entries[p].0 == *key {
                        return Some(p);
                    }
                    j = j + 1;
                }
                proof {
                    lemma_entries_map_dom(es, key@);
                    if self@.contains_key(key@) {
                        let i = choose|i: int| 0 <= i < es.len() && (#[trigger] es[i]).0 == key@;
                        assert(b@.contains(i as usize));
                        let t = choose|t: int| 0 <= t < b@.len() && b@[t] == i as usize;
                        assert(es[(b@[t]) as int].0 != key@);
                    }
                }
                None
            },
        }
    }

    /// The count of `key` (zero when absent).
    pub fn get(&self, key: &String) -> (c: u64)
        requires
            self.wf(),
        ensures
            c as nat == count_of(self@, key@),
    {
        match self.position(key) {
            Some(i) => {
                proof {
                    lemma_entries_map_at(self.ordered(), i as int);
                }
                self.entries[i].1
            },
            None => 0,
        }
    }

    /// Raises the count of `key` by `n`; a new key goes last.
    pub fn add(&mut self, key: String, n: u64)
        requires
            old(self).wf(),
            n > 0,
            old(self).total() + n <= u64::MAX,
        ensures
            final(self).wf(),
            final(self)@ == bump(old(self)@, key@, n as nat),
            final(self).total() == old(self).total() + n,
            final(self).ordered() == add_entry(old(self).ordered(), key@, n),
            old(self)@.contains_key(key@) ==> final(self).ordered().len() == old(self).ordered().len(),
            !old(self)@.contains_key(key@) ==> final(self).ordered() == old(self).ordered().push(
                (key@, n),
            ),
    {
        let ghost es = self.ordered();
        match self.position(&key) {
            Some(i) => {
                proof {
                    lemma_entries_map_at(es, i as int);
                    lemma_entry_le_total(es, i as int);
                    lemma_entries_update(es, i as int, (es[i as int].1 + n) as u64);
                }
                let c = self.entries[i].1;
                let k = self.entries[i].0.clone();
                self.entries.set(i, (k, c + n));
                assert(self.ordered() == es.update(i as int, (es[i as int].0, (c + n) as u64)));
                assert(add_entry(es, key@, n) == es.update(i as int, (key@, (es[i as int].1 + n) as u64))) by {
                    assert(es[i as int].0 == key@);
                    let j = choose|j: int| 0 <= j < es.len() && (#[trigger] es[j]).0 == key@;
                    if j != i as int {
                        assert(es[j].0 != es[i as int].0);
                    }
                }
                assert forall|a: int| 0 <= a < es.len() implies (#[trigger] self.ordered()[a]).0
                    == es[a].0 by {}
            },
            None => {
                let ghost kv = key@;
                let ghost idx = self.index@;
                assert(add_entry(es, kv, n) == es.push((kv, n))) by {
                    lemma_entries_map_dom(es, kv);
                }
                let len = self.entries.len();
                assert(es.len() == len);
                let h = hash_key(&key);
                let mut bucket: Vec<usize> = match self.index.get(&h) {
                    Some(b) => b.clone(),
                    None => Vec::new(),
                };
                let ghost old_bucket = bucket@;
                assert(idx.contains_key(h) ==> old_bucket == idx[h]@);
                assert(!idx.contains_key(h) ==> old_bucket == Seq::<usize>::empty());
                bucket.push(len);
                self.index.insert(h, bucket);
                self.entries.push((key, n));
                assert(self.ordered() == es.push((kv, n)));
                assert(self.ordered().drop_last() == es);
                let ghost nes = self.ordered();
                let ghost nidx = self.index@;
                assert(nidx == idx.insert(h, nidx[h]));
                assert(nidx[h]@ == old_bucket.push(len));
                assert forall|i: int| 0 <= i < nes.len() implies nidx.contains_key(
                    key_hash(#[trigger] nes[i].0),
                ) && nidx[key_hash(nes[i].0)]@.contains(i as usize) by {
                    if i < es.len() {
                        assert(nes[i] == es[i]);
                        if key_hash(es[i].0) == h {
                            assert(idx[h]@.contains(i as usize));
                            let t = choose|t: int| 0 <= t < idx[h]@.len() && idx[h]@[t] == i as usize;
                            assert(nidx[h]@[t] == i as usize);
                        }
                    } else {
                        assert(nes[i].0 == kv);
                        assert(nidx[h]@[old_bucket.len() as int] == len);
                    }
                }
                assert forall|g: u64, j: int| nidx.contains_key(g) && 0 <= j < nidx[g]@.len() implies (
                #[trigger] nidx[g]@[j]) < nes.len() && key_hash(nes[nidx[g]@[j] as int].0) == g by {
                    if g == h {
                        if j < old_bucket.len() {
                            assert(nidx[g]@[j] == idx[h]@[j]);
                            assert(nes[idx[h]@[j] as int] == es[idx[h]@[j] as int]);
                        } else {
                            assert(nidx[g]@[j] == len);
                            assert(nes[len as int].0 == kv);
                        }
                    } else {
                        assert(nidx[g] == idx[g]);
                        assert(nes[idx[g]@[j] as int] == es[idx[g]@[j] as int]);
                    }
                }
                assert forall|a: int, b: int|
                    0 <= a < self.ordered().len() && 0 <= b < self.ordered().len() && a != b implies (
                #[trigger] self.ordered()[a]).0 != (#[trigger] self.ordered()[b]).0 by {
                    if a == es.len() as int {
                        assert(self.ordered()[b] == es[b]);
                        lemma_entries_map_at(es, b);
                    } else if b == es.len() as int {
                        assert(self.ordered()[a] == es[a]);
                        lemma_entries_map_at(es, a);
                    } else {
                        assert(self.ordered()[a] == es[a] && self.ordered()[b] == es[b]);
                    }
                }
                assert forall|a: int| 0 <= a < self.ordered().len() implies (
                #[trigger] self.ordered()[a]).1 > 0 by {
                    if a < es.len() {
                        assert(self.ordered()[a] == es[a]);
                    }
                }
            },
        }
    }

    /// Adds every count of `other` to this table.
    pub fn merge(&mut self, other: &CountTable)
        requires
            old(self).wf(),
            other.wf(),
            old(self).total() + other.total() <= u64::MAX,
        ensures
            final(self).wf(),
            final(self)@ == add_counts(old(self)@, other@),
            final(self).total() == old(self).total() + other.total(),
            final(self).ordered() == add_entries(old(self).ordered(), other.ordered()),
    {
        let ghost start = self@;
        let ghost start_es = self.ordered();
        let ghost oes = other.ordered();
        let mut i: usize = 0;
        while i < other.entries.len()
            invariant
                i <= other.entries@.len(),
                oes == other.ordered(),
                other.wf(),
                self.wf(),
                self@ == add_counts(start, entries_map(oes.take(i as int))),
                self.total() == old(self).total() + entries_total(oes.take(i as int)),
                old(self).total() + other.total() <= u64::MAX,
                start == old(self)@,
                start_es == old(self).ordered(),
                self.ordered() == add_entries(start_es, oes.take(i as int)),
            decreases other.entries@.len() - i,
        {
            let ghost before = self@;
            let ghost pre = oes.take(i as int);
            let ghost nxt = oes.take(i + 1);
            assert(nxt.drop_last() == pre);
            assert(nxt.last() == oes[i as int]);
            assert(oes[i as int] == (other.entries@[i as int].0@, other.entries@[i as int].1));
            assert(entries_total(nxt) <= entries_total(oes)) by {
                lemma_total_prefix(oes, i + 1);
            }
            proof {
                other.lemma_ordered();
            }
            let k = other.entries[i].0.clone();
            let c = other.entries[i].1;
            self.add(k, c);
            proof {
                // the key of entry i does not occur earlier in `other`
                assert(!entries_map(pre).contains_key(oes[i as int].0)) by {
                    lemma_entries_map_dom(pre, oes[i as int].0);
                    if exists|j: int| 0 <= j < pre.len() && (#[trigger] pre[j]).0 == oes[i as int].0 {
                        let j = choose|j: int| 0 <= j < pre.len() && (#[trigger] pre[j]).0
                            == oes[i as int].0;
                        assert(pre[j] == oes[j]);
                    }
                }
                assert(self@ == add_counts(start, entries_map(nxt)));
            }
            i = i + 1;
        }
        assert(oes.take(oes.len() as int) == oes);
    }
}

proof fn lemma_total_prefix(es: Seq<(Seq<char>, u64)>, k: int)
    requires
        0 <= k <= es.len(),
    ensures
        entries_total(es.take(k)) <= entries_total(es),
    decreases es.len(),
{
    if k < es.len() {
        assert(es.drop_last().take(k) == es.take(k));
        lemma_total_prefix(es.drop_last(), k);
    } else {
        assert(es.take(k) == es);
    }
}

} // verus!
