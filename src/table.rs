//! A frequency table: a finite mapping from character sequences to 64-bit
//! counts, stored as a list of entries with pairwise distinct keys.
use vstd::prelude::*;

verus! {

/// The mapping that a list of (key, count) pairs denotes. The list is read
/// from the front; with distinct keys the order does not matter.
pub open spec fn map_of(s: Seq<(Seq<char>, u64)>) -> Map<Seq<char>, u64>
    decreases s.len(),
{
    if s.len() == 0 {
        Map::empty()
    } else {
        map_of(s.drop_first()).insert(s[0].0, s[0].1)
    }
}

/// No two pairs of the list share a key.
pub open spec fn distinct_keys(s: Seq<(Seq<char>, u64)>) -> bool {
    forall|i: int, j: int| 0 <= i < j < s.len() ==> s[i].0 != s[j].0
}

/// The count recorded for `k`, zero where `k` has none.
pub open spec fn count_of(m: Map<Seq<char>, u64>, k: Seq<char>) -> nat {
    if m.dom().contains(k) {
        m[k] as nat
    } else {
        0
    }
}

pub proof fn lemma_map_of_dom(s: Seq<(Seq<char>, u64)>, k: Seq<char>)
    ensures
        map_of(s).dom().contains(k) <==> exists|i: int| 0 <= i < s.len() && s[i].0 == k,
    decreases s.len(),
{
    if s.len() > 0 {
        lemma_map_of_dom(s.drop_first(), k);
        if map_of(s.drop_first()).dom().contains(k) {
            let i = choose|i: int| 0 <= i < s.len() - 1 && s.drop_first()[i].0 == k;
            assert(s[i + 1].0 == k);
        }
        if exists|i: int| 0 <= i < s.len() && s[i].0 == k {
            let i = choose|i: int| 0 <= i < s.len() && s[i].0 == k;
            if i > 0 {
                assert(s.drop_first()[i - 1].0 == k);
            }
        }
    }
}

pub proof fn lemma_map_of_value(s: Seq<(Seq<char>, u64)>, i: int)
    requires
        distinct_keys(s),
        0 <= i < s.len(),
    ensures
        map_of(s).dom().contains(s[i].0),
        map_of(s)[s[i].0] == s[i].1,
    decreases s.len(),
{
    if i > 0 {
        lemma_map_of_value(s.drop_first(), i - 1);
        assert(s.drop_first()[i - 1] == s[i]);
    }
}

pub proof fn lemma_map_of_push(s: Seq<(Seq<char>, u64)>, e: (Seq<char>, u64))
    requires
        !map_of(s).dom().contains(e.0),
    ensures
        map_of(s.push(e)) == map_of(s).insert(e.0, e.1),
    decreases s.len(),
{
    if s.len() == 0 {
        assert(s.push(e).drop_first() =~= s);
        assert(map_of(s.push(e)) =~= map_of(s).insert(e.0, e.1));
    } else {
        let t = s.drop_first();
        assert(s.push(e).drop_first() =~= t.push(e));
        if map_of(t).dom().contains(e.0) {
            assert(map_of(s).dom().contains(e.0));
        }
        lemma_map_of_push(t, e);
        assert(s[0].0 != e.0);
        assert(map_of(s.push(e)) =~= map_of(s).insert(e.0, e.1));
    }
}

pub proof fn lemma_map_of_update(s: Seq<(Seq<char>, u64)>, i: int, v: u64)
    requires
        distinct_keys(s),
        0 <= i < s.len(),
    ensures
        map_of(s.update(i, (s[i].0, v))) == map_of(s).insert(s[i].0, v),
        distinct_keys(s.update(i, (s[i].0, v))),
    decreases s.len(),
{
    let u = s.update(i, (s[i].0, v));
    if i == 0 {
        assert(u.drop_first() =~= s.drop_first());
        assert(map_of(u) =~= map_of(s).insert(s[i].0, v));
    } else {
        let t = s.drop_first();
        assert(u.drop_first() =~= t.update(i - 1, (t[i - 1].0, v)));
        lemma_map_of_update(t, i - 1, v);
        assert(s[0].0 != s[i].0);
        assert(map_of(u) =~= map_of(s).insert(s[i].0, v));
    }
}

/// The sum of the counts of a list of pairs.
pub open spec fn sum_counts(s: Seq<(Seq<char>, u64)>) -> nat
    decreases s.len(),
{
    if s.len() == 0 {
        0
    } else {
        s[0].1 as nat + sum_counts(s.drop_first())
    }
}

pub proof fn lemma_sum_push(s: Seq<(Seq<char>, u64)>, e: (Seq<char>, u64))
    ensures
        sum_counts(s.push(e)) == sum_counts(s) + e.1,
    decreases s.len(),
{
    if s.len() > 0 {
        assert(s.push(e).drop_first() =~= s.drop_first().push(e));
        lemma_sum_push(s.drop_first(), e);
    } else {
        assert(s.push(e).drop_first() =~= s);
    }
}

pub proof fn lemma_sum_update(s: Seq<(Seq<char>, u64)>, i: int, e: (Seq<char>, u64))
    requires
        0 <= i < s.len(),
    ensures
        sum_counts(s.update(i, e)) + s[i].1 == sum_counts(s) + e.1,
    decreases s.len(),
{
    if i == 0 {
        assert(s.update(i, e).drop_first() =~= s.drop_first());
    } else {
        assert(s.update(i, e).drop_first() =~= s.drop_first().update(i - 1, e));
        lemma_sum_update(s.drop_first(), i - 1, e);
    }
}

/// One key and its count.
struct Entry {
    key: Vec<char>,
    count: u64,
}

/// A mapping from character sequences to counts.
pub struct FreqTable {
    entries: Vec<Entry>,
}

/// Whether two character vectors hold the same characters.
fn same_chars(a: &Vec<char>, b: &Vec<char>) -> (r: bool)
    ensures
        r == (a@ == b@),
{
    if a.len() != b.len() {
        return false;
    }
    let mut i: usize = 0;
    while i < a.len()
        invariant
            a.len() == b.len(),
            i <= a.len(),
            forall|j: int| 0 <= j < i ==> a@[j] == b@[j],
        decreases a.len() - i,
    {
        if a[i] != b[i] {
            return false;
        }
        i = i + 1;
    }
    assert(a@ =~= b@);
    true
}

/// A vector with the same characters.
fn copy_chars(a: &Vec<char>) -> (r: Vec<char>)
    ensures
        r@ == a@,
{
    let mut r: Vec<char> = Vec::new();
    let mut i: usize = 0;
    while i < a.len()
        invariant
            i <= a@.len(),
            r@ == a@.take(i as int),
        decreases a@.len() - i,
    {
        r.push(a[i]);
        assert(r@ =~= a@.take(i + 1));
        i = i + 1;
    }
    assert(a@.take(i as int) =~= a@);
    r
}

impl View for FreqTable {
    type V = Map<Seq<char>, u64>;

    open spec fn view(&self) -> Map<Seq<char>, u64> {
        map_of(self.pairs())
    }
}

impl FreqTable {
    /// The entries as (key, count) pairs, in storage order.
    pub closed spec fn pairs(&self) -> Seq<(Seq<char>, u64)> {
        self.entries@.map_values(|e: Entry| (e.key@, e.count))
    }

    /// The sum of all counts in the table.
    pub open spec fn total(&self) -> nat {
        sum_counts(self.pairs())
    }

    /// Keys are pairwise distinct.
    pub open spec fn wf(&self) -> bool {
        distinct_keys(self.pairs())
    }

    /// An empty table.
    pub fn new() -> (r: FreqTable)
        ensures
            r.wf(),
            r@ == Map::<Seq<char>, u64>::empty(),
            r.pairs().len() == 0,
            r.total() == 0,
    {
        let r = FreqTable { entries: Vec::new() };
        assert(r.pairs() =~= Seq::<(Seq<char>, u64)>::empty());
        r
    }

    /// Number of distinct keys.
    pub fn len(&self) -> (r: usize)
        ensures
            r == self.pairs().len(),
    {
        self.entries.len()
    }

    /// The key of the entry at position `i`.
    pub fn key_at(&self, i: usize) -> (r: &Vec<char>)
        requires
            i < self.pairs().len(),
        ensures
            r@ == self.pairs()[i as int].0,
    {
        &self.entries[i].key
    }

    /// The count of the entry at position `i`.
    pub fn count_at(&self, i: usize) -> (r: u64)
        requires
            i < self.pairs().len(),
        ensures
            r == self.pairs()[i as int].1,
    {
        self.entries[i].count
    }

    /// A table with the same entries, in the same order.
    pub fn copy(&self) -> (r: FreqTable)
        ensures
            r.pairs() == self.pairs(),
            r@ == self@,
    {
        let mut entries: Vec<Entry> = Vec::new();
        let mut i: usize = 0;
        while i < self.entries.len()
            invariant
                i <= self.entries@.len(),
                entries@.len() == i,
                forall|j: int| 0 <= j < i ==> (#[trigger] entries@[j]).key@ == self.entries@[j].key@
                    && entries@[j].count == self.entries@[j].count,
            decreases self.entries@.len() - i,
        {
            let key = copy_chars(&self.entries[i].key);
            entries.push(Entry { key, count: self.entries[i].count });
            i = i + 1;
        }
        let r = FreqTable { entries };
        assert(r.pairs() =~= self.pairs());
        r
    }

    /// Position of the entry for `key`, if there is one.
    fn find(&self, key: &Vec<char>) -> (r: Option<usize>)
        requires
            self.wf(),
        ensures
            match r {
                Some(i) => i < self.pairs().len() && self.pairs()[i as int].0 == key@,
                None => !self@.dom().contains(key@),
            },
    {
        let mut i: usize = 0;
        while i < self.entries.len()
            invariant
                i <= self.entries@.len(),
                self.pairs().len() == self.entries@.len(),
                forall|j: int| 0 <= j < i ==> self.pairs()[j].0 != key@,
            decreases self.entries@.len() - i,
        {
            if same_chars(&self.entries[i].key, key) {
                return Some(i);
            }
            i = i + 1;
        }
        proof {
            lemma_map_of_dom(self.pairs(), key@);
        }
        None
    }

    /// The count recorded for `key`, zero if it has none.
    pub fn get(&self, key: &Vec<char>) -> (r: u64)
        requires
            self.wf(),
        ensures
            r as nat == count_of(self@, key@),
    {
        match self.find(key) {
            Some(i) => {
                proof {
                    lemma_map_of_value(self.pairs(), i as int);
                }
                self.entries[i].count
            },
            None => 0,
        }
    }

    /// Records `count` for `key`, replacing any count it had.
    pub fn set(&mut self, key: Vec<char>, count: u64)
        requires
            old(self).wf(),
        ensures
            final(self).wf(),
            final(self)@ == old(self)@.insert(key@, count),
            final(self).total() + count_of(old(self)@, key@) == old(self).total() + count,
    {
        match self.find(&key) {
            Some(i) => {
                let ghost s = self.pairs();
                proof {
                    lemma_map_of_update(s, i as int, count);
                    lemma_map_of_value(s, i as int);
                    lemma_sum_update(s, i as int, (s[i as int].0, count));
                }
                self.entries.set(i, Entry { key, count });
                assert(self.pairs() =~= s.update(i as int, (s[i as int].0, count)));
            },
            None => {
                let ghost s = self.pairs();
                let ghost k = key@;
                proof {
                    lemma_map_of_push(s, (k, count));
                    lemma_map_of_dom(s, k);
                    lemma_sum_push(s, (k, count));
                }
                self.entries.push(Entry { key, count });
                assert(self.pairs() =~= s.push((k, count)));
            },
        }
    }
}

} // verus!
