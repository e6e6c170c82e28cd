//! The gram table: counts of 1-, 2- and 3-grams over the characters pushed,
//! with the window of the last two characters.
//!
//! Before two characters have been pushed the window holds the sentinel
//! `'\0'`, and grams that contain it are recorded like any other.
use vstd::prelude::*;
use crate::table::{FreqTable, count_of};
use crate::codec::{FormatError, decode, decoding, encode, encoding, lemma_round_trip};

verus! {

/// The character that fills the window before anything was pushed.
pub const SENTINEL: char = '\0';

/// A count would pass the largest 64-bit value.
#[derive(Clone, Copy, Debug, PartialEq, Eq, Structural)]
pub struct CountOverflow;

/// `m` with the count of `k` raised by one.
pub open spec fn bumped(m: Map<Seq<char>, u64>, k: Seq<char>) -> Map<Seq<char>, u64> {
    m.insert(k, (count_of(m, k) + 1) as u64)
}

/// The count of `k` in `m` cannot be raised.
pub open spec fn saturated(m: Map<Seq<char>, u64>, k: Seq<char>) -> bool {
    count_of(m, k) >= u64::MAX
}

/// What a stored text, or its absence, restores: no text gives an empty
/// mapping.
pub open spec fn loaded(t: Option<&str>) -> Result<Map<Seq<char>, u64>, FormatError> {
    match t {
        Some(s) => decoding(s@),
        None => Ok(Map::empty()),
    }
}

/// `after` is `before` with `c` counted: each of the three grams ending in
/// `c` counted once more, each table's total one higher, and the window
/// moved on by `c`.
pub open spec fn pushed(before: Log, c: char, after: Log) -> bool {
    &&& after.wf()
    &&& after.ones() == bumped(before.ones(), seq![c])
    &&& after.twos() == bumped(before.twos(), seq![before.newer(), c])
    &&& after.threes() == bumped(before.threes(), seq![before.older(), before.newer(), c])
    &&& after.older() == before.newer()
    &&& after.newer() == c
    &&& after.unigram_table().total() == before.unigram_table().total() + 1
    &&& after.bigram_table().total() == before.bigram_table().total() + 1
    &&& after.trigram_table().total() == before.trigram_table().total() + 1
}

/// The three n-gram tables and the window.
pub struct Log {
    unigrams: FreqTable,
    bigrams: FreqTable,
    trigrams: FreqTable,
    older: char,
    newer: char,
}

impl Log {
    pub closed spec fn unigram_table(&self) -> FreqTable {
        self.unigrams
    }

    pub closed spec fn bigram_table(&self) -> FreqTable {
        self.bigrams
    }

    pub closed spec fn trigram_table(&self) -> FreqTable {
        self.trigrams
    }

    /// The older of the two last characters pushed.
    pub closed spec fn older(&self) -> char {
        self.older
    }

    /// The last character pushed.
    pub closed spec fn newer(&self) -> char {
        self.newer
    }

    pub open spec fn ones(&self) -> Map<Seq<char>, u64> {
        self.unigram_table()@
    }

    pub open spec fn twos(&self) -> Map<Seq<char>, u64> {
        self.bigram_table()@
    }

    pub open spec fn threes(&self) -> Map<Seq<char>, u64> {
        self.trigram_table()@
    }

    pub open spec fn wf(&self) -> bool {
        &&& self.unigram_table().wf()
        &&& self.bigram_table().wf()
        &&& self.trigram_table().wf()
    }

    /// An empty table with a fresh window.
    pub fn new() -> (r: Log)
        ensures
            r.wf(),
            r.ones() == Map::<Seq<char>, u64>::empty(),
            r.twos() == Map::<Seq<char>, u64>::empty(),
            r.threes() == Map::<Seq<char>, u64>::empty(),
            r.older() == SENTINEL,
            r.newer() == SENTINEL,
    {
        Log {
            unigrams: FreqTable::new(),
            bigrams: FreqTable::new(),
            trigrams: FreqTable::new(),
            older: SENTINEL,
            newer: SENTINEL,
        }
    }

    /// A table holding the given counts, with a fresh window.
    pub fn from_tables(unigrams: FreqTable, bigrams: FreqTable, trigrams: FreqTable) -> (r: Log)
        requires
            unigrams.wf(),
            bigrams.wf(),
            trigrams.wf(),
        ensures
            r.wf(),
            r.ones() == unigrams@,
            r.twos() == bigrams@,
            r.threes() == trigrams@,
            r.older() == SENTINEL,
            r.newer() == SENTINEL,
    {
        Log { unigrams, bigrams, trigrams, older: SENTINEL, newer: SENTINEL }
    }

    /// Counts `c`: the 1-gram `[c]`, the 2-gram ending in `c` and the
    /// 3-gram ending in `c` each go up by one, and `c` enters the window.
    /// Where one of the three counts is already at the largest value,
    /// nothing changes and `CountOverflow` is returned.
    pub fn push(&mut self, c: char) -> (r: Result<(), CountOverflow>)
        requires
            old(self).wf(),
        ensures
            final(self).wf(),
            r is Err <==> (saturated(old(self).ones(), seq![c]) || saturated(
                old(self).twos(),
                seq![old(self).newer(), c],
            ) || saturated(old(self).threes(), seq![old(self).older(), old(self).newer(), c])),
            r is Err ==> *final(self) == *old(self),
            r is Ok ==> pushed(*old(self), c, *final(self)),
    {
        let k1: Vec<char> = vec![c];
        let k2: Vec<char> = vec![self.newer, c];
        let k3: Vec<char> = vec![self.older, self.newer, c];
        assert(k1@ =~= seq![c]);
        assert(k2@ =~= seq![self.newer, c]);
        assert(k3@ =~= seq![self.older, self.newer, c]);
        let n1 = self.unigrams.get(&k1);
        let n2 = self.bigrams.get(&k2);
        let n3 = self.trigrams.get(&k3);
        if n1 == u64::MAX || n2 == u64::MAX || n3 == u64::MAX {
            return Err(CountOverflow);
        }
        self.unigrams.set(k1, n1 + 1);
        self.bigrams.set(k2, n2 + 1);
        self.trigrams.set(k3, n3 + 1);
        self.older = self.newer;
        self.newer = c;
        Ok(())
    }

    /// Copies of the three tables, which later pushes leave as they are.
    pub fn snapshot(&self) -> (r: (FreqTable, FreqTable, FreqTable))
        ensures
            r.0.pairs() == self.unigram_table().pairs(),
            r.1.pairs() == self.bigram_table().pairs(),
            r.2.pairs() == self.trigram_table().pairs(),
            r.0@ == self.ones(),
            r.1@ == self.twos(),
            r.2@ == self.threes(),
    {
        (self.unigrams.copy(), self.bigrams.copy(), self.trigrams.copy())
    }

    /// The texts that a checkpoint stores: the encodings of the 1-, 2- and
    /// 3-gram tables.
    pub fn checkpoint_texts(&self) -> (r: (String, String, String))
        ensures
            r.0@ == encoding(&self.unigram_table()),
            r.1@ == encoding(&self.bigram_table()),
            r.2@ == encoding(&self.trigram_table()),
    {
        (encode(&self.unigrams), encode(&self.bigrams), encode(&self.trigrams))
    }

    /// Restores a table from the stored texts of the 1-, 2- and 3-gram
    /// tables, where a missing text stands for an empty table. The window
    /// starts fresh. The first text that is malformed gives the error.
    pub fn restore(t1: Option<&str>, t2: Option<&str>, t3: Option<&str>) -> (r: Result<
        Log,
        FormatError,
    >)
        ensures
            match r {
                Ok(g) => {
                    &&& g.wf()
                    &&& loaded(t1) == Ok::<Map<Seq<char>, u64>, FormatError>(g.ones())
                    &&& loaded(t2) == Ok::<Map<Seq<char>, u64>, FormatError>(g.twos())
                    &&& loaded(t3) == Ok::<Map<Seq<char>, u64>, FormatError>(g.threes())
                    &&& g.older() == SENTINEL
                    &&& g.newer() == SENTINEL
                },
                Err(e) => {
                    ||| loaded(t1) == Err::<Map<Seq<char>, u64>, FormatError>(e)
                    ||| (loaded(t1) is Ok && loaded(t2) == Err::<Map<Seq<char>, u64>, FormatError>(
                        e,
                    ))
                    ||| (loaded(t1) is Ok && loaded(t2) is Ok && loaded(t3) == Err::<
                        Map<Seq<char>, u64>,
                        FormatError,
                    >(e))
                },
            },
    {
        let u = load_one(t1)?;
        let b = load_one(t2)?;
        let t = load_one(t3)?;
        Ok(Log::from_tables(u, b, t))
    }
}

/// One stored table, or an empty one where there is no text.
fn load_one(t: Option<&str>) -> (r: Result<FreqTable, FormatError>)
    ensures
        match r {
            Ok(table) => table.wf() && loaded(t) == Ok::<Map<Seq<char>, u64>, FormatError>(
                table@,
            ),
            Err(e) => loaded(t) == Err::<Map<Seq<char>, u64>, FormatError>(e),
        },
{
    match t {
        Some(s) => decode(s),
        None => Ok(FreqTable::new()),
    }
}

/// Storing a checkpoint and restoring from it gives back the same counts
/// in all three tables.
pub proof fn lemma_checkpoint_restore(g: &Log)
    requires
        g.wf(),
    ensures
        decoding(encoding(&g.unigram_table())) == Ok::<Map<Seq<char>, u64>, FormatError>(g.ones()),
        decoding(encoding(&g.bigram_table())) == Ok::<Map<Seq<char>, u64>, FormatError>(g.twos()),
        decoding(encoding(&g.trigram_table())) == Ok::<Map<Seq<char>, u64>, FormatError>(
            g.threes(),
        ),
{
    lemma_round_trip(&g.unigram_table());
    lemma_round_trip(&g.bigram_table());
    lemma_round_trip(&g.trigram_table());
}

/// Over a run of pushes, each of the three tables' totals grows by the
/// number of characters pushed; from a fresh table the sum of the 1-gram
/// counts is the number of characters pushed so far.
pub proof fn lemma_totals_count_pushes(states: Seq<Log>, chars: Seq<char>)
    requires
        states.len() == chars.len() + 1,
        forall|i: int| 0 <= i < chars.len() ==> pushed(#[trigger] states[i], chars[i], states[i + 1]),
    ensures
        states.last().unigram_table().total() == states[0].unigram_table().total() + chars.len(),
        states.last().bigram_table().total() == states[0].bigram_table().total() + chars.len(),
        states.last().trigram_table().total() == states[0].trigram_table().total() + chars.len(),
    decreases chars.len(),
{
    if chars.len() > 0 {
        let n = chars.len() - 1;
        let s = states.drop_last();
        assert forall|i: int| 0 <= i < n implies pushed(#[trigger] s[i], chars.drop_last()[i], s[i + 1]) by {
            assert(pushed(states[i], chars[i], states[i + 1]));
        }
        lemma_totals_count_pushes(s, chars.drop_last());
        assert(pushed(states[n], chars[n], states[n + 1]));
    }
}

} // verus!
