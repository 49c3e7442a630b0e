use vstd::prelude::*;

verus! {

/// A table from word to number of occurrences, held in a `hashbrown` map.
#[verifier::external_body]
pub struct WordCounts {
    map: hashbrown::HashMap<String, u32>,
}

/// The entries that a `WordCounts` table holds.
pub uninterp spec fn counts_of(c: WordCounts) -> Map<Seq<char>, u32>;

impl View for WordCounts {
    type V = Map<Seq<char>, u32>;

    open spec fn view(&self) -> Map<Seq<char>, u32> {
        counts_of(*self)
    }
}

/// The table with no entries.
pub open spec fn no_counts() -> Map<Seq<char>, u32> {
    Map::empty()
}

/// The count that `m` holds for `w`, zero where `w` is absent.
pub open spec fn count_in(m: Map<Seq<char>, u32>, w: Seq<char>) -> nat {
    if m.contains_key(w) {
        m[w] as nat
    } else {
        0
    }
}

/// Every count that `m` holds is at least one.
pub open spec fn positive_counts(m: Map<Seq<char>, u32>) -> bool {
    forall|w: Seq<char>| #[trigger] m.contains_key(w) ==> m[w] >= 1
}

/// `es` lists the entries of `m`, each exactly once.
pub open spec fn lists_entries(es: Seq<(Seq<char>, u32)>, m: Map<Seq<char>, u32>) -> bool {
    &&& forall|i: int, j: int| 0 <= i < es.len() && 0 <= j < es.len() && i != j
        ==> #[trigger] es[i].0 != #[trigger] es[j].0
    &&& forall|i: int| 0 <= i < es.len()
        ==> m.contains_key(#[trigger] es[i].0) && m[es[i].0] == es[i].1
    &&& forall|w: Seq<char>| #[trigger] m.contains_key(w) ==> exists|i: int| 0 <= i < es.len() && es[i].0 == w
}

/// `m` with `n` more occurrences of `w`.
pub open spec fn with_added(m: Map<Seq<char>, u32>, w: Seq<char>, n: u32) -> Map<Seq<char>, u32> {
    m.insert(w, (count_in(m, w) + n) as u32)
}

/// Why counting could not finish.
#[derive(Debug, Clone, Copy, PartialEq, Eq, Structural)]
pub enum CountError {
    /// A word occurs more often than a 32-bit count can hold.
    CountOverflow,
}

impl WordCounts {
    /// A well-formed table holds no zero counts.
    pub open spec fn wf(&self) -> bool {
        positive_counts(self@)
    }

    /// An empty table.
    pub fn new() -> (r: WordCounts)
        ensures
            r@ == no_counts(),
    {
        WordCounts::empty()
    }

    /// Relies on hashbrown::HashMap::new: the map starts empty.
    #[verifier::external_body]
    fn empty() -> (r: WordCounts)
        ensures
            counts_of(r) == no_counts(),
    {
        WordCounts { map: hashbrown::HashMap::new() }
    }

    /// The count of `word`, `None` where the table does not hold it.
    pub fn get(&self, word: &str) -> (r: Option<u32>)
        ensures
            match r {
                Some(c) => self@.contains_key(word@) && self@[word@] == c,
                None => !self@.contains_key(word@),
            },
    {
        self.lookup(word)
    }

    /// Relies on hashbrown::HashMap::get: the value stored under the key, if any.
    #[verifier::external_body]
    fn lookup(&self, word: &str) -> (r: Option<u32>)
        ensures
            match r {
                Some(c) => counts_of(*self).contains_key(word@) && counts_of(*self)[word@] == c,
                None => !counts_of(*self).contains_key(word@),
            },
    {
        self.map.get(word).copied()
    }

    /// Relies on hashbrown::HashMap::insert: the key afterwards maps to the
    /// new value, the other keys keep theirs.
    #[verifier::external_body]
    fn insert(&mut self, word: String, count: u32)
        ensures
            counts_of(*final(self)) == counts_of(*old(self)).insert(word@, count),
    {
        self.map.insert(word, count);
    }

    /// Relies on hashbrown::HashMap's `IntoIterator`: every entry once, in an
    /// order that the map does not fix.
    #[verifier::external_body]
    pub(crate) fn into_entries(self) -> (r: Vec<(String, u32)>)
        ensures
            lists_entries(r.deep_view(), counts_of(self)),
    {
        self.map.into_iter().collect()
    }

    /// Adds `n` occurrences of `word`; fails, leaving the table as it was,
    /// where the count would no longer fit in 32 bits.
    pub fn add(&mut self, word: String, n: u32) -> (r: Result<(), CountError>)
        requires
            old(self).wf(),
            n >= 1,
        ensures
            final(self).wf(),
            r is Ok <==> count_in(old(self)@, word@) + n <= u32::MAX,
            r is Ok ==> final(self)@ == with_added(old(self)@, word@, n),
            r is Err ==> final(self)@ == old(self)@,
    {
        let old_count: u32 = match self.lookup(word.as_str()) {
            Some(c) => c,
            None => 0,
        };
        if old_count > u32::MAX - n {
            return Err(CountError::CountOverflow);
        }
        self.insert(word, old_count + n);
        Ok(())
    }
}

} // verus!
