//! The frequency table: a mapping from token to occurrence count.
//!
//! The table is stored as two parallel vectors (distinct keys and their
//! counts) and is viewed abstractly as a `Map<Seq<char>, nat>`.  Insertion
//! order is irrelevant to the view.

use vstd::prelude::*;
use vstd::string::StrSliceExecFns;

verus! {

/// The count a table maps `k` to: its entry, or zero where it has none.
pub open spec fn count_in(m: Map<Seq<char>, nat>, k: Seq<char>) -> nat {
    if m.dom().contains(k) {
        m[k]
    } else {
        0
    }
}

/// The sum of a sequence of counts.
pub open spec fn sum_counts(s: Seq<usize>) -> nat
    decreases s.len(),
{
    if s.len() == 0 {
        0
    } else {
        (sum_counts(s.drop_last()) + s.last()) as nat
    }
}

proof fn lemma_sum_update(s: Seq<usize>, i: int, v: usize)
    requires
        0 <= i < s.len(),
    ensures
        sum_counts(s.update(i, v)) == sum_counts(s) - s[i] + v,
    decreases s.len(),
{
    if i == s.len() - 1 {
        assert(s.update(i, v).drop_last() =~= s.drop_last());
        assert(s.update(i, v).last() == v);
    } else {
        assert(s.update(i, v).drop_last() =~= s.drop_last().update(i, v));
        lemma_sum_update(s.drop_last(), i, v);
    }
}

proof fn lemma_sum_push(s: Seq<usize>, v: usize)
    ensures
        sum_counts(s.push(v)) == sum_counts(s) + v,
{
    assert(s.push(v).drop_last() =~= s);
    assert(s.push(v).last() == v);
}

proof fn lemma_elem_le_sum(s: Seq<usize>, i: int)
    requires
        0 <= i < s.len(),
    ensures
        s[i] <= sum_counts(s),
    decreases s.len(),
{
    if i < s.len() - 1 {
        lemma_elem_le_sum(s.drop_last(), i);
        assert(s.drop_last()[i] == s[i]);
    }
}

/// Character-for-character equality of two string slices.
fn str_eq(a: &str, b: &str) -> (r: bool)
    ensures
        r == (a@ == b@),
{
    let n = a.unicode_len();
    if n != b.unicode_len() {
        return false;
    }
    let mut i: usize = 0;
    while i < n
        invariant
            n == a@.len(),
            n == b@.len(),
            0 <= i <= n,
            forall|k: int| 0 <= k < i ==> a@[k] == b@[k],
        decreases n - i,
    {
        if a.get_char(i) != b.get_char(i) {
            return false;
        }
        i += 1;
    }
    proof {
        assert(a@ =~= b@);
    }
    true
}

/// A frequency table: each distinct token seen so far, with the number of
/// its occurrences.
#[derive(Debug)]
pub struct FreqTable {
    keys: Vec<String>,
    counts: Vec<usize>,
}

impl View for FreqTable {
    type V = Map<Seq<char>, nat>;

    /// The table as a mapping from token to occurrence count.
    closed spec fn view(&self) -> Map<Seq<char>, nat> {
        Map::new(
            |k: Seq<char>| self.key_views().contains(k),
            |k: Seq<char>| self.counts@[self.idx_of(k)] as nat,
        )
    }
}

impl FreqTable {
    /// The views of the stored keys, in storage order.
    pub closed spec fn key_views(&self) -> Seq<Seq<char>> {
        self.keys@.map_values(|k: String| k@)
    }

    /// The index at which a key is stored.
    closed spec fn idx_of(&self, k: Seq<char>) -> int {
        choose|i: int| 0 <= i < self.key_views().len() && self.key_views()[i] == k
    }

    /// Well-formed: one entry per distinct key.
    pub closed spec fn wf(&self) -> bool {
        &&& self.keys@.len() == self.counts@.len()
        &&& self.key_views().no_duplicates()
    }

    /// The number of token occurrences recorded: the sum of all counts.
    pub closed spec fn total(&self) -> nat {
        sum_counts(self.counts@)
    }

    /// A stored key is found again at its own index.
    proof fn lemma_idx(&self, i: int)
        requires
            self.wf(),
            0 <= i < self.key_views().len(),
        ensures
            self.idx_of(self.key_views()[i]) == i,
    {
        let k = self.key_views()[i];
        assert(0 <= i < self.key_views().len() && self.key_views()[i] == k);
        let j = self.idx_of(k);
        assert(0 <= j < self.key_views().len() && self.key_views()[j] == k);
    }

    /// An empty table: no keys, no counts.
    pub fn new() -> (t: FreqTable)
        ensures
            t.wf(),
            t@ == Map::<Seq<char>, nat>::empty(),
            t.total() == 0,
    {
        let t = FreqTable { keys: Vec::new(), counts: Vec::new() };
        proof {
            assert(t@ =~= Map::<Seq<char>, nat>::empty());
        }
        t
    }

    /// The index holding `key`, if any.
    fn find(&self, key: &str) -> (r: Option<usize>)
        requires
            self.wf(),
        ensures
            match r {
                Some(i) => 0 <= i < self.key_views().len() && self.key_views()[i as int] == key@,
                None => !self.key_views().contains(key@),
            },
    {
        let mut i: usize = 0;
        while i < self.keys.len()
            invariant
                self.wf(),
                0 <= i <= self.keys@.len(),
                forall|k: int| 0 <= k < i ==> self.key_views()[k] != key@,
            decreases self.keys@.len() - i,
        {
            if str_eq(self.keys[i].as_str(), key) {
                return Some(i);
            }
            i += 1;
        }
        None
    }

    /// Record one more occurrence of `token`: its count rises by exactly
    /// one, every other entry is unchanged.
    pub fn increment(&mut self, token: String)
        requires
            old(self).wf(),
            old(self).total() < usize::MAX,
        ensures
            final(self).wf(),
            final(self)@ == old(self)@.insert(token@, count_in(old(self)@, token@) + 1),
            final(self).total() == old(self).total() + 1,
    {
        let target = Ghost(old(self)@.insert(token@, count_in(old(self)@, token@) + 1));
        match self.find(token.as_str()) {
            Some(i) => {
                proof {
                    lemma_elem_le_sum(self.counts@, i as int);
                }
                let c = self.counts[i];
                self.counts[i] = c + 1;
                proof {
                    lemma_sum_update(old(self).counts@, i as int, (c + 1) as usize);
                    old(self).lemma_idx(i as int);
                    assert forall|k: Seq<char>| #[trigger]
                        self.key_views().contains(k) implies self.counts@[self.idx_of(k)] as nat
                        == target@[k] by {
                        let j = choose|j: int|
                            0 <= j < self.key_views().len() && self.key_views()[j] == k;
                        self.lemma_idx(j);
                        old(self).lemma_idx(j);
                    }
                    assert(self@ =~= target@);
                }
            },
            None => {
                self.keys.push(token);
                self.counts.push(1);
                proof {
                    lemma_sum_push(old(self).counts@, 1);
                    assert(self.key_views() =~= old(self).key_views().push(token@));
                    assert forall|i: int, j: int|
                        0 <= i < self.key_views().len() && 0 <= j < self.key_views().len() && i
                            != j implies self.key_views()[i] != self.key_views()[j] by {
                        if i < old(self).key_views().len() && j < old(self).key_views().len() {
                        } else if i == old(self).key_views().len() {
                            assert(old(self).key_views()[j] != token@);
                        } else if j == old(self).key_views().len() {
                            assert(old(self).key_views()[i] != token@);
                        }
                    }
                    assert forall|k: Seq<char>| #[trigger]
                        self.key_views().contains(k) implies self.counts@[self.idx_of(k)] as nat
                        == target@[k] by {
                        let j = choose|j: int|
                            0 <= j < self.key_views().len() && self.key_views()[j] == k;
                        self.lemma_idx(j);
                        if j < old(self).key_views().len() {
                            old(self).lemma_idx(j);
                        }
                    }
                    assert forall|k: Seq<char>| #[trigger]
                        target@.dom().contains(k) implies self.key_views().contains(k) by {
                        if k == token@ {
                            assert(self.key_views()[old(self).key_views().len() as int] == k);
                        } else {
                            let j = choose|j: int|
                                0 <= j < old(self).key_views().len() && old(self).key_views()[j]
                                    == k;
                            assert(self.key_views()[j] == k);
                        }
                    }
                    assert(self@ =~= target@);
                }
            },
        }
    }

    /// The count recorded for `key`: zero where the table has no entry.
    pub fn get(&self, key: &str) -> (r: usize)
        requires
            self.wf(),
        ensures
            r as nat == count_in(self@, key@),
    {
        match self.find(key) {
            Some(i) => {
                proof {
                    let j = choose|j: int|
                        0 <= j < self.key_views().len() && self.key_views()[j] == key@;
                    self.lemma_idx(j);
                    self.lemma_idx(i as int);
                }
                self.counts[i]
            },
            None => 0,
        }
    }

    /// The number of distinct keys in the table.
    pub fn len(&self) -> (r: usize)
        requires
            self.wf(),
        ensures
            r as nat == self@.dom().len(),
    {
        proof {
            self.key_views().unique_seq_to_set();
            assert(self@.dom() =~= self.key_views().to_set());
        }
        self.keys.len()
    }

    /// The distinct keys of the table, in first-seen order.
    pub fn key_list(&self) -> (r: &Vec<String>)
        ensures
            r@.map_values(|k: String| k@) == self.key_views(),
    {
        &self.keys
    }
}

} // verus!
