//! The sorted byte-keyed store backing one table: entries kept in strictly
//! ascending lexicographic key order, plus the table's sequence counter.

use vstd::prelude::*;
use vstd::slice::slice_to_vec;

use crate::bytes::{
    cmp_bytes, lemma_lex_lt_irrefl, lemma_lex_lt_trans, lemma_lex_lt_trichotomy, lex_le, lex_lt,
    Cmp,
};

verus! {

/// One key/value pair of a table.
pub struct Entry {
    pub key: Vec<u8>,
    pub val: Vec<u8>,
}

/// The contents of one table: entries sorted strictly ascending by
/// byte-lexicographic key, and a 64-bit sequence counter.
pub struct Tree {
    pub entries: Vec<Entry>,
    pub sequence: u64,
}

impl Tree {
    /// Number of entries.
    pub open spec fn len_spec(self) -> int {
        self.entries@.len() as int
    }

    /// The key of the entry at index `i`.
    pub open spec fn key_at(self, i: int) -> Seq<u8> {
        self.entries@[i].key@
    }

    /// The value of the entry at index `i`.
    pub open spec fn val_at(self, i: int) -> Seq<u8> {
        self.entries@[i].val@
    }

    /// The entries as a sequence of key/value pairs, in storage order.
    pub open spec fn kv_seq(self) -> Seq<(Seq<u8>, Seq<u8>)> {
        Seq::new(self.entries@.len(), |i: int| (self.key_at(i), self.val_at(i)))
    }

    /// Entries are sorted strictly ascending by key.
    pub open spec fn wf(self) -> bool {
        forall|i: int, j: int|
            0 <= i < j < self.len_spec() ==> lex_lt(self.key_at(i), self.key_at(j))
    }

    /// Whether some entry holds this key.
    pub open spec fn contains_key(self, k: Seq<u8>) -> bool {
        exists|i: int| 0 <= i < self.len_spec() && self.key_at(i) == k
    }

    /// The index of the entry holding key `k` (meaningful when present).
    pub open spec fn index_of(self, k: Seq<u8>) -> int {
        choose|i: int| 0 <= i < self.len_spec() && self.key_at(i) == k
    }

    /// The stored value under key `k` (meaningful when present).
    pub open spec fn value_of(self, k: Seq<u8>) -> Seq<u8> {
        self.val_at(self.index_of(k))
    }

    /// The table contents as a map from key to value.
    pub open spec fn as_map(self) -> Map<Seq<u8>, Seq<u8>> {
        Map::new(|k: Seq<u8>| self.contains_key(k), |k: Seq<u8>| self.value_of(k))
    }

    /// In a sorted table every key names at most one entry.
    pub proof fn lemma_key_unique(self, i: int, j: int)
        requires
            self.wf(),
            0 <= i < self.len_spec(),
            0 <= j < self.len_spec(),
            self.key_at(i) == self.key_at(j),
        ensures
            i == j,
    {
        if i < j {
            lemma_lex_lt_irrefl(self.key_at(i));
        }
        if j < i {
            lemma_lex_lt_irrefl(self.key_at(i));
        }
    }

    /// The entry at a valid index is the one `index_of` names for its key.
    pub proof fn lemma_index_of_at(self, i: int)
        requires
            self.wf(),
            0 <= i < self.len_spec(),
        ensures
            self.contains_key(self.key_at(i)),
            self.index_of(self.key_at(i)) == i,
            self.as_map()[self.key_at(i)] == self.val_at(i),
    {
        assert(self.contains_key(self.key_at(i)));
        self.lemma_key_unique(i, self.index_of(self.key_at(i)));
    }

    /// An empty table.
    pub fn new() -> (r: Tree)
        ensures
            r.wf(),
            r.len_spec() == 0,
            r.as_map() == Map::<Seq<u8>, Seq<u8>>::empty(),
            r.sequence == 0,
    {
        let r = Tree { entries: Vec::new(), sequence: 0 };
        proof {
            assert(r.as_map() =~= Map::<Seq<u8>, Seq<u8>>::empty());
        }
        r
    }

    /// Number of entries.
    pub fn count(&self) -> (r: usize)
        ensures
            r == self.len_spec(),
    {
        self.entries.len()
    }

    /// A copy of the key/value pair stored at index `i`.
    pub fn pair_at(&self, i: usize) -> (r: (Vec<u8>, Vec<u8>))
        requires
            i < self.len_spec(),
        ensures
            r.0@ == self.key_at(i as int),
            r.1@ == self.val_at(i as int),
    {
        let e = &self.entries[i];
        (slice_to_vec(e.key.as_slice()), slice_to_vec(e.val.as_slice()))
    }

    /// The index of the first entry whose key is greater than or equal to
    /// `key`, or the number of entries when every key is smaller. This is the
    /// seek primitive every bounded iterator starts from.
    pub fn seek(&self, key: &[u8]) -> (r: usize)
        requires
            self.wf(),
        ensures
            0 <= r <= self.len_spec(),
            forall|i: int| 0 <= i < r ==> lex_lt(self.key_at(i), key@),
            r < self.len_spec() ==> lex_le(key@, self.key_at(r as int)),
    {
        let n = self.entries.len();
        let mut i: usize = 0;
        while i < n
            invariant
                0 <= i <= n,
                n == self.len_spec(),
                self.wf(),
                forall|j: int| 0 <= j < i ==> lex_lt(self.key_at(j), key@),
            decreases n - i,
        {
            let c = cmp_bytes(self.entries[i].key.as_slice(), key);
            if !matches!(c, Cmp::Lt) {
                proof {
                    lemma_lex_lt_trichotomy(key@, self.key_at(i as int));
                }
                return i;
            }
            i = i + 1;
        }
        i
    }

    /// Whether an entry with exactly this key exists, and its index.
    pub fn find(&self, key: &[u8]) -> (r: Option<usize>)
        requires
            self.wf(),
        ensures
            match r {
                Some(i) => {
                    &&& i < self.len_spec()
                    &&& self.key_at(i as int) == key@
                    &&& self.contains_key(key@)
                    &&& self.index_of(key@) == i as int
                },
                None => !self.contains_key(key@),
            },
    {
        let i = self.seek(key);
        if i < self.entries.len() {
            let c = cmp_bytes(self.entries[i].key.as_slice(), key);
            if matches!(c, Cmp::Eq) {
                proof {
                    self.lemma_index_of_at(i as int);
                }
                return Some(i);
            }
        }
        proof {
            if self.contains_key(key@) {
                let w = self.index_of(key@);
                assert(0 <= w < self.len_spec() && self.key_at(w) == key@);
                lemma_lex_lt_irrefl(key@);
                if w < i as int {
                    assert(lex_lt(self.key_at(w), key@));
                } else if (i as int) < self.len_spec() {
                    // key <= key_at(i) and key_at(i) != key, so key < key_at(i) <= key_at(w)
                    if (i as int) < w {
                        lemma_lex_lt_trans(key@, self.key_at(i as int), self.key_at(w));
                    }
                }
            }
        }
        None
    }

    /// The stored value under `key`, if any.
    pub fn lookup(&self, key: &[u8]) -> (r: Option<Vec<u8>>)
        requires
            self.wf(),
        ensures
            match r {
                Some(v) => self.contains_key(key@) && v@ == self.as_map()[key@],
                None => !self.contains_key(key@),
            },
    {
        match self.find(key) {
            Some(i) => Some(slice_to_vec(self.entries[i].val.as_slice())),
            None => None,
        }
    }

    /// Insert `key -> val`, replacing any entry already under `key`.
    pub fn insert(&mut self, key: Vec<u8>, val: Vec<u8>)
        requires
            old(self).wf(),
        ensures
            final(self).wf(),
            final(self).as_map() == old(self).as_map().insert(key@, val@),
            final(self).sequence == old(self).sequence,
            final(self).len_spec() == old(self).len_spec() + (if old(self).contains_key(key@) {
                0int
            } else {
                1int
            }),
    {
        let ghost orig = *old(self);
        let ghost gk = key@;
        let ghost gv = val@;
        let had = self.remove_key(key.as_slice());
        let ghost mid = *self;
        let i = self.seek(key.as_slice());
        proof {
            assert(!orig.as_map().remove(gk).dom().contains(gk));
            assert(!mid.contains_key(gk)) by {
                if mid.contains_key(gk) {
                    assert(mid.as_map().dom().contains(gk));
                }
            }
            if (i as int) < mid.len_spec() {
                lemma_lex_lt_trichotomy(gk, mid.key_at(i as int));
                if gk == mid.key_at(i as int) {
                    assert(mid.contains_key(gk));
                }
                assert(lex_lt(gk, mid.key_at(i as int)));
            }
        }
        let ghost ge = Entry { key: key, val: val };
        self.entries.insert(i, Entry { key, val });
        proof {
            mid.entries@.insert_ensures(i as int, ge);
            assert(self.entries@ == mid.entries@.insert(i as int, ge));
            assert(forall|j: int|
                0 <= j < i ==> self.key_at(j) == mid.key_at(j) && self.val_at(j) == mid.val_at(j));
            assert(self.key_at(i as int) == gk && self.val_at(i as int) == gv);
            assert forall|j: int| i < j < self.len_spec() implies self.key_at(j) == mid.key_at(
                j - 1,
            ) && self.val_at(j) == mid.val_at(j - 1) by {
                assert(mid.entries@.insert(i as int, ge)[(j - 1) + 1] == mid.entries@[j - 1]);
            }
            assert forall|a: int, b: int| 0 <= a < b < self.len_spec() implies lex_lt(
                self.key_at(a),
                self.key_at(b),
            ) by {
                if b < i {
                    assert(lex_lt(mid.key_at(a), mid.key_at(b)));
                } else if a < i && b == i as int {
                    assert(lex_lt(mid.key_at(a), gk));
                } else if a == i as int && b > i {
                    assert(lex_lt(gk, mid.key_at(i as int)));
                    if (i as int) < b - 1 {
                        assert(lex_lt(mid.key_at(i as int), mid.key_at(b - 1)));
                        lemma_lex_lt_trans(gk, mid.key_at(i as int), mid.key_at(b - 1));
                    }
                } else if a < i && b > i {
                    assert(a < b - 1);
                    assert(lex_lt(mid.key_at(a), mid.key_at(b - 1)));
                } else {
                    assert(i < a && i < b);
                    assert(lex_lt(mid.key_at(a - 1), mid.key_at(b - 1)));
                }
            }
            assert(self.wf());
            self.lemma_as_map_insert_grow(mid, i as int, gk, gv);
            assert(orig.as_map().remove(gk).insert(gk, gv) =~= orig.as_map().insert(gk, gv));
        }
    }

    /// After inserting a fresh entry `(k, v)` at position `i`, the map view
    /// is `prev`'s with `k` bound to `v`.
    proof fn lemma_as_map_insert_grow(self, prev: Tree, i: int, k: Seq<u8>, v: Seq<u8>)
        requires
            prev.wf(),
            self.wf(),
            0 <= i <= prev.len_spec(),
            self.len_spec() == prev.len_spec() + 1,
            self.key_at(i) == k,
            self.val_at(i) == v,
            forall|j: int| 0 <= j < i ==> self.key_at(j) == prev.key_at(j),
            forall|j: int| 0 <= j < i ==> self.val_at(j) == prev.val_at(j),
            forall|j: int| i < j < self.len_spec() ==> self.key_at(j) == prev.key_at(j - 1),
            forall|j: int| i < j < self.len_spec() ==> self.val_at(j) == prev.val_at(j - 1),
        ensures
            self.as_map() == prev.as_map().insert(k, v),
    {
        assert forall|q: Seq<u8>| self.contains_key(q) <==> (q == k || prev.contains_key(q)) by {
            if self.contains_key(q) {
                let w = self.index_of(q);
                if w != i {
                    if w < i {
                        assert(prev.key_at(w) == q);
                    } else {
                        assert(prev.key_at(w - 1) == q);
                    }
                }
            }
            if prev.contains_key(q) {
                let w = prev.index_of(q);
                if w < i {
                    assert(self.key_at(w) == q);
                } else {
                    assert(self.key_at(w + 1) == q);
                }
            }
        }
        assert forall|q: Seq<u8>| #[trigger] self.contains_key(q) implies self.as_map()[q]
            == prev.as_map().insert(k, v)[q] by {
            let w = self.index_of(q);
            self.lemma_index_of_at(w);
            if q == k {
                self.lemma_key_unique(w, i);
            } else {
                assert(w != i);
                if w < i {
                    prev.lemma_index_of_at(w);
                } else {
                    prev.lemma_index_of_at(w - 1);
                }
            }
        }
        assert(self.as_map() =~= prev.as_map().insert(k, v));
    }

    /// Remove the entry under `key` if present; reports whether one existed.
    pub fn remove_key(&mut self, key: &[u8]) -> (r: bool)
        requires
            old(self).wf(),
        ensures
            final(self).wf(),
            r == old(self).contains_key(key@),
            final(self).as_map() == old(self).as_map().remove(key@),
            final(self).sequence == old(self).sequence,
            final(self).len_spec() == old(self).len_spec() - (if r {
                1int
            } else {
                0int
            }),
            !r ==> *final(self) == *old(self),
    {
        let ghost old_self = *old(self);
        match self.find(key) {
            Some(i) => {
                self.remove_at(i);
                true
            },
            None => {
                proof {
                    assert(self.as_map() =~= old_self.as_map().remove(key@));
                }
                false
            },
        }
    }

    /// Remove the entry at index `i`.
    pub fn remove_at(&mut self, i: usize)
        requires
            old(self).wf(),
            i < old(self).len_spec(),
        ensures
            final(self).wf(),
            final(self).len_spec() == old(self).len_spec() - 1,
            final(self).kv_seq() == old(self).kv_seq().remove(i as int),
            final(self).as_map() == old(self).as_map().remove(old(self).key_at(i as int)),
            final(self).sequence == old(self).sequence,
    {
        let ghost old_self = *old(self);
        self.entries.remove(i);
        proof {
            old_self.lemma_index_of_at(i as int);
            old_self.entries@.remove_ensures(i as int);
            assert(self.entries@ == old_self.entries@.remove(i as int));
            assert(forall|j: int|
                0 <= j < i ==> self.key_at(j) == old_self.key_at(j) && self.val_at(j)
                    == old_self.val_at(j));
            assert(forall|j: int|
                i <= j < self.len_spec() ==> self.key_at(j) == old_self.key_at(j + 1)
                    && self.val_at(j) == old_self.val_at(j + 1));
            assert forall|a: int, b: int| 0 <= a < b < self.len_spec() implies lex_lt(
                self.key_at(a),
                self.key_at(b),
            ) by {
                if b < i {
                    assert(lex_lt(old_self.key_at(a), old_self.key_at(b)));
                } else if a < i {
                    assert(lex_lt(old_self.key_at(a), old_self.key_at(b + 1)));
                } else {
                    assert(lex_lt(old_self.key_at(a + 1), old_self.key_at(b + 1)));
                }
            }
            assert(self.wf());
            self.lemma_as_map_remove(old_self, i as int, old_self.key_at(i as int));
            assert(self.kv_seq() =~= old_self.kv_seq().remove(i as int));
        }
    }

    /// After deleting the entry at `i` of `prev` whose key was `k`, the map
    /// view is `prev`'s without `k`.
    proof fn lemma_as_map_remove(self, prev: Tree, i: int, k: Seq<u8>)
        requires
            prev.wf(),
            self.wf(),
            0 <= i < prev.len_spec(),
            self.len_spec() == prev.len_spec() - 1,
            prev.key_at(i) == k,
            forall|j: int|
                0 <= j < i ==> self.key_at(j) == prev.key_at(j) && self.val_at(j) == prev.val_at(j),
            forall|j: int|
                i <= j < self.len_spec() ==> self.key_at(j) == prev.key_at(j + 1) && self.val_at(j)
                    == prev.val_at(j + 1),
        ensures
            self.as_map() == prev.as_map().remove(k),
    {
        assert forall|q: Seq<u8>| self.contains_key(q) <==> (prev.contains_key(q) && q != k) by {
            if self.contains_key(q) {
                let w = self.index_of(q);
                if w < i {
                    assert(prev.key_at(w) == q);
                    if q == k {
                        prev.lemma_key_unique(w, i);
                    }
                } else {
                    assert(prev.key_at(w + 1) == q);
                    if q == k {
                        prev.lemma_key_unique(w + 1, i);
                    }
                }
            }
            if prev.contains_key(q) && q != k {
                let w = prev.index_of(q);
                assert(prev.key_at(w) == q);
                assert(w != i);
                if w < i {
                    assert(self.key_at(w) == q);
                } else {
                    assert(self.key_at(w - 1) == q);
                }
            }
        }
        assert forall|q: Seq<u8>| #[trigger] self.contains_key(q) implies self.as_map()[q]
            == prev.as_map().remove(k)[q] by {
            let w = self.index_of(q);
            self.lemma_index_of_at(w);
            if w < i {
                prev.lemma_index_of_at(w);
            } else {
                prev.lemma_index_of_at(w + 1);
            }
        }
        assert(self.as_map() =~= prev.as_map().remove(k));
    }

    /// Drop every entry; the sequence counter is kept.
    pub fn clear_all(&mut self)
        ensures
            final(self).wf(),
            final(self).len_spec() == 0,
            final(self).as_map() == Map::<Seq<u8>, Seq<u8>>::empty(),
            final(self).sequence == old(self).sequence,
    {
        self.entries.clear();
        proof {
            assert(self.as_map() =~= Map::<Seq<u8>, Seq<u8>>::empty());
        }
    }

    /// Two tables hold the same data: same pairs in the same order, same
    /// sequence counter.
    pub open spec fn same_data(self, other: Tree) -> bool {
        self.kv_seq() == other.kv_seq() && self.sequence == other.sequence
    }

    /// Tables with the same data agree on well-formedness and on their map
    /// view.
    pub proof fn lemma_same_data(self, other: Tree)
        requires
            self.same_data(other),
        ensures
            self.wf() == other.wf(),
            self.wf() ==> self.as_map() == other.as_map(),
    {
        assert(self.kv_seq().len() == other.kv_seq().len());
        assert(self.len_spec() == other.len_spec());
        assert forall|i: int| 0 <= i < self.len_spec() implies self.key_at(i) == other.key_at(i)
            && self.val_at(i) == other.val_at(i) by {
            assert(self.kv_seq()[i] == other.kv_seq()[i]);
        }
        if self.wf() {
            assert(other.wf());
            assert forall|q: Seq<u8>| self.contains_key(q) == other.contains_key(q) by {
                if self.contains_key(q) {
                    let w = self.index_of(q);
                    assert(other.key_at(w) == q);
                }
                if other.contains_key(q) {
                    let w = other.index_of(q);
                    assert(self.key_at(w) == q);
                }
            }
            assert forall|q: Seq<u8>| #[trigger] self.contains_key(q) implies self.as_map()[q]
                == other.as_map()[q] by {
                let w = self.index_of(q);
                self.lemma_index_of_at(w);
                other.lemma_index_of_at(w);
            }
            assert(self.as_map() =~= other.as_map());
        }
        if other.wf() {
            assert(self.wf());
        }
    }

    /// An independent copy holding the same data.
    pub fn duplicate(&self) -> (r: Tree)
        ensures
            r.same_data(*self),
    {
        let mut entries: Vec<Entry> = Vec::new();
        let n = self.entries.len();
        let mut i: usize = 0;
        while i < n
            invariant
                0 <= i <= n,
                n == self.len_spec(),
                entries@.len() == i,
                forall|j: int|
                    0 <= j < i ==> entries@[j].key@ == self.key_at(j) && entries@[j].val@
                        == self.val_at(j),
            decreases n - i,
        {
            let e = &self.entries[i];
            entries.push(
                Entry { key: slice_to_vec(e.key.as_slice()), val: slice_to_vec(e.val.as_slice()) },
            );
            i = i + 1;
        }
        let r = Tree { entries, sequence: self.sequence };
        proof {
            assert(r.kv_seq() =~= self.kv_seq());
        }
        r
    }

    /// A table whose every adjacent pair of keys is ordered is sorted
    /// throughout.
    pub proof fn lemma_adjacent_sorted(self, i: int, j: int)
        requires
            forall|m: int|
                0 <= m < self.len_spec() - 1 ==> lex_lt(
                    #[trigger] self.key_at(m),
                    self.key_at(m + 1),
                ),
            0 <= i < j < self.len_spec(),
        ensures
            lex_lt(self.key_at(i), self.key_at(j)),
        decreases j - i,
    {
        if j == i + 1 {
            assert(lex_lt(self.key_at(i), self.key_at(i + 1)));
        } else {
            self.lemma_adjacent_sorted(i, j - 1);
            assert(lex_lt(self.key_at(j - 1), self.key_at(j)));
            lemma_lex_lt_trans(self.key_at(i), self.key_at(j - 1), self.key_at(j));
        }
    }

    /// Whether the entries are sorted strictly ascending, decided at run
    /// time.
    pub fn check_wf(&self) -> (r: bool)
        ensures
            r == self.wf(),
    {
        let n = self.entries.len();
        if n == 0 {
            return true;
        }
        let mut i: usize = 0;
        while i < n - 1
            invariant
                n == self.len_spec(),
                n >= 1,
                0 <= i <= n - 1,
                forall|m: int|
                    0 <= m < i ==> lex_lt(#[trigger] self.key_at(m), self.key_at(m + 1)),
            decreases n - i,
        {
            let c = cmp_bytes(self.entries[i].key.as_slice(), self.entries[i + 1].key.as_slice());
            if !matches!(c, Cmp::Lt) {
                proof {
                    lemma_lex_lt_irrefl(self.key_at(i as int));
                    if self.wf() {
                        assert(lex_lt(self.key_at(i as int), self.key_at(i as int + 1)));
                    }
                }
                return false;
            }
            i = i + 1;
        }
        proof {
            assert forall|a: int, b: int| 0 <= a < b < self.len_spec() implies lex_lt(
                self.key_at(a),
                self.key_at(b),
            ) by {
                self.lemma_adjacent_sorted(a, b);
            }
        }
        true
    }

    /// The current value of the table's sequence counter.
    pub fn seq_value(&self) -> (r: u64)
        ensures
            r == self.sequence,
    {
        self.sequence
    }

    /// Add `incr` to the sequence counter, returning its previous value, or
    /// `None` — leaving the counter untouched — when the sum would overflow.
    pub fn seq_increase(&mut self, incr: u64) -> (r: Option<u64>)
        ensures
            final(self).entries == old(self).entries,
            match r {
                Some(prev) => {
                    &&& prev == old(self).sequence
                    &&& old(self).sequence + incr <= u64::MAX
                    &&& final(self).sequence == old(self).sequence + incr
                },
                None => {
                    &&& old(self).sequence + incr > u64::MAX
                    &&& final(self).sequence == old(self).sequence
                },
            },
    {
        if incr <= u64::MAX - self.sequence {
            let prev = self.sequence;
            self.sequence = self.sequence + incr;
            Some(prev)
        } else {
            None
        }
    }
}

} // verus!
