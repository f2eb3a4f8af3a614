//! The log-structured-merge engine as a store: named tables map onto
//! column families, transactions onto snapshot copies, and range endpoints
//! are translated into the raw start and end keys the engine's iterator
//! takes. The translations and their edge behavior follow the engine's own
//! conventions, quirks included, and are stated exactly.

use vstd::prelude::*;

use crate::bound::{encode_bound, in_range, range_filter, ByteBound, SpecBound, TypedBound};
use crate::bytes::{advance_key, advanced_key, retreat_key, retreated_key};
use crate::db::{collect_range, decode_pairs, remove_range, reverse_pairs};
use crate::env::str_eq;
use crate::errors::{Error, Result};
use crate::store::{Store, Table, Transaction};
use crate::traits::{BytesDecode, BytesEncode};
use crate::tree::Tree;
use crate::txn::{clone_tables, tables_same};

verus! {

/// The LSM engine: one column family per named table, plus the unnamed
/// default one at the first position.
pub struct DBType {
    pub cfs: Vec<Tree>,
    pub names: Vec<String>,
}

/// A handle on one column family.
#[derive(Clone, Copy)]
pub struct RockTable {
    pub cf: usize,
}

/// A read transaction of the LSM engine: a snapshot of every column family.
pub struct RockTxn {
    pub tables: Vec<Tree>,
}

/// A write transaction of the LSM engine: a working copy published on
/// commit.
pub struct WRockTxn {
    pub tx: RockTxn,
}

impl DBType {
    /// Column families and names line up, every family is sorted, and names
    /// are unique.
    pub open spec fn wf(self) -> bool {
        &&& self.names@.len() == self.cfs@.len()
        &&& forall|i: int| 0 <= i < self.cfs@.len() ==> (#[trigger] self.cfs@[i]).wf()
        &&& forall|i: int, j: int|
            0 <= i < j < self.names@.len() ==> (#[trigger] self.names@[i])@ != (
            #[trigger] self.names@[j])@
    }

    /// An empty engine with no column family.
    pub fn open_lsm() -> (r: DBType)
        ensures
            r.wf(),
            r.cfs@.len() == 0,
    {
        DBType { cfs: Vec::new(), names: Vec::new() }
    }

    /// Whether the engine value is well formed, decided at run time.
    fn check(&self) -> (r: bool)
        ensures
            r == self.wf(),
    {
        let n = self.cfs.len();
        if self.names.len() != n {
            return false;
        }
        let mut i: usize = 0;
        while i < n
            invariant
                0 <= i <= n,
                n == self.cfs@.len(),
                forall|j: int| 0 <= j < i ==> (#[trigger] self.cfs@[j]).wf(),
            decreases n - i,
        {
            if !self.cfs[i].check_wf() {
                return false;
            }
            i = i + 1;
        }
        let mut i: usize = 0;
        while i < n
            invariant
                0 <= i <= n,
                n == self.names@.len(),
                forall|a: int, b: int|
                    0 <= a < b < i ==> (#[trigger] self.names@[a])@ != (#[trigger] self.names@[b])@,
            decreases n - i,
        {
            let mut j: usize = 0;
            while j < i
                invariant
                    0 <= j <= i < n,
                    n == self.names@.len(),
                    forall|a: int|
                        0 <= a < j ==> (#[trigger] self.names@[a])@ != self.names@[i as int]@,
                decreases i - j,
            {
                if str_eq(self.names[j].as_str(), self.names[i].as_str()) {
                    return false;
                }
                j = j + 1;
            }
            i = i + 1;
        }
        true
    }

    fn find_cf(&self, name: &str) -> (r: Option<usize>)
        requires
            self.wf(),
        ensures
            match r {
                Some(i) => (i as int) < self.names@.len() && self.names@[i as int]@ == name@,
                None => forall|j: int| 0 <= j < self.names@.len() ==> self.names@[j]@ != name@,
            },
    {
        let n = self.names.len();
        let mut i: usize = 0;
        while i < n
            invariant
                0 <= i <= n,
                n == self.names@.len(),
                forall|j: int| 0 <= j < i ==> (#[trigger] self.names@[j])@ != name@,
            decreases n - i,
        {
            if str_eq(self.names[i].as_str(), name) {
                return Some(i);
            }
            i = i + 1;
        }
        None
    }
}

impl Store for DBType {
    type Rtx = RockTxn;

    type Wtx = WRockTxn;

    type Table = RockTable;

    type Config = ();

    /// On a well-formed engine, hands out the column family registered
    /// under `name`, creating an empty one when the name is new.
    fn table(&mut self, name: &str, cfg: &Self::Config) -> (r: Result<RockTable>)
        ensures
            match r {
                Ok(t) => {
                    &&& old(self).wf()
                    &&& final(self).wf()
                    &&& (t.cf as int) < final(self).names@.len()
                    &&& final(self).names@[t.cf as int]@ == name@
                    &&& final(self).cfs@[t.cf as int].wf()
                    &&& if exists|j: int|
                        0 <= j < old(self).names@.len() && (#[trigger] old(self).names@[j])@
                            == name@ {
                        *final(self) == *old(self)
                    } else {
                        &&& t.cf as int == old(self).cfs@.len()
                        &&& final(self).cfs@.len() == old(self).cfs@.len() + 1
                        &&& forall|j: int|
                            0 <= j < old(self).cfs@.len() ==> final(self).cfs@[j] == old(
                                self,
                            ).cfs@[j] && final(self).names@[j] == old(self).names@[j]
                        &&& final(self).cfs@[t.cf as int].len_spec() == 0
                    }
                },
                Err(e) => e == Error::Engine && !old(self).wf() && *final(self) == *old(self),
            },
    {
        if !self.check() {
            return Err(Error::Engine);
        }
        match self.find_cf(name) {
            Some(i) => Ok(RockTable { cf: i }),
            None => {
                let i = self.cfs.len();
                self.cfs.push(Tree::new());
                self.names.push(name.to_owned());
                proof {
                    assert forall|a: int, b: int|
                        0 <= a < b < self.names@.len() implies (#[trigger] self.names@[a])@ != (
                    #[trigger] self.names@[b])@ by {
                        if b == old(self).names@.len() {
                            assert(old(self).names@[a]@ != name@);
                        }
                    }
                }
                Ok(RockTable { cf: i })
            },
        }
    }

    /// Begin a read snapshot of every column family; never fails.
    fn rtx(&self) -> (r: Result<RockTxn>)
        ensures
            r matches Ok(t) && tables_same(t.tables@, self.cfs@),
    {
        Ok(RockTxn { tables: clone_tables(&self.cfs) })
    }

    /// Begin a write snapshot of every column family; never fails.
    fn wtx(&self) -> (r: Result<WRockTxn>)
        ensures
            r matches Ok(t) && tables_same(t.tx.tables@, self.cfs@),
    {
        Ok(WRockTxn { tx: RockTxn { tables: clone_tables(&self.cfs) } })
    }
}

impl Transaction<DBType> for RockTxn {
    /// A read snapshot has nothing to publish: committing it never fails
    /// and leaves the engine untouched.
    fn commit(self, store: &mut DBType) -> (r: Result<()>)
        ensures
            r is Ok,
            *final(store) == *old(store),
    {
        Ok(())
    }

    fn abort(self) {
    }
}

impl Transaction<DBType> for WRockTxn {
    /// Publish the working copy: the engine's column families become the
    /// transaction's view, wholesale, when the two still line up.
    fn commit(self, store: &mut DBType) -> (r: Result<()>)
        ensures
            if self.tx.tables@.len() == old(store).cfs@.len() {
                &&& r is Ok
                &&& final(store).cfs == self.tx.tables
                &&& final(store).names == old(store).names
            } else {
                r == Err::<(), Error>(Error::Engine) && *final(store) == *old(store)
            },
    {
        if self.tx.tables.len() != store.cfs.len() {
            return Err(Error::Engine);
        }
        store.cfs = self.tx.tables;
        Ok(())
    }

    fn abort(self) {
    }
}

/// The byte endpoints the LSM engine walks forward between, for the caller's
/// endpoints: an excluded start and an included end are both advanced past
/// their last byte, because the engine's iterator takes only an inclusive
/// start key and an exclusive upper bound. A start or end of nothing but
/// `0xFF` bytes therefore advances to the empty key: as a start it admits
/// everything, as an upper bound it admits nothing.
pub fn lsm_forward_bounds(lo: ByteBound, hi: ByteBound) -> (r: (ByteBound, ByteBound))
    ensures
        r.0@ == (match lo@ {
            SpecBound::Included(s) => SpecBound::Included(s),
            SpecBound::Excluded(s) => SpecBound::Included(advanced_key(s)),
            SpecBound::Unbounded => SpecBound::Unbounded,
        }),
        r.1@ == (match hi@ {
            SpecBound::Included(s) => SpecBound::Excluded(advanced_key(s)),
            SpecBound::Excluded(s) => SpecBound::Excluded(s),
            SpecBound::Unbounded => SpecBound::Unbounded,
        }),
{
    let start = match lo {
        ByteBound::Included(s) => ByteBound::Included(s),
        ByteBound::Excluded(s) => {
            let mut k = s;
            advance_key(&mut k);
            ByteBound::Included(k)
        },
        ByteBound::Unbounded => ByteBound::Unbounded,
    };
    let end = match hi {
        ByteBound::Included(s) => {
            let mut k = s;
            advance_key(&mut k);
            ByteBound::Excluded(k)
        },
        ByteBound::Excluded(s) => ByteBound::Excluded(s),
        ByteBound::Unbounded => ByteBound::Unbounded,
    };
    (start, end)
}

/// The byte endpoints the LSM engine walks backward between: an excluded end
/// is retreated to the inclusive key the reverse iterator starts from, which
/// skips any longer keys sorting between the retreated key and the excluded
/// one. An excluded start the engine does not take at all.
pub fn lsm_backward_bounds(lo: ByteBound, hi: ByteBound) -> (r: Result<(ByteBound, ByteBound)>)
    ensures
        match r {
            Ok(b) => {
                &&& !(lo@ is Excluded)
                &&& b.0 == lo
                &&& b.1@ == (match hi@ {
                    SpecBound::Included(s) => SpecBound::Included(s),
                    SpecBound::Excluded(s) => SpecBound::Included(retreated_key(s)),
                    SpecBound::Unbounded => SpecBound::Unbounded,
                })
            },
            Err(e) => e == Error::Engine && lo@ is Excluded,
        },
{
    if matches!(lo, ByteBound::Excluded(_)) {
        return Err(Error::Engine);
    }
    let end = match hi {
        ByteBound::Included(s) => ByteBound::Included(s),
        ByteBound::Excluded(s) => {
            let mut k = s;
            retreat_key(&mut k);
            ByteBound::Included(k)
        },
        ByteBound::Unbounded => ByteBound::Unbounded,
    };
    Ok((lo, end))
}

/// Check that a handle names a column family of this snapshot and that every
/// family is sorted.
fn check_cf(t: &RockTable, txn: &RockTxn) -> (r: bool)
    ensures
        r == ((t.cf as int) < txn.tables@.len() && forall|i: int|
            0 <= i < txn.tables@.len() ==> (#[trigger] txn.tables@[i]).wf()),
{
    if t.cf >= txn.tables.len() {
        return false;
    }
    let n = txn.tables.len();
    let mut i: usize = 0;
    while i < n
        invariant
            0 <= i <= n,
            n == txn.tables@.len(),
            forall|j: int| 0 <= j < i ==> (#[trigger] txn.tables@[j]).wf(),
        decreases n - i,
    {
        if !txn.tables[i].check_wf() {
            return false;
        }
        i = i + 1;
    }
    true
}

impl RockTable {
    /// Drop the column family's entries below the engine's clearing
    /// sentinel, a key of 512 `0xFF` bytes: the engine clears by deleting
    /// the byte range from the empty key up to that sentinel, so entries at
    /// or above it survive. This boundary is kept as the engine has it.
    pub fn clear_below_sentinel(&self, txn: &mut WRockTxn) -> (r: Result<()>)
        requires
            (self.cf as int) < old(txn).tx.tables@.len(),
            old(txn).tx.tables@[self.cf as int].wf(),
        ensures
            r is Ok,
            ({
                let pre = old(txn).tx.tables@;
                let post = final(txn).tx.tables@;
                &&& post.len() == pre.len()
                &&& forall|j: int| 0 <= j < pre.len() && j != self.cf as int ==> post[j] == pre[j]
                &&& post[self.cf as int].wf()
                &&& post[self.cf as int].as_map() == pre[self.cf as int].as_map().remove_keys(
                    Set::new(|q: Seq<u8>| crate::bytes::lex_lt(q, Seq::new(512, |i: int| 0xFFu8))),
                )
            }),
    {
        let sentinel: Vec<u8> = vec![0xFFu8; 512];
        proof {
            assert(sentinel@ =~= Seq::new(512, |i: int| 0xFFu8));
        }
        let lo = ByteBound::Unbounded;
        let hi = ByteBound::Excluded(sentinel);
        let tbl = &mut txn.tx.tables[self.cf];
        let c = remove_range(tbl, &lo, &hi);
        proof {
            assert(Set::new(|q: Seq<u8>| in_range(lo@, hi@, q)) =~= Set::new(
                |q: Seq<u8>| crate::bytes::lex_lt(q, Seq::new(512, |i: int| 0xFFu8)),
            ));
        }
        Ok(())
    }
}

/// The forward lower endpoint the engine actually walks from: an excluded
/// start is advanced past its last byte.
pub open spec fn lsm_lo_spec(lo: SpecBound) -> SpecBound {
    match lo {
        SpecBound::Included(s) => SpecBound::Included(s),
        SpecBound::Excluded(s) => SpecBound::Included(advanced_key(s)),
        SpecBound::Unbounded => SpecBound::Unbounded,
    }
}

/// The forward upper endpoint the engine actually walks to: an included end
/// is advanced into an exclusive upper bound.
pub open spec fn lsm_hi_spec(hi: SpecBound) -> SpecBound {
    match hi {
        SpecBound::Included(s) => SpecBound::Excluded(advanced_key(s)),
        SpecBound::Excluded(s) => SpecBound::Excluded(s),
        SpecBound::Unbounded => SpecBound::Unbounded,
    }
}

/// The backward upper endpoint the engine starts from: an excluded end is
/// retreated to the inclusive key the reverse iterator takes.
pub open spec fn lsm_rev_hi_spec(hi: SpecBound) -> SpecBound {
    match hi {
        SpecBound::Included(s) => SpecBound::Included(s),
        SpecBound::Excluded(s) => SpecBound::Included(retreated_key(s)),
        SpecBound::Unbounded => SpecBound::Unbounded,
    }
}

impl Table for RockTable {
    type Store = DBType;

    open spec fn usable_r(self, txn: RockTxn) -> bool {
        &&& (self.cf as int) < txn.tables@.len()
        &&& forall|i: int| 0 <= i < txn.tables@.len() ==> (#[trigger] txn.tables@[i]).wf()
    }

    open spec fn usable_w(self, txn: WRockTxn) -> bool {
        self.usable_r(txn.tx)
    }

    open spec fn entries_r(self, txn: RockTxn) -> Seq<(Seq<u8>, Seq<u8>)> {
        txn.tables@[self.cf as int].kv_seq()
    }

    open spec fn contents_r(self, txn: RockTxn) -> Map<Seq<u8>, Seq<u8>> {
        txn.tables@[self.cf as int].as_map()
    }

    open spec fn contents_w(self, txn: WRockTxn) -> Map<Seq<u8>, Seq<u8>> {
        txn.tx.tables@[self.cf as int].as_map()
    }

    /// The LSM engine walks the entries within its own translation of the
    /// endpoints.
    open spec fn selects(self, txn: RockTxn, lo: SpecBound, hi: SpecBound) -> Seq<
        (Seq<u8>, Seq<u8>),
    > {
        range_filter(
            txn.tables@[self.cf as int].kv_seq(),
            lsm_lo_spec(lo),
            lsm_hi_spec(hi),
        )
    }

    /// The LSM engine's reverse iterator takes no excluded lower endpoint.
    open spec fn rev_start_ok(self, lo: SpecBound) -> bool {
        !(lo is Excluded)
    }

    open spec fn rev_selects(self, txn: RockTxn, lo: SpecBound, hi: SpecBound) -> Seq<
        (Seq<u8>, Seq<u8>),
    > {
        let f = range_filter(txn.tables@[self.cf as int].kv_seq(), lo, lsm_rev_hi_spec(hi));
        Seq::new(f.len(), |i: int| f[f.len() - 1 - i])
    }

    /// The LSM engine's `clear` removes the keys below its sentinel.
    open spec fn cleared(self, k: Seq<u8>) -> bool {
        crate::bytes::lex_lt(k, Seq::new(512, |i: int| 0xFFu8))
    }

    fn get<KC: BytesEncode, DC: BytesDecode>(&self, txn: &RockTxn, key: &KC::EItem) -> (r: Result<
        Option<DC::DItem>,
    >) {
        if !check_cf(self, txn) {
            return Err(Error::Engine);
        }
        let key_bytes = match KC::bytes_encode(key) {
            Some(kb) => kb,
            None => {
                return Err(Error::Encoding);
            },
        };
        match txn.tables[self.cf].lookup(key_bytes.as_slice()) {
            Some(v) => match DC::bytes_decode(v.as_slice()) {
                Some(d) => Ok(Some(d)),
                None => Err(Error::Decoding),
            },
            None => Ok(None),
        }
    }

    fn range<'a, KC: BytesEncode + BytesDecode, DC: BytesDecode>(
        &self,
        txn: &RockTxn,
        start: &TypedBound<'a, KC::EItem>,
        end: &TypedBound<'a, KC::EItem>,
    ) -> (r: Result<Vec<(KC::DItem, DC::DItem)>>) {
        if !check_cf(self, txn) {
            return Err(Error::Engine);
        }
        let lo = match encode_bound::<KC>(start) {
            Ok(b) => b,
            Err(e) => {
                return Err(e);
            },
        };
        let hi = match encode_bound::<KC>(end) {
            Ok(b) => b,
            Err(e) => {
                return Err(e);
            },
        };
        let (lo, hi) = lsm_forward_bounds(lo, hi);
        let pairs = collect_range(&txn.tables[self.cf], &lo, &hi);
        match decode_pairs::<KC, DC>(pairs) {
            Ok(out) => Ok(out),
            Err(e) => Err(Error::Decoding),
        }
    }

    fn rev_range<'a, KC: BytesEncode + BytesDecode, DC: BytesDecode>(
        &self,
        txn: &RockTxn,
        start: &TypedBound<'a, KC::EItem>,
        end: &TypedBound<'a, KC::EItem>,
    ) -> (r: Result<Vec<(KC::DItem, DC::DItem)>>) {
        if !check_cf(self, txn) {
            return Err(Error::Engine);
        }
        let lo = match encode_bound::<KC>(start) {
            Ok(b) => b,
            Err(e) => {
                return Err(e);
            },
        };
        let hi = match encode_bound::<KC>(end) {
            Ok(b) => b,
            Err(e) => {
                return Err(e);
            },
        };
        let (lo, hi) = match lsm_backward_bounds(lo, hi) {
            Ok(b) => b,
            Err(e) => {
                return Err(e);
            },
        };
        let fwd = collect_range(&txn.tables[self.cf], &lo, &hi);
        let ghost gfwd = fwd@;
        let pairs = reverse_pairs(fwd);
        match decode_pairs::<KC, DC>(pairs) {
            Ok(out) => Ok(out),
            Err(e) => Err(Error::Decoding),
        }
    }

    fn len(&self, txn: &RockTxn) -> (r: Result<usize>) {
        if !check_cf(self, txn) {
            return Err(Error::Engine);
        }
        Ok(txn.tables[self.cf].count())
    }

    fn put<KC: BytesEncode, DC: BytesEncode>(
        &self,
        txn: &mut WRockTxn,
        key: &KC::EItem,
        data: &DC::EItem,
    ) -> (r: Result<()>) {
        if !check_cf(self, &txn.tx) {
            return Err(Error::Engine);
        }
        let key_bytes = match KC::bytes_encode(key) {
            Some(kb) => kb,
            None => {
                return Err(Error::Encoding);
            },
        };
        let data_bytes = match DC::bytes_encode(data) {
            Some(vb) => vb,
            None => {
                return Err(Error::Encoding);
            },
        };
        let tbl = &mut txn.tx.tables[self.cf];
        tbl.insert(key_bytes, data_bytes);
        Ok(())
    }

    fn append<KC: BytesEncode, DC: BytesEncode>(
        &self,
        txn: &mut WRockTxn,
        key: &KC::EItem,
        data: &DC::EItem,
    ) -> (r: Result<()>) {
        // The LSM engine has no native append: it is a plain put.
        Table::put::<KC, DC>(self, txn, key, data)
    }

    fn delete<KC: BytesEncode>(&self, txn: &mut WRockTxn, key: &KC::EItem) -> (r: Result<()>) {
        if !check_cf(self, &txn.tx) {
            return Err(Error::Engine);
        }
        let key_bytes = match KC::bytes_encode(key) {
            Some(kb) => kb,
            None => {
                return Err(Error::Encoding);
            },
        };
        let tbl = &mut txn.tx.tables[self.cf];
        let existed = tbl.remove_key(key_bytes.as_slice());
        Ok(())
    }

    fn clear(&self, txn: &mut WRockTxn) -> (r: Result<()>) {
        if !check_cf(self, &txn.tx) {
            return Err(Error::Engine);
        }
        self.clear_below_sentinel(txn)
    }
}

} // verus!
