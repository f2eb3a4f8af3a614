//! Database handles: the polymorphic handle taking codecs at each call, and
//! the fixed-codec handle bound to one codec pair.

use vstd::prelude::*;

use crate::bound::{
    encode_bound, hi_ok, hi_ok_exec, in_range, lemma_filter_all_out, lemma_filter_concat,
    lemma_filter_snoc, lemma_hi_down, lo_ok, range_filter, resolve_hi_rev, resolve_lo, ByteBound,
    SpecBound, TypedBound,
};
use crate::bytes::{
    advance_key, advanced_key, bytes_lt, cmp_bytes, lemma_lex_lt_asym, lemma_lex_lt_irrefl,
    lemma_lex_lt_trans, lemma_lex_lt_trichotomy, lex_le, lex_lt, Cmp,
};
use crate::errors::{Error, Result};
use crate::traits::{BytesDecode, BytesEncode};
use crate::txn::{RoTxn, RwTxn};
use crate::tree::Tree;

verus! {

/// Whether every item a typed endpoint holds can be encoded by `KC`.
pub open spec fn bound_encodable<'a, KC: BytesEncode>(b: TypedBound<'a, KC::EItem>) -> bool {
    match b {
        TypedBound::Included(x) => KC::spec_encode(x@) is Some,
        TypedBound::Excluded(x) => KC::spec_encode(x@) is Some,
        TypedBound::Unbounded => true,
    }
}

/// The byte-level endpoint a typed endpoint encodes to.
pub open spec fn spec_bound_of<'a, KC: BytesEncode>(b: TypedBound<'a, KC::EItem>) -> SpecBound {
    match b {
        TypedBound::Included(x) => SpecBound::Included(KC::spec_encode(x@).unwrap()),
        TypedBound::Excluded(x) => SpecBound::Excluded(KC::spec_encode(x@).unwrap()),
        TypedBound::Unbounded => SpecBound::Unbounded,
    }
}

/// A forward iterator's position is resolved against its lower endpoint:
/// everything before `pos` fails it, and the entry at `pos`, if any,
/// satisfies it.
pub open spec fn lo_resolved(tbl: Tree, lo: SpecBound, pos: int) -> bool {
    &&& 0 <= pos <= tbl.len_spec()
    &&& forall|j: int| 0 <= j < pos ==> !lo_ok(lo, tbl.key_at(j))
    &&& pos < tbl.len_spec() ==> lo_ok(lo, tbl.key_at(pos))
}

/// A backward iterator's position is resolved against its upper endpoint:
/// everything from `pos` on fails it, and the entry just before, if any,
/// satisfies it.
pub open spec fn hi_resolved(tbl: Tree, hi: SpecBound, pos: int) -> bool {
    &&& 0 <= pos <= tbl.len_spec()
    &&& forall|j: int| pos <= j < tbl.len_spec() ==> !hi_ok(hi, tbl.key_at(j))
    &&& pos > 0 ==> hi_ok(hi, tbl.key_at(pos - 1))
}

/// A handle on one table of one environment, with codec choice deferred to
/// each call. It is only a pair of identifiers and can be copied freely; all
/// table data lives in the transaction it is used with.
#[derive(Clone, Copy)]
pub struct PolyDatabase {
    pub env_ident: usize,
    pub dbi: usize,
}

/// The conditions under which a handle may be used with a transaction: the
/// transaction belongs to the same environment — using a handle across
/// environments is invariant-breaking misuse, so it is ruled out up front
/// rather than reported — and the table exists in the transaction's
/// snapshot.
pub open spec fn usable<T>(db: PolyDatabase, txn: RoTxn<T>) -> bool {
    &&& txn.wf()
    &&& txn.env_id == db.env_ident
    &&& (db.dbi as int) < txn.n_tables()
}

/// As [`usable`], for a write transaction.
pub open spec fn usable_mut<T>(db: PolyDatabase, txn: RwTxn<T>) -> bool {
    usable(db, txn.txn)
}

/// All tables of the write transaction other than `dbi` are untouched.
pub open spec fn others_unchanged<T>(pre: RwTxn<T>, post: RwTxn<T>, dbi: int) -> bool {
    &&& post.txn.env_id == pre.txn.env_id
    &&& post.n_tables() == pre.n_tables()
    &&& forall|j: int| 0 <= j < pre.n_tables() && j != dbi ==> post.table(j) == pre.table(j)
}

impl PolyDatabase {
    pub(crate) fn new(env_ident: usize, dbi: usize) -> (r: PolyDatabase)
        ensures
            r.env_ident == env_ident,
            r.dbi == dbi,
    {
        PolyDatabase { env_ident, dbi }
    }

    /// Retrieves the value associated with a key, `None` when the key is
    /// absent, `Err(Encoding)`/`Err(Decoding)` when a codec fails.
    pub fn get<T, KC, DC>(&self, txn: &RoTxn<T>, key: &KC::EItem) -> (r: Result<
        Option<DC::DItem>,
    >) where KC: BytesEncode, DC: BytesDecode
        requires
            usable(*self, *txn),
        ensures
            ({
                let tbl = txn.table(self.dbi as int);
                match r {
                    Ok(Some(d)) => KC::obeys_encode() ==> {
                        let kb = KC::spec_encode(key@);
                        &&& kb is Some
                        &&& tbl.contains_key(kb.unwrap())
                        &&& (DC::obeys_decode() ==> DC::spec_decode(tbl.as_map()[kb.unwrap()])
                            == Some(d@))
                    },
                    Ok(None) => KC::obeys_encode() ==> {
                        let kb = KC::spec_encode(key@);
                        &&& kb is Some
                        &&& !tbl.contains_key(kb.unwrap())
                    },
                    Err(e) => {
                        &&& (e == Error::Encoding || e == Error::Decoding)
                        &&& (KC::obeys_encode() && e == Error::Encoding ==> KC::spec_encode(key@)
                            is None)
                        &&& (KC::obeys_encode() && e == Error::Decoding ==> {
                            let kb = KC::spec_encode(key@);
                            &&& kb is Some
                            &&& tbl.contains_key(kb.unwrap())
                            &&& (DC::obeys_decode() ==> DC::spec_decode(
                                tbl.as_map()[kb.unwrap()],
                            ) is None)
                        })
                    },
                }
            }),
    {
        let key_bytes = match KC::bytes_encode(key) {
            Some(kb) => kb,
            None => {
                return Err(Error::Encoding);
            },
        };
        let tbl = &txn.tables[self.dbi];
        match tbl.lookup(key_bytes.as_slice()) {
            Some(v) => match DC::bytes_decode(v.as_slice()) {
                Some(d) => Ok(Some(d)),
                None => Err(Error::Decoding),
            },
            None => Ok(None),
        }
    }

    /// Stores a key/value pair, replacing any value already under the key.
    pub fn put<T, KC, DC>(&self, txn: &mut RwTxn<T>, key: &KC::EItem, data: &DC::EItem) -> (r:
        Result<()>) where KC: BytesEncode, DC: BytesEncode
        requires
            usable_mut(*self, *old(txn)),
        ensures
            final(txn).wf(),
            others_unchanged(*old(txn), *final(txn), self.dbi as int),
            final(txn).table(self.dbi as int).sequence == old(txn).table(self.dbi as int).sequence,
            ({
                let pre = old(txn).table(self.dbi as int);
                let post = final(txn).table(self.dbi as int);
                match r {
                    Ok(u) => (KC::obeys_encode() && DC::obeys_encode()) ==> {
                        let kb = KC::spec_encode(key@);
                        let vb = DC::spec_encode(data@);
                        &&& kb is Some
                        &&& vb is Some
                        &&& post.as_map() == pre.as_map().insert(kb.unwrap(), vb.unwrap())
                    },
                    Err(e) => {
                        &&& e == Error::Encoding
                        &&& post == pre
                        &&& (KC::obeys_encode() && DC::obeys_encode() ==> KC::spec_encode(key@)
                            is None || DC::spec_encode(data@) is None)
                    },
                }
            }),
    {
        let key_bytes = match KC::bytes_encode(key) {
            Some(kb) => kb,
            None => {
                return Err(Error::Encoding);
            },
        };
        let data_bytes = match DC::bytes_encode(data) {
            Some(vb) => vb,
            None => {
                return Err(Error::Encoding);
            },
        };
        let tbl = &mut txn.txn.tables[self.dbi];
        tbl.insert(key_bytes, data_bytes);
        Ok(())
    }

    /// Stores a key/value pair that must sort after every present key; on a
    /// key that does not, fails with an engine error and changes nothing.
    pub fn append<T, KC, DC>(&self, txn: &mut RwTxn<T>, key: &KC::EItem, data: &DC::EItem) -> (r:
        Result<()>) where KC: BytesEncode, DC: BytesEncode
        requires
            usable_mut(*self, *old(txn)),
        ensures
            final(txn).wf(),
            others_unchanged(*old(txn), *final(txn), self.dbi as int),
            final(txn).table(self.dbi as int).sequence == old(txn).table(self.dbi as int).sequence,
            ({
                let pre = old(txn).table(self.dbi as int);
                let post = final(txn).table(self.dbi as int);
                match r {
                    Ok(u) => (KC::obeys_encode() && DC::obeys_encode()) ==> {
                        let kb = KC::spec_encode(key@);
                        let vb = DC::spec_encode(data@);
                        &&& kb is Some
                        &&& vb is Some
                        &&& (pre.len_spec() > 0 ==> lex_lt(
                            pre.key_at(pre.len_spec() - 1),
                            kb.unwrap(),
                        ))
                        &&& post.as_map() == pre.as_map().insert(kb.unwrap(), vb.unwrap())
                    },
                    Err(e) => {
                        &&& (e == Error::Encoding || e == Error::Engine)
                        &&& post == pre
                        &&& (KC::obeys_encode() && DC::obeys_encode() && e == Error::Encoding
                            ==> KC::spec_encode(key@) is None || DC::spec_encode(data@) is None)
                        &&& (KC::obeys_encode() && e == Error::Engine ==> {
                            let kb = KC::spec_encode(key@);
                            kb is Some ==> pre.len_spec() > 0 && !lex_lt(
                                pre.key_at(pre.len_spec() - 1),
                                kb.unwrap(),
                            )
                        })
                    },
                }
            }),
    {
        let key_bytes = match KC::bytes_encode(key) {
            Some(kb) => kb,
            None => {
                return Err(Error::Encoding);
            },
        };
        let data_bytes = match DC::bytes_encode(data) {
            Some(vb) => vb,
            None => {
                return Err(Error::Encoding);
            },
        };
        let tbl = &mut txn.txn.tables[self.dbi];
        let n = tbl.count();
        if n > 0 {
            let last = tbl.pair_at(n - 1);
            if !bytes_lt(last.0.as_slice(), key_bytes.as_slice()) {
                return Err(Error::Engine);
            }
        }
        tbl.insert(key_bytes, data_bytes);
        Ok(())
    }

    /// Deletes the entry under a key; reports whether one existed. Deleting
    /// an absent key is a no-op, not an error.
    pub fn delete<T, KC>(&self, txn: &mut RwTxn<T>, key: &KC::EItem) -> (r: Result<bool>) where
        KC: BytesEncode,
        requires
            usable_mut(*self, *old(txn)),
        ensures
            final(txn).wf(),
            others_unchanged(*old(txn), *final(txn), self.dbi as int),
            final(txn).table(self.dbi as int).sequence == old(txn).table(self.dbi as int).sequence,
            ({
                let pre = old(txn).table(self.dbi as int);
                let post = final(txn).table(self.dbi as int);
                match r {
                    Ok(existed) => KC::obeys_encode() ==> {
                        let kb = KC::spec_encode(key@);
                        &&& kb is Some
                        &&& existed == pre.contains_key(kb.unwrap())
                        &&& post.as_map() == pre.as_map().remove(kb.unwrap())
                        &&& (!existed ==> post == pre)
                    },
                    Err(e) => {
                        &&& e == Error::Encoding
                        &&& post == pre
                        &&& (KC::obeys_encode() ==> KC::spec_encode(key@) is None)
                    },
                }
            }),
    {
        let key_bytes = match KC::bytes_encode(key) {
            Some(kb) => kb,
            None => {
                return Err(Error::Encoding);
            },
        };
        let tbl = &mut txn.txn.tables[self.dbi];
        let existed = tbl.remove_key(key_bytes.as_slice());
        Ok(existed)
    }

    /// Drops every entry of the table; the sequence counter is kept.
    pub fn clear<T>(&self, txn: &mut RwTxn<T>) -> (r: Result<()>)
        requires
            usable_mut(*self, *old(txn)),
        ensures
            r is Ok,
            final(txn).wf(),
            others_unchanged(*old(txn), *final(txn), self.dbi as int),
            final(txn).table(self.dbi as int).as_map() == Map::<Seq<u8>, Seq<u8>>::empty(),
            final(txn).table(self.dbi as int).len_spec() == 0,
            final(txn).table(self.dbi as int).sequence == old(txn).table(self.dbi as int).sequence,
    {
        let tbl = &mut txn.txn.tables[self.dbi];
        tbl.clear_all();
        Ok(())
    }

    /// The number of entries in the table.
    pub fn len<T>(&self, txn: &RoTxn<T>) -> (r: Result<usize>)
        requires
            usable(*self, *txn),
        ensures
            r == Ok::<usize, Error>(txn.table(self.dbi as int).len_spec() as usize),
    {
        Ok(txn.tables[self.dbi].count())
    }

    /// Whether the table holds no entry.
    pub fn is_empty<T>(&self, txn: &RoTxn<T>) -> (r: Result<bool>)
        requires
            usable(*self, *txn),
        ensures
            r == Ok::<bool, Error>(txn.table(self.dbi as int).len_spec() == 0),
    {
        Ok(txn.tables[self.dbi].count() == 0)
    }

    /// The table's sequence counter.
    pub fn sequence<T>(&self, txn: &RoTxn<T>) -> (r: Result<u64>)
        requires
            usable(*self, *txn),
        ensures
            r == Ok::<u64, Error>(txn.table(self.dbi as int).sequence),
    {
        Ok(txn.tables[self.dbi].seq_value())
    }

    /// Adds `increment` to the table's sequence counter, returning its
    /// previous value, or `None` — leaving it untouched — when the sum would
    /// overflow. The new value becomes visible to other transactions only
    /// once this transaction commits.
    pub fn increase_sequence<T>(&self, txn: &mut RwTxn<T>, increment: u64) -> (r: Result<
        Option<u64>,
    >)
        requires
            usable_mut(*self, *old(txn)),
        ensures
            final(txn).wf(),
            others_unchanged(*old(txn), *final(txn), self.dbi as int),
            ({
                let pre = old(txn).table(self.dbi as int);
                let post = final(txn).table(self.dbi as int);
                &&& post.entries == pre.entries
                &&& match r {
                    Ok(Some(prev)) => {
                        &&& prev == pre.sequence
                        &&& pre.sequence + increment <= u64::MAX
                        &&& post.sequence == pre.sequence + increment
                    },
                    Ok(None) => {
                        &&& pre.sequence + increment > u64::MAX
                        &&& post.sequence == pre.sequence
                    },
                    Err(e) => false,
                }
            }),
    {
        let tbl = &mut txn.txn.tables[self.dbi];
        let out = tbl.seq_increase(increment);
        proof {
            let pre_t = old(txn).table(self.dbi as int);
            let post_t = txn.table(self.dbi as int);
            assert forall|i: int, j: int| 0 <= i < j < post_t.len_spec() implies lex_lt(
                post_t.key_at(i),
                post_t.key_at(j),
            ) by {
                assert(lex_lt(pre_t.key_at(i), pre_t.key_at(j)));
            }
            assert(post_t.wf());
        }
        Ok(out)
    }
}

/// Deleting a key leaves a table where a lookup of that key finds nothing,
/// and deleting it again changes nothing: removal is idempotent on the map a
/// table holds.
pub proof fn lemma_delete_idempotent(m: Map<Seq<u8>, Seq<u8>>, k: Seq<u8>)
    ensures
        !m.remove(k).dom().contains(k),
        m.remove(k).remove(k) == m.remove(k),
{
    assert(m.remove(k).remove(k) =~= m.remove(k));
}

/// The decoded views of the entry at index `j`, when the codecs are exact.
pub open spec fn decodes_pair<KC: BytesDecode, DC: BytesDecode>(
    tbl: Tree,
    j: int,
    k: <KC::DItem as View>::V,
    v: <DC::DItem as View>::V,
) -> bool {
    &&& (KC::obeys_decode() ==> KC::spec_decode(tbl.key_at(j)) == Some(k))
    &&& (DC::obeys_decode() ==> DC::spec_decode(tbl.val_at(j)) == Some(v))
}

/// One of the two decoders rejects the entry at index `j`, when both codecs
/// are exact.
pub open spec fn decode_fails<KC: BytesDecode, DC: BytesDecode>(tbl: Tree, j: int) -> bool {
    (KC::obeys_decode() && DC::obeys_decode()) ==> (KC::spec_decode(tbl.key_at(j)) is None
        || DC::spec_decode(tbl.val_at(j)) is None)
}

/// `j` is the entry under the greatest key strictly below `kb`.
pub open spec fn below_index(tbl: Tree, kb: Seq<u8>, j: int) -> bool {
    &&& 0 <= j < tbl.len_spec()
    &&& lex_lt(tbl.key_at(j), kb)
    &&& forall|m: int| j < m < tbl.len_spec() ==> !lex_lt(tbl.key_at(m), kb)
}

/// `j` is the entry under the greatest key at or below `kb`.
pub open spec fn at_or_below_index(tbl: Tree, kb: Seq<u8>, j: int) -> bool {
    &&& 0 <= j < tbl.len_spec()
    &&& lex_le(tbl.key_at(j), kb)
    &&& forall|m: int| j < m < tbl.len_spec() ==> !lex_le(tbl.key_at(m), kb)
}

/// `j` is the entry under the least key strictly above `kb`.
pub open spec fn above_index(tbl: Tree, kb: Seq<u8>, j: int) -> bool {
    &&& 0 <= j < tbl.len_spec()
    &&& lex_lt(kb, tbl.key_at(j))
    &&& forall|m: int| 0 <= m < j ==> !lex_lt(kb, tbl.key_at(m))
}

/// `j` is the entry under the least key at or above `kb`.
pub open spec fn at_or_above_index(tbl: Tree, kb: Seq<u8>, j: int) -> bool {
    &&& 0 <= j < tbl.len_spec()
    &&& lex_le(kb, tbl.key_at(j))
    &&& forall|m: int| 0 <= m < j ==> !lex_le(kb, tbl.key_at(m))
}

impl PolyDatabase {
    /// The first entry in key order, or `None` on an empty table.
    pub fn first<T, KC, DC>(&self, txn: &RoTxn<T>) -> (r: Result<Option<(KC::DItem, DC::DItem)>>)
        where KC: BytesDecode, DC: BytesDecode
        requires
            usable(*self, *txn),
        ensures
            ({
                let tbl = txn.table(self.dbi as int);
                if tbl.len_spec() == 0 {
                    r matches Ok(None)
                } else {
                    match r {
                        Ok(Some(kv)) => decodes_pair::<KC, DC>(tbl, 0, kv.0@, kv.1@),
                        Ok(None) => false,
                        Err(e) => e == Error::Decoding && decode_fails::<KC, DC>(tbl, 0),
                    }
                }
            }),
    {
        let tbl = &txn.tables[self.dbi];
        if tbl.count() == 0 {
            return Ok(None);
        }
        let pair = tbl.pair_at(0);
        match (KC::bytes_decode(pair.0.as_slice()), DC::bytes_decode(pair.1.as_slice())) {
            (Some(k), Some(v)) => Ok(Some((k, v))),
            _ => Err(Error::Decoding),
        }
    }

    /// The last entry in key order, or `None` on an empty table.
    pub fn last<T, KC, DC>(&self, txn: &RoTxn<T>) -> (r: Result<Option<(KC::DItem, DC::DItem)>>)
        where KC: BytesDecode, DC: BytesDecode
        requires
            usable(*self, *txn),
        ensures
            ({
                let tbl = txn.table(self.dbi as int);
                if tbl.len_spec() == 0 {
                    r matches Ok(None)
                } else {
                    match r {
                        Ok(Some(kv)) => decodes_pair::<KC, DC>(tbl, tbl.len_spec() - 1, kv.0@, kv.1@),
                        Ok(None) => false,
                        Err(e) => e == Error::Decoding && decode_fails::<KC, DC>(
                            tbl,
                            tbl.len_spec() - 1,
                        ),
                    }
                }
            }),
    {
        let tbl = &txn.tables[self.dbi];
        let n = tbl.count();
        if n == 0 {
            return Ok(None);
        }
        let pair = tbl.pair_at(n - 1);
        match (KC::bytes_decode(pair.0.as_slice()), DC::bytes_decode(pair.1.as_slice())) {
            (Some(k), Some(v)) => Ok(Some((k, v))),
            _ => Err(Error::Decoding),
        }
    }

    /// The entry under the greatest key strictly below the given one.
    pub fn get_lower_than<T, KC, DC>(&self, txn: &RoTxn<T>, key: &KC::EItem) -> (r: Result<
        Option<(KC::DItem, DC::DItem)>,
    >) where KC: BytesEncode + BytesDecode, DC: BytesDecode
        requires
            usable(*self, *txn),
        ensures
            ({
                let tbl = txn.table(self.dbi as int);
                KC::obeys_encode() ==> match KC::spec_encode(key@) {
                    None => r matches Err(e) && e == Error::Encoding,
                    Some(kb) => match r {
                        Ok(None) => forall|j: int|
                            0 <= j < tbl.len_spec() ==> !lex_lt(tbl.key_at(j), kb),
                        Ok(Some(kv)) => exists|j: int|
                            #[trigger] below_index(tbl, kb, j) && decodes_pair::<KC, DC>(
                                tbl,
                                j,
                                kv.0@,
                                kv.1@,
                            ),
                        Err(e) => e == Error::Decoding && exists|j: int|
                            #[trigger] below_index(tbl, kb, j) && decode_fails::<KC, DC>(tbl, j),
                    },
                }
            }),
    {
        let key_bytes = match KC::bytes_encode(key) {
            Some(kb) => kb,
            None => {
                return Err(Error::Encoding);
            },
        };
        let tbl = &txn.tables[self.dbi];
        let i = tbl.seek(key_bytes.as_slice());
        if i == 0 {
            proof {
                let tblg = txn.table(self.dbi as int);
                assert forall|j: int| 0 <= j < tblg.len_spec() implies !lex_lt(
                    tblg.key_at(j),
                    key_bytes@,
                ) by {
                    lemma_lex_lt_asym(tblg.key_at(j), key_bytes@);
                    crate::bytes::lemma_lex_lt_irrefl(key_bytes@);
                    if j > 0 {
                        crate::bytes::lemma_lex_le_lt_trans(
                            key_bytes@,
                            tblg.key_at(0),
                            tblg.key_at(j),
                        );
                    }
                }
            }
            return Ok(None);
        }
        let pair = tbl.pair_at(i - 1);
        proof {
            let tblg = txn.table(self.dbi as int);
            assert forall|m: int| i - 1 < m < tblg.len_spec() implies !lex_lt(
                tblg.key_at(m),
                key_bytes@,
            ) by {
                lemma_lex_lt_asym(tblg.key_at(m), key_bytes@);
                crate::bytes::lemma_lex_lt_irrefl(key_bytes@);
                if m > i {
                    crate::bytes::lemma_lex_le_lt_trans(key_bytes@, tblg.key_at(i as int), tblg
                        .key_at(m));
                }
            }
            assert(below_index(tblg, key_bytes@, i - 1));
        }
        match (KC::bytes_decode(pair.0.as_slice()), DC::bytes_decode(pair.1.as_slice())) {
            (Some(k), Some(v)) => Ok(Some((k, v))),
            _ => Err(Error::Decoding),
        }
    }

    /// The entry under the greatest key at or below the given one.
    pub fn get_lower_than_or_equal_to<T, KC, DC>(&self, txn: &RoTxn<T>, key: &KC::EItem) -> (r:
        Result<Option<(KC::DItem, DC::DItem)>>) where KC: BytesEncode + BytesDecode, DC: BytesDecode
        requires
            usable(*self, *txn),
        ensures
            ({
                let tbl = txn.table(self.dbi as int);
                KC::obeys_encode() ==> match KC::spec_encode(key@) {
                    None => r matches Err(e) && e == Error::Encoding,
                    Some(kb) => match r {
                        Ok(None) => forall|j: int|
                            0 <= j < tbl.len_spec() ==> !lex_le(tbl.key_at(j), kb),
                        Ok(Some(kv)) => exists|j: int|
                            #[trigger] at_or_below_index(tbl, kb, j) && decodes_pair::<KC, DC>(
                                tbl,
                                j,
                                kv.0@,
                                kv.1@,
                            ),
                        Err(e) => e == Error::Decoding && exists|j: int|
                            #[trigger] at_or_below_index(tbl, kb, j) && decode_fails::<KC, DC>(
                                tbl,
                                j,
                            ),
                    },
                }
            }),
    {
        let key_bytes = match KC::bytes_encode(key) {
            Some(kb) => kb,
            None => {
                return Err(Error::Encoding);
            },
        };
        let tbl = &txn.tables[self.dbi];
        let i = tbl.seek(key_bytes.as_slice());
        let n = tbl.count();
        let ghost tblg = txn.table(self.dbi as int);
        if i < n {
            let pair = tbl.pair_at(i);
            if matches!(cmp_bytes(pair.0.as_slice(), key_bytes.as_slice()), Cmp::Eq) {
                proof {
                    assert forall|m: int| i < m < tblg.len_spec() implies !lex_le(
                        tblg.key_at(m),
                        key_bytes@,
                    ) by {
                        assert(lex_lt(tblg.key_at(i as int), tblg.key_at(m)));
                        lemma_lex_lt_asym(tblg.key_at(m), tblg.key_at(i as int));
                        crate::bytes::lemma_lex_lt_irrefl(tblg.key_at(m));
                    }
                    assert(at_or_below_index(tblg, key_bytes@, i as int));
                }
                return match (
                    KC::bytes_decode(pair.0.as_slice()),
                    DC::bytes_decode(pair.1.as_slice()),
                ) {
                    (Some(k), Some(v)) => Ok(Some((k, v))),
                    _ => Err(Error::Decoding),
                };
            }
        }
        if i == 0 {
            proof {
                assert forall|j: int| 0 <= j < tblg.len_spec() implies !lex_le(
                    tblg.key_at(j),
                    key_bytes@,
                ) by {
                    crate::bytes::lemma_lex_lt_trichotomy(tblg.key_at(0), key_bytes@);
                    lemma_lex_lt_asym(key_bytes@, tblg.key_at(0));
                    crate::bytes::lemma_lex_lt_irrefl(key_bytes@);
                    if j > 0 {
                        crate::bytes::lemma_lex_le_lt_trans(
                            key_bytes@,
                            tblg.key_at(0),
                            tblg.key_at(j),
                        );
                        lemma_lex_lt_asym(tblg.key_at(j), key_bytes@);
                        crate::bytes::lemma_lex_lt_irrefl(tblg.key_at(j));
                    }
                }
            }
            return Ok(None);
        }
        let pair = tbl.pair_at(i - 1);
        proof {
            if (i as int) < tblg.len_spec() {
                lemma_lex_lt_trichotomy(key_bytes@, tblg.key_at(i as int));
                assert(lex_lt(key_bytes@, tblg.key_at(i as int)));
            }
            assert forall|m: int| i - 1 < m < tblg.len_spec() implies !lex_le(
                tblg.key_at(m),
                key_bytes@,
            ) by {
                if m > i {
                    lemma_lex_lt_trans(key_bytes@, tblg.key_at(i as int), tblg.key_at(m));
                }
                lemma_lex_lt_asym(key_bytes@, tblg.key_at(m));
                lemma_lex_lt_irrefl(key_bytes@);
            }
            assert(at_or_below_index(tblg, key_bytes@, i - 1));
        }
        match (KC::bytes_decode(pair.0.as_slice()), DC::bytes_decode(pair.1.as_slice())) {
            (Some(k), Some(v)) => Ok(Some((k, v))),
            _ => Err(Error::Decoding),
        }
    }

    /// The entry under the least key at or above the given one.
    pub fn get_greater_than_or_equal_to<T, KC, DC>(&self, txn: &RoTxn<T>, key: &KC::EItem) -> (r:
        Result<Option<(KC::DItem, DC::DItem)>>) where KC: BytesEncode + BytesDecode, DC: BytesDecode
        requires
            usable(*self, *txn),
        ensures
            ({
                let tbl = txn.table(self.dbi as int);
                KC::obeys_encode() ==> match KC::spec_encode(key@) {
                    None => r matches Err(e) && e == Error::Encoding,
                    Some(kb) => match r {
                        Ok(None) => forall|j: int|
                            0 <= j < tbl.len_spec() ==> !lex_le(kb, tbl.key_at(j)),
                        Ok(Some(kv)) => exists|j: int|
                            #[trigger] at_or_above_index(tbl, kb, j) && decodes_pair::<KC, DC>(
                                tbl,
                                j,
                                kv.0@,
                                kv.1@,
                            ),
                        Err(e) => e == Error::Decoding && exists|j: int|
                            #[trigger] at_or_above_index(tbl, kb, j) && decode_fails::<KC, DC>(
                                tbl,
                                j,
                            ),
                    },
                }
            }),
    {
        let key_bytes = match KC::bytes_encode(key) {
            Some(kb) => kb,
            None => {
                return Err(Error::Encoding);
            },
        };
        let tbl = &txn.tables[self.dbi];
        let i = tbl.seek(key_bytes.as_slice());
        let n = tbl.count();
        let ghost tblg = txn.table(self.dbi as int);
        if i == n {
            proof {
                assert forall|j: int| 0 <= j < tblg.len_spec() implies !lex_le(
                    key_bytes@,
                    tblg.key_at(j),
                ) by {
                    lemma_lex_lt_asym(tblg.key_at(j), key_bytes@);
                    lemma_lex_lt_irrefl(tblg.key_at(j));
                }
            }
            return Ok(None);
        }
        let pair = tbl.pair_at(i);
        proof {
            assert forall|m: int| 0 <= m < i implies !lex_le(key_bytes@, tblg.key_at(m)) by {
                lemma_lex_lt_asym(tblg.key_at(m), key_bytes@);
                lemma_lex_lt_irrefl(tblg.key_at(m));
            }
            assert(at_or_above_index(tblg, key_bytes@, i as int));
        }
        match (KC::bytes_decode(pair.0.as_slice()), DC::bytes_decode(pair.1.as_slice())) {
            (Some(k), Some(v)) => Ok(Some((k, v))),
            _ => Err(Error::Decoding),
        }
    }

    /// The entry under the least key strictly above the given one.
    pub fn get_greater_than<T, KC, DC>(&self, txn: &RoTxn<T>, key: &KC::EItem) -> (r: Result<
        Option<(KC::DItem, DC::DItem)>,
    >) where KC: BytesEncode + BytesDecode, DC: BytesDecode
        requires
            usable(*self, *txn),
        ensures
            ({
                let tbl = txn.table(self.dbi as int);
                KC::obeys_encode() ==> match KC::spec_encode(key@) {
                    None => r matches Err(e) && e == Error::Encoding,
                    Some(kb) => match r {
                        Ok(None) => forall|j: int|
                            0 <= j < tbl.len_spec() ==> !lex_lt(kb, tbl.key_at(j)),
                        Ok(Some(kv)) => exists|j: int|
                            #[trigger] above_index(tbl, kb, j) && decodes_pair::<KC, DC>(
                                tbl,
                                j,
                                kv.0@,
                                kv.1@,
                            ),
                        Err(e) => e == Error::Decoding && exists|j: int|
                            #[trigger] above_index(tbl, kb, j) && decode_fails::<KC, DC>(tbl, j),
                    },
                }
            }),
    {
        let key_bytes = match KC::bytes_encode(key) {
            Some(kb) => kb,
            None => {
                return Err(Error::Encoding);
            },
        };
        let tbl = &txn.tables[self.dbi];
        let mut i = tbl.seek(key_bytes.as_slice());
        let n = tbl.count();
        let ghost tblg = txn.table(self.dbi as int);
        if i < n {
            let pair = tbl.pair_at(i);
            if matches!(cmp_bytes(pair.0.as_slice(), key_bytes.as_slice()), Cmp::Eq) {
                i = i + 1;
                proof {
                    lemma_lex_lt_irrefl(key_bytes@);
                }
            }
        }
        proof {
            assert forall|m: int| 0 <= m < i implies !lex_lt(key_bytes@, tblg.key_at(m)) by {
                if m < i - 1 || tblg.key_at(i - 1) != key_bytes@ {
                    lemma_lex_lt_asym(tblg.key_at(m), key_bytes@);
                }
                lemma_lex_lt_irrefl(key_bytes@);
            }
        }
        if i == n {
            proof {
                assert forall|j: int| 0 <= j < tblg.len_spec() implies !lex_lt(
                    key_bytes@,
                    tblg.key_at(j),
                ) by {
                    if tblg.key_at(j) != key_bytes@ {
                        lemma_lex_lt_asym(tblg.key_at(j), key_bytes@);
                    }
                    lemma_lex_lt_irrefl(key_bytes@);
                }
            }
            return Ok(None);
        }
        let pair = tbl.pair_at(i);
        proof {
            lemma_lex_lt_trichotomy(key_bytes@, tblg.key_at(i as int));
            if i > 0 && tblg.key_at(i - 1) == key_bytes@ {
                assert(lex_lt(tblg.key_at(i - 1), tblg.key_at(i as int)));
            } else {
                lemma_lex_lt_irrefl(key_bytes@);
                lemma_lex_lt_asym(tblg.key_at(i as int), key_bytes@);
            }
            assert(lex_lt(key_bytes@, tblg.key_at(i as int)));
            assert(above_index(tblg, key_bytes@, i as int));
        }
        match (KC::bytes_decode(pair.0.as_slice()), DC::bytes_decode(pair.1.as_slice())) {
            (Some(k), Some(v)) => Ok(Some((k, v))),
            _ => Err(Error::Decoding),
        }
    }
}

/// A lexicographically ordered iterator over a bounded range of entries,
/// walking forward. It holds only its position and bounds; every call reads
/// through the transaction it was opened on.
pub struct RoRange<KC, DC> {
    pub dbi: usize,
    pub pos: usize,
    pub lo: ByteBound,
    pub hi: ByteBound,
    pub codecs: core::marker::PhantomData<(KC, DC)>,
}

/// A full forward iterator: a range without endpoints.
pub type RoIter<KC, DC> = RoRange<KC, DC>;

/// A forward iterator over the keys carrying one prefix: a range from the
/// prefix to its upper neighbour.
pub type RoPrefix<KC, DC> = RoRange<KC, DC>;

impl<KC, DC> RoRange<KC, DC> where KC: BytesDecode, DC: BytesDecode {
    /// The next entry of the range, or `None` once the upper endpoint or the
    /// end of the table is passed.
    pub fn next<T>(&mut self, txn: &RoTxn<T>) -> (r: Result<Option<(KC::DItem, DC::DItem)>>)
        requires
            txn.wf(),
            (old(self).dbi as int) < txn.n_tables(),
        ensures
            final(self).dbi == old(self).dbi,
            final(self).lo == old(self).lo,
            final(self).hi == old(self).hi,
            ({
                let tbl = txn.table(old(self).dbi as int);
                let p = old(self).pos as int;
                if p < tbl.len_spec() && hi_ok(old(self).hi@, tbl.key_at(p)) {
                    &&& final(self).pos == p + 1
                    &&& match r {
                        Ok(Some(kv)) => (KC::obeys_decode() ==> KC::spec_decode(tbl.key_at(p))
                            == Some(kv.0@)) && (DC::obeys_decode() ==> DC::spec_decode(
                            tbl.val_at(p),
                        ) == Some(kv.1@)),
                        Ok(None) => false,
                        Err(e) => e == Error::Decoding && (KC::obeys_decode() && DC::obeys_decode()
                            ==> (KC::spec_decode(tbl.key_at(p)) is None || DC::spec_decode(
                            tbl.val_at(p),
                        ) is None)),
                    }
                } else {
                    &&& final(self).pos == p
                    &&& r matches Ok(None)
                }
            }),
    {
        let tbl = &txn.tables[self.dbi];
        let n = tbl.count();
        if self.pos >= n {
            return Ok(None);
        }
        let pair = tbl.pair_at(self.pos);
        if !hi_ok_exec(&self.hi, pair.0.as_slice()) {
            return Ok(None);
        }
        self.pos = self.pos + 1;
        match (KC::bytes_decode(pair.0.as_slice()), DC::bytes_decode(pair.1.as_slice())) {
            (Some(k), Some(v)) => Ok(Some((k, v))),
            _ => Err(Error::Decoding),
        }
    }
}

/// Decode raw pairs through the two codecs, failing on the first rejected
/// entry.
pub(crate) fn decode_pairs<KC: BytesDecode, DC: BytesDecode>(pairs: Vec<(Vec<u8>, Vec<u8>)>) -> (r:
    Result<Vec<(KC::DItem, DC::DItem)>>)
    ensures
        ({
            match r {
                Ok(out) => {
                    &&& out@.len() == pairs@.len()
                    &&& KC::obeys_decode() ==> forall|i: int|
                        0 <= i < out@.len() ==> KC::spec_decode(pairs@[i].0@) == Some(
                            (#[trigger] out@[i]).0@,
                        )
                    &&& DC::obeys_decode() ==> forall|i: int|
                        0 <= i < out@.len() ==> DC::spec_decode(pairs@[i].1@) == Some(
                            (#[trigger] out@[i]).1@,
                        )
                },
                Err(e) => e == Error::Decoding && ((KC::obeys_decode() && DC::obeys_decode())
                    ==> exists|i: int|
                    0 <= i < pairs@.len() && (KC::spec_decode(
                        (#[trigger] pairs@[i]).0@,
                    ) is None || DC::spec_decode(pairs@[i].1@) is None)),
            }
        }),
{
    let mut out: Vec<(KC::DItem, DC::DItem)> = Vec::new();
    let n = pairs.len();
    let mut i: usize = 0;
    while i < n
        invariant
            n == pairs@.len(),
            0 <= i <= n,
            out@.len() == i,
            KC::obeys_decode() ==> forall|j: int|
                0 <= j < i ==> KC::spec_decode(pairs@[j].0@) == Some((#[trigger] out@[j]).0@),
            DC::obeys_decode() ==> forall|j: int|
                0 <= j < i ==> DC::spec_decode(pairs@[j].1@) == Some((#[trigger] out@[j]).1@),
        decreases n - i,
    {
        let pair = &pairs[i];
        match (KC::bytes_decode(pair.0.as_slice()), DC::bytes_decode(pair.1.as_slice())) {
            (Some(k), Some(v)) => {
                out.push((k, v));
            },
            _ => {
                proof {
                    assert(pairs@[i as int].0@ == pair.0@ && pairs@[i as int].1@ == pair.1@);
                }
                return Err(Error::Decoding);
            },
        }
        i = i + 1;
    }
    Ok(out)
}

/// A copy of the pairs in reverse order.
pub(crate) fn reverse_pairs<A, B>(v: Vec<(A, B)>) -> (r: Vec<(A, B)>)
    ensures
        r@.len() == v@.len(),
        forall|i: int| 0 <= i < v@.len() ==> r@[i] == v@[v@.len() - 1 - i],
{
    let ghost orig = v@;
    let mut v = v;
    let mut r: Vec<(A, B)> = Vec::new();
    while v.len() > 0
        invariant
            v@.len() + r@.len() == orig.len(),
            v@ == orig.take(v@.len() as int),
            forall|i: int| 0 <= i < r@.len() ==> r@[i] == orig[orig.len() - 1 - i],
        decreases v@.len(),
    {
        match v.pop() {
            Some(p) => {
                proof {
                    assert(v@ =~= orig.take(v@.len() as int));
                    assert(p == orig[v@.len() as int]);
                }
                r.push(p);
            },
            None => {},
        }
    }
    r
}

impl<KC, DC> RoRange<KC, DC> where KC: BytesDecode, DC: BytesDecode {
    /// Materialize the whole range this iterator was built over: exactly the
    /// entries the bounds select, decoded, in ascending byte order of key.
    pub fn collect<T>(&self, txn: &RoTxn<T>) -> (r: Result<Vec<(KC::DItem, DC::DItem)>>)
        requires
            txn.wf(),
            (self.dbi as int) < txn.n_tables(),
        ensures
            ({
                let f = range_filter(txn.table(self.dbi as int).kv_seq(), self.lo@, self.hi@);
                match r {
                    Ok(out) => {
                        &&& out@.len() == f.len()
                        &&& KC::obeys_decode() ==> forall|i: int|
                            0 <= i < f.len() ==> KC::spec_decode(f[i].0) == Some(
                                (#[trigger] out@[i]).0@,
                            )
                        &&& DC::obeys_decode() ==> forall|i: int|
                            0 <= i < f.len() ==> DC::spec_decode(f[i].1) == Some(
                                (#[trigger] out@[i]).1@,
                            )
                    },
                    Err(e) => e == Error::Decoding && ((KC::obeys_decode() && DC::obeys_decode())
                        ==> exists|i: int|
                        0 <= i < f.len() && (KC::spec_decode(#[trigger] f[i].0) is None
                            || DC::spec_decode(f[i].1) is None)),
                }
            }),
    {
        let pairs = collect_range(&txn.tables[self.dbi], &self.lo, &self.hi);
        let ghost f = range_filter(txn.table(self.dbi as int).kv_seq(), self.lo@, self.hi@);
        let r = decode_pairs::<KC, DC>(pairs);
        proof {
            if r is Err && KC::obeys_decode() && DC::obeys_decode() {
                let w = choose|i: int|
                    0 <= i < pairs@.len() && (KC::spec_decode(
                        (#[trigger] pairs@[i]).0@,
                    ) is None || DC::spec_decode(pairs@[i].1@) is None);
                assert((pairs@[w].0@, pairs@[w].1@) == f[w]);
                assert(KC::spec_decode(f[w].0) is None || DC::spec_decode(f[w].1) is None);
            }
        }
        r
    }
}

/// As [`RoRange`], walking backward from the upper endpoint.
pub struct RoRevRange<KC, DC> {
    pub dbi: usize,
    pub pos: usize,
    pub lo: ByteBound,
    pub hi: ByteBound,
    pub codecs: core::marker::PhantomData<(KC, DC)>,
}

/// A full backward iterator: a reverse range without endpoints.
pub type RoRevIter<KC, DC> = RoRevRange<KC, DC>;

/// A backward iterator over the keys carrying one prefix.
pub type RoRevPrefix<KC, DC> = RoRevRange<KC, DC>;

impl<KC, DC> RoRevRange<KC, DC> where KC: BytesDecode, DC: BytesDecode {
    /// The next entry walking backward, or `None` once the lower endpoint or
    /// the start of the table is passed.
    pub fn next<T>(&mut self, txn: &RoTxn<T>) -> (r: Result<Option<(KC::DItem, DC::DItem)>>)
        requires
            txn.wf(),
            (old(self).dbi as int) < txn.n_tables(),
        ensures
            final(self).dbi == old(self).dbi,
            final(self).lo == old(self).lo,
            final(self).hi == old(self).hi,
            ({
                let tbl = txn.table(old(self).dbi as int);
                let p = old(self).pos as int;
                if 0 < p <= tbl.len_spec() && lo_ok(old(self).lo@, tbl.key_at(p - 1)) {
                    &&& final(self).pos == p - 1
                    &&& match r {
                        Ok(Some(kv)) => (KC::obeys_decode() ==> KC::spec_decode(tbl.key_at(p - 1))
                            == Some(kv.0@)) && (DC::obeys_decode() ==> DC::spec_decode(
                            tbl.val_at(p - 1),
                        ) == Some(kv.1@)),
                        Ok(None) => false,
                        Err(e) => e == Error::Decoding && (KC::obeys_decode() && DC::obeys_decode()
                            ==> (KC::spec_decode(tbl.key_at(p - 1)) is None || DC::spec_decode(
                            tbl.val_at(p - 1),
                        ) is None)),
                    }
                } else {
                    &&& final(self).pos == p
                    &&& r matches Ok(None)
                }
            }),
    {
        let tbl = &txn.tables[self.dbi];
        let n = tbl.count();
        if self.pos == 0 || self.pos > n {
            return Ok(None);
        }
        let pair = tbl.pair_at(self.pos - 1);
        if !crate::bound::lo_ok_exec(&self.lo, pair.0.as_slice()) {
            return Ok(None);
        }
        self.pos = self.pos - 1;
        match (KC::bytes_decode(pair.0.as_slice()), DC::bytes_decode(pair.1.as_slice())) {
            (Some(k), Some(v)) => Ok(Some((k, v))),
            _ => Err(Error::Decoding),
        }
    }
}

impl<KC, DC> RoRevRange<KC, DC> where KC: BytesDecode, DC: BytesDecode {
    /// Materialize the whole range this iterator was built over, decoded, in
    /// descending byte order of key: the exact reverse of what the forward
    /// range yields.
    pub fn collect<T>(&self, txn: &RoTxn<T>) -> (r: Result<Vec<(KC::DItem, DC::DItem)>>)
        requires
            txn.wf(),
            (self.dbi as int) < txn.n_tables(),
        ensures
            ({
                let f = range_filter(txn.table(self.dbi as int).kv_seq(), self.lo@, self.hi@);
                match r {
                    Ok(out) => {
                        &&& out@.len() == f.len()
                        &&& KC::obeys_decode() ==> forall|i: int|
                            0 <= i < f.len() ==> KC::spec_decode(f[f.len() - 1 - i].0) == Some(
                                (#[trigger] out@[i]).0@,
                            )
                        &&& DC::obeys_decode() ==> forall|i: int|
                            0 <= i < f.len() ==> DC::spec_decode(f[f.len() - 1 - i].1) == Some(
                                (#[trigger] out@[i]).1@,
                            )
                    },
                    Err(e) => e == Error::Decoding && ((KC::obeys_decode() && DC::obeys_decode())
                        ==> exists|i: int|
                        0 <= i < f.len() && (KC::spec_decode(#[trigger] f[i].0) is None
                            || DC::spec_decode(f[i].1) is None)),
                }
            }),
    {
        let fwd = collect_range(&txn.tables[self.dbi], &self.lo, &self.hi);
        let ghost gfwd = fwd@;
        let pairs = reverse_pairs(fwd);
        let ghost f = range_filter(txn.table(self.dbi as int).kv_seq(), self.lo@, self.hi@);
        let r = decode_pairs::<KC, DC>(pairs);
        proof {
            if r is Err && KC::obeys_decode() && DC::obeys_decode() {
                let w = choose|i: int|
                    0 <= i < pairs@.len() && (KC::spec_decode(
                        (#[trigger] pairs@[i]).0@,
                    ) is None || DC::spec_decode(pairs@[i].1@) is None);
                let v = f.len() - 1 - w;
                assert(pairs@[w] == gfwd[v]);
                assert((gfwd[v].0@, gfwd[v].1@) == f[v]);
                assert(KC::spec_decode(f[v].0) is None || DC::spec_decode(f[v].1) is None);
            }
        }
        r
    }
}

/// As [`RoRange`], over a write transaction, with in-place deletion and
/// replacement of the entry last returned.
pub struct RwRange<KC, DC> {
    pub dbi: usize,
    pub pos: usize,
    pub at_entry: bool,
    pub lo: ByteBound,
    pub hi: ByteBound,
    pub codecs: core::marker::PhantomData<(KC, DC)>,
}

/// A full forward iterator with in-place mutation.
pub type RwIter<KC, DC> = RwRange<KC, DC>;

/// A forward prefix iterator with in-place mutation.
pub type RwPrefix<KC, DC> = RwRange<KC, DC>;

impl<KC, DC> RwRange<KC, DC> where KC: BytesDecode, DC: BytesDecode {
    /// The next entry of the range, or `None` once the upper endpoint or the
    /// end of the table is passed.
    pub fn next<T>(&mut self, txn: &RwTxn<T>) -> (r: Result<Option<(KC::DItem, DC::DItem)>>)
        requires
            txn.wf(),
            (old(self).dbi as int) < txn.n_tables(),
        ensures
            final(self).dbi == old(self).dbi,
            final(self).lo == old(self).lo,
            final(self).hi == old(self).hi,
            ({
                let tbl = txn.table(old(self).dbi as int);
                let p = old(self).pos as int;
                if p < tbl.len_spec() && hi_ok(old(self).hi@, tbl.key_at(p)) {
                    &&& final(self).pos == p + 1
                    &&& final(self).at_entry == true
                    &&& match r {
                        Ok(Some(kv)) => (KC::obeys_decode() ==> KC::spec_decode(tbl.key_at(p))
                            == Some(kv.0@)) && (DC::obeys_decode() ==> DC::spec_decode(
                            tbl.val_at(p),
                        ) == Some(kv.1@)),
                        Ok(None) => false,
                        Err(e) => e == Error::Decoding && decode_fails::<KC, DC>(tbl, p),
                    }
                } else {
                    &&& final(self).pos == p
                    &&& final(self).at_entry == old(self).at_entry
                    &&& r matches Ok(None)
                }
            }),
    {
        let tbl = &txn.txn.tables[self.dbi];
        let n = tbl.count();
        if self.pos >= n {
            return Ok(None);
        }
        let pair = tbl.pair_at(self.pos);
        if !hi_ok_exec(&self.hi, pair.0.as_slice()) {
            return Ok(None);
        }
        self.pos = self.pos + 1;
        self.at_entry = true;
        match (KC::bytes_decode(pair.0.as_slice()), DC::bytes_decode(pair.1.as_slice())) {
            (Some(k), Some(v)) => Ok(Some((k, v))),
            _ => Err(Error::Decoding),
        }
    }

    /// Delete the entry last returned by `next`. Without such an entry this
    /// is a no-op reporting `false`.
    pub fn del_current<T>(&mut self, txn: &mut RwTxn<T>) -> (r: Result<bool>)
        requires
            old(txn).wf(),
            (old(self).dbi as int) < old(txn).n_tables(),
        ensures
            final(self).dbi == old(self).dbi,
            final(self).lo == old(self).lo,
            final(self).hi == old(self).hi,
            final(txn).wf(),
            ({
                let tbl = old(txn).table(old(self).dbi as int);
                let p = old(self).pos as int;
                if old(self).at_entry && 0 < p <= tbl.len_spec() {
                    &&& r == Ok::<bool, Error>(true)
                    &&& final(self).pos == p - 1
                    &&& final(self).at_entry == false
                    &&& others_unchanged(*old(txn), *final(txn), old(self).dbi as int)
                    &&& final(txn).table(old(self).dbi as int).kv_seq() == tbl.kv_seq().remove(
                        p - 1,
                    )
                    &&& final(txn).table(old(self).dbi as int).as_map() == tbl.as_map().remove(
                        tbl.key_at(p - 1),
                    )
                    &&& final(txn).table(old(self).dbi as int).sequence == tbl.sequence
                } else {
                    &&& r == Ok::<bool, Error>(false)
                    &&& *final(txn) == *old(txn)
                    &&& final(self).pos == p
                    &&& final(self).at_entry == old(self).at_entry
                }
            }),
    {
        let n = txn.txn.tables[self.dbi].count();
        if !self.at_entry || self.pos == 0 || self.pos > n {
            return Ok(false);
        }
        let tbl = &mut txn.txn.tables[self.dbi];
        tbl.remove_at(self.pos - 1);
        self.pos = self.pos - 1;
        self.at_entry = false;
        Ok(true)
    }

    /// Replace the value of the entry last returned by `next`. The key must
    /// encode to the entry's own key; any other key leaves the table alone
    /// and reports `false`.
    pub fn put_current<T>(&mut self, txn: &mut RwTxn<T>, key: &KC::EItem, data: &DC::EItem) -> (r:
        Result<bool>) where KC: BytesEncode, DC: BytesEncode
        requires
            old(txn).wf(),
            (old(self).dbi as int) < old(txn).n_tables(),
        ensures
            *final(self) == *old(self),
            final(txn).wf(),
            others_unchanged(*old(txn), *final(txn), old(self).dbi as int),
            final(txn).table(old(self).dbi as int).sequence == old(txn).table(
                old(self).dbi as int,
            ).sequence,
            ({
                let tbl = old(txn).table(old(self).dbi as int);
                let p = old(self).pos as int;
                match r {
                    Ok(b) => if b {
                        &&& old(self).at_entry
                        &&& 0 < p <= tbl.len_spec()
                        &&& (KC::obeys_encode() ==> KC::spec_encode(key@) == Some(
                            tbl.key_at(p - 1),
                        ))
                        &&& (DC::obeys_encode() ==> match DC::spec_encode(data@) {
                            Some(vb) => final(txn).table(old(self).dbi as int).as_map()
                                == tbl.as_map().insert(tbl.key_at(p - 1), vb),
                            None => false,
                        })
                    } else {
                        &&& *final(txn) == *old(txn)
                        &&& (KC::obeys_encode() ==> KC::spec_encode(key@) is Some)
                        &&& (DC::obeys_encode() ==> DC::spec_encode(data@) is Some)
                        &&& (old(self).at_entry && 0 < p <= tbl.len_spec() && KC::obeys_encode()
                            ==> KC::spec_encode(key@) != Some(tbl.key_at(p - 1)))
                    },
                    Err(e) => e == Error::Encoding && *final(txn) == *old(txn) && (
                    KC::obeys_encode() && DC::obeys_encode() ==> KC::spec_encode(key@) is None
                        || DC::spec_encode(data@) is None),
                }
            }),
    {
        let key_bytes = match KC::bytes_encode(key) {
            Some(kb) => kb,
            None => {
                return Err(Error::Encoding);
            },
        };
        let data_bytes = match DC::bytes_encode(data) {
            Some(vb) => vb,
            None => {
                return Err(Error::Encoding);
            },
        };
        let n = txn.txn.tables[self.dbi].count();
        if !self.at_entry || self.pos == 0 || self.pos > n {
            return Ok(false);
        }
        let cur = txn.txn.tables[self.dbi].pair_at(self.pos - 1);
        if !matches!(cmp_bytes(cur.0.as_slice(), key_bytes.as_slice()), Cmp::Eq) {
            return Ok(false);
        }
        let tbl = &mut txn.txn.tables[self.dbi];
        tbl.insert(key_bytes, data_bytes);
        Ok(true)
    }
}

impl PolyDatabase {
    /// A forward iterator over every entry, in ascending byte order of key.
    pub fn iter<T, KC, DC>(&self, txn: &RoTxn<T>) -> (r: Result<RoIter<KC, DC>>)
        requires
            usable(*self, *txn),
        ensures
            match r {
                Ok(it) => {
                    &&& it.dbi == self.dbi
                    &&& it.pos == 0
                    &&& it.lo@ == SpecBound::Unbounded
                    &&& it.hi@ == SpecBound::Unbounded
                },
                Err(e) => false,
            },
    {
        Ok(
            RoRange {
                dbi: self.dbi,
                pos: 0,
                lo: ByteBound::Unbounded,
                hi: ByteBound::Unbounded,
                codecs: core::marker::PhantomData,
            },
        )
    }

    /// A backward iterator over every entry, in descending byte order of key.
    pub fn rev_iter<T, KC, DC>(&self, txn: &RoTxn<T>) -> (r: Result<RoRevIter<KC, DC>>)
        requires
            usable(*self, *txn),
        ensures
            match r {
                Ok(it) => {
                    &&& it.dbi == self.dbi
                    &&& it.pos == txn.table(self.dbi as int).len_spec()
                    &&& it.lo@ == SpecBound::Unbounded
                    &&& it.hi@ == SpecBound::Unbounded
                },
                Err(e) => false,
            },
    {
        Ok(
            RoRevRange {
                dbi: self.dbi,
                pos: txn.tables[self.dbi].count(),
                lo: ByteBound::Unbounded,
                hi: ByteBound::Unbounded,
                codecs: core::marker::PhantomData,
            },
        )
    }

    /// A forward iterator over every entry, with in-place mutation.
    pub fn iter_mut<T, KC, DC>(&self, txn: &mut RwTxn<T>) -> (r: Result<RwIter<KC, DC>>)
        requires
            usable_mut(*self, *old(txn)),
        ensures
            *final(txn) == *old(txn),
            match r {
                Ok(it) => {
                    &&& it.dbi == self.dbi
                    &&& it.pos == 0
                    &&& it.at_entry == false
                    &&& it.lo@ == SpecBound::Unbounded
                    &&& it.hi@ == SpecBound::Unbounded
                },
                Err(e) => false,
            },
    {
        Ok(
            RwRange {
                dbi: self.dbi,
                pos: 0,
                at_entry: false,
                lo: ByteBound::Unbounded,
                hi: ByteBound::Unbounded,
                codecs: core::marker::PhantomData,
            },
        )
    }

    /// A backward iterator over every entry, with in-place mutation.
    pub fn rev_iter_mut<T, KC, DC>(&self, txn: &mut RwTxn<T>) -> (r: Result<RwRevIter<KC, DC>>)
        requires
            usable_mut(*self, *old(txn)),
        ensures
            *final(txn) == *old(txn),
            match r {
                Ok(it) => {
                    &&& it.dbi == self.dbi
                    &&& it.pos == old(txn).table(self.dbi as int).len_spec()
                    &&& it.at_entry == false
                    &&& it.lo@ == SpecBound::Unbounded
                    &&& it.hi@ == SpecBound::Unbounded
                },
                Err(e) => false,
            },
    {
        let pos = txn.txn.tables[self.dbi].count();
        Ok(
            RwRevRange {
                dbi: self.dbi,
                pos,
                at_entry: false,
                lo: ByteBound::Unbounded,
                hi: ByteBound::Unbounded,
                codecs: core::marker::PhantomData,
            },
        )
    }

    /// A forward iterator over the entries whose keys lie between the two
    /// endpoints, in ascending byte order of key.
    pub fn range<'a, T, KC, DC>(
        &self,
        txn: &RoTxn<T>,
        start: &TypedBound<'a, KC::EItem>,
        end: &TypedBound<'a, KC::EItem>,
    ) -> (r: Result<RoRange<KC, DC>>) where KC: BytesEncode
        requires
            usable(*self, *txn),
        ensures
            match r {
                Ok(it) => {
                    &&& it.dbi == self.dbi
                    &&& lo_resolved(txn.table(self.dbi as int), it.lo@, it.pos as int)
                    &&& KC::obeys_encode() ==> {
                        &&& bound_encodable::<KC>(*start)
                        &&& bound_encodable::<KC>(*end)
                        &&& it.lo@ == spec_bound_of::<KC>(*start)
                        &&& it.hi@ == spec_bound_of::<KC>(*end)
                    }
                },
                Err(e) => e == Error::Encoding && (KC::obeys_encode() ==> !bound_encodable::<KC>(
                    *start,
                ) || !bound_encodable::<KC>(*end)),
            },
    {
        let lo = match encode_bound::<KC>(start) {
            Ok(b) => b,
            Err(e) => {
                return Err(e);
            },
        };
        let hi = match encode_bound::<KC>(end) {
            Ok(b) => b,
            Err(e) => {
                return Err(e);
            },
        };
        let pos = resolve_lo(&txn.tables[self.dbi], &lo);
        Ok(RoRange { dbi: self.dbi, pos, lo, hi, codecs: core::marker::PhantomData })
    }

    /// As [`PolyDatabase::range`], with in-place mutation.
    pub fn range_mut<'a, T, KC, DC>(
        &self,
        txn: &mut RwTxn<T>,
        start: &TypedBound<'a, KC::EItem>,
        end: &TypedBound<'a, KC::EItem>,
    ) -> (r: Result<RwRange<KC, DC>>) where KC: BytesEncode
        requires
            usable_mut(*self, *old(txn)),
        ensures
            *final(txn) == *old(txn),
            match r {
                Ok(it) => {
                    &&& it.dbi == self.dbi
                    &&& it.at_entry == false
                    &&& lo_resolved(old(txn).table(self.dbi as int), it.lo@, it.pos as int)
                    &&& KC::obeys_encode() ==> {
                        &&& bound_encodable::<KC>(*start)
                        &&& bound_encodable::<KC>(*end)
                        &&& it.lo@ == spec_bound_of::<KC>(*start)
                        &&& it.hi@ == spec_bound_of::<KC>(*end)
                    }
                },
                Err(e) => e == Error::Encoding && (KC::obeys_encode() ==> !bound_encodable::<KC>(
                    *start,
                ) || !bound_encodable::<KC>(*end)),
            },
    {
        let lo = match encode_bound::<KC>(start) {
            Ok(b) => b,
            Err(e) => {
                return Err(e);
            },
        };
        let hi = match encode_bound::<KC>(end) {
            Ok(b) => b,
            Err(e) => {
                return Err(e);
            },
        };
        let pos = resolve_lo(&txn.txn.tables[self.dbi], &lo);
        Ok(RwRange { dbi: self.dbi, pos, at_entry: false, lo, hi, codecs: core::marker::PhantomData })
    }

    /// A backward iterator over the entries whose keys lie between the two
    /// endpoints, in descending byte order of key.
    pub fn rev_range<'a, T, KC, DC>(
        &self,
        txn: &RoTxn<T>,
        start: &TypedBound<'a, KC::EItem>,
        end: &TypedBound<'a, KC::EItem>,
    ) -> (r: Result<RoRevRange<KC, DC>>) where KC: BytesEncode
        requires
            usable(*self, *txn),
        ensures
            match r {
                Ok(it) => {
                    &&& it.dbi == self.dbi
                    &&& hi_resolved(txn.table(self.dbi as int), it.hi@, it.pos as int)
                    &&& KC::obeys_encode() ==> {
                        &&& bound_encodable::<KC>(*start)
                        &&& bound_encodable::<KC>(*end)
                        &&& it.lo@ == spec_bound_of::<KC>(*start)
                        &&& it.hi@ == spec_bound_of::<KC>(*end)
                    }
                },
                Err(e) => e == Error::Encoding && (KC::obeys_encode() ==> !bound_encodable::<KC>(
                    *start,
                ) || !bound_encodable::<KC>(*end)),
            },
    {
        let lo = match encode_bound::<KC>(start) {
            Ok(b) => b,
            Err(e) => {
                return Err(e);
            },
        };
        let hi = match encode_bound::<KC>(end) {
            Ok(b) => b,
            Err(e) => {
                return Err(e);
            },
        };
        let pos = resolve_hi_rev(&txn.tables[self.dbi], &hi);
        Ok(RoRevRange { dbi: self.dbi, pos, lo, hi, codecs: core::marker::PhantomData })
    }

    /// As [`PolyDatabase::rev_range`], with in-place mutation.
    pub fn rev_range_mut<'a, T, KC, DC>(
        &self,
        txn: &mut RwTxn<T>,
        start: &TypedBound<'a, KC::EItem>,
        end: &TypedBound<'a, KC::EItem>,
    ) -> (r: Result<RwRevRange<KC, DC>>) where KC: BytesEncode
        requires
            usable_mut(*self, *old(txn)),
        ensures
            *final(txn) == *old(txn),
            match r {
                Ok(it) => {
                    &&& it.dbi == self.dbi
                    &&& it.at_entry == false
                    &&& hi_resolved(old(txn).table(self.dbi as int), it.hi@, it.pos as int)
                    &&& KC::obeys_encode() ==> {
                        &&& bound_encodable::<KC>(*start)
                        &&& bound_encodable::<KC>(*end)
                        &&& it.lo@ == spec_bound_of::<KC>(*start)
                        &&& it.hi@ == spec_bound_of::<KC>(*end)
                    }
                },
                Err(e) => e == Error::Encoding && (KC::obeys_encode() ==> !bound_encodable::<KC>(
                    *start,
                ) || !bound_encodable::<KC>(*end)),
            },
    {
        let lo = match encode_bound::<KC>(start) {
            Ok(b) => b,
            Err(e) => {
                return Err(e);
            },
        };
        let hi = match encode_bound::<KC>(end) {
            Ok(b) => b,
            Err(e) => {
                return Err(e);
            },
        };
        let pos = resolve_hi_rev(&txn.txn.tables[self.dbi], &hi);
        Ok(
            RwRevRange {
                dbi: self.dbi,
                pos,
                at_entry: false,
                lo,
                hi,
                codecs: core::marker::PhantomData,
            },
        )
    }
}

/// Walk a table from the resolved start of `lo`, collecting every entry up
/// to the last one satisfying `hi`: exactly the entries the bounds select,
/// in ascending key order.
pub(crate) fn collect_range(tbl: &Tree, lo: &ByteBound, hi: &ByteBound) -> (r: Vec<
    (Vec<u8>, Vec<u8>),
>)
    requires
        tbl.wf(),
    ensures
        ({
            let f = range_filter(tbl.kv_seq(), lo@, hi@);
            &&& r@.len() == f.len()
            &&& forall|i: int| 0 <= i < f.len() ==> (r@[i].0@, r@[i].1@) == f[i]
        }),
{
    let ghost kv = tbl.kv_seq();
    let ghost glo = lo@;
    let ghost ghi = hi@;
    let start = resolve_lo(tbl, lo);
    let n = tbl.count();
    let mut out: Vec<(Vec<u8>, Vec<u8>)> = Vec::new();
    let mut i = start;
    proof {
        assert(kv.take(start as int).len() == start as int);
        assert(forall|j: int| 0 <= j < start ==> kv.take(start as int)[j] == kv[j]);
        assert(forall|j: int| 0 <= j < kv.len() ==> (#[trigger] kv[j]).0 == tbl.key_at(j));
        lemma_filter_all_out(kv.take(start as int), glo, ghi);
    }
    let mut stop = false;
    while i < n && !stop
        invariant
            tbl.wf(),
            kv == tbl.kv_seq(),
            glo == lo@,
            ghi == hi@,
            n == tbl.len_spec(),
            start <= i <= n,
            forall|j: int| 0 <= j < start ==> !lo_ok(glo, tbl.key_at(j)),
            (start as int) < tbl.len_spec() ==> lo_ok(glo, tbl.key_at(start as int)),
            out@.len() == range_filter(kv.take(i as int), glo, ghi).len(),
            forall|j: int|
                0 <= j < out@.len() ==> (out@[j].0@, out@[j].1@) == range_filter(
                    kv.take(i as int),
                    glo,
                    ghi,
                )[j],
            stop ==> (i as int) < tbl.len_spec() && !hi_ok(ghi, tbl.key_at(i as int)),
        decreases n - i + (if stop {
            0int
        } else {
            1int
        }),
    {
        let pair = tbl.pair_at(i);
        if !hi_ok_exec(hi, pair.0.as_slice()) {
            stop = true;
        } else {
            proof {
                if i > start {
                    assert(lex_lt(tbl.key_at(start as int), tbl.key_at(i as int)));
                    crate::bound::lemma_lo_up(glo, tbl.key_at(start as int), tbl.key_at(i as int));
                }
                assert(in_range(glo, ghi, tbl.key_at(i as int)));
                lemma_filter_snoc(kv.take(i as int), glo, ghi, kv[i as int]);
                assert(kv.take(i as int + 1) =~= kv.take(i as int).push(kv[i as int]));
            }
            out.push(pair);
            i = i + 1;
        }
    }
    proof {
        if i == n && !stop {
            assert(kv.take(n as int) =~= kv);
        } else {
            assert forall|j: int| 0 <= j < kv.skip(i as int).len() implies !in_range(
                glo,
                ghi,
                kv.skip(i as int)[j].0,
            ) by {
                assert(kv.skip(i as int)[j] == kv[i + j]);
                if j > 0 {
                    assert(lex_lt(tbl.key_at(i as int), tbl.key_at(i + j)));
                }
                if hi_ok(ghi, tbl.key_at(i + j)) {
                    lemma_hi_down(ghi, tbl.key_at(i as int), tbl.key_at(i + j));
                }
            }
            lemma_filter_all_out(kv.skip(i as int), glo, ghi);
            lemma_filter_concat(kv.take(i as int), kv.skip(i as int), glo, ghi);
            assert(kv.take(i as int) + kv.skip(i as int) =~= kv);
            assert(range_filter(kv, glo, ghi) =~= range_filter(kv.take(i as int), glo, ghi));
        }
    }
    out
}

impl PolyDatabase {
    /// Delete every entry whose key lies between the two endpoints,
    /// returning how many entries were removed.
    pub fn delete_range<'a, T, KC>(
        &self,
        txn: &mut RwTxn<T>,
        start: &TypedBound<'a, KC::EItem>,
        end: &TypedBound<'a, KC::EItem>,
    ) -> (r: Result<usize>) where KC: BytesEncode
        requires
            usable_mut(*self, *old(txn)),
        ensures
            final(txn).wf(),
            others_unchanged(*old(txn), *final(txn), self.dbi as int),
            final(txn).table(self.dbi as int).sequence == old(txn).table(self.dbi as int).sequence,
            ({
                let pre = old(txn).table(self.dbi as int);
                let post = final(txn).table(self.dbi as int);
                match r {
                    Ok(count) => KC::obeys_encode() ==> {
                        let lo = spec_bound_of::<KC>(*start);
                        let hi = spec_bound_of::<KC>(*end);
                        &&& bound_encodable::<KC>(*start)
                        &&& bound_encodable::<KC>(*end)
                        &&& count == range_filter(pre.kv_seq(), lo, hi).len()
                        &&& post.as_map() == pre.as_map().remove_keys(
                            Set::new(|q: Seq<u8>| in_range(lo, hi, q)),
                        )
                    },
                    Err(e) => {
                        &&& e == Error::Encoding
                        &&& post == pre
                        &&& (KC::obeys_encode() ==> !bound_encodable::<KC>(*start)
                            || !bound_encodable::<KC>(*end))
                    },
                }
            }),
    {
        let lo = match encode_bound::<KC>(start) {
            Ok(b) => b,
            Err(e) => {
                return Err(e);
            },
        };
        let hi = match encode_bound::<KC>(end) {
            Ok(b) => b,
            Err(e) => {
                return Err(e);
            },
        };
        let tbl = &mut txn.txn.tables[self.dbi];
        let count = remove_range(tbl, &lo, &hi);
        Ok(count)
    }
}

/// Remove from a table every entry whose key lies within the bounds,
/// returning how many entries were removed.
pub(crate) fn remove_range(tbl: &mut Tree, lo: &ByteBound, hi: &ByteBound) -> (r: usize)
    requires
        old(tbl).wf(),
    ensures
        final(tbl).wf(),
        final(tbl).sequence == old(tbl).sequence,
        r == range_filter(old(tbl).kv_seq(), lo@, hi@).len(),
        final(tbl).as_map() == old(tbl).as_map().remove_keys(
            Set::new(|q: Seq<u8>| in_range(lo@, hi@, q)),
        ),
{
    let ghost pre = *old(tbl);
    let ghost glo = lo@;
    let ghost ghi = hi@;
    let victims = collect_range(tbl, lo, hi);
    let ghost f = range_filter(pre.kv_seq(), glo, ghi);
    let count = victims.len();
    let mut k: usize = 0;
    while k < count
        invariant
            count == victims@.len(),
            0 <= k <= count,
            victims@.len() == f.len(),
            forall|j: int| 0 <= j < f.len() ==> (victims@[j].0@, victims@[j].1@) == f[j],
            f == range_filter(pre.kv_seq(), glo, ghi),
            tbl.wf(),
            tbl.sequence == pre.sequence,
            tbl.as_map() == pre.as_map().remove_keys(
                Set::new(|q: Seq<u8>| exists|j: int| 0 <= j < k && f[j].0 == q),
            ),
        decreases count - k,
    {
        let ghost prev_set = Set::new(|q: Seq<u8>| exists|j: int| 0 <= j < k && f[j].0 == q);
        tbl.remove_key(victims[k].0.as_slice());
        proof {
            let new_set = Set::new(|q: Seq<u8>| exists|j: int| 0 <= j < k + 1 && f[j].0 == q);
            assert(pre.as_map().remove_keys(prev_set).remove(f[k as int].0) =~= pre.as_map()
                .remove_keys(new_set));
        }
        k = k + 1;
    }
    proof {
        let full_set = Set::new(|q: Seq<u8>| exists|j: int| 0 <= j < f.len() && f[j].0 == q);
        let in_set = Set::new(|q: Seq<u8>| in_range(glo, ghi, q));
        assert forall|q: Seq<u8>| #[trigger] pre.as_map().dom().contains(q) implies (
        full_set.contains(q) == in_set.contains(q)) by {
            crate::bound::lemma_filter_member(pre.kv_seq(), glo, ghi, q);
            if in_set.contains(q) {
                let w = pre.index_of(q);
                assert(pre.kv_seq()[w].0 == q);
            }
            if full_set.contains(q) {
                let j = choose|j: int| 0 <= j < f.len() && f[j].0 == q;
                assert(f[j].0 == q);
            }
        }
        assert(pre.as_map().remove_keys(full_set) =~= pre.as_map().remove_keys(in_set));
    }
    count
}

/// The upper endpoint a prefix iteration runs to: the prefix advanced past
/// its last non-`0xFF` byte, or no endpoint at all when every byte of the
/// prefix is `0xFF`.
pub open spec fn prefix_hi(kb: Seq<u8>) -> SpecBound {
    if advanced_key(kb).len() == 0 {
        SpecBound::Unbounded
    } else {
        SpecBound::Excluded(advanced_key(kb))
    }
}

/// Build the two byte endpoints of a prefix iteration.
fn prefix_bounds(key_bytes: Vec<u8>) -> (r: (ByteBound, ByteBound))
    ensures
        r.0@ == SpecBound::Included(key_bytes@),
        r.1@ == prefix_hi(key_bytes@),
{
    let mut upper = vstd::slice::slice_to_vec(key_bytes.as_slice());
    advance_key(&mut upper);
    let hi = if upper.len() > 0 {
        ByteBound::Excluded(upper)
    } else {
        ByteBound::Unbounded
    };
    (ByteBound::Included(key_bytes), hi)
}

impl PolyDatabase {
    /// A forward iterator over the entries whose keys carry the given
    /// prefix: the range from the prefix itself up to its advanced form.
    pub fn prefix_iter<T, KC, DC>(&self, txn: &RoTxn<T>, prefix: &KC::EItem) -> (r: Result<
        RoPrefix<KC, DC>,
    >) where KC: BytesEncode
        requires
            usable(*self, *txn),
        ensures
            match r {
                Ok(it) => {
                    &&& it.dbi == self.dbi
                    &&& lo_resolved(txn.table(self.dbi as int), it.lo@, it.pos as int)
                    &&& KC::obeys_encode() ==> match KC::spec_encode(prefix@) {
                        Some(kb) => it.lo@ == SpecBound::Included(kb) && it.hi@ == prefix_hi(kb),
                        None => false,
                    }
                },
                Err(e) => e == Error::Encoding && (KC::obeys_encode() ==> KC::spec_encode(prefix@)
                    is None),
            },
    {
        let key_bytes = match KC::bytes_encode(prefix) {
            Some(kb) => kb,
            None => {
                return Err(Error::Encoding);
            },
        };
        let (lo, hi) = prefix_bounds(key_bytes);
        let pos = resolve_lo(&txn.tables[self.dbi], &lo);
        Ok(RoRange { dbi: self.dbi, pos, lo, hi, codecs: core::marker::PhantomData })
    }

    /// As [`PolyDatabase::prefix_iter`], with in-place mutation.
    pub fn prefix_iter_mut<T, KC, DC>(&self, txn: &mut RwTxn<T>, prefix: &KC::EItem) -> (r: Result<
        RwPrefix<KC, DC>,
    >) where KC: BytesEncode
        requires
            usable_mut(*self, *old(txn)),
        ensures
            *final(txn) == *old(txn),
            match r {
                Ok(it) => {
                    &&& it.dbi == self.dbi
                    &&& it.at_entry == false
                    &&& lo_resolved(old(txn).table(self.dbi as int), it.lo@, it.pos as int)
                    &&& KC::obeys_encode() ==> match KC::spec_encode(prefix@) {
                        Some(kb) => it.lo@ == SpecBound::Included(kb) && it.hi@ == prefix_hi(kb),
                        None => false,
                    }
                },
                Err(e) => e == Error::Encoding && (KC::obeys_encode() ==> KC::spec_encode(prefix@)
                    is None),
            },
    {
        let key_bytes = match KC::bytes_encode(prefix) {
            Some(kb) => kb,
            None => {
                return Err(Error::Encoding);
            },
        };
        let (lo, hi) = prefix_bounds(key_bytes);
        let pos = resolve_lo(&txn.txn.tables[self.dbi], &lo);
        Ok(RwRange { dbi: self.dbi, pos, at_entry: false, lo, hi, codecs: core::marker::PhantomData })
    }

    /// A backward iterator over the entries whose keys carry the given
    /// prefix.
    pub fn rev_prefix_iter<T, KC, DC>(&self, txn: &RoTxn<T>, prefix: &KC::EItem) -> (r: Result<
        RoRevPrefix<KC, DC>,
    >) where KC: BytesEncode
        requires
            usable(*self, *txn),
        ensures
            match r {
                Ok(it) => {
                    &&& it.dbi == self.dbi
                    &&& hi_resolved(txn.table(self.dbi as int), it.hi@, it.pos as int)
                    &&& KC::obeys_encode() ==> match KC::spec_encode(prefix@) {
                        Some(kb) => it.lo@ == SpecBound::Included(kb) && it.hi@ == prefix_hi(kb),
                        None => false,
                    }
                },
                Err(e) => e == Error::Encoding && (KC::obeys_encode() ==> KC::spec_encode(prefix@)
                    is None),
            },
    {
        let key_bytes = match KC::bytes_encode(prefix) {
            Some(kb) => kb,
            None => {
                return Err(Error::Encoding);
            },
        };
        let (lo, hi) = prefix_bounds(key_bytes);
        let pos = resolve_hi_rev(&txn.tables[self.dbi], &hi);
        Ok(RoRevRange { dbi: self.dbi, pos, lo, hi, codecs: core::marker::PhantomData })
    }

    /// As [`PolyDatabase::rev_prefix_iter`], with in-place mutation.
    pub fn rev_prefix_iter_mut<T, KC, DC>(&self, txn: &mut RwTxn<T>, prefix: &KC::EItem) -> (r:
        Result<RwRevPrefix<KC, DC>>) where KC: BytesEncode
        requires
            usable_mut(*self, *old(txn)),
        ensures
            *final(txn) == *old(txn),
            match r {
                Ok(it) => {
                    &&& it.dbi == self.dbi
                    &&& it.at_entry == false
                    &&& hi_resolved(old(txn).table(self.dbi as int), it.hi@, it.pos as int)
                    &&& KC::obeys_encode() ==> match KC::spec_encode(prefix@) {
                        Some(kb) => it.lo@ == SpecBound::Included(kb) && it.hi@ == prefix_hi(kb),
                        None => false,
                    }
                },
                Err(e) => e == Error::Encoding && (KC::obeys_encode() ==> KC::spec_encode(prefix@)
                    is None),
            },
    {
        let key_bytes = match KC::bytes_encode(prefix) {
            Some(kb) => kb,
            None => {
                return Err(Error::Encoding);
            },
        };
        let (lo, hi) = prefix_bounds(key_bytes);
        let pos = resolve_hi_rev(&txn.txn.tables[self.dbi], &hi);
        Ok(
            RwRevRange {
                dbi: self.dbi,
                pos,
                at_entry: false,
                lo,
                hi,
                codecs: core::marker::PhantomData,
            },
        )
    }
}

/// As [`RwRange`], walking backward.
pub struct RwRevRange<KC, DC> {
    pub dbi: usize,
    pub pos: usize,
    pub at_entry: bool,
    pub lo: ByteBound,
    pub hi: ByteBound,
    pub codecs: core::marker::PhantomData<(KC, DC)>,
}

/// A full backward iterator with in-place mutation.
pub type RwRevIter<KC, DC> = RwRevRange<KC, DC>;

/// A backward prefix iterator with in-place mutation.
pub type RwRevPrefix<KC, DC> = RwRevRange<KC, DC>;

impl<KC, DC> RwRevRange<KC, DC> where KC: BytesDecode, DC: BytesDecode {
    /// The next entry walking backward, or `None` once the lower endpoint or
    /// the start of the table is passed.
    pub fn next<T>(&mut self, txn: &RwTxn<T>) -> (r: Result<Option<(KC::DItem, DC::DItem)>>)
        requires
            txn.wf(),
            (old(self).dbi as int) < txn.n_tables(),
        ensures
            final(self).dbi == old(self).dbi,
            final(self).lo == old(self).lo,
            final(self).hi == old(self).hi,
            ({
                let tbl = txn.table(old(self).dbi as int);
                let p = old(self).pos as int;
                if 0 < p <= tbl.len_spec() && lo_ok(old(self).lo@, tbl.key_at(p - 1)) {
                    &&& final(self).pos == p - 1
                    &&& final(self).at_entry == true
                    &&& match r {
                        Ok(Some(kv)) => (KC::obeys_decode() ==> KC::spec_decode(tbl.key_at(p - 1))
                            == Some(kv.0@)) && (DC::obeys_decode() ==> DC::spec_decode(
                            tbl.val_at(p - 1),
                        ) == Some(kv.1@)),
                        Ok(None) => false,
                        Err(e) => e == Error::Decoding && decode_fails::<KC, DC>(tbl, p - 1),
                    }
                } else {
                    &&& final(self).pos == p
                    &&& final(self).at_entry == old(self).at_entry
                    &&& r matches Ok(None)
                }
            }),
    {
        let tbl = &txn.txn.tables[self.dbi];
        let n = tbl.count();
        if self.pos == 0 || self.pos > n {
            return Ok(None);
        }
        let pair = tbl.pair_at(self.pos - 1);
        if !crate::bound::lo_ok_exec(&self.lo, pair.0.as_slice()) {
            return Ok(None);
        }
        self.pos = self.pos - 1;
        self.at_entry = true;
        match (KC::bytes_decode(pair.0.as_slice()), DC::bytes_decode(pair.1.as_slice())) {
            (Some(k), Some(v)) => Ok(Some((k, v))),
            _ => Err(Error::Decoding),
        }
    }

    /// Delete the entry last returned by `next`. Without such an entry this
    /// is a no-op reporting `false`.
    pub fn del_current<T>(&mut self, txn: &mut RwTxn<T>) -> (r: Result<bool>)
        requires
            old(txn).wf(),
            (old(self).dbi as int) < old(txn).n_tables(),
        ensures
            final(self).dbi == old(self).dbi,
            final(self).lo == old(self).lo,
            final(self).hi == old(self).hi,
            final(txn).wf(),
            ({
                let tbl = old(txn).table(old(self).dbi as int);
                let p = old(self).pos as int;
                if old(self).at_entry && 0 <= p < tbl.len_spec() {
                    &&& r == Ok::<bool, Error>(true)
                    &&& final(self).pos == p
                    &&& final(self).at_entry == false
                    &&& others_unchanged(*old(txn), *final(txn), old(self).dbi as int)
                    &&& final(txn).table(old(self).dbi as int).kv_seq() == tbl.kv_seq().remove(p)
                    &&& final(txn).table(old(self).dbi as int).as_map() == tbl.as_map().remove(
                        tbl.key_at(p),
                    )
                    &&& final(txn).table(old(self).dbi as int).sequence == tbl.sequence
                } else {
                    &&& r == Ok::<bool, Error>(false)
                    &&& *final(txn) == *old(txn)
                    &&& final(self).pos == p
                    &&& final(self).at_entry == old(self).at_entry
                }
            }),
    {
        let n = txn.txn.tables[self.dbi].count();
        if !self.at_entry || self.pos >= n {
            return Ok(false);
        }
        let tbl = &mut txn.txn.tables[self.dbi];
        tbl.remove_at(self.pos);
        self.at_entry = false;
        Ok(true)
    }
}

/// A handle on one table with its codec pair fixed at the type level: every
/// call routes through the bound codecs.
pub struct Database<KC, DC> {
    pub dyndb: PolyDatabase,
    pub codecs: core::marker::PhantomData<(KC, DC)>,
}

impl<KC, DC> Database<KC, DC> {
    pub(crate) fn new(env_ident: usize, dbi: usize) -> (r: Database<KC, DC>)
        ensures
            r.dyndb.env_ident == env_ident,
            r.dyndb.dbi == dbi,
    {
        Database { dyndb: PolyDatabase { env_ident, dbi }, codecs: core::marker::PhantomData }
    }

    /// Retrieves the value associated with a key, as
    /// [`PolyDatabase::get`] with the bound codecs.
    pub fn get<T>(&self, txn: &RoTxn<T>, key: &KC::EItem) -> (r: Result<
        Option<DC::DItem>,
    >) where KC: BytesEncode, DC: BytesDecode
        requires
            usable(self.dyndb, *txn),
        ensures
            ({
                let tbl = txn.table(self.dyndb.dbi as int);
                match r {
                    Ok(Some(d)) => KC::obeys_encode() ==> {
                        let kb = KC::spec_encode(key@);
                        &&& kb is Some
                        &&& tbl.contains_key(kb.unwrap())
                        &&& (DC::obeys_decode() ==> DC::spec_decode(tbl.as_map()[kb.unwrap()])
                            == Some(d@))
                    },
                    Ok(None) => KC::obeys_encode() ==> {
                        let kb = KC::spec_encode(key@);
                        &&& kb is Some
                        &&& !tbl.contains_key(kb.unwrap())
                    },
                    Err(e) => {
                        &&& (e == Error::Encoding || e == Error::Decoding)
                        &&& (KC::obeys_encode() && e == Error::Encoding ==> KC::spec_encode(key@)
                            is None)
                        &&& (KC::obeys_encode() && e == Error::Decoding ==> {
                            let kb = KC::spec_encode(key@);
                            &&& kb is Some
                            &&& tbl.contains_key(kb.unwrap())
                            &&& (DC::obeys_decode() ==> DC::spec_decode(
                                tbl.as_map()[kb.unwrap()],
                            ) is None)
                        })
                    },
                }
            }),
    {
        self.dyndb.get::<T, KC, DC>(txn, key)
    }

    /// Stores a key/value pair, as [`PolyDatabase::put`] with the bound
    /// codecs.
    pub fn put<T>(&self, txn: &mut RwTxn<T>, key: &KC::EItem, data: &DC::EItem) -> (r: Result<
        (),
    >) where KC: BytesEncode, DC: BytesEncode
        requires
            usable_mut(self.dyndb, *old(txn)),
        ensures
            final(txn).wf(),
            others_unchanged(*old(txn), *final(txn), self.dyndb.dbi as int),
            ({
                let pre = old(txn).table(self.dyndb.dbi as int);
                let post = final(txn).table(self.dyndb.dbi as int);
                match r {
                    Ok(u) => (KC::obeys_encode() && DC::obeys_encode()) ==> {
                        let kb = KC::spec_encode(key@);
                        let vb = DC::spec_encode(data@);
                        &&& kb is Some
                        &&& vb is Some
                        &&& post.as_map() == pre.as_map().insert(kb.unwrap(), vb.unwrap())
                    },
                    Err(e) => {
                        &&& e == Error::Encoding
                        &&& post == pre
                        &&& (KC::obeys_encode() && DC::obeys_encode() ==> KC::spec_encode(key@)
                            is None || DC::spec_encode(data@) is None)
                    },
                }
            }),
    {
        self.dyndb.put::<T, KC, DC>(txn, key, data)
    }

    /// Deletes the entry under a key, as [`PolyDatabase::delete`] with the
    /// bound key codec.
    pub fn delete<T>(&self, txn: &mut RwTxn<T>, key: &KC::EItem) -> (r: Result<bool>) where
        KC: BytesEncode,
        requires
            usable_mut(self.dyndb, *old(txn)),
        ensures
            final(txn).wf(),
            others_unchanged(*old(txn), *final(txn), self.dyndb.dbi as int),
            ({
                let pre = old(txn).table(self.dyndb.dbi as int);
                let post = final(txn).table(self.dyndb.dbi as int);
                match r {
                    Ok(existed) => KC::obeys_encode() ==> {
                        let kb = KC::spec_encode(key@);
                        &&& kb is Some
                        &&& existed == pre.contains_key(kb.unwrap())
                        &&& post.as_map() == pre.as_map().remove(kb.unwrap())
                        &&& (!existed ==> post == pre)
                    },
                    Err(e) => {
                        &&& e == Error::Encoding
                        &&& post == pre
                        &&& (KC::obeys_encode() ==> KC::spec_encode(key@) is None)
                    },
                }
            }),
    {
        self.dyndb.delete::<T, KC>(txn, key)
    }

    /// The number of entries in the table.
    pub fn len<T>(&self, txn: &RoTxn<T>) -> (r: Result<usize>)
        requires
            usable(self.dyndb, *txn),
        ensures
            r == Ok::<usize, Error>(txn.table(self.dyndb.dbi as int).len_spec() as usize),
    {
        self.dyndb.len(txn)
    }

    /// Whether the table holds no entry.
    pub fn is_empty<T>(&self, txn: &RoTxn<T>) -> (r: Result<bool>)
        requires
            usable(self.dyndb, *txn),
        ensures
            r == Ok::<bool, Error>(txn.table(self.dyndb.dbi as int).len_spec() == 0),
    {
        self.dyndb.is_empty(txn)
    }

    /// Drops every entry of the table.
    pub fn clear<T>(&self, txn: &mut RwTxn<T>) -> (r: Result<()>)
        requires
            usable_mut(self.dyndb, *old(txn)),
        ensures
            r is Ok,
            final(txn).wf(),
            others_unchanged(*old(txn), *final(txn), self.dyndb.dbi as int),
            final(txn).table(self.dyndb.dbi as int).len_spec() == 0,
    {
        self.dyndb.clear(txn)
    }

    /// A forward iterator over every entry.
    pub fn iter<T>(&self, txn: &RoTxn<T>) -> (r: Result<RoIter<KC, DC>>)
        requires
            usable(self.dyndb, *txn),
        ensures
            match r {
                Ok(it) => {
                    &&& it.dbi == self.dyndb.dbi
                    &&& it.pos == 0
                    &&& it.lo@ == SpecBound::Unbounded
                    &&& it.hi@ == SpecBound::Unbounded
                },
                Err(e) => false,
            },
    {
        self.dyndb.iter::<T, KC, DC>(txn)
    }
}

impl PolyDatabase {
    /// View this handle as a fixed-codec one for the given codec pair.
    pub fn as_uniform<KC, DC>(&self) -> (r: Database<KC, DC>)
        ensures
            r.dyndb == *self,
    {
        Database { dyndb: *self, codecs: core::marker::PhantomData }
    }
}

} // verus!
