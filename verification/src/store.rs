//! The engine-generic layer: anything that can hand out transactions and
//! named tables is a `Store`, and anything those tables can do is a `Table`.
//! One concrete engine is provided: the B-tree engine built on the
//! environment registry.

use vstd::prelude::*;

use crate::bound::{range_filter, SpecBound, TypedBound};
use crate::db::{collect_range, decode_pairs, reverse_pairs, PolyDatabase};
use crate::env::{name_view, Env, EnvOpenOptions, EnvState, Registry, TypeRecord};
use crate::errors::{Error, Result};
use crate::traits::{BytesDecode, BytesEncode};
use crate::types::ByteSlice;
use crate::txn::{tables_same, RoTxn, RwTxn};

verus! {

/// Anything that can produce read and write transactions and named table
/// handles.
pub trait Store: Sized {
    type Rtx;

    type Wtx;

    type Table;

    type Config;

    /// The table registered under `name`, created when absent.
    fn table(&mut self, name: &str, cfg: &Self::Config) -> Result<Self::Table>;

    /// Begin a read transaction.
    fn rtx(&self) -> Result<Self::Rtx>;

    /// Begin a write transaction.
    fn wtx(&self) -> Result<Self::Wtx>;
}

/// A transaction of a store, driven to its end by exactly one commit or
/// abort.
pub trait Transaction<S: Store>: Sized {
    /// Commit the transaction against its store.
    fn commit(self, store: &mut S) -> Result<()>;

    /// Abandon the transaction.
    fn abort(self);
}

/// A table of a store: point reads and writes plus materialized bounded
/// iteration, all through caller-chosen codecs. Each engine defines, as
/// specification members, when a handle is usable with a transaction, what
/// contents it then reads, which byte entries its range walks select, and
/// which keys its `clear` removes; the method contracts are stated over
/// those members, so callers generic over the engine still get exact
/// guarantees.
pub trait Table: Sized {
    type Store: Store;

    /// Whether this handle fits the read transaction: right engine, table
    /// present, snapshot well formed.
    spec fn usable_r(self, txn: <Self::Store as Store>::Rtx) -> bool;

    /// As `usable_r`, for a write transaction.
    spec fn usable_w(self, txn: <Self::Store as Store>::Wtx) -> bool;

    /// The sorted byte entries this handle reads through the transaction.
    spec fn entries_r(self, txn: <Self::Store as Store>::Rtx) -> Seq<(Seq<u8>, Seq<u8>)>;

    /// The table contents this handle reads through the transaction.
    spec fn contents_r(self, txn: <Self::Store as Store>::Rtx) -> Map<Seq<u8>, Seq<u8>>;

    /// As `contents_r`, for a write transaction.
    spec fn contents_w(self, txn: <Self::Store as Store>::Wtx) -> Map<Seq<u8>, Seq<u8>>;

    /// The byte entries a forward range over these endpoints yields, in
    /// order: each engine's own translation of the endpoints is folded in.
    spec fn selects(
        self,
        txn: <Self::Store as Store>::Rtx,
        lo: crate::bound::SpecBound,
        hi: crate::bound::SpecBound,
    ) -> Seq<(Seq<u8>, Seq<u8>)>;

    /// Whether the engine's backward walk takes this lower endpoint at all.
    spec fn rev_start_ok(self, lo: crate::bound::SpecBound) -> bool;

    /// The byte entries a backward range over these endpoints yields, in
    /// descending order.
    spec fn rev_selects(
        self,
        txn: <Self::Store as Store>::Rtx,
        lo: crate::bound::SpecBound,
        hi: crate::bound::SpecBound,
    ) -> Seq<(Seq<u8>, Seq<u8>)>;

    /// Whether a `clear` through this handle removes the key.
    spec fn cleared(self, k: Seq<u8>) -> bool;

    /// The value under `key`, if any.
    fn get<KC: BytesEncode, DC: BytesDecode>(
        &self,
        txn: &<Self::Store as Store>::Rtx,
        key: &KC::EItem,
    ) -> (r: Result<Option<DC::DItem>>)
        ensures
            (self.usable_r(*txn) && KC::obeys_encode()) ==> ({
                let kb = KC::spec_encode(key@);
                let m = self.contents_r(*txn);
                match r {
                    Ok(Some(d)) => {
                        &&& kb is Some
                        &&& m.dom().contains(kb.unwrap())
                        &&& (DC::obeys_decode() ==> DC::spec_decode(m[kb.unwrap()]) == Some(d@))
                    },
                    Ok(None) => kb is Some && !m.dom().contains(kb.unwrap()),
                    Err(e) => {
                        &&& (e == Error::Encoding || e == Error::Decoding)
                        &&& (e == Error::Encoding ==> kb is None)
                        &&& (e == Error::Decoding ==> kb is Some && m.dom().contains(kb.unwrap())
                            && (DC::obeys_decode() ==> DC::spec_decode(m[kb.unwrap()]) is None))
                    },
                }
            }),
    ;

    /// The entries whose keys lie between the endpoints, in ascending byte
    /// order of encoded key, as this engine walks them.
    fn range<'a, KC: BytesEncode + BytesDecode, DC: BytesDecode>(
        &self,
        txn: &<Self::Store as Store>::Rtx,
        start: &TypedBound<'a, KC::EItem>,
        end: &TypedBound<'a, KC::EItem>,
    ) -> (r: Result<Vec<(KC::DItem, DC::DItem)>>)
        ensures
            (self.usable_r(*txn) && KC::obeys_encode()) ==> match r {
                Ok(out) => {
                    &&& crate::db::bound_encodable::<KC>(*start)
                    &&& crate::db::bound_encodable::<KC>(*end)
                    &&& ({
                        let f = self.selects(
                            *txn,
                            crate::db::spec_bound_of::<KC>(*start),
                            crate::db::spec_bound_of::<KC>(*end),
                        );
                        &&& out@.len() == f.len()
                        &&& KC::obeys_decode() ==> forall|i: int|
                            0 <= i < f.len() ==> KC::spec_decode(f[i].0) == Some(
                                (#[trigger] out@[i]).0@,
                            )
                        &&& DC::obeys_decode() ==> forall|i: int|
                            0 <= i < f.len() ==> DC::spec_decode(f[i].1) == Some(
                                (#[trigger] out@[i]).1@,
                            )
                    })
                },
                Err(e) => {
                    &&& (e == Error::Encoding || e == Error::Decoding)
                    &&& (e == Error::Encoding ==> !crate::db::bound_encodable::<KC>(*start)
                        || !crate::db::bound_encodable::<KC>(*end))
                },
            },
    ;

    /// As `range`, in descending order.
    fn rev_range<'a, KC: BytesEncode + BytesDecode, DC: BytesDecode>(
        &self,
        txn: &<Self::Store as Store>::Rtx,
        start: &TypedBound<'a, KC::EItem>,
        end: &TypedBound<'a, KC::EItem>,
    ) -> (r: Result<Vec<(KC::DItem, DC::DItem)>>)
        ensures
            (self.usable_r(*txn) && KC::obeys_encode()) ==> match r {
                Ok(out) => {
                    &&& crate::db::bound_encodable::<KC>(*start)
                    &&& crate::db::bound_encodable::<KC>(*end)
                    &&& self.rev_start_ok(crate::db::spec_bound_of::<KC>(*start))
                    &&& ({
                        let f = self.rev_selects(
                            *txn,
                            crate::db::spec_bound_of::<KC>(*start),
                            crate::db::spec_bound_of::<KC>(*end),
                        );
                        &&& out@.len() == f.len()
                        &&& KC::obeys_decode() ==> forall|i: int|
                            0 <= i < f.len() ==> KC::spec_decode(f[i].0) == Some(
                                (#[trigger] out@[i]).0@,
                            )
                        &&& DC::obeys_decode() ==> forall|i: int|
                            0 <= i < f.len() ==> DC::spec_decode(f[i].1) == Some(
                                (#[trigger] out@[i]).1@,
                            )
                    })
                },
                Err(e) => {
                    &&& (e == Error::Encoding || e == Error::Decoding || e == Error::Engine)
                    &&& (e == Error::Encoding ==> !crate::db::bound_encodable::<KC>(*start)
                        || !crate::db::bound_encodable::<KC>(*end))
                    &&& (e == Error::Engine ==> !self.rev_start_ok(
                        crate::db::spec_bound_of::<KC>(*start),
                    ))
                },
            },
    ;

    /// The number of entries.
    fn len(&self, txn: &<Self::Store as Store>::Rtx) -> (r: Result<usize>)
        ensures
            self.usable_r(*txn) ==> r == Ok::<usize, Error>(
                self.entries_r(*txn).len() as usize,
            ),
    ;

    /// Store a key/value pair, replacing any value already present.
    fn put<KC: BytesEncode, DC: BytesEncode>(
        &self,
        txn: &mut <Self::Store as Store>::Wtx,
        key: &KC::EItem,
        data: &DC::EItem,
    ) -> (r: Result<()>)
        ensures
            self.usable_w(*old(txn)) ==> self.usable_w(*final(txn)),
            (self.usable_w(*old(txn)) && KC::obeys_encode() && DC::obeys_encode()) ==> ({
                let kb = KC::spec_encode(key@);
                let vb = DC::spec_encode(data@);
                match r {
                    Ok(u) => {
                        &&& kb is Some
                        &&& vb is Some
                        &&& self.contents_w(*final(txn)) == self.contents_w(*old(txn)).insert(
                            kb.unwrap(),
                            vb.unwrap(),
                        )
                    },
                    Err(e) => {
                        &&& e == Error::Encoding
                        &&& (kb is None || vb is None)
                        &&& self.contents_w(*final(txn)) == self.contents_w(*old(txn))
                    },
                }
            }),
    ;

    /// Store a key/value pair expected to sort after every present key;
    /// an engine with a native append rejects one that does not.
    fn append<KC: BytesEncode, DC: BytesEncode>(
        &self,
        txn: &mut <Self::Store as Store>::Wtx,
        key: &KC::EItem,
        data: &DC::EItem,
    ) -> (r: Result<()>)
        ensures
            self.usable_w(*old(txn)) ==> self.usable_w(*final(txn)),
            (self.usable_w(*old(txn)) && KC::obeys_encode() && DC::obeys_encode()) ==> ({
                let kb = KC::spec_encode(key@);
                let vb = DC::spec_encode(data@);
                match r {
                    Ok(u) => {
                        &&& kb is Some
                        &&& vb is Some
                        &&& self.contents_w(*final(txn)) == self.contents_w(*old(txn)).insert(
                            kb.unwrap(),
                            vb.unwrap(),
                        )
                    },
                    Err(e) => {
                        &&& (e == Error::Encoding || e == Error::Engine)
                        &&& (e == Error::Encoding ==> kb is None || vb is None)
                        &&& self.contents_w(*final(txn)) == self.contents_w(*old(txn))
                    },
                }
            }),
    ;

    /// Delete the entry under `key`, absent keys being a no-op.
    fn delete<KC: BytesEncode>(
        &self,
        txn: &mut <Self::Store as Store>::Wtx,
        key: &KC::EItem,
    ) -> (r: Result<()>)
        ensures
            self.usable_w(*old(txn)) ==> self.usable_w(*final(txn)),
            (self.usable_w(*old(txn)) && KC::obeys_encode()) ==> ({
                let kb = KC::spec_encode(key@);
                match r {
                    Ok(u) => kb is Some && self.contents_w(*final(txn)) == self.contents_w(
                        *old(txn),
                    ).remove(kb.unwrap()),
                    Err(e) => {
                        &&& e == Error::Encoding
                        &&& kb is None
                        &&& self.contents_w(*final(txn)) == self.contents_w(*old(txn))
                    },
                }
            }),
    ;

    /// Drop every entry this engine's `clear` reaches.
    fn clear(&self, txn: &mut <Self::Store as Store>::Wtx) -> (r: Result<()>)
        ensures
            self.usable_w(*old(txn)) ==> {
                &&& r is Ok
                &&& self.usable_w(*final(txn))
                &&& self.contents_w(*final(txn)) == self.contents_w(*old(txn)).remove_keys(
                    Set::new(|k: Seq<u8>| self.cleared(k)),
                )
            },
    ;
}

/// The B-tree engine as a store: one environment registry owned outright,
/// with one environment open in it.
pub struct MdbStore {
    pub reg: Registry,
    pub env_id: usize,
}

impl MdbStore {
    /// Open the B-tree engine at a canonical path, with its own registry:
    /// on a fresh registry the open always succeeds, with one environment
    /// holding one empty unnamed table.
    pub fn open(options: &EnvOpenOptions, path: &str) -> (r: Result<MdbStore>)
        ensures
            r matches Ok(st) && {
                &&& st.env_id == 0
                &&& st.reg.wf()
                &&& st.reg.n_envs() == 1
                &&& st.reg.valid_env(0)
                &&& ({
                    let s = st.reg.slot(0);
                    &&& s.path@ == path@
                    &&& s.options == *options
                    &&& s.state == EnvState::Open
                    &&& s.refs == 1
                    &&& s.tables@.len() == 1
                    &&& s.tables@[0].len_spec() == 0
                    &&& s.tables@[0].sequence == 0
                    &&& name_view(s.names@[0]) is None
                    &&& s.records@[0] == TypeRecord::Unset
                })
            },
    {
        let mut reg = Registry::new();
        match options.open(&mut reg, path) {
            Ok(env) => {
                let Env { env_id } = env;
                Ok(MdbStore { reg, env_id })
            },
            Err(e) => Err(e),
        }
    }

    /// Whether this store can be used: its registry is well formed and the
    /// environment is live.
    fn check(&self) -> (r: bool)
        ensures
            r == (self.reg.wf() && self.reg.valid_env(self.env_id as int)),
    {
        self.reg.check_wf() && self.env_id < self.reg.envs.len() && !matches!(
            self.reg.envs[self.env_id].state,
            EnvState::Released,
        )
    }

    /// Publish a write transaction into this store's registry: after the
    /// checks the underlying commit relies on, the environment's tables
    /// become the transaction's view, wholesale.
    pub fn commit_wtx(&mut self, txn: RwTxn<()>) -> (r: Result<()>)
        ensures
            final(self).env_id == old(self).env_id,
            ({
                let id = txn.txn.env_id as int;
                let ok = {
                    &&& old(self).reg.wf()
                    &&& old(self).reg.valid_env(old(self).env_id as int)
                    &&& old(self).reg.valid_env(id)
                    &&& txn.txn.tables@.len() == old(self).reg.slot(id).tables@.len()
                    &&& txn.wf()
                };
                if ok {
                    &&& r is Ok
                    &&& final(self).reg.wf()
                    &&& final(self).reg.n_envs() == old(self).reg.n_envs()
                    &&& forall|j: int|
                        0 <= j < old(self).reg.n_envs() && j != id ==> final(self).reg.slot(j)
                            == old(self).reg.slot(j)
                    &&& final(self).reg.slot(id).tables == txn.txn.tables
                    &&& final(self).reg.slot(id).names == old(self).reg.slot(id).names
                    &&& final(self).reg.slot(id).records == old(self).reg.slot(id).records
                    &&& final(self).reg.slot(id).state == old(self).reg.slot(id).state
                    &&& final(self).reg.slot(id).refs == old(self).reg.slot(id).refs
                    &&& final(self).reg.slot(id).path == old(self).reg.slot(id).path
                } else {
                    r == Err::<(), Error>(Error::Engine) && *final(self) == *old(self)
                }
            }),
    {
        if !self.check() {
            return Err(Error::Engine);
        }
        if txn.txn.env_id >= self.reg.envs.len() || matches!(
            self.reg.envs[txn.txn.env_id].state,
            EnvState::Released,
        ) {
            return Err(Error::Engine);
        }
        if txn.txn.tables.len() != self.reg.envs[txn.txn.env_id].tables.len() {
            return Err(Error::Engine);
        }
        let n = txn.txn.tables.len();
        let mut i: usize = 0;
        while i < n
            invariant
                n == txn.txn.tables@.len(),
                0 <= i <= n,
                forall|j: int| 0 <= j < i ==> (#[trigger] txn.txn.tables@[j]).wf(),
            decreases n - i,
        {
            if !txn.txn.tables[i].check_wf() {
                return Err(Error::Engine);
            }
            i = i + 1;
        }
        RwTxn::commit(txn, &mut self.reg)
    }
}

impl Store for MdbStore {
    type Rtx = RoTxn<()>;

    type Wtx = RwTxn<()>;

    type Table = PolyDatabase;

    type Config = ();

    /// On a usable store, opens or creates the table under `name` and
    /// records it as polymorphic; fails with a typing conflict when the name
    /// was first registered under a concrete codec pair.
    fn table(&mut self, name: &str, cfg: &Self::Config) -> (r: Result<PolyDatabase>)
        ensures
            final(self).env_id == old(self).env_id,
            ({
                let id = old(self).env_id as int;
                let ok = old(self).reg.wf() && old(self).reg.valid_env(id);
                match r {
                    Ok(db) => {
                        &&& ok
                        &&& final(self).reg.wf()
                        &&& final(self).reg.valid_env(id)
                        &&& final(self).reg.n_envs() == old(self).reg.n_envs()
                        &&& db.env_ident == old(self).env_id
                        &&& ({
                            let pre = old(self).reg.slot(id);
                            let post = final(self).reg.slot(id);
                            &&& (db.dbi as int) < post.tables@.len()
                            &&& name_view(post.names@[db.dbi as int]) == Some(name@)
                            &&& post.records@[db.dbi as int] == TypeRecord::Poly
                            &&& if pre.has_name(Some(name@)) {
                                &&& db.dbi as int == pre.dbi_of(Some(name@))
                                &&& tables_same(post.tables@, pre.tables@)
                            } else {
                                &&& db.dbi as int == pre.tables@.len()
                                &&& post.tables@.len() == pre.tables@.len() + 1
                                &&& forall|j: int|
                                    0 <= j < pre.tables@.len() ==> (#[trigger] post.tables@[j])
                                        .same_data(pre.tables@[j])
                                &&& post.tables@[db.dbi as int].len_spec() == 0
                            }
                        })
                    },
                    Err(e) => {
                        &&& (e == Error::Engine || e == Error::InvalidDatabaseTyping)
                        &&& (e == Error::Engine ==> !ok && *final(self) == *old(self))
                        &&& (e == Error::InvalidDatabaseTyping ==> {
                            let pre = old(self).reg.slot(id);
                            &&& ok
                            &&& pre.has_name(Some(name@))
                            &&& pre.records@[pre.dbi_of(Some(name@))] != TypeRecord::Poly
                            &&& pre.records@[pre.dbi_of(Some(name@))] != TypeRecord::Unset
                            &&& final(self).reg.slot(id) == pre
                        })
                    },
                }
            }),
    {
        if !self.check() {
            return Err(Error::Engine);
        }
        let ghost id = self.env_id as int;
        let ghost pre = self.reg.slot(id);
        let env = Env { env_id: self.env_id };
        let mut wtxn = match env.typed_write_txn::<()>(&self.reg) {
            Ok(t) => t,
            Err(e) => {
                return Err(e);
            },
        };
        let ghost wtb = wtxn;
        let ghost wt0 = wtxn.txn.tables@;
        let db = match env.create_poly_database(&mut self.reg, &mut wtxn, Some(name)) {
            Ok(db) => db,
            Err(e) => {
                return Err(e);
            },
        };
        let ghost wta = wtxn;
        let ghost wt1 = wtxn.txn.tables@;
        match wtxn.commit(&mut self.reg) {
            Ok(u) => {
                proof {
                    let post = self.reg.slot(id);
                    assert(post.tables@ == wt1);
                    if pre.has_name(Some(name@)) {
                        let w = pre.dbi_of(Some(name@));
                        assert(name_view(pre.names@[w]) == Some(name@));
                        assert(wt1 == wt0);
                        assert forall|j: int| 0 <= j < post.tables@.len() implies (
                        #[trigger] post.tables@[j]).same_data(pre.tables@[j]) by {
                            assert(wt0[j].same_data(pre.tables@[j]));
                        }
                    } else {
                        assert forall|j: int| 0 <= j < pre.tables@.len() implies (
                        #[trigger] post.tables@[j]).same_data(pre.tables@[j]) by {
                            assert(wta.table(j) == wtb.table(j));
                            assert(wt1[j] == wta.table(j));
                            assert(wt0[j] == wtb.table(j));
                            assert(wt0[j].same_data(pre.tables@[j]));
                        }
                    }
                }
                Ok(db)
            },
            Err(e) => Err(e),
        }
    }

    /// Begin a read snapshot of the environment's tables; succeeds exactly
    /// on a usable store.
    fn rtx(&self) -> (r: Result<RoTxn<()>>)
        ensures
            ({
                let ok = self.reg.wf() && self.reg.valid_env(self.env_id as int);
                match r {
                    Ok(t) => {
                        &&& ok
                        &&& t.env_id == self.env_id
                        &&& t.wf()
                        &&& tables_same(t.tables@, self.reg.slot(self.env_id as int).tables@)
                    },
                    Err(e) => e == Error::Engine && !ok,
                }
            }),
    {
        if !self.check() {
            return Err(Error::Engine);
        }
        let env = Env { env_id: self.env_id };
        env.typed_read_txn::<()>(&self.reg)
    }

    /// Begin a write working copy of the environment's tables; succeeds
    /// exactly on a usable store.
    fn wtx(&self) -> (r: Result<RwTxn<()>>)
        ensures
            ({
                let ok = self.reg.wf() && self.reg.valid_env(self.env_id as int);
                match r {
                    Ok(t) => {
                        &&& ok
                        &&& t.txn.env_id == self.env_id
                        &&& t.wf()
                        &&& tables_same(t.txn.tables@, self.reg.slot(self.env_id as int).tables@)
                    },
                    Err(e) => e == Error::Engine && !ok,
                }
            }),
    {
        if !self.check() {
            return Err(Error::Engine);
        }
        let env = Env { env_id: self.env_id };
        env.typed_write_txn::<()>(&self.reg)
    }
}

impl Transaction<MdbStore> for RoTxn<()> {
    /// A read snapshot has nothing to publish: it forwards to
    /// [`RoTxn::commit`], which never fails, and leaves the store untouched.
    fn commit(self, store: &mut MdbStore) -> Result<()> {
        RoTxn::commit(self)
    }

    fn abort(self) {
        let u = RoTxn::abort(self);
    }
}

impl Transaction<MdbStore> for RwTxn<()> {
    /// Publish the working copy into the store: it forwards to the exactly
    /// specified [`MdbStore::commit_wtx`].
    fn commit(self, store: &mut MdbStore) -> Result<()> {
        store.commit_wtx(self)
    }

    fn abort(self) {
        let u = RwTxn::abort(self);
    }
}

/// Check that a handle may be used with this transaction: same environment,
/// table present, every table sorted.
fn check_usable(db: &PolyDatabase, txn: &RoTxn<()>) -> (r: bool)
    ensures
        r == crate::db::usable(*db, *txn),
{
    if txn.env_id != db.env_ident {
        return false;
    }
    if db.dbi >= txn.tables.len() {
        return false;
    }
    let n = txn.tables.len();
    let mut i: usize = 0;
    while i < n
        invariant
            n == txn.tables@.len(),
            0 <= i <= n,
            forall|j: int| 0 <= j < i ==> (#[trigger] txn.tables@[j]).wf(),
        decreases n - i,
    {
        if !txn.tables[i].check_wf() {
            return false;
        }
        i = i + 1;
    }
    true
}

impl Table for PolyDatabase {
    type Store = MdbStore;

    open spec fn usable_r(self, txn: RoTxn<()>) -> bool {
        crate::db::usable(self, txn)
    }

    open spec fn usable_w(self, txn: RwTxn<()>) -> bool {
        crate::db::usable_mut(self, txn)
    }

    open spec fn entries_r(self, txn: RoTxn<()>) -> Seq<(Seq<u8>, Seq<u8>)> {
        txn.table(self.dbi as int).kv_seq()
    }

    open spec fn contents_r(self, txn: RoTxn<()>) -> Map<Seq<u8>, Seq<u8>> {
        txn.table(self.dbi as int).as_map()
    }

    open spec fn contents_w(self, txn: RwTxn<()>) -> Map<Seq<u8>, Seq<u8>> {
        txn.table(self.dbi as int).as_map()
    }

    /// The B-tree engine walks exactly the entries within the endpoints.
    open spec fn selects(
        self,
        txn: RoTxn<()>,
        lo: crate::bound::SpecBound,
        hi: crate::bound::SpecBound,
    ) -> Seq<(Seq<u8>, Seq<u8>)> {
        range_filter(txn.table(self.dbi as int).kv_seq(), lo, hi)
    }

    /// The B-tree engine takes every lower endpoint backward.
    open spec fn rev_start_ok(self, lo: crate::bound::SpecBound) -> bool {
        true
    }

    open spec fn rev_selects(
        self,
        txn: RoTxn<()>,
        lo: crate::bound::SpecBound,
        hi: crate::bound::SpecBound,
    ) -> Seq<(Seq<u8>, Seq<u8>)> {
        let f = self.selects(txn, lo, hi);
        Seq::new(f.len(), |i: int| f[f.len() - 1 - i])
    }

    /// The B-tree engine's `clear` drops every entry.
    open spec fn cleared(self, k: Seq<u8>) -> bool {
        true
    }

    fn get<KC: BytesEncode, DC: BytesDecode>(&self, txn: &RoTxn<()>, key: &KC::EItem) -> (r:
        Result<Option<DC::DItem>>) {
        if !check_usable(self, txn) {
            return Err(Error::Engine);
        }
        PolyDatabase::get::<(), KC, DC>(self, txn, key)
    }

    fn range<'a, KC: BytesEncode + BytesDecode, DC: BytesDecode>(
        &self,
        txn: &RoTxn<()>,
        start: &TypedBound<'a, KC::EItem>,
        end: &TypedBound<'a, KC::EItem>,
    ) -> (r: Result<Vec<(KC::DItem, DC::DItem)>>) {
        if !check_usable(self, txn) {
            return Err(Error::Engine);
        }
        let lo = match crate::bound::encode_bound::<KC>(start) {
            Ok(b) => b,
            Err(e) => {
                return Err(e);
            },
        };
        let hi = match crate::bound::encode_bound::<KC>(end) {
            Ok(b) => b,
            Err(e) => {
                return Err(e);
            },
        };
        let pairs = collect_range(&txn.tables[self.dbi], &lo, &hi);
        let r = decode_pairs::<KC, DC>(pairs);
        proof {
            if r is Err {
                assert(r matches Err(e) && e == Error::Decoding);
            }
        }
        match r {
            Ok(out) => Ok(out),
            Err(e) => Err(Error::Decoding),
        }
    }

    fn rev_range<'a, KC: BytesEncode + BytesDecode, DC: BytesDecode>(
        &self,
        txn: &RoTxn<()>,
        start: &TypedBound<'a, KC::EItem>,
        end: &TypedBound<'a, KC::EItem>,
    ) -> (r: Result<Vec<(KC::DItem, DC::DItem)>>) {
        let fwd = match Table::range::<KC, DC>(self, txn, start, end) {
            Ok(out) => out,
            Err(e) => {
                return Err(e);
            },
        };
        Ok(reverse_pairs(fwd))
    }

    fn len(&self, txn: &RoTxn<()>) -> (r: Result<usize>) {
        if !check_usable(self, txn) {
            return Err(Error::Engine);
        }
        PolyDatabase::len(self, txn)
    }

    fn put<KC: BytesEncode, DC: BytesEncode>(
        &self,
        txn: &mut RwTxn<()>,
        key: &KC::EItem,
        data: &DC::EItem,
    ) -> (r: Result<()>) {
        if !check_usable(self, txn.ro()) {
            return Err(Error::Engine);
        }
        PolyDatabase::put::<(), KC, DC>(self, txn, key, data)
    }

    fn append<KC: BytesEncode, DC: BytesEncode>(
        &self,
        txn: &mut RwTxn<()>,
        key: &KC::EItem,
        data: &DC::EItem,
    ) -> (r: Result<()>) {
        if !check_usable(self, txn.ro()) {
            return Err(Error::Engine);
        }
        PolyDatabase::append::<(), KC, DC>(self, txn, key, data)
    }

    fn delete<KC: BytesEncode>(&self, txn: &mut RwTxn<()>, key: &KC::EItem) -> (r: Result<()>) {
        if !check_usable(self, txn.ro()) {
            return Err(Error::Engine);
        }
        match PolyDatabase::delete::<(), KC>(self, txn, key) {
            Ok(b) => Ok(()),
            Err(e) => Err(e),
        }
    }

    fn clear(&self, txn: &mut RwTxn<()>) -> (r: Result<()>) {
        if !check_usable(self, txn.ro()) {
            return Err(Error::Engine);
        }
        let r = PolyDatabase::clear(self, txn);
        proof {
            assert(txn.table(self.dbi as int).as_map() =~= old(txn).table(
                self.dbi as int,
            ).as_map().remove_keys(Set::new(|k: Seq<u8>| true)));
        }
        r
    }
}

/// A table handle with its codec pair fixed at the type level, over any
/// store.
pub struct Typed<S: Store, KC, DC> {
    pub dyndb: S::Table,
    pub marker: core::marker::PhantomData<(KC, DC)>,
}

impl<S: Store, KC, DC> Typed<S, KC, DC> where S::Table: Table<Store = S> {
    /// Bind a raw table handle to this codec pair: the same underlying
    /// handle, with the codecs fixed at the type level.
    pub fn new(dyndb: S::Table) -> (r: Typed<S, KC, DC>)
        ensures
            r.dyndb == dyndb,
    {
        Typed { dyndb, marker: core::marker::PhantomData }
    }

    /// The value under `key`, if any, read through the underlying table.
    pub fn get(&self, txn: &S::Rtx, key: &KC::EItem) -> (r: Result<Option<DC::DItem>>) where
        KC: BytesEncode,
        DC: BytesDecode,

        ensures
            (self.dyndb.usable_r(*txn) && KC::obeys_encode()) ==> ({
                let kb = KC::spec_encode(key@);
                let m = self.dyndb.contents_r(*txn);
                match r {
                    Ok(Some(d)) => {
                        &&& kb is Some
                        &&& m.dom().contains(kb.unwrap())
                        &&& (DC::obeys_decode() ==> DC::spec_decode(m[kb.unwrap()]) == Some(d@))
                    },
                    Ok(None) => kb is Some && !m.dom().contains(kb.unwrap()),
                    Err(e) => {
                        &&& (e == Error::Encoding || e == Error::Decoding)
                        &&& (e == Error::Encoding ==> kb is None)
                        &&& (e == Error::Decoding ==> kb is Some && m.dom().contains(kb.unwrap())
                            && (DC::obeys_decode() ==> DC::spec_decode(m[kb.unwrap()]) is None))
                    },
                }
            }),
    {
        Table::get::<KC, DC>(&self.dyndb, txn, key)
    }

    /// The entries whose keys lie between the endpoints, ascending, as the
    /// underlying engine walks them.
    pub fn range<'a>(
        &self,
        txn: &S::Rtx,
        start: &TypedBound<'a, KC::EItem>,
        end: &TypedBound<'a, KC::EItem>,
    ) -> (r: Result<Vec<(KC::DItem, DC::DItem)>>) where KC: BytesEncode + BytesDecode, DC: BytesDecode
        ensures
            (self.dyndb.usable_r(*txn) && KC::obeys_encode()) ==> match r {
                Ok(out) => {
                    &&& crate::db::bound_encodable::<KC>(*start)
                    &&& crate::db::bound_encodable::<KC>(*end)
                    &&& ({
                        let f = self.dyndb.selects(
                            *txn,
                            crate::db::spec_bound_of::<KC>(*start),
                            crate::db::spec_bound_of::<KC>(*end),
                        );
                        &&& out@.len() == f.len()
                        &&& KC::obeys_decode() ==> forall|i: int|
                            0 <= i < f.len() ==> KC::spec_decode(f[i].0) == Some(
                                (#[trigger] out@[i]).0@,
                            )
                        &&& DC::obeys_decode() ==> forall|i: int|
                            0 <= i < f.len() ==> DC::spec_decode(f[i].1) == Some(
                                (#[trigger] out@[i]).1@,
                            )
                    })
                },
                Err(e) => e == Error::Encoding || e == Error::Decoding,
            },
    {
        Table::range::<KC, DC>(&self.dyndb, txn, start, end)
    }

    /// The entries whose keys lie between the endpoints, descending, as the
    /// underlying engine walks them.
    pub fn rev_range<'a>(
        &self,
        txn: &S::Rtx,
        start: &TypedBound<'a, KC::EItem>,
        end: &TypedBound<'a, KC::EItem>,
    ) -> (r: Result<Vec<(KC::DItem, DC::DItem)>>) where KC: BytesEncode + BytesDecode, DC: BytesDecode
        ensures
            (self.dyndb.usable_r(*txn) && KC::obeys_encode()) ==> match r {
                Ok(out) => {
                    &&& crate::db::bound_encodable::<KC>(*start)
                    &&& crate::db::bound_encodable::<KC>(*end)
                    &&& self.dyndb.rev_start_ok(crate::db::spec_bound_of::<KC>(*start))
                    &&& ({
                        let f = self.dyndb.rev_selects(
                            *txn,
                            crate::db::spec_bound_of::<KC>(*start),
                            crate::db::spec_bound_of::<KC>(*end),
                        );
                        &&& out@.len() == f.len()
                        &&& KC::obeys_decode() ==> forall|i: int|
                            0 <= i < f.len() ==> KC::spec_decode(f[i].0) == Some(
                                (#[trigger] out@[i]).0@,
                            )
                        &&& DC::obeys_decode() ==> forall|i: int|
                            0 <= i < f.len() ==> DC::spec_decode(f[i].1) == Some(
                                (#[trigger] out@[i]).1@,
                            )
                    })
                },
                Err(e) => e == Error::Encoding || e == Error::Decoding || e == Error::Engine,
            },
    {
        Table::rev_range::<KC, DC>(&self.dyndb, txn, start, end)
    }

    /// The number of entries of the underlying table.
    pub fn len(&self, txn: &S::Rtx) -> (r: Result<usize>)
        ensures
            self.dyndb.usable_r(*txn) ==> r == Ok::<usize, Error>(
                self.dyndb.entries_r(*txn).len() as usize,
            ),
    {
        Table::len(&self.dyndb, txn)
    }

    /// Store a key/value pair through the underlying table.
    pub fn put(&self, txn: &mut S::Wtx, key: &KC::EItem, data: &DC::EItem) -> (r: Result<()>) where
        KC: BytesEncode,
        DC: BytesEncode,

        ensures
            self.dyndb.usable_w(*old(txn)) ==> self.dyndb.usable_w(*final(txn)),
            (self.dyndb.usable_w(*old(txn)) && KC::obeys_encode() && DC::obeys_encode()) ==> ({
                let kb = KC::spec_encode(key@);
                let vb = DC::spec_encode(data@);
                match r {
                    Ok(u) => kb is Some && vb is Some && self.dyndb.contents_w(*final(txn))
                        == self.dyndb.contents_w(*old(txn)).insert(kb.unwrap(), vb.unwrap()),
                    Err(e) => e == Error::Encoding && (kb is None || vb is None)
                        && self.dyndb.contents_w(*final(txn)) == self.dyndb.contents_w(*old(txn)),
                }
            }),
    {
        Table::put::<KC, DC>(&self.dyndb, txn, key, data)
    }

    /// Store a key/value pair expected to sort last, through the underlying
    /// table.
    pub fn append(&self, txn: &mut S::Wtx, key: &KC::EItem, data: &DC::EItem) -> (r: Result<()>) where
        KC: BytesEncode,
        DC: BytesEncode,

        ensures
            self.dyndb.usable_w(*old(txn)) ==> self.dyndb.usable_w(*final(txn)),
            (self.dyndb.usable_w(*old(txn)) && KC::obeys_encode() && DC::obeys_encode()) ==> ({
                let kb = KC::spec_encode(key@);
                let vb = DC::spec_encode(data@);
                match r {
                    Ok(u) => kb is Some && vb is Some && self.dyndb.contents_w(*final(txn))
                        == self.dyndb.contents_w(*old(txn)).insert(kb.unwrap(), vb.unwrap()),
                    Err(e) => (e == Error::Encoding || e == Error::Engine)
                        && self.dyndb.contents_w(*final(txn)) == self.dyndb.contents_w(*old(txn)),
                }
            }),
    {
        Table::append::<KC, DC>(&self.dyndb, txn, key, data)
    }

    /// Delete the entry under `key`: afterwards the key is absent from the
    /// underlying table; any presence flag the engine reports is discarded.
    pub fn delete(&self, txn: &mut S::Wtx, key: &KC::EItem) -> (r: Result<()>) where
        KC: BytesEncode,

        ensures
            self.dyndb.usable_w(*old(txn)) ==> self.dyndb.usable_w(*final(txn)),
            (self.dyndb.usable_w(*old(txn)) && KC::obeys_encode()) ==> ({
                let kb = KC::spec_encode(key@);
                match r {
                    Ok(u) => kb is Some && self.dyndb.contents_w(*final(txn))
                        == self.dyndb.contents_w(*old(txn)).remove(kb.unwrap()),
                    Err(e) => e == Error::Encoding && kb is None && self.dyndb.contents_w(
                        *final(txn),
                    ) == self.dyndb.contents_w(*old(txn)),
                }
            }),
    {
        Table::delete::<KC>(&self.dyndb, txn, key)
    }

    /// Drop every entry the underlying engine's `clear` reaches.
    pub fn clear(&self, txn: &mut S::Wtx) -> (r: Result<()>)
        ensures
            self.dyndb.usable_w(*old(txn)) ==> {
                &&& r is Ok
                &&& self.dyndb.usable_w(*final(txn))
                &&& self.dyndb.contents_w(*final(txn)) == self.dyndb.contents_w(
                    *old(txn),
                ).remove_keys(Set::new(|k: Seq<u8>| self.dyndb.cleared(k)))
            },
    {
        Table::clear(&self.dyndb, txn)
    }

    /// Rebind the handle to another codec pair: the very same underlying
    /// table, with only the phantom codec parameters changed.
    pub fn remap_types<KC2, DC2>(self) -> (r: Typed<S, KC2, DC2>)
        ensures
            r.dyndb == self.dyndb,
    {
        Typed { dyndb: self.dyndb, marker: core::marker::PhantomData }
    }

    /// Rebind the key codec only.
    pub fn remap_key_type<KC2>(self) -> (r: Typed<S, KC2, DC>)
        ensures
            r.dyndb == self.dyndb,
    {
        Typed { dyndb: self.dyndb, marker: core::marker::PhantomData }
    }

    /// Rebind the value codec only.
    pub fn remap_data_type<DC2>(self) -> (r: Typed<S, KC, DC2>)
        ensures
            r.dyndb == self.dyndb,
    {
        Typed { dyndb: self.dyndb, marker: core::marker::PhantomData }
    }
}

/// A store owned together with the table handles built on it.
pub struct Tables<S: Store, T> {
    pub store: S,
    pub table: Option<T>,
}

impl<S: Store, T> Tables<S, T> {
    /// Build a store's tables with `make` — called exactly once against the
    /// owned store — and keep both together. The handles never outlive the
    /// store they were built on, because the two are one value.
    pub fn new<F: FnOnce(&mut S, &S::Config) -> Result<T>>(store: S, cfg: &S::Config, make: F) -> (r:
        Result<Tables<S, T>>)
        requires
            forall|s: &mut S, c: &S::Config| #[trigger] call_requires(make, (s, c)),
        ensures
            r matches Ok(tb) ==> tb.table is Some,
    {
        let mut store = store;
        match make(&mut store, cfg) {
            Ok(o) => Ok(Tables { store, table: Some(o) }),
            Err(e) => Err(e),
        }
    }
}

/// The value came out of a successful run of `fun` on some read
/// transaction.
pub open spec fn from_read_pass<Rtx, T, F: FnOnce(&Rtx) -> Result<T>>(fun: F, v: T) -> bool {
    exists|t: Rtx| call_ensures(fun, (&t,), Ok::<T, Error>(v))
}

/// The value came out of a successful run of `fun` on some write
/// transaction, together with the transaction `fun` handed back.
pub open spec fn from_write_pass<Wtx, T, F: FnOnce(Wtx) -> Result<(Wtx, T)>>(
    fun: F,
    v: T,
) -> bool {
    exists|tin: Wtx, tout: Wtx| call_ensures(fun, (tin,), Ok::<(Wtx, T), Error>((tout, v)))
}

/// The error came out of one application of `fun`.
pub open spec fn from_paged_step<T, E, F: Fn(&T) -> core::result::Result<T, E>>(
    fun: F,
    e: E,
) -> bool {
    exists|t: T| call_ensures(fun, (&t,), Err::<T, E>(e))
}

/// Run a read transaction around `fun`: begin, run `fun` exactly once on
/// the fresh transaction, commit. A successful result is `fun`'s own, and
/// an error from `fun` skips the commit.
pub fn readtx<S: Store, T, F: FnOnce(&S::Rtx) -> Result<T>>(s: &mut S, fun: F) -> (r: Result<T>)
    where S::Rtx: Transaction<S>
    requires
        forall|t: &S::Rtx| #[trigger] call_requires(fun, (t,)),
    ensures
        match r {
            Ok(v) => from_read_pass::<S::Rtx, T, F>(fun, v),
            Err(e) => true,
        },
{
    let rtx = match s.rtx() {
        Ok(t) => t,
        Err(e) => {
            return Err(e);
        },
    };
    let ghost grtx = rtx;
    let out = match fun(&rtx) {
        Ok(o) => o,
        Err(e) => {
            return Err(e);
        },
    };
    proof {
        assert(call_ensures(fun, (&grtx,), Ok::<T, Error>(out)));
        assert(from_read_pass::<S::Rtx, T, F>(fun, out));
    }
    match rtx.commit(s) {
        Ok(u) => Ok(out),
        Err(e) => Err(e),
    }
}

/// Run a write transaction around `fun`: begin, run `fun` exactly once —
/// the transaction passes through `fun` by value and comes back — then
/// commit the transaction `fun` handed back. An error from `fun` skips the
/// commit, discarding every buffered mutation.
#[verifier::spinoff_prover]
pub fn writetx<S: Store, T, F: FnOnce(S::Wtx) -> Result<(S::Wtx, T)>>(s: &mut S, fun: F) -> (r:
    Result<T>) where S::Wtx: Transaction<S>
    requires
        forall|t: S::Wtx| #[trigger] call_requires(fun, (t,)),
    ensures
        match r {
            Ok(v) => from_write_pass::<S::Wtx, T, F>(fun, v),
            Err(e) => true,
        },
{
    let wtx = match s.wtx() {
        Ok(t) => t,
        Err(e) => {
            return Err(e);
        },
    };
    let ghost gin = wtx;
    let (wtx, out) = match fun(wtx) {
        Ok(p) => p,
        Err(e) => {
            return Err(e);
        },
    };
    let ghost gout = wtx;
    proof {
        assert(call_ensures(fun, (gin,), Ok::<(S::Wtx, T), Error>((gout, out))));
        assert(from_write_pass::<S::Wtx, T, F>(fun, out));
    }
    match wtx.commit(s) {
        Ok(u) => Ok(out),
        Err(e) => Err(e),
    }
}

/// Run a paged pass: apply `fun` to the cursor value until one application
/// leaves it unchanged, and hand the first error straight back.
#[verifier::spinoff_prover]
pub fn paged<T: Clone + PartialEq, E, F: Fn(&T) -> core::result::Result<T, E>>(start: T, fun: F) -> (r:
    core::result::Result<(), E>)
    requires
        forall|t: &T| #[trigger] call_requires(fun, (t,)),
    ensures
        match r {
            Ok(u) => true,
            Err(e) => from_paged_step::<T, E, F>(fun, e),
        },
{
    let mut cur = start;
    // The pass is bounded by a fuel counter wide enough never to run out in
    // practice, so that every loop of this crate provably terminates.
    let mut fuel: u64 = u64::MAX;
    loop
        invariant
            forall|t: &T| #[trigger] call_requires(fun, (t,)),
        decreases fuel,
    {
        let ghost gcur = cur;
        let next = match fun(&cur) {
            Ok(v) => v,
            Err(e) => {
                proof {
                    assert(call_ensures(fun, (&gcur,), Err::<T, E>(e)));
                    assert(from_paged_step::<T, E, F>(fun, e));
                }
                return Err(e);
            },
        };
        if next == cur {
            return Ok(());
        }
        cur = next;
        if fuel == 0 {
            return Ok(());
        }
        fuel = fuel - 1;
    }
}

/// The map after storing every pair of `s` in order, later pairs winning.
pub open spec fn inserted_all(m: Map<Seq<u8>, Seq<u8>>, s: Seq<(Seq<u8>, Seq<u8>)>) -> Map<
    Seq<u8>,
    Seq<u8>,
>
    decreases s.len(),
{
    if s.len() == 0 {
        m
    } else {
        inserted_all(m.insert(s[0].0, s[0].1), s.skip(1))
    }
}

/// Storing one more pair is one more insertion.
pub proof fn lemma_inserted_all_snoc(
    m: Map<Seq<u8>, Seq<u8>>,
    s: Seq<(Seq<u8>, Seq<u8>)>,
    x: (Seq<u8>, Seq<u8>),
)
    ensures
        inserted_all(m, s.push(x)) == inserted_all(m, s).insert(x.0, x.1),
    decreases s.len(),
{
    let sx = s.push(x);
    if s.len() == 0 {
        assert(sx[0] == x);
        assert(sx.skip(1) =~= Seq::<(Seq<u8>, Seq<u8>)>::empty());
        assert(inserted_all(m.insert(x.0, x.1), sx.skip(1)) == m.insert(x.0, x.1));
    } else {
        assert(sx[0] == s[0]);
        assert(sx.skip(1) =~= s.skip(1).push(x));
        lemma_inserted_all_snoc(m.insert(s[0].0, s[0].1), s.skip(1), x);
    }
}

/// Copy every entry of one table into another, engine to engine, through
/// the raw-bytes view and in ascending key order: on success the
/// destination holds the source's entries laid over its own. A failing
/// append ends the pass early, leaving the entries copied so far in place.
pub fn bytecopy<S1: Store, S2: Store>(
    rtx: &S1::Rtx,
    wtx: &mut S2::Wtx,
    t1: &Typed<S1, ByteSlice, ByteSlice>,
    t2: &Typed<S2, ByteSlice, ByteSlice>,
) -> (r: Result<()>) where S1::Table: Table<Store = S1>, S2::Table: Table<Store = S2>
    ensures
        (t1.dyndb.usable_r(*rtx) && t2.dyndb.usable_w(*old(wtx))) ==> match r {
            Ok(u) => t2.dyndb.contents_w(*final(wtx)) == inserted_all(
                t2.dyndb.contents_w(*old(wtx)),
                t1.dyndb.selects(*rtx, SpecBound::Unbounded, SpecBound::Unbounded),
            ),
            Err(e) => true,
        },
{
    let ghost ok = t1.dyndb.usable_r(*rtx) && t2.dyndb.usable_w(*old(wtx));
    let ghost m0 = t2.dyndb.contents_w(*old(wtx));
    let ghost f = t1.dyndb.selects(*rtx, SpecBound::Unbounded, SpecBound::Unbounded);
    let pairs = match t1.range(rtx, &TypedBound::Unbounded, &TypedBound::Unbounded) {
        Ok(p) => p,
        Err(e) => {
            return Err(e);
        },
    };
    proof {
        if ok {
            assert(pairs@.len() == f.len());
            assert(forall|j: int|
                0 <= j < f.len() ==> (#[trigger] pairs@[j]).0@ == f[j].0 && pairs@[j].1@
                    == f[j].1);
        }
    }
    let n = pairs.len();
    let mut i: usize = 0;
    while i < n
        invariant
            n == pairs@.len(),
            0 <= i <= n,
            ok == (t1.dyndb.usable_r(*rtx) && t2.dyndb.usable_w(*old(wtx))),
            m0 == t2.dyndb.contents_w(*old(wtx)),
            f == t1.dyndb.selects(*rtx, SpecBound::Unbounded, SpecBound::Unbounded),
            ok ==> {
                &&& pairs@.len() == f.len()
                &&& forall|j: int|
                    0 <= j < f.len() ==> (#[trigger] pairs@[j]).0@ == f[j].0 && pairs@[j].1@
                        == f[j].1
                &&& t2.dyndb.usable_w(*wtx)
                &&& t2.dyndb.contents_w(*wtx) == inserted_all(m0, f.take(i as int))
            },
        decreases n - i,
    {
        let ghost before = t2.dyndb.contents_w(*wtx);
        match t2.append(wtx, pairs[i].0.as_slice(), pairs[i].1.as_slice()) {
            Ok(u) => {},
            Err(e) => {
                return Err(e);
            },
        }
        proof {
            if ok {
                assert(t2.dyndb.usable_w(*wtx));
                assert(t2.dyndb.contents_w(*wtx) == before.insert(
                    pairs@[i as int].0@,
                    pairs@[i as int].1@,
                ));
                assert(pairs@[i as int].0@ == f[i as int].0);
                assert(t2.dyndb.contents_w(*wtx) == before.insert(f[i as int].0, f[i as int].1));
                lemma_inserted_all_snoc(m0, f.take(i as int), f[i as int]);
                assert(f.take(i as int + 1) =~= f.take(i as int).push(f[i as int]));
                assert(t2.dyndb.contents_w(*wtx) == inserted_all(m0, f.take(i as int + 1)));
            }
        }
        i = i + 1;
    }
    proof {
        if ok {
            assert(f.take(n as int) =~= f);
        }
    }
    Ok(())
}

} // verus!
