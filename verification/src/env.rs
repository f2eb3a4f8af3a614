//! Environments and their registry: one process-wide service object keyed by
//! canonical path, deduplicating open environments, recording each table's
//! codec pair, and driving the two-phase close.

use vstd::prelude::*;
use vstd::string::StrSliceExecFns;
use vstd::utf8::encode_utf8_decode_utf8;

use crate::bytes::{cmp_bytes, Cmp};
use crate::db::{Database, PolyDatabase};
use crate::errors::{Error, Result};
use crate::traits::CodecType;
use crate::tree::Tree;
use crate::txn::{clone_tables, tables_same, RoTxn, RwTxn};

verus! {

/// Whether two string slices hold the same characters.
pub fn str_eq(a: &str, b: &str) -> (r: bool)
    ensures
        r == (a@ == b@),
{
    proof {
        encode_utf8_decode_utf8(a@);
        encode_utf8_decode_utf8(b@);
    }
    matches!(cmp_bytes(a.as_bytes(), b.as_bytes()), Cmp::Eq)
}

/// Size geometry of an environment: how its map may start, grow and shrink.
#[derive(Clone, Copy, Debug, PartialEq)]
pub struct Geometry {
    pub min_size: Option<usize>,
    pub max_size: Option<usize>,
    pub growth_step: Option<usize>,
    pub shrink_step: Option<usize>,
    pub map_size: Option<usize>,
    pub page_size: Option<usize>,
}

/// The configuration an environment is opened with. Reopening a path open
/// under a different configuration is rejected.
#[derive(Clone, Copy, Debug, PartialEq)]
pub struct EnvOpenOptions {
    pub geometry: Geometry,
    pub max_readers: Option<u32>,
    pub max_dbs: Option<u32>,
    pub flags: u32,
}

impl EnvOpenOptions {
    /// An empty configuration: no geometry, no limits, no flags.
    pub fn new() -> (r: EnvOpenOptions)
        ensures
            r == (EnvOpenOptions {
                geometry: Geometry {
                    min_size: None,
                    max_size: None,
                    growth_step: None,
                    shrink_step: None,
                    map_size: None,
                    page_size: None,
                },
                max_readers: None,
                max_dbs: None,
                flags: 0,
            }),
    {
        EnvOpenOptions {
            geometry: Geometry {
                min_size: None,
                max_size: None,
                growth_step: None,
                shrink_step: None,
                map_size: None,
                page_size: None,
            },
            max_readers: None,
            max_dbs: None,
            flags: 0,
        }
    }

    /// Set the map size.
    pub fn map_size(&mut self, size: usize) -> (r: &mut Self)
        ensures
            *r == (EnvOpenOptions {
                geometry: Geometry { map_size: Some(size), ..old(self).geometry },
                ..*old(self)
            }),
            *final(self) == *final(r),
    {
        self.geometry.map_size = Some(size);
        self
    }

    /// Set the page size.
    pub fn page_size(&mut self, size: usize) -> (r: &mut Self)
        ensures
            *r == (EnvOpenOptions {
                geometry: Geometry { page_size: Some(size), ..old(self).geometry },
                ..*old(self)
            }),
            *final(self) == *final(r),
    {
        self.geometry.page_size = Some(size);
        self
    }

    /// Set the smallest size the map may shrink to.
    pub fn min_size(&mut self, size: usize) -> (r: &mut Self)
        ensures
            *r == (EnvOpenOptions {
                geometry: Geometry { min_size: Some(size), ..old(self).geometry },
                ..*old(self)
            }),
            *final(self) == *final(r),
    {
        self.geometry.min_size = Some(size);
        self
    }

    /// Set the largest size the map may grow to.
    pub fn max_size(&mut self, size: usize) -> (r: &mut Self)
        ensures
            *r == (EnvOpenOptions {
                geometry: Geometry { max_size: Some(size), ..old(self).geometry },
                ..*old(self)
            }),
            *final(self) == *final(r),
    {
        self.geometry.max_size = Some(size);
        self
    }

    /// Set the step the map grows by.
    pub fn growth_step(&mut self, size: usize) -> (r: &mut Self)
        ensures
            *r == (EnvOpenOptions {
                geometry: Geometry { growth_step: Some(size), ..old(self).geometry },
                ..*old(self)
            }),
            *final(self) == *final(r),
    {
        self.geometry.growth_step = Some(size);
        self
    }

    /// Set the threshold past which the map shrinks.
    pub fn shrink_threshold(&mut self, size: usize) -> (r: &mut Self)
        ensures
            *r == (EnvOpenOptions {
                geometry: Geometry { shrink_step: Some(size), ..old(self).geometry },
                ..*old(self)
            }),
            *final(self) == *final(r),
    {
        self.geometry.shrink_step = Some(size);
        self
    }

    /// Set the highest number of concurrent readers.
    pub fn max_readers(&mut self, readers: u32) -> (r: &mut Self)
        ensures
            *r == (EnvOpenOptions { max_readers: Some(readers), ..*old(self) }),
            *final(self) == *final(r),
    {
        self.max_readers = Some(readers);
        self
    }

    /// Set the highest number of named tables.
    pub fn max_dbs(&mut self, dbs: u32) -> (r: &mut Self)
        ensures
            *r == (EnvOpenOptions { max_dbs: Some(dbs), ..*old(self) }),
            *final(self) == *final(r),
    {
        self.max_dbs = Some(dbs);
        self
    }

    /// Add an engine flag to the configuration's bitmask.
    pub fn flag(&mut self, flag: u32) -> (r: &mut Self)
        ensures
            *r == (EnvOpenOptions { flags: old(self).flags | flag, ..*old(self) }),
            *final(self) == *final(r),
    {
        self.flags = self.flags | flag;
        self
    }

    /// Whether two configurations are the same.
    pub fn same_options(&self, other: &EnvOpenOptions) -> (r: bool)
        ensures
            r == (*self == *other),
    {
        opt_usize_eq(&self.geometry.min_size, &other.geometry.min_size)
            && opt_usize_eq(&self.geometry.max_size, &other.geometry.max_size)
            && opt_usize_eq(&self.geometry.growth_step, &other.geometry.growth_step)
            && opt_usize_eq(&self.geometry.shrink_step, &other.geometry.shrink_step)
            && opt_usize_eq(&self.geometry.map_size, &other.geometry.map_size)
            && opt_usize_eq(&self.geometry.page_size, &other.geometry.page_size)
            && opt_u32_eq(&self.max_readers, &other.max_readers)
            && opt_u32_eq(&self.max_dbs, &other.max_dbs)
            && self.flags == other.flags
    }
}

fn opt_usize_eq(a: &Option<usize>, b: &Option<usize>) -> (r: bool)
    ensures
        r == (*a == *b),
{
    match (a, b) {
        (Some(x), Some(y)) => *x == *y,
        (None, None) => true,
        _ => false,
    }
}

fn opt_u32_eq(a: &Option<u32>, b: &Option<u32>) -> (r: bool)
    ensures
        r == (*a == *b),
{
    match (a, b) {
        (Some(x), Some(y)) => *x == *y,
        (None, None) => true,
        _ => false,
    }
}

/// What the registry has recorded of a table's codec pair.
#[derive(Clone, Copy, PartialEq, Eq, Structural, Debug)]
pub enum TypeRecord {
    /// The table exists but was never opened through a handle yet.
    Unset,
    /// The table was first opened through a polymorphic handle, which
    /// records no codec pair.
    Poly,
    /// The table was first opened with this key/value codec descriptor pair.
    Typed(u64, u64),
}

fn same_record(a: &TypeRecord, b: &TypeRecord) -> (r: bool)
    ensures
        r == (*a == *b),
{
    match (a, b) {
        (TypeRecord::Unset, TypeRecord::Unset) => true,
        (TypeRecord::Poly, TypeRecord::Poly) => true,
        (TypeRecord::Typed(k1, v1), TypeRecord::Typed(k2, v2)) => *k1 == *k2 && *v1 == *v2,
        _ => false,
    }
}

/// Where an environment stands in its life: discoverable and usable; taken
/// out of the registry but not yet released; or fully released.
#[derive(Clone, Copy, PartialEq, Eq, Structural, Debug)]
pub enum EnvState {
    Open,
    Closing,
    Released,
}

/// One environment the registry knows: its canonical path, configuration,
/// life-cycle state, the number of live handles, and its tables with their
/// names and recorded codec pairs.
pub struct EnvSlot {
    pub path: String,
    pub options: EnvOpenOptions,
    pub state: EnvState,
    pub refs: usize,
    pub tables: Vec<Tree>,
    pub names: Vec<Option<String>>,
    pub records: Vec<TypeRecord>,
}

/// The view of a table name: `None` stands for the unnamed default table.
pub open spec fn name_view(n: Option<String>) -> Option<Seq<char>> {
    match n {
        Some(s) => Some(s@),
        None => None,
    }
}

impl EnvSlot {
    /// Tables, names and records line up; every table is sorted; names are
    /// unique; the first table is the unnamed default one; a released slot
    /// has no live handle.
    pub open spec fn wf(self) -> bool {
        &&& self.names@.len() == self.tables@.len()
        &&& self.records@.len() == self.tables@.len()
        &&& self.tables@.len() >= 1
        &&& name_view(self.names@[0]) is None
        &&& forall|i: int| 0 <= i < self.tables@.len() ==> (#[trigger] self.tables@[i]).wf()
        &&& forall|i: int, j: int|
            0 <= i < j < self.names@.len() ==> name_view(self.names@[i]) != name_view(
                self.names@[j],
            )
        &&& self.state is Released ==> self.refs == 0
    }

    /// Whether a table with this name exists.
    pub open spec fn has_name(self, n: Option<Seq<char>>) -> bool {
        exists|i: int| 0 <= i < self.names@.len() && name_view(self.names@[i]) == n
    }

    /// The identifier of the table with this name (meaningful when present).
    pub open spec fn dbi_of(self, n: Option<Seq<char>>) -> int {
        choose|i: int| 0 <= i < self.names@.len() && name_view(self.names@[i]) == n
    }

    /// Find the table with the given name.
    fn find_dbi(&self, name: Option<&str>) -> (r: Option<usize>)
        requires
            self.wf(),
        ensures
            ({
                let n = match name {
                    Some(s) => Some(s@),
                    None => None,
                };
                match r {
                    Some(dbi) => {
                        &&& (dbi as int) < self.names@.len()
                        &&& name_view(self.names@[dbi as int]) == n
                        &&& self.has_name(n)
                        &&& self.dbi_of(n) == dbi as int
                    },
                    None => !self.has_name(n),
                }
            }),
    {
        let ghost n = match name {
            Some(s) => Some(s@),
            None => None,
        };
        let count = self.names.len();
        let mut i: usize = 0;
        while i < count
            invariant
                self.wf(),
                0 <= i <= count,
                count == self.names@.len(),
                n == (match name {
                    Some(s) => Some(s@),
                    None => None,
                }),
                forall|j: int| 0 <= j < i ==> name_view(self.names@[j]) != n,
            decreases count - i,
        {
            let matches_here = match (&self.names[i], name) {
                (Some(a), Some(b)) => str_eq(a.as_str(), b),
                (None, None) => true,
                _ => false,
            };
            if matches_here {
                proof {
                    assert(name_view(self.names@[i as int]) == n);
                    assert(self.has_name(n));
                    let w = self.dbi_of(n);
                    assert(0 <= w < self.names@.len() && name_view(self.names@[w]) == n);
                    if w != i as int {
                        assert(name_view(self.names@[w]) != name_view(self.names@[i as int]));
                        assert(false);
                    }
                }
                return Some(i);
            }
            i = i + 1;
        }
        None
    }
}

/// The process-wide registry of open environments. Slots are never removed:
/// a fully closed environment stays as a released slot so handle identifiers
/// stay stable.
pub struct Registry {
    pub envs: Vec<EnvSlot>,
}

/// Whether two table names are the same.
fn opt_name_eq(a: &Option<String>, b: &Option<String>) -> (r: bool)
    ensures
        r == (name_view(*a) == name_view(*b)),
{
    match (a, b) {
        (Some(x), Some(y)) => str_eq(x.as_str(), y.as_str()),
        (None, None) => true,
        _ => false,
    }
}

/// Whether one registry slot is well formed, decided at run time.
fn check_slot_wf(s: &EnvSlot) -> (r: bool)
    ensures
        r == s.wf(),
{
    let n = s.tables.len();
    if s.names.len() != n || s.records.len() != n || n == 0 {
        return false;
    }
    if s.names[0].is_some() {
        return false;
    }
    if matches!(s.state, EnvState::Released) && s.refs != 0 {
        return false;
    }
    let mut i: usize = 0;
    while i < n
        invariant
            0 <= i <= n,
            n == s.tables@.len(),
            forall|j: int| 0 <= j < i ==> (#[trigger] s.tables@[j]).wf(),
        decreases n - i,
    {
        if !s.tables[i].check_wf() {
            return false;
        }
        i = i + 1;
    }
    let mut i: usize = 0;
    while i < n
        invariant
            0 <= i <= n,
            n == s.names@.len(),
            forall|a: int, b: int|
                0 <= a < b < i ==> name_view(#[trigger] s.names@[a]) != name_view(
                    #[trigger] s.names@[b],
                ),
        decreases n - i,
    {
        let mut j: usize = 0;
        while j < i
            invariant
                0 <= j <= i < n,
                n == s.names@.len(),
                forall|a: int|
                    0 <= a < j ==> name_view(#[trigger] s.names@[a]) != name_view(
                        s.names@[i as int],
                    ),
            decreases i - j,
        {
            if opt_name_eq(&s.names[j], &s.names[i]) {
                return false;
            }
            j = j + 1;
        }
        i = i + 1;
    }
    true
}

impl Registry {
    /// Number of slots ever created.
    pub open spec fn n_envs(self) -> int {
        self.envs@.len() as int
    }

    /// The slot of one environment.
    pub open spec fn slot(self, i: int) -> EnvSlot {
        self.envs@[i]
    }

    /// A slot that is not yet fully released.
    pub open spec fn is_live(self, i: int) -> bool {
        !(self.slot(i).state is Released)
    }

    /// An identifier a handle may carry: the slot exists and is not
    /// released.
    pub open spec fn valid_env(self, i: int) -> bool {
        0 <= i < self.n_envs() && self.is_live(i)
    }

    /// Every slot is well formed, and no two live slots share a path.
    pub open spec fn wf(self) -> bool {
        &&& forall|i: int| 0 <= i < self.n_envs() ==> (#[trigger] self.slot(i)).wf()
        &&& forall|i: int, j: int|
            0 <= i < j < self.n_envs() && self.is_live(i) && self.is_live(j) ==> self.slot(i).path@
                != self.slot(j).path@
    }

    /// Whether some live slot holds this path.
    pub open spec fn has_live_path(self, p: Seq<char>) -> bool {
        exists|i: int| 0 <= i < self.n_envs() && self.is_live(i) && self.slot(i).path@ == p
    }

    /// The live slot holding this path (meaningful when present).
    pub open spec fn live_slot(self, p: Seq<char>) -> int {
        choose|i: int| 0 <= i < self.n_envs() && self.is_live(i) && self.slot(i).path@ == p
    }

    /// Changing one slot without touching its path, its well-formedness or
    /// the liveness of any other slot keeps the registry well formed.
    pub proof fn lemma_wf_update_slot(pre: Registry, post: Registry, i: int)
        requires
            pre.wf(),
            0 <= i < pre.n_envs(),
            post.n_envs() == pre.n_envs(),
            forall|j: int| 0 <= j < pre.n_envs() && j != i ==> post.slot(j) == pre.slot(j),
            post.slot(i).wf(),
            post.slot(i).path@ == pre.slot(i).path@,
            post.is_live(i) ==> pre.is_live(i),
        ensures
            post.wf(),
    {
        assert forall|j: int| 0 <= j < post.n_envs() implies (#[trigger] post.slot(j)).wf() by {
            if j != i {
                assert(pre.slot(j).wf());
            }
        }
        assert forall|a: int, b: int|
            0 <= a < b < post.n_envs() && post.is_live(a) && post.is_live(b) implies post.slot(
            a,
        ).path@ != post.slot(b).path@ by {
            assert(pre.is_live(a) && pre.is_live(b));
            assert(pre.slot(a).path@ != pre.slot(b).path@);
        }
    }

    /// Whether the registry is well formed, decided at run time.
    pub fn check_wf(&self) -> (r: bool)
        ensures
            r == self.wf(),
    {
        let count = self.envs.len();
        let mut i: usize = 0;
        while i < count
            invariant
                0 <= i <= count,
                count == self.n_envs(),
                forall|j: int| 0 <= j < i ==> (#[trigger] self.slot(j)).wf(),
                forall|a: int, b: int|
                    0 <= a < b < i && self.is_live(a) && self.is_live(b) ==> (
                    #[trigger] self.slot(a)).path@ != (#[trigger] self.slot(b)).path@,
            decreases count - i,
        {
            if !check_slot_wf(&self.envs[i]) {
                proof {
                    if self.wf() {
                        assert(self.slot(i as int).wf());
                    }
                }
                return false;
            }
            let live_i = !matches!(self.envs[i].state, EnvState::Released);
            let mut j: usize = 0;
            while j < i
                invariant
                    0 <= j <= i < count,
                    count == self.n_envs(),
                    live_i == self.is_live(i as int),
                    forall|a: int|
                        0 <= a < j && self.is_live(a) && self.is_live(i as int) ==> (
                        #[trigger] self.slot(a)).path@ != self.slot(i as int).path@,
                decreases i - j,
            {
                let live_j = !matches!(self.envs[j].state, EnvState::Released);
                if live_i && live_j && str_eq(
                    self.envs[j].path.as_str(),
                    self.envs[i].path.as_str(),
                ) {
                    proof {
                        if self.wf() {
                            assert(self.is_live(j as int));
                            assert(self.is_live(i as int));
                            assert(self.slot(j as int).path@ != self.slot(i as int).path@);
                        }
                    }
                    return false;
                }
                j = j + 1;
            }
            i = i + 1;
        }
        true
    }

    /// An empty registry. A process builds exactly one and threads it
    /// through every environment operation.
    pub fn new() -> (r: Registry)
        ensures
            r.wf(),
            r.n_envs() == 0,
    {
        Registry { envs: Vec::new() }
    }

    /// Find the live slot holding this path.
    fn find_live(&self, path: &str) -> (r: Option<usize>)
        requires
            self.wf(),
        ensures
            match r {
                Some(i) => {
                    &&& self.valid_env(i as int)
                    &&& self.slot(i as int).path@ == path@
                    &&& self.has_live_path(path@)
                    &&& self.live_slot(path@) == i as int
                },
                None => !self.has_live_path(path@),
            },
    {
        let count = self.envs.len();
        let mut i: usize = 0;
        while i < count
            invariant
                self.wf(),
                0 <= i <= count,
                count == self.n_envs(),
                forall|j: int|
                    0 <= j < i ==> !(self.is_live(j) && (#[trigger] self.slot(j)).path@ == path@),
            decreases count - i,
        {
            let slot = &self.envs[i];
            if !matches!(slot.state, EnvState::Released) && str_eq(slot.path.as_str(), path) {
                proof {
                    assert(self.is_live(i as int) && self.slot(i as int).path@ == path@);
                    assert(self.has_live_path(path@));
                    let w = self.live_slot(path@);
                    assert(0 <= w < self.n_envs() && self.is_live(w) && self.slot(w).path@
                        == path@);
                    if w != i as int {
                        assert(false);
                    }
                }
                return Some(i);
            }
            i = i + 1;
        }
        None
    }
}

/// A handle on one open environment: an identifier into the registry. Each
/// handle value counts as one reference; the environment's native resources
/// are released when the last one is given back.
pub struct Env {
    pub env_id: usize,
}

impl EnvOpenOptions {
    /// Open the environment at the given canonical path. A path already open
    /// under the same configuration yields another handle on the same
    /// environment; under a different configuration the open is rejected; a
    /// path whose environment is still closing is rejected distinctly; an
    /// unknown path gets a fresh environment holding one unnamed table.
    pub fn open(&self, reg: &mut Registry, path: &str) -> (r: Result<Env>)
        requires
            old(reg).wf(),
        ensures
            final(reg).wf(),
            ({
                if old(reg).has_live_path(path@) {
                    let i = old(reg).live_slot(path@);
                    let s = old(reg).slot(i);
                    match s.state {
                        EnvState::Closing => r == Err::<Env, Error>(Error::DatabaseClosing)
                            && *final(reg) == *old(reg),
                        EnvState::Open => {
                            if s.options == *self {
                                if s.refs < usize::MAX {
                                    &&& r matches Ok(env) && env.env_id as int == i
                                    &&& final(reg).n_envs() == old(reg).n_envs()
                                    &&& final(reg).slot(i) == (EnvSlot {
                                        refs: (s.refs + 1) as usize,
                                        ..s
                                    })
                                    &&& forall|j: int|
                                        0 <= j < old(reg).n_envs() && j != i ==> final(reg).slot(j)
                                            == old(reg).slot(j)
                                } else {
                                    r == Err::<Env, Error>(Error::Engine) && *final(reg) == *old(
                                        reg,
                                    )
                                }
                            } else {
                                r == Err::<Env, Error>(Error::BadOpenOptions) && *final(reg)
                                    == *old(reg)
                            }
                        },
                        EnvState::Released => false,
                    }
                } else {
                    &&& r matches Ok(env) && env.env_id as int == old(reg).n_envs()
                    &&& final(reg).n_envs() == old(reg).n_envs() + 1
                    &&& forall|j: int|
                        0 <= j < old(reg).n_envs() ==> final(reg).slot(j) == old(reg).slot(j)
                    &&& ({
                        let s = final(reg).slot(old(reg).n_envs());
                        &&& s.path@ == path@
                        &&& s.options == *self
                        &&& s.state == EnvState::Open
                        &&& s.refs == 1
                        &&& s.tables@.len() == 1
                        &&& s.tables@[0].len_spec() == 0
                        &&& s.tables@[0].sequence == 0
                        &&& name_view(s.names@[0]) is None
                        &&& s.records@[0] == TypeRecord::Unset
                    })
                }
            }),
    {
        match reg.find_live(path) {
            Some(i) => {
                let slot = &reg.envs[i];
                match slot.state {
                    EnvState::Closing => Err(Error::DatabaseClosing),
                    EnvState::Released => Err(Error::DatabaseClosing),
                    EnvState::Open => {
                        if slot.options.same_options(self) {
                            if slot.refs < usize::MAX {
                                let slot = &mut reg.envs[i];
                                slot.refs = slot.refs + 1;
                                proof {
                                    assert(old(reg).slot(i as int).wf());
                                    assert(reg.slot(i as int).wf());
                                    Registry::lemma_wf_update_slot(*old(reg), *reg, i as int);
                                }
                                Ok(Env { env_id: i })
                            } else {
                                Err(Error::Engine)
                            }
                        } else {
                            Err(Error::BadOpenOptions)
                        }
                    },
                }
            },
            None => {
                let mut tables: Vec<Tree> = Vec::new();
                tables.push(Tree::new());
                let mut names: Vec<Option<String>> = Vec::new();
                names.push(None);
                let mut records: Vec<TypeRecord> = Vec::new();
                records.push(TypeRecord::Unset);
                let env_id = reg.envs.len();
                let slot = EnvSlot {
                    path: path.to_owned(),
                    options: *self,
                    state: EnvState::Open,
                    refs: 1,
                    tables,
                    names,
                    records,
                };
                reg.envs.push(slot);
                proof {
                    assert(reg.slot(env_id as int).wf());
                    assert forall|j: int| 0 <= j < reg.n_envs() implies (#[trigger] reg.slot(
                        j,
                    )).wf() by {
                        if j != env_id as int {
                            assert(reg.slot(j) == old(reg).slot(j));
                            assert(old(reg).slot(j).wf());
                        }
                    }
                    assert forall|a: int, b: int|
                        0 <= a < b < reg.n_envs() && reg.is_live(a) && reg.is_live(
                            b,
                        ) implies reg.slot(a).path@ != reg.slot(b).path@ by {
                        if b == env_id as int {
                            assert(!old(reg).has_live_path(path@));
                            if old(reg).slot(a).path@ == path@ {
                                assert(old(reg).is_live(a) && old(reg).slot(a).path@ == path@);
                            }
                        } else {
                            assert(reg.slot(a) == old(reg).slot(a));
                            assert(reg.slot(b) == old(reg).slot(b));
                            assert(old(reg).is_live(a) && old(reg).is_live(b));
                            assert(old(reg).slot(a).path@ != old(reg).slot(b).path@);
                        }
                    }
                }
                Ok(Env { env_id })
            },
        }
    }
}

impl Env {
    /// A second handle on the same environment: one more reference.
    pub fn clone_handle(&self, reg: &mut Registry) -> (r: Result<Env>)
        requires
            old(reg).wf(),
            old(reg).valid_env(self.env_id as int),
        ensures
            final(reg).wf(),
            final(reg).n_envs() == old(reg).n_envs(),
            forall|j: int|
                0 <= j < old(reg).n_envs() && j != self.env_id as int ==> final(reg).slot(j) == old(
                    reg,
                ).slot(j),
            ({
                let s = old(reg).slot(self.env_id as int);
                match r {
                    Ok(env) => {
                        &&& env.env_id == self.env_id
                        &&& s.refs < usize::MAX
                        &&& final(reg).slot(self.env_id as int) == (EnvSlot {
                            refs: (s.refs + 1) as usize,
                            ..s
                        })
                    },
                    Err(e) => e == Error::Engine && s.refs == usize::MAX && *final(reg) == *old(
                        reg,
                    ),
                }
            }),
    {
        let refs = reg.envs[self.env_id].refs;
        if refs < usize::MAX {
            let slot = &mut reg.envs[self.env_id];
            slot.refs = refs + 1;
            proof {
                assert(old(reg).slot(self.env_id as int).wf());
                assert(reg.slot(self.env_id as int).wf());
                Registry::lemma_wf_update_slot(*old(reg), *reg, self.env_id as int);
            }
            Ok(Env { env_id: self.env_id })
        } else {
            Err(Error::Engine)
        }
    }

    /// Give this handle back. The last reference releases the environment
    /// and signals its closing event.
    pub fn drop_handle(self, reg: &mut Registry)
        requires
            old(reg).wf(),
            old(reg).valid_env(self.env_id as int),
            old(reg).slot(self.env_id as int).refs >= 1,
        ensures
            final(reg).wf(),
            final(reg).n_envs() == old(reg).n_envs(),
            forall|j: int|
                0 <= j < old(reg).n_envs() && j != self.env_id as int ==> final(reg).slot(j) == old(
                    reg,
                ).slot(j),
            ({
                let s = old(reg).slot(self.env_id as int);
                if s.refs == 1 {
                    final(reg).slot(self.env_id as int) == (EnvSlot {
                        refs: 0,
                        state: EnvState::Released,
                        ..s
                    })
                } else {
                    final(reg).slot(self.env_id as int) == (EnvSlot {
                        refs: (s.refs - 1) as usize,
                        ..s
                    })
                }
            }),
    {
        let slot = &mut reg.envs[self.env_id];
        slot.refs = slot.refs - 1;
        if slot.refs == 0 {
            slot.state = EnvState::Released;
        }
        proof {
            assert(old(reg).slot(self.env_id as int).wf());
            assert(reg.slot(self.env_id as int).wf());
            Registry::lemma_wf_update_slot(*old(reg), *reg, self.env_id as int);
        }
    }

    /// Take the environment out of the registry: new opens of its path now
    /// fail until it is fully released. The handle is consumed; the returned
    /// event tells when the remaining handles have been given back too.
    pub fn prepare_for_closing(self, reg: &mut Registry) -> (r: EnvClosingEvent)
        requires
            old(reg).wf(),
            old(reg).valid_env(self.env_id as int),
            old(reg).slot(self.env_id as int).refs >= 1,
        ensures
            final(reg).wf(),
            final(reg).n_envs() == old(reg).n_envs(),
            r.env_id == self.env_id,
            forall|j: int|
                0 <= j < old(reg).n_envs() && j != self.env_id as int ==> final(reg).slot(j) == old(
                    reg,
                ).slot(j),
            ({
                let s = old(reg).slot(self.env_id as int);
                if s.refs == 1 {
                    final(reg).slot(self.env_id as int) == (EnvSlot {
                        refs: 0,
                        state: EnvState::Released,
                        ..s
                    })
                } else {
                    final(reg).slot(self.env_id as int) == (EnvSlot {
                        refs: (s.refs - 1) as usize,
                        state: EnvState::Closing,
                        ..s
                    })
                }
            }),
    {
        let env_id = self.env_id;
        let slot = &mut reg.envs[env_id];
        slot.refs = slot.refs - 1;
        if slot.refs == 0 {
            slot.state = EnvState::Released;
        } else {
            slot.state = EnvState::Closing;
        }
        proof {
            assert(old(reg).slot(env_id as int).wf());
            assert(reg.slot(env_id as int).wf());
            Registry::lemma_wf_update_slot(*old(reg), *reg, env_id as int);
        }
        EnvClosingEvent { env_id }
    }

    /// The canonical path this environment was opened at.
    pub fn path(&self, reg: &Registry) -> (r: String)
        requires
            (self.env_id as int) < reg.n_envs(),
        ensures
            r@ == reg.slot(self.env_id as int).path@,
    {
        reg.envs[self.env_id].path.as_str().to_owned()
    }

    /// Whether the environment was opened with this engine flag.
    pub fn contains_flag(&self, reg: &Registry, flag: u32) -> (r: Result<bool>)
        requires
            (self.env_id as int) < reg.n_envs(),
        ensures
            r == Ok::<bool, Error>(
                (reg.slot(self.env_id as int).options.flags & flag) != 0,
            ),
    {
        Ok((reg.envs[self.env_id].options.flags & flag) != 0)
    }

    /// The configured map size, or zero when the configuration leaves it to
    /// the engine.
    pub fn map_size(&self, reg: &Registry) -> (r: Result<usize>)
        requires
            (self.env_id as int) < reg.n_envs(),
        ensures
            r == Ok::<usize, Error>(
                match reg.slot(self.env_id as int).options.geometry.map_size {
                    Some(s) => s,
                    None => 0,
                },
            ),
    {
        match reg.envs[self.env_id].options.geometry.map_size {
            Some(s) => Ok(s),
            None => Ok(0),
        }
    }

    /// Look a table up by name and hold its recorded codec pair to the one
    /// presented: the first open records the pair, every later open must
    /// present the same one. With `create`, an unknown name gets a fresh
    /// empty table; without, it reports `None`.
    fn raw_init_database(
        &self,
        reg: &mut Registry,
        name: Option<&str>,
        types: TypeRecord,
        create: bool,
    ) -> (r: Result<Option<usize>>)
        requires
            old(reg).wf(),
            old(reg).valid_env(self.env_id as int),
            !(types is Unset),
        ensures
            final(reg).wf(),
            final(reg).n_envs() == old(reg).n_envs(),
            forall|j: int|
                0 <= j < old(reg).n_envs() && j != self.env_id as int ==> final(reg).slot(j) == old(
                    reg,
                ).slot(j),
            final(reg).slot(self.env_id as int).path == old(reg).slot(self.env_id as int).path,
            final(reg).slot(self.env_id as int).options == old(reg).slot(
                self.env_id as int,
            ).options,
            final(reg).slot(self.env_id as int).state == old(reg).slot(self.env_id as int).state,
            final(reg).slot(self.env_id as int).refs == old(reg).slot(self.env_id as int).refs,
            ({
                let s = old(reg).slot(self.env_id as int);
                let post = final(reg).slot(self.env_id as int);
                let n = match name {
                    Some(x) => Some(x@),
                    None => None,
                };
                &&& post.path == s.path
                &&& post.options == s.options
                &&& post.state == s.state
                &&& post.refs == s.refs
                &&& match r {
                    Ok(Some(dbi)) => {
                        &&& if s.has_name(n) {
                            &&& post.tables == s.tables
                            &&& post.names == s.names
                            &&& dbi as int == s.dbi_of(n)
                            &&& (s.records@[dbi as int] == types || s.records@[dbi as int]
                                == TypeRecord::Unset)
                            &&& post.records@ == s.records@.update(dbi as int, types)
                        } else {
                            &&& create
                            &&& dbi as int == s.tables@.len()
                            &&& post.tables@.len() == s.tables@.len() + 1
                            &&& forall|j: int|
                                0 <= j < s.tables@.len() ==> post.tables@[j] == s.tables@[j]
                                    && post.names@[j] == s.names@[j] && post.records@[j]
                                    == s.records@[j]
                            &&& post.tables@[dbi as int].len_spec() == 0
                            &&& post.tables@[dbi as int].sequence == 0
                            &&& name_view(post.names@[dbi as int]) == n
                            &&& post.records@[dbi as int] == types
                            &&& post.names@.len() == s.names@.len() + 1
                            &&& post.records@.len() == s.records@.len() + 1
                        }
                    },
                    Ok(None) => !create && !s.has_name(n) && post == s,
                    Err(e) => {
                        &&& e == Error::InvalidDatabaseTyping
                        &&& post == s
                        &&& s.has_name(n)
                        &&& s.records@[s.dbi_of(n)] != types
                        &&& s.records@[s.dbi_of(n)] != TypeRecord::Unset
                    },
                }
            }),
    {
        let env_id = self.env_id;
        let found = reg.envs[env_id].find_dbi(name);
        match found {
            Some(dbi) => {
                let rec = reg.envs[env_id].records[dbi];
                if matches!(rec, TypeRecord::Unset) {
                    let slot = &mut reg.envs[env_id];
                    let cell = &mut slot.records[dbi];
                    *cell = types;
                    proof {
                        assert(reg.slot(env_id as int).records@ == old(reg).slot(
                            env_id as int,
                        ).records@.update(dbi as int, types));
                        assert(reg.slot(env_id as int).wf());
                        Registry::lemma_wf_update_slot(*old(reg), *reg, env_id as int);
                    }
                    Ok(Some(dbi))
                } else if same_record(&rec, &types) {
                    proof {
                        assert(reg.slot(env_id as int).records@.update(dbi as int, types)
                            =~= reg.slot(env_id as int).records@);
                    }
                    Ok(Some(dbi))
                } else {
                    Err(Error::InvalidDatabaseTyping)
                }
            },
            None => {
                if !create {
                    return Ok(None);
                }
                let owned_name = match name {
                    Some(s) => Some(s.to_owned()),
                    None => None,
                };
                let slot = &mut reg.envs[env_id];
                let dbi = slot.tables.len();
                slot.tables.push(Tree::new());
                slot.names.push(owned_name);
                slot.records.push(types);
                proof {
                    let s = old(reg).slot(env_id as int);
                    let post = reg.slot(env_id as int);
                    let n = match name {
                        Some(x) => Some(x@),
                        None => None,
                    };
                    assert(name_view(post.names@[dbi as int]) == n);
                    assert forall|a: int, b: int|
                        0 <= a < b < post.names@.len() implies name_view(post.names@[a])
                        != name_view(post.names@[b]) by {
                        if b < dbi as int {
                            assert(name_view(s.names@[a]) != name_view(s.names@[b]));
                        } else {
                            assert(b == dbi as int);
                            assert(name_view(post.names@[a]) == name_view(s.names@[a]));
                            if name_view(s.names@[a]) == n {
                                assert(s.has_name(n));
                            }
                        }
                    }
                    assert(post.wf());
                    Registry::lemma_wf_update_slot(*old(reg), *reg, env_id as int);
                }
                Ok(Some(dbi))
            },
        }
    }

    /// Open a table with codec choice deferred to each call. `None` when no
    /// table with this name exists; a typing-conflict error when the table
    /// was first opened under a concrete codec pair.
    pub fn open_poly_database(
        &self,
        reg: &mut Registry,
        rtxn: &RoTxn<()>,
        name: Option<&str>,
    ) -> (r: Result<Option<PolyDatabase>>)
        requires
            old(reg).wf(),
            old(reg).valid_env(self.env_id as int),
            rtxn.env_id == self.env_id,
        ensures
            final(reg).wf(),
            final(reg).n_envs() == old(reg).n_envs(),
            forall|j: int|
                0 <= j < old(reg).n_envs() && j != self.env_id as int ==> final(reg).slot(j) == old(
                    reg,
                ).slot(j),
            final(reg).slot(self.env_id as int).path == old(reg).slot(self.env_id as int).path,
            final(reg).slot(self.env_id as int).options == old(reg).slot(
                self.env_id as int,
            ).options,
            final(reg).slot(self.env_id as int).state == old(reg).slot(self.env_id as int).state,
            final(reg).slot(self.env_id as int).refs == old(reg).slot(self.env_id as int).refs,
            ({
                let s = old(reg).slot(self.env_id as int);
                let post = final(reg).slot(self.env_id as int);
                let n = match name {
                    Some(x) => Some(x@),
                    None => None,
                };
                &&& post.tables == s.tables
                &&& match r {
                    Ok(Some(db)) => {
                        &&& db.env_ident == self.env_id
                        &&& s.has_name(n)
                        &&& db.dbi as int == s.dbi_of(n)
                        &&& (s.records@[db.dbi as int] == TypeRecord::Poly || s.records@[
                            db.dbi as int] == TypeRecord::Unset)
                        &&& post.records@ == s.records@.update(db.dbi as int, TypeRecord::Poly)
                    },
                    Ok(None) => !s.has_name(n) && post == s,
                    Err(e) => {
                        &&& e == Error::InvalidDatabaseTyping
                        &&& post == s
                        &&& s.has_name(n)
                        &&& s.records@[s.dbi_of(n)] != TypeRecord::Poly
                        &&& s.records@[s.dbi_of(n)] != TypeRecord::Unset
                    },
                }
            }),
    {
        match self.raw_init_database(reg, name, TypeRecord::Poly, false) {
            Ok(Some(dbi)) => Ok(Some(PolyDatabase::new(self.env_id, dbi))),
            Ok(None) => Ok(None),
            Err(e) => Err(e),
        }
    }

    /// Open a table with its codec pair fixed at the type level, recording
    /// or checking the pair in the registry.
    pub fn open_database<KC: CodecType, DC: CodecType>(
        &self,
        reg: &mut Registry,
        rtxn: &RoTxn<()>,
        name: Option<&str>,
    ) -> (r: Result<Option<Database<KC, DC>>>)
        requires
            old(reg).wf(),
            old(reg).valid_env(self.env_id as int),
            rtxn.env_id == self.env_id,
        ensures
            final(reg).wf(),
            final(reg).n_envs() == old(reg).n_envs(),
            forall|j: int|
                0 <= j < old(reg).n_envs() && j != self.env_id as int ==> final(reg).slot(j) == old(
                    reg,
                ).slot(j),
            final(reg).slot(self.env_id as int).path == old(reg).slot(self.env_id as int).path,
            final(reg).slot(self.env_id as int).options == old(reg).slot(
                self.env_id as int,
            ).options,
            final(reg).slot(self.env_id as int).state == old(reg).slot(self.env_id as int).state,
            final(reg).slot(self.env_id as int).refs == old(reg).slot(self.env_id as int).refs,
            ({
                let s = old(reg).slot(self.env_id as int);
                let post = final(reg).slot(self.env_id as int);
                let n = match name {
                    Some(x) => Some(x@),
                    None => None,
                };
                let presented = TypeRecord::Typed(KC::spec_type_id(), DC::spec_type_id());
                &&& post.tables == s.tables
                &&& match r {
                    Ok(Some(db)) => {
                        &&& db.dyndb.env_ident == self.env_id
                        &&& s.has_name(n)
                        &&& db.dyndb.dbi as int == s.dbi_of(n)
                        &&& (s.records@[db.dyndb.dbi as int] == presented || s.records@[
                            db.dyndb.dbi as int] == TypeRecord::Unset)
                        &&& post.records@ == s.records@.update(db.dyndb.dbi as int, presented)
                    },
                    Ok(None) => !s.has_name(n) && post == s,
                    Err(e) => {
                        &&& e == Error::InvalidDatabaseTyping
                        &&& post == s
                        &&& s.has_name(n)
                        &&& s.records@[s.dbi_of(n)] != presented
                        &&& s.records@[s.dbi_of(n)] != TypeRecord::Unset
                    },
                }
            }),
    {
        let types = TypeRecord::Typed(KC::type_id(), DC::type_id());
        match self.raw_init_database(reg, name, types, false) {
            Ok(Some(dbi)) => Ok(Some(Database::new(self.env_id, dbi))),
            Ok(None) => Ok(None),
            Err(e) => Err(e),
        }
    }

    /// As [`Env::open_poly_database`], creating the table when the name is
    /// unknown. The write transaction gains the fresh table too.
    pub fn create_poly_database(
        &self,
        reg: &mut Registry,
        wtxn: &mut RwTxn<()>,
        name: Option<&str>,
    ) -> (r: Result<PolyDatabase>)
        requires
            old(reg).wf(),
            old(reg).valid_env(self.env_id as int),
            old(wtxn).wf(),
            old(wtxn).txn.env_id == self.env_id,
            old(wtxn).n_tables() == old(reg).slot(self.env_id as int).tables@.len(),
        ensures
            final(reg).wf(),
            final(wtxn).wf(),
            final(reg).n_envs() == old(reg).n_envs(),
            forall|j: int|
                0 <= j < old(reg).n_envs() && j != self.env_id as int ==> final(reg).slot(j) == old(
                    reg,
                ).slot(j),
            final(wtxn).txn.env_id == self.env_id,
            final(wtxn).n_tables() == final(reg).slot(self.env_id as int).tables@.len(),
            final(reg).slot(self.env_id as int).path == old(reg).slot(self.env_id as int).path,
            final(reg).slot(self.env_id as int).options == old(reg).slot(
                self.env_id as int,
            ).options,
            final(reg).slot(self.env_id as int).state == old(reg).slot(self.env_id as int).state,
            final(reg).slot(self.env_id as int).refs == old(reg).slot(self.env_id as int).refs,
            ({
                let s = old(reg).slot(self.env_id as int);
                let post = final(reg).slot(self.env_id as int);
                let n = match name {
                    Some(x) => Some(x@),
                    None => None,
                };
                match r {
                    Ok(db) => {
                        &&& db.env_ident == self.env_id
                        &&& (db.dbi as int) < final(wtxn).n_tables()
                        &&& forall|j: int|
                            0 <= j < old(wtxn).n_tables() ==> final(wtxn).table(j) == old(
                                wtxn,
                            ).table(j)
                        &&& post.records@[db.dbi as int] == TypeRecord::Poly
                        &&& if s.has_name(n) {
                            &&& db.dbi as int == s.dbi_of(n)
                            &&& (s.records@[s.dbi_of(n)] == TypeRecord::Poly || s.records@[s.dbi_of(
                                n,
                            )] == TypeRecord::Unset)
                            &&& post.records@ == s.records@.update(db.dbi as int, TypeRecord::Poly)
                            &&& *final(wtxn) == *old(wtxn)
                            &&& post.tables == s.tables
                            &&& post.names == s.names
                        } else {
                            &&& db.dbi as int == s.tables@.len()
                            &&& name_view(post.names@[db.dbi as int]) == n
                            &&& final(wtxn).n_tables() == old(wtxn).n_tables() + 1
                            &&& final(wtxn).table(db.dbi as int).len_spec() == 0
                            &&& final(wtxn).table(db.dbi as int).sequence == 0
                        }
                    },
                    Err(e) => {
                        &&& e == Error::InvalidDatabaseTyping
                        &&& post == s
                        &&& *final(wtxn) == *old(wtxn)
                        &&& s.has_name(n)
                        &&& s.records@[s.dbi_of(n)] != TypeRecord::Poly
                        &&& s.records@[s.dbi_of(n)] != TypeRecord::Unset
                    },
                }
            }),
    {
        match self.raw_init_database(reg, name, TypeRecord::Poly, true) {
            Ok(Some(dbi)) => {
                if dbi == wtxn.txn.tables.len() {
                    wtxn.txn.tables.push(Tree::new());
                }
                Ok(PolyDatabase::new(self.env_id, dbi))
            },
            Ok(None) => Err(Error::InvalidDatabaseTyping),
            Err(e) => Err(e),
        }
    }

    /// As [`Env::open_database`], creating the table when the name is
    /// unknown. The write transaction gains the fresh table too.
    pub fn create_database<KC: CodecType, DC: CodecType>(
        &self,
        reg: &mut Registry,
        wtxn: &mut RwTxn<()>,
        name: Option<&str>,
    ) -> (r: Result<Database<KC, DC>>)
        requires
            old(reg).wf(),
            old(reg).valid_env(self.env_id as int),
            old(wtxn).wf(),
            old(wtxn).txn.env_id == self.env_id,
            old(wtxn).n_tables() == old(reg).slot(self.env_id as int).tables@.len(),
        ensures
            final(reg).wf(),
            final(reg).n_envs() == old(reg).n_envs(),
            forall|j: int|
                0 <= j < old(reg).n_envs() && j != self.env_id as int ==> final(reg).slot(j) == old(
                    reg,
                ).slot(j),
            final(wtxn).txn.env_id == self.env_id,
            final(wtxn).wf(),
            final(wtxn).n_tables() == final(reg).slot(self.env_id as int).tables@.len(),
            final(reg).slot(self.env_id as int).path == old(reg).slot(self.env_id as int).path,
            final(reg).slot(self.env_id as int).options == old(reg).slot(
                self.env_id as int,
            ).options,
            final(reg).slot(self.env_id as int).state == old(reg).slot(self.env_id as int).state,
            final(reg).slot(self.env_id as int).refs == old(reg).slot(self.env_id as int).refs,
            ({
                let s = old(reg).slot(self.env_id as int);
                let post = final(reg).slot(self.env_id as int);
                let n = match name {
                    Some(x) => Some(x@),
                    None => None,
                };
                let presented = TypeRecord::Typed(KC::spec_type_id(), DC::spec_type_id());
                match r {
                    Ok(db) => {
                        &&& db.dyndb.env_ident == self.env_id
                        &&& (db.dyndb.dbi as int) < final(wtxn).n_tables()
                        &&& forall|j: int|
                            0 <= j < old(wtxn).n_tables() ==> final(wtxn).table(j) == old(
                                wtxn,
                            ).table(j)
                        &&& post.records@[db.dyndb.dbi as int] == presented
                        &&& if s.has_name(n) {
                            &&& db.dyndb.dbi as int == s.dbi_of(n)
                            &&& (s.records@[s.dbi_of(n)] == presented || s.records@[s.dbi_of(n)]
                                == TypeRecord::Unset)
                            &&& *final(wtxn) == *old(wtxn)
                        } else {
                            &&& db.dyndb.dbi as int == s.tables@.len()
                            &&& final(wtxn).n_tables() == old(wtxn).n_tables() + 1
                            &&& final(wtxn).table(db.dyndb.dbi as int).len_spec() == 0
                        }
                    },
                    Err(e) => {
                        &&& e == Error::InvalidDatabaseTyping
                        &&& post == s
                        &&& *final(wtxn) == *old(wtxn)
                        &&& s.has_name(n)
                        &&& s.records@[s.dbi_of(n)] != presented
                        &&& s.records@[s.dbi_of(n)] != TypeRecord::Unset
                    },
                }
            }),
    {
        let types = TypeRecord::Typed(KC::type_id(), DC::type_id());
        match self.raw_init_database(reg, name, types, true) {
            Ok(Some(dbi)) => {
                if dbi == wtxn.txn.tables.len() {
                    wtxn.txn.tables.push(Tree::new());
                }
                Ok(Database::new(self.env_id, dbi))
            },
            Ok(None) => Err(Error::InvalidDatabaseTyping),
            Err(e) => Err(e),
        }
    }

    /// Begin a read-only transaction: one consistent snapshot of every
    /// table.
    pub fn typed_read_txn<T>(&self, reg: &Registry) -> (r: Result<RoTxn<T>>)
        requires
            reg.wf(),
            reg.valid_env(self.env_id as int),
        ensures
            match r {
                Ok(t) => {
                    &&& t.env_id == self.env_id
                    &&& t.wf()
                    &&& tables_same(t.tables@, reg.slot(self.env_id as int).tables@)
                },
                Err(e) => false,
            },
    {
        let slot = &reg.envs[self.env_id];
        let tables = clone_tables(&slot.tables);
        proof {
            assert forall|i: int| 0 <= i < tables@.len() implies tables@[i].wf() by {
                assert(tables@[i].same_data(slot.tables@[i]));
                tables@[i].lemma_same_data(slot.tables@[i]);
            }
        }
        Ok(RoTxn { env_id: self.env_id, tables, tag: core::marker::PhantomData })
    }

    /// As [`Env::typed_read_txn`], without a type tag.
    pub fn read_txn(&self, reg: &Registry) -> (r: Result<RoTxn<()>>)
        requires
            reg.wf(),
            reg.valid_env(self.env_id as int),
        ensures
            match r {
                Ok(t) => {
                    &&& t.env_id == self.env_id
                    &&& t.wf()
                    &&& tables_same(t.tables@, reg.slot(self.env_id as int).tables@)
                },
                Err(e) => false,
            },
    {
        self.typed_read_txn::<()>(reg)
    }

    /// Begin a read-write transaction: a private working copy of every
    /// table, published only by `commit`. Serializing concurrent writers is
    /// the engine's duty, not re-done here: two write transactions held at
    /// once publish last-writer-wins.
    pub fn typed_write_txn<T>(&self, reg: &Registry) -> (r: Result<RwTxn<T>>)
        requires
            reg.wf(),
            reg.valid_env(self.env_id as int),
        ensures
            match r {
                Ok(t) => {
                    &&& t.txn.env_id == self.env_id
                    &&& t.wf()
                    &&& tables_same(t.txn.tables@, reg.slot(self.env_id as int).tables@)
                },
                Err(e) => false,
            },
    {
        match self.typed_read_txn::<T>(reg) {
            Ok(txn) => Ok(RwTxn { txn }),
            Err(e) => Err(e),
        }
    }

    /// As [`Env::typed_write_txn`], without a type tag.
    pub fn write_txn(&self, reg: &Registry) -> (r: Result<RwTxn<()>>)
        requires
            reg.wf(),
            reg.valid_env(self.env_id as int),
        ensures
            match r {
                Ok(t) => {
                    &&& t.txn.env_id == self.env_id
                    &&& t.wf()
                    &&& tables_same(t.txn.tables@, reg.slot(self.env_id as int).tables@)
                },
                Err(e) => false,
            },
    {
        self.typed_write_txn::<()>(reg)
    }

    /// Begin a write transaction nested in `parent`: it starts from the
    /// parent's view and publishes into the parent on `commit_nested`. The
    /// child is an independent value, so leaving the parent untouched during
    /// the child's life is the caller's discipline; a commit of the child
    /// overwrites whatever the parent did meanwhile.
    pub fn nested_write_txn<T>(&self, parent: &mut RwTxn<T>) -> (r: Result<RwTxn<T>>)
        requires
            old(parent).wf(),
            old(parent).txn.env_id == self.env_id,
        ensures
            *final(parent) == *old(parent),
            match r {
                Ok(t) => {
                    &&& t.txn.env_id == self.env_id
                    &&& t.wf()
                    &&& tables_same(t.txn.tables@, old(parent).txn.tables@)
                },
                Err(e) => false,
            },
    {
        let tables = clone_tables(&parent.txn.tables);
        proof {
            assert forall|i: int| 0 <= i < tables@.len() implies tables@[i].wf() by {
                assert(tables@[i].same_data(parent.txn.tables@[i]));
                tables@[i].lemma_same_data(parent.txn.tables@[i]);
            }
        }
        Ok(RwTxn { txn: RoTxn { env_id: self.env_id, tables, tag: core::marker::PhantomData } })
    }
}

impl<T> RwTxn<T> {
    /// Publish every buffered mutation: the environment's tables become the
    /// transaction's view, atomically.
    pub fn commit(self, reg: &mut Registry) -> (r: Result<()>)
        requires
            old(reg).wf(),
            old(reg).valid_env(self.txn.env_id as int),
            self.wf(),
            self.txn.tables@.len() == old(reg).slot(self.txn.env_id as int).tables@.len(),
        ensures
            r is Ok,
            final(reg).wf(),
            final(reg).n_envs() == old(reg).n_envs(),
            forall|j: int|
                0 <= j < old(reg).n_envs() && j != self.txn.env_id as int ==> final(reg).slot(j)
                    == old(reg).slot(j),
            final(reg).slot(self.txn.env_id as int) == (EnvSlot {
                tables: self.txn.tables,
                ..old(reg).slot(self.txn.env_id as int)
            }),
            final(reg).slot(self.txn.env_id as int).names@.len() == old(reg).slot(
                self.txn.env_id as int,
            ).names@.len(),
    {
        let RwTxn { txn } = self;
        let RoTxn { env_id, tables, tag: _ } = txn;
        let slot = &mut reg.envs[env_id];
        slot.tables = tables;
        proof {
            assert(old(reg).slot(env_id as int).wf());
            assert(reg.slot(env_id as int).wf());
            Registry::lemma_wf_update_slot(*old(reg), *reg, env_id as int);
        }
        Ok(())
    }
}

/// Whether a whole-environment copy drops free pages while copying.
#[derive(Clone, Copy, Debug)]
pub enum CompactionOption {
    Enabled,
    Disabled,
}

/// An event a caller can query to learn whether an environment's resources
/// have been fully released.
#[derive(Clone, Copy, Debug)]
pub struct EnvClosingEvent {
    pub env_id: usize,
}

impl EnvClosingEvent {
    /// Whether the environment has been fully released.
    pub fn has_completed(&self, reg: &Registry) -> (r: bool)
        requires
            (self.env_id as int) < reg.n_envs(),
        ensures
            r == (reg.slot(self.env_id as int).state is Released),
    {
        matches!(reg.envs[self.env_id].state, EnvState::Released)
    }
}

/// The closing event of the environment at this path, while one is known to
/// the registry.
pub fn env_closing_event(reg: &Registry, path: &str) -> (r: Option<EnvClosingEvent>)
    requires
        reg.wf(),
    ensures
        match r {
            Some(ev) => reg.has_live_path(path@) && ev.env_id as int == reg.live_slot(path@),
            None => !reg.has_live_path(path@),
        },
{
    match reg.find_live(path) {
        Some(i) => Some(EnvClosingEvent { env_id: i }),
        None => None,
    }
}

} // verus!
