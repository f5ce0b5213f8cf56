//! The prefab index cache: four string indices plus a per-sidecar
//! modification-time record, merged incrementally from a filesystem walk's
//! observations, with deleted entries purged from every index.
use vstd::prelude::*;

use crate::meta::spec_extract_guid;
use crate::strmap::{AssocMap, StrSet};

verus! {

/// One sidecar observed by a filesystem walk. The caller reads the declared
/// name only for changed files; `name_value` is ignored for unchanged ones.
pub struct ScanObs {
    /// Lowercased file name of the template the sidecar belongs to.
    pub key: String,
    /// Absolute path of the template file.
    pub et_path: String,
    /// Absolute path of the sidecar itself.
    pub meta_path: String,
    /// The sidecar's modification time, in integer nanoseconds.
    pub mtime: u64,
    /// The declared name read from the sidecar, where the caller read it.
    pub name_value: Option<String>,
    /// Fallback used as the name when the sidecar could not be read.
    pub rel_path: String,
}

/// The mathematical shadow of one observation.
pub ghost struct ObsView {
    pub key: Seq<char>,
    pub et_path: Seq<char>,
    pub meta_path: Seq<char>,
    pub mtime: u64,
    pub name_value: Option<Seq<char>>,
    pub rel_path: Seq<char>,
}

impl View for ScanObs {
    type V = ObsView;

    open spec fn view(&self) -> ObsView {
        ObsView {
            key: self.key@,
            et_path: self.et_path@,
            meta_path: self.meta_path@,
            mtime: self.mtime,
            name_value: match self.name_value {
                Some(v) => Some(v@),
                None => None,
            },
            rel_path: self.rel_path@,
        }
    }
}

/// The views of a sequence of observations.
pub open spec fn obs_views(obs: Seq<ScanObs>) -> Seq<ObsView> {
    obs.map_values(|o: ScanObs| o@)
}

/// The mathematical shadow of the whole cache.
pub ghost struct CacheView {
    pub root: Seq<char>,
    pub name: Map<Seq<char>, Seq<char>>,
    pub guid: Map<Seq<char>, Seq<char>>,
    pub et_path: Map<Seq<char>, Seq<char>>,
    pub guid_path: Map<Seq<char>, Seq<char>>,
    pub mtime: Map<Seq<char>, u64>,
}

/// The effect of one observation: an unchanged sidecar (same recorded
/// modification time) only has its path entry ensured; a changed or new one
/// is re-read and upserted into every index it belongs in.
pub open spec fn spec_apply_obs(c: CacheView, o: ObsView) -> CacheView {
    if c.mtime.contains_key(o.meta_path) && c.mtime[o.meta_path] == o.mtime {
        if c.et_path.contains_key(o.key) {
            c
        } else {
            CacheView { et_path: c.et_path.insert(o.key, o.et_path), ..c }
        }
    } else {
        let nv = match o.name_value {
            Some(v) => v,
            None => o.rel_path,
        };
        let c1 = CacheView {
            name: c.name.insert(o.key, nv),
            et_path: c.et_path.insert(o.key, o.et_path),
            mtime: c.mtime.insert(o.meta_path, o.mtime),
            ..c
        };
        match spec_extract_guid(nv) {
            Some(g) => CacheView {
                guid: c1.guid.insert(g, nv),
                guid_path: c1.guid_path.insert(g, o.et_path),
                ..c1
            },
            None => c1,
        }
    }
}

/// The observations folded into the cache, in order.
pub open spec fn spec_fold_obs(c: CacheView, obs: Seq<ObsView>) -> CacheView
    decreases obs.len(),
{
    if obs.len() == 0 {
        c
    } else {
        spec_apply_obs(spec_fold_obs(c, obs.drop_last()), obs.last())
    }
}

/// The keys observed in this pass.
pub open spec fn obs_keys(obs: Seq<ObsView>) -> Set<Seq<char>> {
    Set::new(|k: Seq<char>| exists|i: int| 0 <= i < obs.len() && obs[i].key == k)
}

/// The template paths observed in this pass.
pub open spec fn obs_et_paths(obs: Seq<ObsView>) -> Set<Seq<char>> {
    Set::new(|p: Seq<char>| exists|i: int| 0 <= i < obs.len() && obs[i].et_path == p)
}

/// The sidecar paths observed in this pass.
pub open spec fn obs_meta_paths(obs: Seq<ObsView>) -> Set<Seq<char>> {
    Set::new(|p: Seq<char>| exists|i: int| 0 <= i < obs.len() && obs[i].meta_path == p)
}

/// A map without the entries whose value lies outside `vals`.
pub open spec fn restrict_values(m: Map<Seq<char>, Seq<char>>, vals: Set<Seq<char>>) -> Map<
    Seq<char>,
    Seq<char>,
> {
    Map::new(|k: Seq<char>| m.contains_key(k) && vals.contains(m[k]), |k: Seq<char>| m[k])
}

/// The purge after a walk: keys not observed leave the name and path
/// indices; GUID path entries whose path vanished leave; the GUID index is
/// pruned to GUIDs that still have a surviving path entry; modification
/// times of vanished sidecars are dropped.
pub open spec fn spec_purge(c: CacheView, obs: Seq<ObsView>) -> CacheView {
    let guid_path = restrict_values(c.guid_path, obs_et_paths(obs));
    CacheView {
        root: c.root,
        name: c.name.restrict(obs_keys(obs)),
        et_path: c.et_path.restrict(obs_keys(obs)),
        guid_path: guid_path,
        guid: c.guid.restrict(guid_path.dom()),
        mtime: c.mtime.restrict(obs_meta_paths(obs)),
    }
}

/// An empty cache rooted at `root`.
pub open spec fn spec_empty_cache(root: Seq<char>) -> CacheView {
    CacheView {
        root: root,
        name: Map::empty(),
        guid: Map::empty(),
        et_path: Map::empty(),
        guid_path: Map::empty(),
        mtime: Map::empty(),
    }
}

/// A whole scan: rebuild from empty when the recorded root differs from the
/// requested one, fold the observations in, then purge.
pub open spec fn spec_scan(c: CacheView, root: Seq<char>, obs: Seq<ObsView>) -> CacheView {
    let base = if c.root.len() > 0 && c.root != root {
        spec_empty_cache(root)
    } else {
        CacheView { root: root, ..c }
    };
    spec_purge(spec_fold_obs(base, obs), obs)
}

/// The persisted prefab index: a scan root, the four indices, and the
/// per-sidecar modification times.
pub struct PrefabCache {
    svn_root: String,
    name_index: AssocMap<String>,
    guid_index: AssocMap<String>,
    et_path_index: AssocMap<String>,
    guid_path_index: AssocMap<String>,
    meta_mtime: AssocMap<u64>,
}

impl View for PrefabCache {
    type V = CacheView;

    closed spec fn view(&self) -> CacheView {
        CacheView {
            root: self.svn_root@,
            name: self.name_index@,
            guid: self.guid_index@,
            et_path: self.et_path_index@,
            guid_path: self.guid_path_index@,
            mtime: self.meta_mtime@,
        }
    }
}

impl PrefabCache {
    /// All five indices have unique keys.
    pub closed spec fn wf(&self) -> bool {
        self.name_index.wf() && self.guid_index.wf() && self.et_path_index.wf()
            && self.guid_path_index.wf() && self.meta_mtime.wf()
    }

    /// An empty cache rooted at `root`; also what a missing or unreadable
    /// cache file degrades to.
    pub fn new(root: String) -> (r: PrefabCache)
        ensures
            r.wf(),
            r@ == spec_empty_cache(root@),
    {
        let r = PrefabCache {
            svn_root: root,
            name_index: AssocMap::new(),
            guid_index: AssocMap::new(),
            et_path_index: AssocMap::new(),
            guid_path_index: AssocMap::new(),
            meta_mtime: AssocMap::new(),
        };
        r
    }

    /// The recorded scan root.
    pub fn root(&self) -> (r: &String)
        ensures
            r@ == self@.root,
    {
        &self.svn_root
    }

    /// The name index: lowercased template file name to declared name value.
    pub fn name_index(&self) -> (r: &AssocMap<String>)
        ensures
            r@ == self@.name,
            self.wf() ==> r.wf(),
    {
        &self.name_index
    }

    /// The GUID index: GUID to declared name value.
    pub fn guid_index(&self) -> (r: &AssocMap<String>)
        ensures
            r@ == self@.guid,
            self.wf() ==> r.wf(),
    {
        &self.guid_index
    }

    /// The path index: lowercased template file name to absolute path.
    pub fn et_path_index(&self) -> (r: &AssocMap<String>)
        ensures
            r@ == self@.et_path,
            self.wf() ==> r.wf(),
    {
        &self.et_path_index
    }

    /// The GUID path index: GUID to absolute path.
    pub fn guid_path_index(&self) -> (r: &AssocMap<String>)
        ensures
            r@ == self@.guid_path,
            self.wf() ==> r.wf(),
    {
        &self.guid_path_index
    }

    /// The recorded modification time of a sidecar, if any.
    pub fn recorded_mtime(&self, meta_path: &String) -> (r: Option<u64>)
        requires
            self.wf(),
        ensures
            match r {
                Some(t) => self@.mtime.contains_key(meta_path@) && self@.mtime[meta_path@] == t,
                None => !self@.mtime.contains_key(meta_path@),
            },
    {
        match self.meta_mtime.get(meta_path) {
            Some(t) => Some(*t),
            None => None,
        }
    }

    /// Record a sidecar's modification time, as when a persisted cache is
    /// reloaded.
    pub fn record_mtime(&mut self, meta_path: String, mtime: u64)
        requires
            old(self).wf(),
        ensures
            final(self).wf(),
            final(self)@ == (CacheView { mtime: old(self)@.mtime.insert(meta_path@, mtime), ..old(self)@ }),
    {
        self.meta_mtime.insert(meta_path, mtime);
    }

    /// Whether a sidecar is unchanged since it was last recorded; the walk
    /// skips re-reading such a sidecar.
    pub fn mtime_matches(&self, meta_path: &String, mtime: u64) -> (r: bool)
        requires
            self.wf(),
        ensures
            r == (self@.mtime.contains_key(meta_path@) && self@.mtime[meta_path@] == mtime),
    {
        match self.recorded_mtime(meta_path) {
            Some(t) => t == mtime,
            None => false,
        }
    }

    /// How many templates the name index holds.
    pub fn entry_count(&self) -> (r: usize)
        requires
            self.wf(),
        ensures
            r == self@.name.dom().len(),
    {
        self.name_index.len()
    }

    /// Merge one pass of observations: re-root if the recorded root differs,
    /// fold every observation in, then purge what was not observed.
    pub fn scan_reconcile(self, root: &String, obs: &Vec<ScanObs>) -> (r: PrefabCache)
        requires
            self.wf(),
        ensures
            r.wf(),
            r@ == spec_scan(self@, root@, obs_views(obs@)),
    {
        let ghost oldview = self@;
        let mut cur: PrefabCache = if !self.svn_root.as_str().is_empty() && !(self.svn_root == *root) {
            PrefabCache::new(root.clone())
        } else {
            let mut keep = self;
            keep.svn_root = root.clone();
            keep
        };
        let ghost base = cur@;
        proof {
            assert(base == if oldview.root.len() > 0 && oldview.root != root@ {
                spec_empty_cache(root@)
            } else {
                CacheView { root: root@, ..oldview }
            });
        }
        let ghost ovs = obs_views(obs@);
        let n = obs.len();
        let mut i: usize = 0;
        while i < n
            invariant
                i <= n,
                n == obs@.len(),
                ovs == obs_views(obs@),
                cur.wf(),
                cur@ == spec_fold_obs(base, ovs.subrange(0, i as int)),
            decreases n - i,
        {
            let o = &obs[i];
            proof {
                assert(ovs[i as int] == o@);
                assert(ovs.subrange(0, i + 1).drop_last() =~= ovs.subrange(0, i as int));
                assert(ovs.subrange(0, i + 1).last() == o@);
            }
            let ghost before = cur@;
            if cur.mtime_matches(&o.meta_path, o.mtime) {
                if !cur.et_path_index.contains_key(&o.key) {
                    cur.et_path_index.insert(o.key.clone(), o.et_path.clone());
                }
            } else {
                let nv: String = match &o.name_value {
                    Some(v) => v.clone(),
                    None => o.rel_path.clone(),
                };
                cur.name_index.insert(o.key.clone(), nv.clone());
                cur.et_path_index.insert(o.key.clone(), o.et_path.clone());
                cur.meta_mtime.insert(o.meta_path.clone(), o.mtime);
                match crate::meta::extract_guid(nv.as_str()) {
                    Some(g) => {
                        cur.guid_index.insert(g.clone(), nv.clone());
                        cur.guid_path_index.insert(g, o.et_path.clone());
                    },
                    None => {},
                }
            }
            proof {
                assert(cur@ == spec_apply_obs(before, o@));
            }
            i = i + 1;
        }
        proof {
            assert(ovs.subrange(0, n as int) =~= ovs);
        }
        // Collect what this pass observed.
        let mut keys_present = StrSet::new();
        let mut paths_present = StrSet::new();
        let mut metas_present = StrSet::new();
        let mut j: usize = 0;
        while j < n
            invariant
                j <= n,
                n == obs@.len(),
                forall|k: Seq<char>|
                    keys_present@.contains(k) == exists|t: int|
                        0 <= t < j && #[trigger] obs@[t]@.key == k,
                forall|p: Seq<char>|
                    paths_present@.contains(p) == exists|t: int|
                        0 <= t < j && #[trigger] obs@[t]@.et_path == p,
                forall|p: Seq<char>|
                    metas_present@.contains(p) == exists|t: int|
                        0 <= t < j && #[trigger] obs@[t]@.meta_path == p,
            decreases n - j,
        {
            keys_present.add(obs[j].key.clone());
            paths_present.add(obs[j].et_path.clone());
            metas_present.add(obs[j].meta_path.clone());
            proof {
                assert(obs@[j as int]@.key == obs@[j as int].key@);
                assert(obs@[j as int]@.et_path == obs@[j as int].et_path@);
                assert(obs@[j as int]@.meta_path == obs@[j as int].meta_path@);
            }
            j = j + 1;
        }
        let ghost ovsfull = obs_views(obs@);
        proof {
            assert forall|k: Seq<char>| keys_present@.contains(k) == obs_keys(ovsfull).contains(
                k,
            ) by {
                if keys_present@.contains(k) {
                    let t = choose|t: int| 0 <= t < n && obs@[t]@.key == k;
                    assert(ovsfull[t].key == k);
                }
                if obs_keys(ovsfull).contains(k) {
                    let t = choose|t: int| 0 <= t < ovsfull.len() && ovsfull[t].key == k;
                    assert(obs@[t]@.key == k);
                }
            }
            assert(keys_present@ =~= obs_keys(ovsfull));
            assert forall|p: Seq<char>| paths_present@.contains(p) == obs_et_paths(
                ovsfull,
            ).contains(p) by {
                if paths_present@.contains(p) {
                    let t = choose|t: int| 0 <= t < n && obs@[t]@.et_path == p;
                    assert(ovsfull[t].et_path == p);
                }
                if obs_et_paths(ovsfull).contains(p) {
                    let t = choose|t: int| 0 <= t < ovsfull.len() && ovsfull[t].et_path == p;
                    assert(obs@[t]@.et_path == p);
                }
            }
            assert(paths_present@ =~= obs_et_paths(ovsfull));
            assert forall|p: Seq<char>| metas_present@.contains(p) == obs_meta_paths(
                ovsfull,
            ).contains(p) by {
                if metas_present@.contains(p) {
                    let t = choose|t: int| 0 <= t < n && obs@[t]@.meta_path == p;
                    assert(ovsfull[t].meta_path == p);
                }
                if obs_meta_paths(ovsfull).contains(p) {
                    let t = choose|t: int| 0 <= t < ovsfull.len() && ovsfull[t].meta_path == p;
                    assert(obs@[t]@.meta_path == p);
                }
            }
            assert(metas_present@ =~= obs_meta_paths(ovsfull));
        }
        let ghost folded = cur@;
        let PrefabCache { svn_root, name_index, guid_index, et_path_index, guid_path_index,
            meta_mtime } = cur;
        let name_index = name_index.retained(&keys_present);
        let et_path_index = et_path_index.retained(&keys_present);
        let kept_guids = guid_path_index.keys_with_value_in(&paths_present);
        let guid_path_index = guid_path_index.retained(&kept_guids);
        let surviving = guid_path_index.key_set();
        let guid_index = guid_index.retained(&surviving);
        let meta_mtime = meta_mtime.retained(&metas_present);
        let r = PrefabCache {
            svn_root,
            name_index,
            guid_index,
            et_path_index,
            guid_path_index,
            meta_mtime,
        };
        proof {
            let expect = spec_purge(folded, ovsfull);
            assert(r@.guid_path =~= expect.guid_path);
            assert(r@.guid =~= expect.guid);
            assert(r@.name =~= expect.name);
            assert(r@.et_path =~= expect.et_path);
            assert(r@.mtime =~= expect.mtime);
            assert(r@ == expect);
        }
        r
    }
}

/// The write-through after creating a new template: the same four indices
/// are upserted without a rescan, plus the sidecar's modification time where
/// the caller has one.
pub open spec fn spec_register(
    c: CacheView,
    key: Seq<char>,
    et_path: Seq<char>,
    meta_path: Seq<char>,
    name_value: Seq<char>,
    mtime: Option<u64>,
) -> CacheView {
    let c1 = CacheView {
        name: c.name.insert(key, name_value),
        et_path: c.et_path.insert(key, et_path),
        ..c
    };
    let c2 = match spec_extract_guid(name_value) {
        Some(g) => CacheView {
            guid: c1.guid.insert(g, name_value),
            guid_path: c1.guid_path.insert(g, et_path),
            ..c1
        },
        None => c1,
    };
    match mtime {
        Some(t) => CacheView { mtime: c2.mtime.insert(meta_path, t), ..c2 },
        None => c2,
    }
}

impl PrefabCache {
    /// Insert a freshly created template into every index, so it is
    /// resolvable immediately without a rescan.
    pub fn register(
        &mut self,
        key: String,
        et_path: String,
        meta_path: String,
        name_value: &String,
        mtime: Option<u64>,
    )
        requires
            old(self).wf(),
        ensures
            final(self).wf(),
            final(self)@ == spec_register(
                old(self)@,
                key@,
                et_path@,
                meta_path@,
                name_value@,
                mtime,
            ),
    {
        self.name_index.insert(key.clone(), name_value.clone());
        self.et_path_index.insert(key, et_path.clone());
        match crate::meta::extract_guid(name_value.as_str()) {
            Some(g) => {
                self.guid_index.insert(g.clone(), name_value.clone());
                self.guid_path_index.insert(g, et_path);
            },
            None => {},
        }
        match mtime {
            Some(t) => {
                self.meta_mtime.insert(meta_path, t);
            },
            None => {},
        }
    }
}

/// No two observations name the same sidecar.
pub open spec fn distinct_metas(obs: Seq<ObsView>) -> bool {
    forall|i: int, j: int| 0 <= i < j < obs.len() ==> obs[i].meta_path != obs[j].meta_path
}

/// Folding never changes the recorded root.
proof fn lemma_fold_root(c: CacheView, obs: Seq<ObsView>)
    ensures
        spec_fold_obs(c, obs).root == c.root,
    decreases obs.len(),
{
    if obs.len() > 0 {
        lemma_fold_root(c, obs.drop_last());
    }
}

/// After the fold, every observation's sidecar time is recorded and its key
/// has a path entry.
proof fn lemma_fold_obs_records(c: CacheView, obs: Seq<ObsView>)
    requires
        distinct_metas(obs),
    ensures
        forall|i: int|
            0 <= i < obs.len() ==> {
                let f = spec_fold_obs(c, obs);
                &&& f.mtime.contains_key(#[trigger] obs[i].meta_path)
                &&& f.mtime[obs[i].meta_path] == obs[i].mtime
                &&& f.et_path.contains_key(obs[i].key)
            },
    decreases obs.len(),
{
    if obs.len() > 0 {
        let front = obs.drop_last();
        let o = obs.last();
        assert(distinct_metas(front)) by {
            assert(forall|i: int, j: int|
                0 <= i < j < front.len() ==> front[i] == obs[i] && front[j] == obs[j]);
        }
        lemma_fold_obs_records(c, front);
        let f0 = spec_fold_obs(c, front);
        let f = spec_apply_obs(f0, o);
        assert forall|i: int| 0 <= i < obs.len() implies {
            &&& f.mtime.contains_key(#[trigger] obs[i].meta_path)
            &&& f.mtime[obs[i].meta_path] == obs[i].mtime
            &&& f.et_path.contains_key(obs[i].key)
        } by {
            if i < obs.len() - 1 {
                assert(front[i] == obs[i]);
                assert(obs[i].meta_path != o.meta_path);
            }
        }
    }
}

/// Folding observations that are all already recorded changes nothing.
proof fn lemma_fold_obs_noop(c: CacheView, obs: Seq<ObsView>)
    requires
        forall|i: int|
            0 <= i < obs.len() ==> {
                &&& c.mtime.contains_key(#[trigger] obs[i].meta_path)
                &&& c.mtime[obs[i].meta_path] == obs[i].mtime
                &&& c.et_path.contains_key(obs[i].key)
            },
    ensures
        spec_fold_obs(c, obs) == c,
    decreases obs.len(),
{
    if obs.len() > 0 {
        let front = obs.drop_last();
        assert(forall|i: int| 0 <= i < front.len() ==> front[i] == obs[i]);
        lemma_fold_obs_noop(c, front);
        assert(obs[obs.len() - 1] == obs.last());
    }
}

/// Purging twice over the same observations is purging once.
proof fn lemma_purge_idempotent(c: CacheView, obs: Seq<ObsView>)
    ensures
        spec_purge(spec_purge(c, obs), obs) == spec_purge(c, obs),
{
    let s1 = spec_purge(c, obs);
    let s2 = spec_purge(s1, obs);
    assert(s2.name =~= s1.name);
    assert(s2.et_path =~= s1.et_path);
    assert(s2.guid_path =~= s1.guid_path);
    assert(s2.guid =~= s1.guid) by {
        assert(restrict_values(s1.guid_path, obs_et_paths(obs)) =~= s1.guid_path);
    }
    assert(s2.mtime =~= s1.mtime);
}

/// Scanning an unchanged tree twice yields the same cache as scanning it
/// once: the entry count and every index are identical.
pub proof fn lemma_scan_idempotent(c: CacheView, root: Seq<char>, obs: Seq<ObsView>)
    requires
        distinct_metas(obs),
    ensures
        spec_scan(spec_scan(c, root, obs), root, obs) == spec_scan(c, root, obs),
{
    let base1 = if c.root.len() > 0 && c.root != root {
        spec_empty_cache(root)
    } else {
        CacheView { root: root, ..c }
    };
    let f1 = spec_fold_obs(base1, obs);
    let s1 = spec_scan(c, root, obs);
    assert(s1 == spec_purge(f1, obs));
    lemma_fold_root(base1, obs);
    assert(s1.root == root);
    let base2 = if s1.root.len() > 0 && s1.root != root {
        spec_empty_cache(root)
    } else {
        CacheView { root: root, ..s1 }
    };
    assert(base2 == s1);
    lemma_fold_obs_records(base1, obs);
    assert forall|i: int| 0 <= i < obs.len() implies {
        &&& s1.mtime.contains_key(#[trigger] obs[i].meta_path)
        &&& s1.mtime[obs[i].meta_path] == obs[i].mtime
        &&& s1.et_path.contains_key(obs[i].key)
    } by {
        assert(obs_meta_paths(obs).contains(obs[i].meta_path));
        assert(obs_keys(obs).contains(obs[i].key));
    }
    lemma_fold_obs_noop(s1, obs);
    lemma_purge_idempotent(f1, obs);
}

/// Removing a template's sidecar and rescanning removes its key from all
/// four indices and leaves no GUID pointing at a path that vanished.
pub proof fn lemma_scan_deletion(c: CacheView, root: Seq<char>, obs: Seq<ObsView>, key: Seq<char>)
    requires
        forall|i: int| 0 <= i < obs.len() ==> obs[i].key != key,
    ensures
        !spec_scan(c, root, obs).name.contains_key(key),
        !spec_scan(c, root, obs).et_path.contains_key(key),
        forall|g: Seq<char>|
            spec_scan(c, root, obs).guid_path.contains_key(g) ==> obs_et_paths(obs).contains(
                spec_scan(c, root, obs).guid_path[g],
            ),
        forall|g: Seq<char>|
            spec_scan(c, root, obs).guid.contains_key(g) ==> spec_scan(
                c,
                root,
                obs,
            ).guid_path.contains_key(g),
{
    assert(!obs_keys(obs).contains(key)) by {
        if obs_keys(obs).contains(key) {
            let i = choose|i: int| 0 <= i < obs.len() && obs[i].key == key;
            assert(false);
        }
    }
}

} // verus!
