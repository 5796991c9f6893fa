//! The version of a game's data that is served: version names compare by
//! their dot-separated numeric components, the newest directory wins, and a
//! cached entry is used while it is no older than its directory.

use std::cmp::Ordering;
use std::sync::Arc;

use dashmap::DashMap;
use serde_json::Value;
use vstd::prelude::*;

use crate::decimal::{parse_bounded, parse_u32};
use crate::json::{json_parse, parse_json};
use crate::decimal::{decimal_text, lemma_decimal_round_trip, lemma_decimal_text_has_no, u64_text};
use crate::shared::share;
use crate::text::{
    chars_of, concat, join_path, lemma_split_after, lemma_split_without_sep, path_join, push_char,
    split_on,
};

verus! {

/// The number a version component stands for: its value as a `u32`, or 0
/// when it is not one.
pub open spec fn component_value(p: Seq<char>) -> nat {
    match parse_bounded(p, u32::MAX as nat) {
        Some(n) => n,
        None => 0,
    }
}

/// The numeric components of the version name `s`.
pub open spec fn version_key(s: Seq<char>) -> Seq<nat> {
    split_on(s, '.').map_values(|p: Seq<char>| component_value(p))
}

/// The values of a sequence of `u32`s.
pub open spec fn nats(v: Seq<u32>) -> Seq<nat> {
    v.map_values(|x: u32| x as nat)
}

/// Lexicographic comparison of component lists, a proper prefix being the
/// smaller: -1, 0 or 1.
pub open spec fn key_order(a: Seq<nat>, b: Seq<nat>) -> int
    decreases a.len(),
{
    if a.len() == 0 {
        if b.len() == 0 {
            0
        } else {
            -1
        }
    } else if b.len() == 0 {
        1
    } else if a[0] < b[0] {
        -1
    } else if a[0] > b[0] {
        1
    } else {
        key_order(a.drop_first(), b.drop_first())
    }
}

/// How version `a` compares with version `b`: -1, 0 or 1.
pub open spec fn version_order(a: Seq<char>, b: Seq<char>) -> int {
    key_order(version_key(a), version_key(b))
}

fn component(p: &String) -> (r: u32)
    ensures
        r as nat == component_value(p@),
{
    match parse_u32(p.as_str()) {
        Some(n) => n,
        None => 0,
    }
}

/// The numeric components of the version name `s`.
pub fn version_parts(s: &str) -> (parts: Vec<u32>)
    ensures
        nats(parts@) == version_key(s@),
{
    let cs = chars_of(s);
    let mut parts: Vec<u32> = Vec::new();
    let mut cur = String::new();
    let mut i: usize = 0;
    assert(cs@.take(0) =~= Seq::<char>::empty());
    while i < cs.len()
        invariant
            i <= cs.len(),
            cs@ == s@,
            split_on(cs@.take(i as int), '.').len() == parts.len() + 1,
            nats(parts@) == split_on(cs@.take(i as int), '.').drop_last().map_values(
                |p: Seq<char>| component_value(p),
            ),
            cur@ == split_on(cs@.take(i as int), '.').last(),
        decreases cs.len() - i,
    {
        let c = cs[i];
        let ghost before = split_on(cs@.take(i as int), '.');
        assert(cs@.take(i + 1).drop_last() =~= cs@.take(i as int));
        if c == '.' {
            let v = component(&cur);
            let ghost old_parts = parts@;
            parts.push(v);
            assert(nats(parts@) =~= nats(old_parts).push(v as nat));
            assert(before =~= before.drop_last().push(before.last()));
            cur = String::new();
            let ghost after = split_on(cs@.take(i + 1), '.');
            assert(after == before.push(Seq::<char>::empty()));
            assert(after.drop_last() =~= before);
            assert(nats(parts@) =~= after.drop_last().map_values(|p: Seq<char>| component_value(p)));
        } else {
            push_char(&mut cur, c);
            let ghost after = split_on(cs@.take(i + 1), '.');
            assert(after.drop_last() =~= before.drop_last());
        }
        i = i + 1;
    }
    let v = component(&cur);
    let ghost old_parts = parts@;
    parts.push(v);
    assert(nats(parts@) =~= nats(old_parts).push(v as nat));
    assert(cs@.take(cs.len() as int) =~= s@);
    proof {
        let sp = split_on(s@, '.');
        assert(sp =~= sp.drop_last().push(sp.last()));
        assert(nats(parts@) =~= version_key(s@));
    }
    parts
}

/// Compares component lists: -1, 0 or 1 as [`key_order`] gives it.
pub fn compare_parts(a: &Vec<u32>, b: &Vec<u32>) -> (r: i8)
    ensures
        r as int == key_order(nats(a@), nats(b@)),
{
    let mut i: usize = 0;
    assert(nats(a@).skip(0) =~= nats(a@));
    assert(nats(b@).skip(0) =~= nats(b@));
    while i < a.len() && i < b.len()
        invariant
            i <= a.len(),
            i <= b.len(),
            key_order(nats(a@), nats(b@)) == key_order(
                nats(a@).skip(i as int),
                nats(b@).skip(i as int),
            ),
        decreases a.len() - i,
    {
        let x = a[i];
        let y = b[i];
        let ghost sa = nats(a@).skip(i as int);
        let ghost sb = nats(b@).skip(i as int);
        assert(sa[0] == x as nat);
        assert(sb[0] == y as nat);
        if x < y {
            return -1;
        }
        if x > y {
            return 1;
        }
        assert(sa.drop_first() =~= nats(a@).skip(i + 1));
        assert(sb.drop_first() =~= nats(b@).skip(i + 1));
        i = i + 1;
    }
    if i == a.len() && i == b.len() {
        assert(nats(a@).skip(i as int).len() == 0);
        0
    } else if i == b.len() {
        1
    } else {
        -1
    }
}

/// The ordering that a comparison result -1, 0 or 1 stands for.
pub open spec fn ordering_of(sign: int) -> Ordering {
    if sign < 0 {
        Ordering::Less
    } else if sign == 0 {
        Ordering::Equal
    } else {
        Ordering::Greater
    }
}

/// Compares two version names by their dot-separated components, each read
/// as a `u32` (0 when it is not one); when one list of components is a prefix
/// of the other, the longer name is the greater.
pub fn version_cmp(a: &str, b: &str) -> (r: Ordering)
    ensures
        r == ordering_of(version_order(a@, b@)),
{
    let pa = version_parts(a);
    let pb = version_parts(b);
    let s = compare_parts(&pa, &pb);
    if s < 0 {
        Ordering::Less
    } else if s == 0 {
        Ordering::Equal
    } else {
        Ordering::Greater
    }
}

/// Every version name compares equal to itself.
pub proof fn law_version_order_reflexive(a: Seq<char>)
    ensures
        version_order(a, a) == 0,
{
    lemma_key_order_reflexive(version_key(a));
}

/// Swapping two version names reverses their comparison.
pub proof fn law_version_order_antisymmetric(a: Seq<char>, b: Seq<char>)
    ensures
        version_order(a, b) == -version_order(b, a),
{
    lemma_key_order_antisymmetric(version_key(a), version_key(b));
}

/// "At least as new as" is transitive.
pub proof fn law_version_order_transitive(a: Seq<char>, b: Seq<char>, c: Seq<char>)
    requires
        version_order(a, b) >= 0,
        version_order(b, c) >= 0,
    ensures
        version_order(a, c) >= 0,
{
    lemma_key_order_transitive(version_key(a), version_key(b), version_key(c));
}

proof fn lemma_key_order_reflexive(a: Seq<nat>)
    ensures
        key_order(a, a) == 0,
    decreases a.len(),
{
    if a.len() > 0 {
        lemma_key_order_reflexive(a.drop_first());
    }
}

proof fn lemma_key_order_antisymmetric(a: Seq<nat>, b: Seq<nat>)
    ensures
        key_order(a, b) == -key_order(b, a),
    decreases a.len(),
{
    if a.len() > 0 && b.len() > 0 && a[0] == b[0] {
        lemma_key_order_antisymmetric(a.drop_first(), b.drop_first());
    }
}

proof fn lemma_key_order_transitive(a: Seq<nat>, b: Seq<nat>, c: Seq<nat>)
    requires
        key_order(a, b) >= 0,
        key_order(b, c) >= 0,
    ensures
        key_order(a, c) >= 0,
    decreases a.len(),
{
    if a.len() > 0 && b.len() > 0 && c.len() > 0 && a[0] == b[0] && b[0] == c[0] {
        lemma_key_order_transitive(a.drop_first(), b.drop_first(), c.drop_first());
    }
}

/// The data served for a game: the name of its newest version directory,
/// the parsed `data.json` of that version, and the modification time (Unix
/// seconds) of the game's directory when the entry was built.
pub struct VersionEntry {
    pub version_name: String,
    pub data: Value,
    pub dir_mtime: u64,
}

/// A version directory of a game as read from disk: its name and the bytes
/// of its `data.json`.
pub struct VersionDir {
    pub name: String,
    pub data_json: Vec<u8>,
}

/// The `data.json` of `d` is valid JSON.
pub open spec fn dir_parses(d: VersionDir) -> bool {
    json_parse(d.data_json@) is Some
}

/// The directories among `dirs` whose `data.json` parses, in their order.
pub open spec fn parsing_dirs(dirs: Seq<VersionDir>) -> Seq<VersionDir>
    decreases dirs.len(),
{
    if dirs.len() == 0 {
        Seq::empty()
    } else if dir_parses(dirs.last()) {
        parsing_dirs(dirs.drop_last()).push(dirs.last())
    } else {
        parsing_dirs(dirs.drop_last())
    }
}

/// The names of `dirs`.
pub open spec fn dir_names(dirs: Seq<VersionDir>) -> Seq<Seq<char>> {
    dirs.map_values(|d: VersionDir| d.name@)
}

/// The version names of `candidates`.
pub open spec fn candidate_names(candidates: Seq<(String, Value)>) -> Seq<Seq<char>> {
    candidates.map_values(|c: (String, Value)| c.0@)
}

/// Index `i` of `names` holds a newest version, and is the first that does.
pub open spec fn first_newest(names: Seq<Seq<char>>, i: int) -> bool {
    &&& 0 <= i < names.len()
    &&& forall|j: int| 0 <= j < names.len() ==> version_order(names[i], #[trigger] names[j]) >= 0
    &&& forall|j: int| 0 <= j < i ==> version_order(names[i], #[trigger] names[j]) > 0
}

/// No `data.json` among `dirs` parses.
pub open spec fn no_dir_parses(dirs: Seq<VersionDir>) -> bool {
    parsing_dirs(dirs).len() == 0
}

/// `e` is the entry for the first newest version among the directories of
/// `dirs` whose `data.json` parses: that directory's name and parsed data,
/// stamped with `dir_mtime`.
pub open spec fn is_latest_entry(dirs: Seq<VersionDir>, dir_mtime: u64, e: VersionEntry) -> bool {
    let pd = parsing_dirs(dirs);
    &&& e.dir_mtime == dir_mtime
    &&& exists|c: int|
        first_newest(dir_names(pd), c) && e.version_name@ == pd[c].name@ && json_parse(
            #[trigger] pd[c].data_json@,
        ) == Some(e.data)
}

/// Each candidate is the name and parsed data of the directory at the same
/// index of `pd`.
pub open spec fn candidates_match(candidates: Seq<(String, Value)>, pd: Seq<VersionDir>) -> bool {
    &&& candidates.len() == pd.len()
    &&& forall|k: int|
        0 <= k < pd.len() ==> #[trigger] candidates[k].0@ == pd[k].name@ && json_parse(
            pd[k].data_json@,
        ) == Some(candidates[k].1)
}

/// The entry for the first newest version among `candidates` (the version
/// name and parsed data of each directory whose `data.json` parses),
/// stamped with `dir_mtime`; `None` when there is no candidate.
pub fn pick_latest(candidates: Vec<(String, Value)>, dir_mtime: u64) -> (r: Option<VersionEntry>)
    ensures
        r is None <==> candidates@.len() == 0,
        r matches Some(e) ==> {
            &&& e.dir_mtime == dir_mtime
            &&& exists|i: int|
                first_newest(candidate_names(candidates@), i) && e.version_name@
                    == #[trigger] candidates@[i].0@ && e.data == candidates@[i].1
        },
{
    if candidates.len() == 0 {
        return None;
    }
    let ghost names = candidate_names(candidates@);
    let mut best: usize = 0;
    let mut best_parts = version_parts(candidates[0].0.as_str());
    proof {
        law_version_order_reflexive(candidates@[0].0@);
    }
    let mut i: usize = 1;
    while i < candidates.len()
        invariant
            1 <= i <= candidates@.len(),
            best < i,
            names == candidate_names(candidates@),
            nats(best_parts@) == version_key(candidates@[best as int].0@),
            forall|j: int|
                0 <= j < i ==> version_order(candidates@[best as int].0@, #[trigger] candidates@[j].0@)
                    >= 0,
            forall|j: int|
                0 <= j < best ==> version_order(
                    candidates@[best as int].0@,
                    #[trigger] candidates@[j].0@,
                ) > 0,
        decreases candidates@.len() - i,
    {
        let parts = version_parts(candidates[i].0.as_str());
        let ghost a = candidates@[i as int].0@;
        let ghost b = candidates@[best as int].0@;
        if compare_parts(&parts, &best_parts) > 0 {
            proof {
                assert(version_order(a, b) > 0);
                assert forall|j: int| 0 <= j < i implies version_order(
                    a,
                    #[trigger] candidates@[j].0@,
                ) > 0 by {
                    let c = candidates@[j].0@;
                    law_version_order_transitive(a, b, c);
                    if version_order(a, c) == 0 {
                        law_version_order_antisymmetric(a, c);
                        law_version_order_transitive(b, c, a);
                        law_version_order_antisymmetric(a, b);
                    }
                }
                law_version_order_reflexive(a);
            }
            best = i;
            best_parts = parts;
        } else {
            proof {
                law_version_order_antisymmetric(b, a);
            }
        }
        i = i + 1;
    }
    proof {
        assert(first_newest(names, best as int));
    }
    let ghost before = candidates@;
    let mut candidates = candidates;
    let (version_name, data) = candidates.remove(best);
    assert(version_name@ == before[best as int].0@);
    Some(VersionEntry { version_name, data, dir_mtime })
}

/// The entry for the first newest version among `dirs` whose `data.json`
/// parses, stamped with `dir_mtime`; `None` when no `data.json` parses.
pub fn scan_latest(dirs: &Vec<VersionDir>, dir_mtime: u64) -> (r: Option<VersionEntry>)
    ensures
        r is None <==> no_dir_parses(dirs@),
        r matches Some(e) ==> is_latest_entry(dirs@, dir_mtime, e),
{
    let mut candidates: Vec<(String, Value)> = Vec::new();
    let mut i: usize = 0;
    assert(dirs@.take(0) =~= Seq::<VersionDir>::empty());
    while i < dirs.len()
        invariant
            i <= dirs@.len(),
            candidates_match(candidates@, parsing_dirs(dirs@.take(i as int))),
        decreases dirs@.len() - i,
    {
        let ghost pd = parsing_dirs(dirs@.take(i as int));
        assert(dirs@.take(i + 1).drop_last() =~= dirs@.take(i as int));
        assert(dirs@.take(i + 1).last() == dirs@[i as int]);
        match parse_json(dirs[i].data_json.as_slice()) {
            Some(v) => {
                let name = dirs[i].name.clone();
                candidates.push((name, v));
                assert(parsing_dirs(dirs@.take(i + 1)) == pd.push(dirs@[i as int]));
            },
            None => {
                assert(parsing_dirs(dirs@.take(i + 1)) == pd);
            },
        }
        i = i + 1;
    }
    assert(dirs@.take(dirs@.len() as int) =~= dirs@);
    let ghost pd = parsing_dirs(dirs@);
    assert(candidate_names(candidates@) =~= dir_names(pd));
    let ghost cands = candidates@;
    let r = pick_latest(candidates, dir_mtime);
    proof {
        if r is Some {
            let e = r->0;
            let c = choose|c: int|
                first_newest(candidate_names(cands), c) && e.version_name@ == #[trigger] cands[c].0@
                    && e.data == cands[c].1;
            assert(json_parse(pd[c].data_json@) == Some(e.data));
        }
    }
    r
}

/// The disk-cached entry, if there is one and it is no older than the game's
/// directory.
pub open spec fn fresh_disk(entry: Option<VersionEntry>, dir_mtime: u64) -> Option<VersionEntry> {
    match entry {
        Some(e) => if e.dir_mtime >= dir_mtime {
            Some(e)
        } else {
            None
        },
        None => None,
    }
}

/// A disk-cached entry is used only when it is no older than the game's directory.
pub fn fresh_disk_entry(entry: Option<VersionEntry>, dir_mtime: u64) -> (r: Option<VersionEntry>)
    ensures
        r == fresh_disk(entry, dir_mtime),
{
    match entry {
        Some(e) => if e.dir_mtime >= dir_mtime {
            Some(e)
        } else {
            None
        },
        None => None,
    }
}

/// The directory of the game `custom_id` under `images_dir`.
pub fn game_dir(images_dir: &str, custom_id: u32) -> (p: String)
    ensures
        p@ == path_join(images_dir@, decimal_text(custom_id as nat)),
{
    let id = u64_text(custom_id as u64);
    join_path(images_dir, id.as_str())
}

/// The disk cache file of the game `custom_id` under `version_cache_dir`.
pub fn version_cache_path(version_cache_dir: &str, custom_id: u32) -> (p: String)
    ensures
        p@ == path_join(version_cache_dir@, decimal_text(custom_id as nat) + ".json"@),
{
    let id = u64_text(custom_id as u64);
    let name = concat(id.as_str(), ".json");
    join_path(version_cache_dir, name.as_str())
}

/// The `data.json` file of a version directory.
pub fn data_file_path(version_dir: &str) -> (p: String)
    ensures
        p@ == path_join(version_dir@, "data.json"@),
{
    join_path(version_dir, "data.json")
}

/// What the in-memory version cache holds: game id to entry.
pub uninterp spec fn cached_versions(m: DashMap<u32, Arc<VersionEntry>>) -> Map<u32, VersionEntry>;

/// `DashMap::with_capacity`: a map with no entries.
#[verifier::external_body]
fn version_map_new(capacity: usize) -> (versions: DashMap<u32, Arc<VersionEntry>>)
    ensures
        cached_versions(versions).dom() == Set::<u32>::empty(),
{
    DashMap::with_capacity(capacity)
}

/// `DashMap::get`, the entry handed out as a new `Arc` to the same value.
#[verifier::external_body]
fn version_map_get(m: &DashMap<u32, Arc<VersionEntry>>, id: u32) -> (r: Option<Arc<VersionEntry>>)
    ensures
        r.is_some() == cached_versions(*m).contains_key(id),
        r matches Some(e) ==> *e == cached_versions(*m)[id],
{
    m.get(&id).map(|e| Arc::clone(e.value()))
}

/// `DashMap::insert`: the entry for `id` becomes `e`, the others stay. The
/// map is passed by unique borrow so that the contract can relate the map
/// before and after the call.
#[verifier::external_body]
fn version_map_insert(m: &mut DashMap<u32, Arc<VersionEntry>>, id: u32, e: Arc<VersionEntry>)
    ensures
        cached_versions(*final(m)) == cached_versions(*old(m)).insert(id, *e),
{
    m.insert(id, e);
}

/// The entry that the memory cache serves for `custom_id` when the game's
/// directory was last modified at `dir_mtime`: the cached one if it is no
/// older than that.
pub open spec fn fresh_cached(
    m: Map<u32, VersionEntry>,
    custom_id: u32,
    dir_mtime: u64,
) -> Option<VersionEntry> {
    if m.contains_key(custom_id) && m[custom_id].dir_mtime >= dir_mtime {
        Some(m[custom_id])
    } else {
        None
    }
}

/// The in-memory cache of version entries, by game id.
pub struct VersionCache {
    inner: DashMap<u32, Arc<VersionEntry>>,
}

impl View for VersionCache {
    type V = Map<u32, VersionEntry>;

    closed spec fn view(&self) -> Map<u32, VersionEntry> {
        cached_versions(self.inner)
    }
}

impl VersionCache {
    /// An empty cache.
    pub fn new() -> (c: VersionCache)
        ensures
            c@ == Map::<u32, VersionEntry>::empty(),
    {
        VersionCache { inner: version_map_new(64) }
    }

    /// The cached entry for `custom_id`, if it is no older than `dir_mtime`.
    pub fn cached(&self, custom_id: u32, dir_mtime: u64) -> (r: Option<Arc<VersionEntry>>)
        ensures
            r.is_some() == fresh_cached(self@, custom_id, dir_mtime).is_some(),
            r matches Some(e) ==> fresh_cached(self@, custom_id, dir_mtime) == Some(*e),
    {
        match version_map_get(&self.inner, custom_id) {
            Some(e) => if e.dir_mtime >= dir_mtime {
                Some(e)
            } else {
                None
            },
            None => None,
        }
    }

    /// Caches `entry` for `custom_id` and hands it out.
    pub fn store(&mut self, custom_id: u32, entry: VersionEntry) -> (r: Arc<VersionEntry>)
        ensures
            final(self)@ == old(self)@.insert(custom_id, entry),
            *r == entry,
    {
        let arc = Arc::new(entry);
        version_map_insert(&mut self.inner, custom_id, share(&arc));
        arc
    }

    /// One step of loading the entry served for the game `custom_id`, whose
    /// directory was last modified at `dir_mtime`. The memory cache answers
    /// first, while its entry is no older than the directory; else the disk
    /// cache, on the same condition; else the newest version directory whose
    /// data parses, which is then also written to the disk cache. What the
    /// disk or a scan gives is stored in memory. The caller performs the
    /// action returned and reports what it found with the next event.
    pub fn get_or_load(&mut self, custom_id: u32, dir_mtime: u64, event: LoadEvent) -> (a:
        LoadAction)
        ensures
            (match event {
                LoadEvent::Start => {
                    &&& final(self)@ == old(self)@
                    &&& match fresh_cached(old(self)@, custom_id, dir_mtime) {
                        Some(e) => a matches LoadAction::Serve(r) && *r == e,
                        None => a is ReadDisk,
                    }
                },
                LoadEvent::DiskRead(d) => match fresh_disk(d, dir_mtime) {
                    Some(e) => {
                        &&& a matches LoadAction::Serve(r) && *r == e
                        &&& final(self)@ == old(self)@.insert(custom_id, e)
                    },
                    None => a is ScanDirs && final(self)@ == old(self)@,
                },
                LoadEvent::DirsScanned(None) => a is NotFound && final(self)@ == old(self)@,
                LoadEvent::DirsScanned(Some(dirs)) => if no_dir_parses(dirs@) {
                    a is NotFound && final(self)@ == old(self)@
                } else {
                    &&& a matches LoadAction::ServeAndWrite(r) && is_latest_entry(
                        dirs@,
                        dir_mtime,
                        *r,
                    )
                    &&& a matches LoadAction::ServeAndWrite(r) && final(self)@ == old(
                        self,
                    )@.insert(custom_id, *r)
                },
            }),
    {
        match event {
            LoadEvent::Start => match self.cached(custom_id, dir_mtime) {
                Some(e) => LoadAction::Serve(e),
                None => LoadAction::ReadDisk,
            },
            LoadEvent::DiskRead(d) => match fresh_disk_entry(d, dir_mtime) {
                Some(e) => LoadAction::Serve(self.store(custom_id, e)),
                None => LoadAction::ScanDirs,
            },
            LoadEvent::DirsScanned(None) => LoadAction::NotFound,
            LoadEvent::DirsScanned(Some(dirs)) => match scan_latest(&dirs, dir_mtime) {
                Some(e) => LoadAction::ServeAndWrite(self.store(custom_id, e)),
                None => LoadAction::NotFound,
            },
        }
    }
}

/// What the loading of a game's entry has found, reported to
/// [`VersionCache::get_or_load`].
pub enum LoadEvent {
    /// Loading begins.
    Start,
    /// The disk cache was read: its entry, when the file could be read and parsed.
    DiskRead(Option<VersionEntry>),
    /// The game's version directories were listed with their `data.json`
    /// (`None` when the game's directory cannot be read).
    DirsScanned(Option<Vec<VersionDir>>),
}

/// What [`VersionCache::get_or_load`] asks for next.
pub enum LoadAction {
    /// Serve this entry.
    Serve(Arc<VersionEntry>),
    /// Serve this entry and write it to the game's disk cache.
    ServeAndWrite(Arc<VersionEntry>),
    /// Read the game's disk cache and report it with `LoadEvent::DiskRead`.
    ReadDisk,
    /// List the game's version directories and report them with
    /// `LoadEvent::DirsScanned`.
    ScanDirs,
    /// There is no entry for the game.
    NotFound,
}

/// After an entry is stored, the cache serves it exactly while the game's
/// directory is no newer than the entry, and other games are unaffected.
pub proof fn law_stored_entry_is_served(
    m: Map<u32, VersionEntry>,
    custom_id: u32,
    entry: VersionEntry,
    other: u32,
    dir_mtime: u64,
)
    requires
        other != custom_id,
    ensures
        fresh_cached(m.insert(custom_id, entry), custom_id, dir_mtime) == (if entry.dir_mtime
            >= dir_mtime {
            Some(entry)
        } else {
            None
        }),
        fresh_cached(m.insert(custom_id, entry), other, dir_mtime) == fresh_cached(
            m,
            other,
            dir_mtime,
        ),
{
}

/// The memory cache never serves an entry older than the game's directory.
pub proof fn law_served_entries_are_fresh(m: Map<u32, VersionEntry>, custom_id: u32, dir_mtime: u64)
    ensures
        fresh_cached(m, custom_id, dir_mtime) matches Some(e) ==> e.dir_mtime >= dir_mtime,
{
}

/// A component written as the decimal text of a number up to `u32::MAX`
/// counts as that number: `2024` is 2024, `300` is 300.
pub proof fn law_component_reads_its_number(n: nat)
    requires
        n <= u32::MAX,
    ensures
        component_value(decimal_text(n)) == n,
{
    lemma_decimal_round_trip(n);
}

/// The components of a version that starts with the number `n`.
proof fn lemma_key_of_leading_number(n: nat, rest: Seq<char>)
    requires
        n <= u32::MAX,
    ensures
        version_key(decimal_text(n).push('.') + rest) == seq![n] + version_key(rest),
        version_key(decimal_text(n)) == seq![n],
{
    lemma_decimal_text_has_no(n, '.');
    lemma_split_after(decimal_text(n), rest, '.');
    lemma_split_without_sep(decimal_text(n), '.');
    law_component_reads_its_number(n);
    assert(version_key(decimal_text(n).push('.') + rest) =~= seq![n] + version_key(rest));
    assert(version_key(decimal_text(n)) =~= seq![n]);
}

/// Versions whose first components are different numbers (up to
/// `u32::MAX`) compare as those numbers, whatever follows them:
/// `2024.1.15` is newer than `2023.12.1`, and `300` newer than `2`.
pub proof fn law_versions_compare_by_leading_number(a: nat, b: nat, ra: Seq<char>, rb: Seq<char>)
    requires
        a <= u32::MAX,
        b <= u32::MAX,
        a != b,
    ensures
        version_order(decimal_text(a).push('.') + ra, decimal_text(b).push('.') + rb) == if a < b {
            -1int
        } else {
            1int
        },
        version_order(decimal_text(a), decimal_text(b)) == if a < b {
            -1int
        } else {
            1int
        },
        version_order(decimal_text(a).push('.') + ra, decimal_text(b)) == if a < b {
            -1int
        } else {
            1int
        },
{
    lemma_key_of_leading_number(a, ra);
    lemma_key_of_leading_number(b, rb);
}

/// Versions with the same first number compare as what follows it:
/// `1.0.300` against `1.0.2` is `0.300` against `0.2`, that is `300`
/// against `2`.
pub proof fn law_versions_with_equal_leading_number(n: nat, ra: Seq<char>, rb: Seq<char>)
    requires
        n <= u32::MAX,
    ensures
        version_order(decimal_text(n).push('.') + ra, decimal_text(n).push('.') + rb)
            == version_order(ra, rb),
{
    lemma_key_of_leading_number(n, ra);
    lemma_key_of_leading_number(n, rb);
    let ka = seq![n] + version_key(ra);
    let kb = seq![n] + version_key(rb);
    assert(ka.drop_first() =~= version_key(ra));
    assert(kb.drop_first() =~= version_key(rb));
}

} // verus!
