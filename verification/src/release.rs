//! Release builds: the identity of an SDK and its lock, the reports a build
//! writes, and the dependency closure that accounts for every object and
//! file a part of a release needs.
use crate::assoc::{assoc, assoc_keys, get_entry, lemma_assoc_some, lemma_put_back, position_of, put_entry};
use crate::format::{AssetKind, Object};
use crate::identity::{content_digest, digest};
use crate::strings::{bytes_have_prefix, concat, err_text, has_prefix, owned, str_eq, utf8_bytes};
use crate::table::names_in;
use vstd::prelude::*;

verus! {

/// The files of an SDK and their content digests.
#[derive(Debug, Clone)]
pub struct SdkManifest {
    pub format: u32,
    pub compiler_version: String,
    pub files: Vec<(String, String)>,
}

/// The SDK and engine requirements a project was resolved against.
#[derive(Debug, Clone)]
pub struct GameLock {
    pub format: u32,
    pub engine_api: String,
    pub capability_profile: String,
    pub sdk_digest: String,
    pub sdk: SdkManifest,
}

/// One localized text package of a module.
#[derive(Debug, Clone)]
pub struct TextBuildReport {
    pub object: String,
    pub bytes: u64,
}

/// The packages of one module.
#[derive(Debug, Clone)]
pub struct ModuleBuildReport {
    pub code: String,
    pub code_bytes: u64,
    pub static_content: String,
    pub static_bytes: u64,
    pub asset_catalogs: Vec<String>,
    pub locales: Vec<(String, TextBuildReport)>,
}

/// One asset catalog package and who needs it.
#[derive(Debug, Clone)]
pub struct AssetCatalogBuildReport {
    pub object: String,
    pub bytes: u64,
    pub consumers: Vec<String>,
    pub assets: Vec<String>,
}

/// The resolved value of one configuration field, as JSON text, and where
/// it came from.
#[derive(Debug, Clone)]
pub struct ResolvedField {
    pub value: String,
    pub source: String,
}

/// How a font asset is prepared.
#[derive(Debug, Clone, Copy, PartialEq, Eq, Structural)]
pub enum FontMode {
    Subset,
    Full,
}

/// The author's recipe for a font asset.
#[derive(Debug, Clone)]
pub struct FontRecipe {
    pub mode: FontMode,
    /// Zero-based face in the source; the output always has one face.
    pub face_index: u32,
    pub extra_characters: String,
    pub license: String,
}

/// What the font preparation produced.
#[derive(Debug, Clone)]
pub struct FontReport {
    pub tool: String,
    pub mode: FontMode,
    pub face_index: u32,
    pub source: String,
    pub source_digest: String,
    pub source_bytes: usize,
    pub object: String,
    pub output_bytes: usize,
    pub requested_characters: usize,
    pub retained_characters: usize,
    pub cache_key: String,
    pub cache_hit: bool,
    pub license: String,
    pub license_digest: String,
}

/// What a release build reports.
#[derive(Debug, Clone)]
pub struct BuildReport {
    pub release: String,
    pub game_id: String,
    pub total_bytes: u64,
    pub objects: usize,
    pub module_packages: Vec<(String, ModuleBuildReport)>,
    pub asset_catalogs: Vec<(String, AssetCatalogBuildReport)>,
    pub resources: Vec<String>,
    pub excluded_resources: Vec<String>,
    pub provenance: Vec<(String, String)>,
    pub engine_build: String,
    pub resolved_config: Vec<(String, ResolvedField)>,
    pub fonts: Vec<(String, FontReport)>,
}

/// The identity of a game.
#[derive(Debug, Clone)]
pub struct Game {
    pub id: String,
    pub slug: String,
    pub title: String,
    pub version: String,
    pub source_locale: String,
    pub title_scene: Option<String>,
}

/// The input files a project lists.
#[derive(Debug, Clone)]
pub struct Inputs {
    pub modules: Vec<String>,
    pub asset_catalogs: Vec<String>,
    pub theme: String,
    pub locales: Option<String>,
    pub player: Option<String>,
    pub scenarios: Vec<String>,
    pub notices: Vec<String>,
}

/// Two lists of strings with the same contents in the same order.
pub open spec fn same_strings(a: Seq<String>, b: Seq<String>) -> bool {
    a.len() == b.len() && forall|i: int| 0 <= i < a.len() ==> (#[trigger] a[i])@ == b[i]@
}

/// Two lists of string pairs with the same contents in the same order.
pub open spec fn same_pairs(a: Seq<(String, String)>, b: Seq<(String, String)>) -> bool {
    a.len() == b.len() && forall|i: int| 0 <= i < a.len() ==> (#[trigger] a[i]).0@ == b[i].0@ && a[i].1@ == b[i].1@
}

/// Two SDK manifests are equal.
pub open spec fn same_sdk(a: SdkManifest, b: SdkManifest) -> bool {
    a.format == b.format && a.compiler_version@ == b.compiler_version@ && same_pairs(a.files@, b.files@)
}

fn pairs_equal(a: &Vec<(String, String)>, b: &Vec<(String, String)>) -> (r: bool)
    ensures
        r == same_pairs(a@, b@),
{
    if a.len() != b.len() {
        return false;
    }
    let mut i: usize = 0;
    while i < a.len()
        invariant
            a@.len() == b@.len(),
            i <= a@.len(),
            forall|j: int| 0 <= j < i ==> (#[trigger] a@[j]).0@ == b@[j].0@ && a@[j].1@ == b@[j].1@,
        decreases a@.len() - i,
    {
        if !str_eq(a[i].0.as_str(), b[i].0.as_str()) || !str_eq(a[i].1.as_str(), b[i].1.as_str()) {
            return false;
        }
        i = i + 1;
    }
    true
}

/// The lock still describes the SDK and engine: `current` is the manifest
/// of the SDK in use and `current_digest` the digest of its serialization.
pub open spec fn lock_current(lock: GameLock, current: SdkManifest, engine_api: Seq<char>, capability_profile: Seq<char>, current_digest: Seq<char>) -> bool {
    lock.format == 1 && same_sdk(lock.sdk, current) && lock.engine_api@ == engine_api
        && lock.capability_profile@ == capability_profile && lock.sdk_digest@ == current_digest
}

/// Checks a project's lock (none when the project has no lock file) against
/// the SDK in use and the engine the project requires.
pub fn check_lock(lock: &Option<GameLock>, current: &SdkManifest, engine_api: &str, capability_profile: &str, current_digest: &str) -> (r: Result<(), String>)
    ensures
        *lock is None ==> err_text(r) == Some("E_LOCK_MISSING: run novelc resolve explicitly"@),
        *lock matches Some(l) && lock_current(l, *current, engine_api@, capability_profile@, current_digest@) ==> r is Ok,
        *lock matches Some(l) && !lock_current(l, *current, engine_api@, capability_profile@, current_digest@)
            ==> err_text(r) == Some("E_LOCK_DRIFT: SDK or engine requirements changed; run novelc resolve"@),
{
    let lock = match lock {
        Some(l) => l,
        None => {
            return Err(owned("E_LOCK_MISSING: run novelc resolve explicitly"));
        },
    };
    let same = lock.sdk.format == current.format && str_eq(lock.sdk.compiler_version.as_str(), current.compiler_version.as_str())
        && pairs_equal(&lock.sdk.files, &current.files);
    if lock.format != 1 || !same || !str_eq(lock.engine_api.as_str(), engine_api)
        || !str_eq(lock.capability_profile.as_str(), capability_profile) || !str_eq(lock.sdk_digest.as_str(), current_digest) {
        return Err(owned("E_LOCK_DRIFT: SDK or engine requirements changed; run novelc resolve"));
    }
    Ok(())
}

/// The refusal, if any, of a build request: only the `dev` and `release`
/// profiles exist, and a release build must use the locked SDK.
pub open spec fn build_request_error(profile: Seq<char>, locked: bool) -> Option<Seq<char>> {
    if profile != "dev"@ && profile != "release"@ {
        Some("E_PROFILE: expected dev or release"@)
    } else if profile == "release"@ && !locked {
        Some("E_RELEASE_LOCK: release builds require --locked"@)
    } else {
        None
    }
}

/// Checks the profile of a build and whether it may go without a lock.
pub fn check_build_request(profile: &str, locked: bool) -> (r: Result<(), String>)
    ensures
        build_request_error(profile@, locked) is None <==> r is Ok,
        build_request_error(profile@, locked) matches Some(m) ==> err_text(r) == Some(m),
{
    let release = str_eq(profile, "release");
    if !str_eq(profile, "dev") && !release {
        return Err(owned("E_PROFILE: expected dev or release"));
    }
    if release && !locked {
        return Err(owned("E_RELEASE_LOCK: release builds require --locked"));
    }
    Ok(())
}

/// The bytes an OpenType font with CFF outlines starts with.
pub open spec fn cff_font_tag() -> Seq<u8> {
    seq![79u8, 84u8, 84u8, 79u8]
}

/// The file extension and media type under which a runtime asset of `kind`
/// with content `media` is stored.
pub open spec fn object_type(kind: AssetKind, media: Seq<u8>) -> (Seq<char>, Seq<char>) {
    match kind {
        AssetKind::Image => ("png"@, "image/png"@),
        AssetKind::Audio => ("wav"@, "audio/wav"@),
        AssetKind::Font => if bytes_have_prefix(media, cff_font_tag()) {
            ("otf"@, "font/otf"@)
        } else {
            ("ttf"@, "font/ttf"@)
        },
    }
}

/// The file extension and media type of a runtime asset's stored object.
pub fn asset_object_type(kind: &AssetKind, media: &Vec<u8>) -> (r: (String, String))
    ensures
        (r.0@, r.1@) == object_type(*kind, media@),
{
    match kind {
        AssetKind::Image => (owned("png"), owned("image/png")),
        AssetKind::Audio => (owned("wav"), owned("audio/wav")),
        AssetKind::Font => {
            let tag = vec![79u8, 84u8, 84u8, 79u8];
            proof {
                assert(tag@ == cff_font_tag());
            }
            if has_prefix(media.as_slice(), tag.as_slice()) {
                (owned("otf"), owned("font/otf"))
            } else {
                (owned("ttf"), owned("font/ttf"))
            }
        },
    }
}

fn copy_pairs(v: &Vec<(String, String)>) -> (r: Vec<(String, String)>)
    ensures
        same_pairs(r@, v@),
{
    let mut r: Vec<(String, String)> = Vec::new();
    let mut i: usize = 0;
    while i < v.len()
        invariant
            i <= v@.len(),
            r@.len() == i,
            forall|j: int| 0 <= j < i ==> (#[trigger] r@[j]).0@ == v@[j].0@ && r@[j].1@ == v@[j].1@,
        decreases v@.len() - i,
    {
        r.push((v[i].0.clone(), v[i].1.clone()));
        i = i + 1;
    }
    r
}

/// The lock that resolving a project against the SDK in use writes.
pub fn resolve_lock(current: &SdkManifest, engine_api: &str, capability_profile: &str, current_digest: &str) -> (l: GameLock)
    ensures
        l.format == 1,
        same_sdk(l.sdk, *current),
        l.engine_api@ == engine_api@,
        l.capability_profile@ == capability_profile@,
        l.sdk_digest@ == current_digest@,
{
    GameLock {
        format: 1,
        engine_api: owned(engine_api),
        capability_profile: owned(capability_profile),
        sdk_digest: owned(current_digest),
        sdk: SdkManifest { format: current.format, compiler_version: current.compiler_version.clone(), files: copy_pairs(&current.files) },
    }
}

/// The lock law: a lock just resolved against an SDK and engine passes the
/// lock check against the same SDK and engine, and fails it with drift as
/// soon as the SDK manifest, its digest or an engine requirement differs.
pub proof fn resolved_lock_checks(l: GameLock, resolved: SdkManifest, api: Seq<char>, profile: Seq<char>, digest: Seq<char>, current: SdkManifest, api2: Seq<char>, profile2: Seq<char>, digest2: Seq<char>)
    requires
        l.format == 1,
        same_sdk(l.sdk, resolved),
        l.engine_api@ == api,
        l.capability_profile@ == profile,
        l.sdk_digest@ == digest,
    ensures
        lock_current(l, current, api2, profile2, digest2) <==> (same_sdk(resolved, current) && api == api2 && profile == profile2 && digest == digest2),
{
    if same_sdk(l.sdk, current) {
        assert forall|i: int| 0 <= i < resolved.files@.len() implies (#[trigger] resolved.files@[i]).0@ == current.files@[i].0@
            && resolved.files@[i].1@ == current.files@[i].1@ by {
            assert(l.sdk.files@[i].0@ == resolved.files@[i].0@);
            assert(l.sdk.files@[i].0@ == current.files@[i].0@);
        }
    }
    if same_sdk(resolved, current) {
        assert forall|i: int| 0 <= i < l.sdk.files@.len() implies (#[trigger] l.sdk.files@[i]).0@ == current.files@[i].0@
            && l.sdk.files@[i].1@ == current.files@[i].1@ by {
            assert(l.sdk.files@[i].0@ == resolved.files@[i].0@);
            assert(resolved.files@[i].0@ == current.files@[i].0@);
        }
    }
}

/// The module that owns declaration `id`: the only module of a
/// single-module project, else the first module `m` such that `id` starts
/// with `m.`.
pub open spec fn owner_of(id: Seq<char>, modules: Seq<Seq<char>>) -> Option<Seq<char>> {
    if modules.len() == 1 {
        Some(modules[0])
    } else if exists|i: int| 0 <= i < modules.len() && owns(modules[i], id) {
        let i = choose|i: int| 0 <= i < modules.len() && owns(modules[i], id) && forall|j: int| 0 <= j < i ==> !owns(modules[j], id);
        Some(modules[i])
    } else {
        None
    }
}

/// `id` is namespaced by module `m`: it starts with `m` followed by a dot.
pub open spec fn owns(m: Seq<char>, id: Seq<char>) -> bool {
    bytes_have_prefix(utf8_bytes(id), utf8_bytes(m)) && utf8_bytes(id).len() > utf8_bytes(m).len()
        && utf8_bytes(id)[utf8_bytes(m).len() as int] == 46u8
}

/// Finds the module that owns declaration `id` among `modules`, listed in order.
pub fn declaration_owner(id: &str, modules: &Vec<String>) -> (r: Result<String, String>)
    ensures
        match owner_of(id@, modules@.map_values(|m: String| m@)) {
            Some(m) => r matches Ok(x) && x@ == m,
            None => r matches Err(e) && e@ == "E_MODULE_OWNERSHIP: no module owns "@ + id@,
        },
{
    let ghost ns = modules@.map_values(|m: String| m@);
    if modules.len() == 1 {
        proof {
            assert(ns[0] == modules@[0]@);
        }
        return Ok(modules[0].clone());
    }
    let mut i: usize = 0;
    while i < modules.len()
        invariant
            ns == modules@.map_values(|m: String| m@),
            modules@.len() != 1,
            i <= modules@.len(),
            forall|j: int| 0 <= j < i ==> !owns((#[trigger] modules@[j])@, id@),
        decreases modules@.len() - i,
    {
        let idb = id.as_bytes();
        let mb = modules[i].as_str().as_bytes();
        if has_prefix(idb, mb) && idb.len() > mb.len() && idb[mb.len()] == 46u8 {
            proof {
                assert(ns[i as int] == modules@[i as int]@);
                assert(owns(ns[i as int], id@));
                assert forall|j: int| 0 <= j < i implies !owns(#[trigger] ns[j], id@) by {
                    assert(ns[j] == modules@[j]@);
                }
                let k = choose|k: int| 0 <= k < ns.len() && owns(ns[k], id@) && forall|j: int| 0 <= j < k ==> !owns(ns[j], id@);
                if k < i {
                    assert(!owns(ns[k], id@));
                }
                if k > i {
                    assert(!owns(ns[i as int], id@));
                }
            }
            return Ok(modules[i].clone());
        }
        i = i + 1;
    }
    proof {
        assert forall|j: int| 0 <= j < ns.len() implies !owns(#[trigger] ns[j], id@) by {
            assert(ns[j] == modules@[j]@);
        }
    }
    Err(concat("E_MODULE_OWNERSHIP: no module owns ", id))
}

/// How one object is used by a part of a release.
#[derive(Debug, Clone)]
pub struct ObjectUse {
    pub bytes: u64,
    pub media_type: String,
    pub reasons: Vec<String>,
    pub categories: Vec<String>,
}

/// A loose file a part of a release needs.
#[derive(Debug, Clone)]
pub struct DependencyFile {
    pub sha256: String,
    pub bytes: u64,
    pub media_type: String,
    pub reason: String,
}

/// One object of a dependency closure.
#[derive(Debug, Clone)]
pub struct DependencyObject {
    pub bytes: u64,
    pub media_type: String,
    pub categories: Vec<String>,
    pub reasons: Vec<String>,
}

/// Everything a part of a release needs, with byte totals.
#[derive(Debug, Clone)]
pub struct DependencyClosure {
    pub object_count: usize,
    pub object_bytes: u64,
    pub file_count: usize,
    pub file_bytes: u64,
    pub total_bytes: u64,
    pub category_bytes: Vec<(String, u64)>,
    pub objects: Vec<(String, DependencyObject)>,
    pub files: Vec<(String, DependencyFile)>,
}

/// Collects the objects and files of one part of a release.
#[derive(Debug, Clone)]
pub struct ClosureBuilder {
    pub objects: Vec<(String, ObjectUse)>,
    pub files: Vec<(String, DependencyFile)>,
}


/// The sum of the sizes of a list of object uses.
pub open spec fn use_bytes(v: Seq<(String, ObjectUse)>) -> int
    decreases v.len(),
{
    if v.len() == 0 {
        0
    } else {
        use_bytes(v.drop_last()) + v.last().1.bytes
    }
}

/// The sum of the sizes of a list of files.
pub open spec fn file_bytes(v: Seq<(String, DependencyFile)>) -> int
    decreases v.len(),
{
    if v.len() == 0 {
        0
    } else {
        file_bytes(v.drop_last()) + v.last().1.bytes
    }
}

/// `r` is the closure of builder `b`: counts and byte totals, the bytes per
/// category (an object counts once in each of its categories), and the
/// objects and files as recorded.
pub open spec fn finished(b: ClosureBuilder, r: DependencyClosure) -> bool {
    &&& r.object_count == b.objects@.len()
    &&& r.file_count == b.files@.len()
    &&& r.object_bytes == use_bytes(b.objects@)
    &&& r.file_bytes == file_bytes(b.files@)
    &&& r.total_bytes == use_bytes(b.objects@) + file_bytes(b.files@)
    &&& forall|c: Seq<char>| #[trigger] assoc(r.category_bytes@, c) == (if has_category(b.objects@, c) {
        Some(category_total(b.objects@, c) as u64)
    } else {
        None::<u64>
    })
    &&& r.objects@.len() == b.objects@.len()
    &&& forall|i: int| 0 <= i < r.objects@.len() ==> {
        let o = (#[trigger] r.objects@[i]).1;
        let u = b.objects@[i].1;
        &&& r.objects@[i].0 == b.objects@[i].0
        &&& o.bytes == u.bytes && o.media_type == u.media_type
        &&& o.categories == u.categories && o.reasons == u.reasons
    }
    &&& r.files == b.files
}

/// No two entries of `v` record the same object.
pub open spec fn use_keys_distinct(v: Seq<(String, ObjectUse)>) -> bool {
    forall|a: int, b: int| 0 <= a < b < v.len() ==> (#[trigger] v[a]).0@ != (#[trigger] v[b]).0@
}

/// The bytes of the objects of `v` that belong to category `c`.
pub open spec fn category_total(v: Seq<(String, ObjectUse)>, c: Seq<char>) -> int
    decreases v.len(),
{
    if v.len() == 0 {
        0
    } else {
        category_total(v.drop_last(), c) + if names_in(v.last().1.categories@).contains(c) { v.last().1.bytes as int } else { 0 }
    }
}

/// Some object of `v` belongs to category `c`.
pub open spec fn has_category(v: Seq<(String, ObjectUse)>, c: Seq<char>) -> bool {
    exists|i: int| 0 <= i < v.len() && names_in((#[trigger] v[i]).1.categories@).contains(c)
}

proof fn lemma_category_bound(v: Seq<(String, ObjectUse)>, c: Seq<char>)
    ensures
        0 <= category_total(v, c) <= use_bytes(v),
    decreases v.len(),
{
    if v.len() > 0 {
        lemma_category_bound(v.drop_last(), c);
    }
}

proof fn lemma_use_bytes_prefix(v: Seq<(String, ObjectUse)>, i: int)
    requires
        0 <= i <= v.len(),
    ensures
        0 <= use_bytes(v.subrange(0, i)) <= use_bytes(v),
    decreases v.len() - i,
{
    if i < v.len() {
        lemma_use_bytes_prefix(v, i + 1);
        assert(v.subrange(0, i + 1).drop_last() =~= v.subrange(0, i));
    } else {
        assert(v.subrange(0, i) =~= v);
    }
    lemma_use_nonneg(v.subrange(0, i));
}

proof fn lemma_use_nonneg(v: Seq<(String, ObjectUse)>)
    ensures
        use_bytes(v) >= 0,
    decreases v.len(),
{
    if v.len() > 0 {
        lemma_use_nonneg(v.drop_last());
    }
}

proof fn lemma_file_bytes_prefix(v: Seq<(String, DependencyFile)>, i: int)
    requires
        0 <= i <= v.len(),
    ensures
        0 <= file_bytes(v.subrange(0, i)) <= file_bytes(v),
    decreases v.len() - i,
{
    if i < v.len() {
        lemma_file_bytes_prefix(v, i + 1);
        assert(v.subrange(0, i + 1).drop_last() =~= v.subrange(0, i));
    } else {
        assert(v.subrange(0, i) =~= v);
    }
    lemma_file_nonneg(v.subrange(0, i));
}

proof fn lemma_file_nonneg(v: Seq<(String, DependencyFile)>)
    ensures
        file_bytes(v) >= 0,
    decreases v.len(),
{
    if v.len() > 0 {
        lemma_file_nonneg(v.drop_last());
    }
}

impl ClosureBuilder {
    /// An empty closure.
    pub fn new() -> (b: Self)
        ensures
            b.objects@.len() == 0,
            b.files@.len() == 0,
    {
        ClosureBuilder { objects: Vec::new(), files: Vec::new() }
    }

    /// Records that the part needs object `hash` of `objects`, in `category`
    /// and for `reason`. An object is counted once, with the size and media
    /// type it was first recorded with.
    pub fn add_object(&mut self, objects: &Vec<(String, Object)>, hash: &str, category: &str, reason: String) -> (r: Result<(), String>)
        ensures
            assoc(objects@, hash@) is None ==> err_text(r) == Some("E_DEPENDENCY_OBJECT: missing "@ + hash@)
                && *final(self) == *old(self),
            assoc(objects@, hash@) is Some ==> r is Ok && {
                let o = assoc(objects@, hash@).unwrap();
                let u = assoc(final(self).objects@, hash@).unwrap();
                &&& assoc(final(self).objects@, hash@) is Some
                &&& match assoc(old(self).objects@, hash@) {
                    Some(p) => u.bytes == p.bytes && u.media_type == p.media_type
                        && names_in(u.reasons@) == names_in(p.reasons@).insert(reason@)
                        && names_in(u.categories@) == names_in(p.categories@).insert(category@),
                    None => u.bytes == o.bytes && u.media_type@ == o.media_type@
                        && names_in(u.reasons@) == set![reason@]
                        && names_in(u.categories@) == set![category@],
                }
                &&& forall|k: Seq<char>| k != hash@ ==> #[trigger] assoc(final(self).objects@, k) == assoc(old(self).objects@, k)
                &&& assoc_keys(final(self).objects@) == assoc_keys(old(self).objects@).insert(hash@)
                &&& final(self).files == old(self).files
                &&& use_keys_distinct(old(self).objects@) ==> use_keys_distinct(final(self).objects@)
            },
    {
        let object = match get_entry(objects, hash) {
            Some(o) => o,
            None => return Err(concat("E_DEPENDENCY_OBJECT: missing ", hash)),
        };
        match position_of(&self.objects, hash) {
            Some(i) => {
                let ghost before = self.objects@;
                let (k, mut u) = self.objects.remove(i);
                crate::assoc::add_name(&mut u.reasons, reason);
                crate::assoc::add_name(&mut u.categories, owned(category));
                proof {
                    lemma_put_back(before, i as int, k, u);
                    lemma_assoc_some(before, hash@);
                    assert(assoc_keys(before).insert(hash@) =~= assoc_keys(before));
                }
                self.objects.insert(i, (k, u));
                proof {
                    assert(self.objects@ =~= before.update(i as int, (k, u)));
                    if use_keys_distinct(before) {
                        assert forall|a: int, b: int| 0 <= a < b < self.objects@.len() implies (#[trigger] self.objects@[a]).0@ != (#[trigger] self.objects@[b]).0@ by {
                            assert(self.objects@[a].0 == before[a].0 && self.objects@[b].0 == before[b].0);
                        }
                    }
                }
            },
            None => {
                let mut u = ObjectUse { bytes: object.bytes, media_type: object.media_type.clone(), reasons: Vec::new(), categories: Vec::new() };
                let ghost first = u;
                crate::assoc::add_name(&mut u.reasons, reason);
                crate::assoc::add_name(&mut u.categories, owned(category));
                proof {
                    assert(names_in(first.reasons@) =~= Set::<Seq<char>>::empty());
                    assert(names_in(first.categories@) =~= Set::<Seq<char>>::empty());
                }
                let ghost before = self.objects@;
                put_entry(&mut self.objects, owned(hash), u);
                proof {
                    lemma_assoc_some(before, hash@);
                    if use_keys_distinct(before) {
                        assert forall|a: int, b: int| 0 <= a < b < self.objects@.len() implies (#[trigger] self.objects@[a]).0@ != (#[trigger] self.objects@[b]).0@ by {
                            if b == before.len() {
                                assert(self.objects@[a] == before[a]);
                                assert(assoc_keys(before).contains(before[a].0@));
                            } else {
                                assert(self.objects@[a] == before[a] && self.objects@[b] == before[b]);
                            }
                        }
                    }
                }
            },
        }
        Ok(())
    }

    /// Records that the part needs the loose file at `path`.
    pub fn add_file(&mut self, path: &str, bytes: &[u8], media_type: &str, reason: &str)
        ensures
            ({
                let f = assoc(final(self).files@, path@).unwrap();
                &&& assoc(final(self).files@, path@) is Some
                &&& f.sha256@ == content_digest(bytes@)
                &&& f.bytes == bytes@.len()
                &&& f.media_type@ == media_type@
                &&& f.reason@ == reason@
            }),
            forall|k: Seq<char>| k != path@ ==> #[trigger] assoc(final(self).files@, k) == assoc(old(self).files@, k),
            assoc_keys(final(self).files@) == assoc_keys(old(self).files@).insert(path@),
            !assoc_keys(old(self).files@).contains(path@) ==> final(self).files@.len() == old(self).files@.len() + 1
                && final(self).files@.drop_last() == old(self).files@ && final(self).files@.last().1.bytes == bytes@.len(),
            final(self).objects == old(self).objects,
    {
        let file = DependencyFile {
            sha256: digest(bytes),
            bytes: bytes.len() as u64,
            media_type: owned(media_type),
            reason: owned(reason),
        };
        let ghost before = self.files@;
        put_entry(&mut self.files, owned(path), file);
        proof {
            if !assoc_keys(before).contains(path@) {
                assert(self.files@.drop_last() =~= before);
            }
        }
    }

    /// The closure: counts and byte totals, the bytes per category (an
    /// object counts once in each of its categories), and the objects and
    /// files as recorded.
    pub fn finish(self) -> (r: DependencyClosure)
        requires
            use_bytes(self.objects@) + file_bytes(self.files@) <= u64::MAX,
        ensures
            finished(self, r),
    {
        let ghost objs = self.objects@;
        let ghost files = self.files@;
        proof {
            lemma_use_nonneg(objs);
            lemma_file_nonneg(files);
        }
        // Totals.
        let mut object_bytes: u64 = 0;
        let mut i: usize = 0;
        while i < self.objects.len()
            invariant
                objs == self.objects@,
                use_bytes(objs) + file_bytes(self.files@) <= u64::MAX,
                file_bytes(self.files@) >= 0,
                i <= objs.len(),
                object_bytes == use_bytes(objs.subrange(0, i as int)),
            decreases objs.len() - i,
        {
            proof {
                assert(objs.subrange(0, i + 1).drop_last() =~= objs.subrange(0, i as int));
                lemma_use_bytes_prefix(objs, i + 1);
            }
            object_bytes = object_bytes + self.objects[i].1.bytes;
            i = i + 1;
        }
        proof {
            assert(objs.subrange(0, objs.len() as int) =~= objs);
        }
        let mut file_total: u64 = 0;
        let mut i: usize = 0;
        while i < self.files.len()
            invariant
                files == self.files@,
                use_bytes(objs) + file_bytes(files) <= u64::MAX,
                use_bytes(objs) >= 0,
                i <= files.len(),
                file_total == file_bytes(files.subrange(0, i as int)),
            decreases files.len() - i,
        {
            proof {
                assert(files.subrange(0, i + 1).drop_last() =~= files.subrange(0, i as int));
                lemma_file_bytes_prefix(files, i + 1);
            }
            file_total = file_total + self.files[i].1.bytes;
            i = i + 1;
        }
        proof {
            assert(files.subrange(0, files.len() as int) =~= files);
        }
        // Bytes per category.
        let mut category_bytes: Vec<(String, u64)> = Vec::new();
        let mut i: usize = 0;
        while i < self.objects.len()
            invariant
                objs == self.objects@,
                use_bytes(objs) <= u64::MAX,
                i <= objs.len(),
                forall|c: Seq<char>| #[trigger] assoc(category_bytes@, c) == (if has_category(objs.subrange(0, i as int), c) {
                    Some(category_total(objs.subrange(0, i as int), c) as u64)
                } else {
                    None::<u64>
                }),
            decreases objs.len() - i,
        {
            let ghost pre = objs.subrange(0, i as int);
            let ghost next = objs.subrange(0, i + 1);
            let bytes = self.objects[i].1.bytes;
            let cats = &self.objects[i].1.categories;
            proof {
                assert(next.drop_last() =~= pre);
                lemma_use_bytes_prefix(objs, i + 1);
                assert forall|c: Seq<char>| #[trigger] has_category(next, c) <==> (has_category(pre, c) || names_in(cats@).contains(c)) by {
                    if has_category(next, c) {
                        let k = choose|k: int| 0 <= k < next.len() && names_in((#[trigger] next[k]).1.categories@).contains(c);
                        if k < i {
                            assert(pre[k] == next[k]);
                        }
                    }
                    if has_category(pre, c) {
                        let k = choose|k: int| 0 <= k < pre.len() && names_in((#[trigger] pre[k]).1.categories@).contains(c);
                        assert(next[k] == pre[k]);
                    }
                    if names_in(cats@).contains(c) {
                        assert(next[i as int] == objs[i as int]);
                    }
                }
            }
            proof {
                lemma_use_bytes_prefix(objs, i as int);
                assert forall|c: Seq<char>| category_total(next, c) <= use_bytes(objs) by {
                    lemma_category_bound(next, c);
                }
                assert forall|c: Seq<char>| category_total(pre, c) <= use_bytes(objs) by {
                    lemma_category_bound(pre, c);
                }
            }
            let mut j: usize = 0;
            while j < cats.len()
                invariant
                    objs == self.objects@,
                    use_bytes(objs) <= u64::MAX,
                    i < objs.len(),
                    cats == &objs[i as int].1.categories,
                    bytes == objs[i as int].1.bytes,
                    pre == objs.subrange(0, i as int),
                    next == objs.subrange(0, i + 1),
                    next.drop_last() == pre,
                    j <= cats@.len(),
                    forall|c: Seq<char>| category_total(pre, c) <= use_bytes(objs),
                    forall|c: Seq<char>| #[trigger] has_category(next, c) <==> (has_category(pre, c) || names_in(cats@).contains(c)),
                    forall|c: Seq<char>| category_total(next, c) <= use_bytes(objs),
                    forall|c: Seq<char>| #[trigger] assoc(category_bytes@, c) == (if has_category(pre, c) || names_in(cats@.subrange(0, j as int)).contains(c) {
                        Some((category_total(pre, c) + if names_in(cats@.subrange(0, j as int)).contains(c) { bytes as int } else { 0 }) as u64)
                    } else {
                        None::<u64>
                    }),
                decreases cats@.len() - j,
            {
                let c = &cats[j];
                let mut seen = false;
                let mut k: usize = 0;
                while k < j
                    invariant
                        j < cats@.len(),
                        c@ == cats@[j as int]@,
                        k <= j,
                        seen == names_in(cats@.subrange(0, k as int)).contains(cats@[j as int]@),
                    decreases j - k,
                {
                    proof {
                        let a = cats@.subrange(0, k as int);
                        let b = cats@.subrange(0, k + 1);
                        assert forall|q: Seq<char>| names_in(b).contains(q) <==> (names_in(a).contains(q) || q == cats@[k as int]@) by {
                            if names_in(b).contains(q) {
                                let t = choose|t: int| 0 <= t < b.len() && (#[trigger] b[t])@ == q;
                                if t < k {
                                    assert(a[t] == b[t]);
                                }
                            }
                            if names_in(a).contains(q) {
                                let t = choose|t: int| 0 <= t < a.len() && (#[trigger] a[t])@ == q;
                                assert(b[t] == a[t]);
                            }
                            if q == cats@[k as int]@ {
                                assert(b[k as int] == cats@[k as int]);
                            }
                        }
                    }
                    if str_eq(cats[k].as_str(), c.as_str()) {
                        seen = true;
                    }
                    k = k + 1;
                }
                let ghost a = cats@.subrange(0, j as int);
                let ghost b = cats@.subrange(0, j + 1);
                proof {
                    assert forall|q: Seq<char>| names_in(b).contains(q) <==> (names_in(a).contains(q) || q == c@) by {
                        if names_in(b).contains(q) {
                            let t = choose|t: int| 0 <= t < b.len() && (#[trigger] b[t])@ == q;
                            if t < j {
                                assert(a[t] == b[t]);
                            }
                        }
                        if names_in(a).contains(q) {
                            let t = choose|t: int| 0 <= t < a.len() && (#[trigger] a[t])@ == q;
                            assert(b[t] == a[t]);
                        }
                        if q == c@ {
                            assert(b[j as int] == cats@[j as int]);
                        }
                    }
                }
                if !seen {
                    let current: u64 = match get_entry(&category_bytes, c.as_str()) {
                        Some(v) => *v,
                        None => 0,
                    };
                    proof {
                        assert(names_in(cats@).contains(c@)) by {
                            assert(cats@[j as int] == *c);
                        }
                        assert(category_total(next, c@) == category_total(pre, c@) + bytes);
                        assert(!names_in(a).contains(c@));
                        assert(current == category_total(pre, c@)) by {
                            assert(0 <= category_total(pre, c@) <= use_bytes(objs)) by {
                                lemma_category_bound(pre, c@);
                            }
                            if !has_category(pre, c@) {
                                assert(category_total(pre, c@) == 0) by {
                                    lemma_no_category(pre, c@);
                                }
                            }
                        }
                    }
                    put_entry(&mut category_bytes, c.clone(), current + bytes);
                }
                j = j + 1;
            }
            proof {
                assert(cats@.subrange(0, cats@.len() as int) =~= cats@);
                assert forall|c: Seq<char>| #[trigger] assoc(category_bytes@, c) == (if has_category(next, c) {
                    Some(category_total(next, c) as u64)
                } else {
                    None::<u64>
                }) by {
                    if !has_category(pre, c) && !names_in(cats@).contains(c) {
                    } else {
                        if !has_category(pre, c) {
                            lemma_no_category(pre, c);
                        }
                    }
                }
            }
            i = i + 1;
        }
        proof {
            assert(objs.subrange(0, objs.len() as int) =~= objs);
        }
        // The objects, moved into the closure in order.
        let ClosureBuilder { objects, files: file_list } = self;
        let mut rest = objects;
        let mut out: Vec<(String, DependencyObject)> = Vec::new();
        while rest.len() > 0
            invariant
                out@.len() + rest@.len() == objs.len(),
                rest@ == objs.subrange(out@.len() as int, objs.len() as int),
                forall|k: int| 0 <= k < out@.len() ==> {
                    let o = (#[trigger] out@[k]).1;
                    let u = objs[k].1;
                    &&& out@[k].0 == objs[k].0
                    &&& o.bytes == u.bytes && o.media_type == u.media_type
                    &&& o.categories == u.categories && o.reasons == u.reasons
                },
            decreases rest@.len(),
        {
            let (hash, u) = rest.remove(0);
            let ObjectUse { bytes, media_type, reasons, categories } = u;
            out.push((hash, DependencyObject { bytes, media_type, categories, reasons }));
        }
        let object_count = out.len();
        let file_count = file_list.len();
        DependencyClosure {
            object_count,
            object_bytes,
            file_count,
            file_bytes: file_total,
            total_bytes: object_bytes + file_total,
            category_bytes,
            objects: out,
            files: file_list,
        }
    }
}

proof fn lemma_no_category(v: Seq<(String, ObjectUse)>, c: Seq<char>)
    requires
        !has_category(v, c),
    ensures
        category_total(v, c) == 0,
    decreases v.len(),
{
    if v.len() > 0 {
        assert(!names_in(v[v.len() - 1].1.categories@).contains(c));
        assert forall|k: int| 0 <= k < v.drop_last().len() implies !names_in((#[trigger] v.drop_last()[k]).1.categories@).contains(c) by {
            assert(v.drop_last()[k] == v[k]);
        }
        lemma_no_category(v.drop_last(), c);
    }
}

} // verus!
