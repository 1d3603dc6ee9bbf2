//! The decisions a project's manifest and module files pass before the
//! project is assembled: the supported project and engine profile, at least
//! one module, a lowercase slug, a locale file, the source locale, and
//! modules with plain, distinct identities, the first with a start export;
//! and, once assembled, the translations and the title scene.
use crate::assoc::{assoc, assoc_keys, get_entry};
use crate::packages::keys_within;
use crate::source::Program;
use crate::format::Stage;
use crate::release::{Game, Inputs};
use crate::strings::{concat, concat3, owned, str_eq, utf8_bytes};
use crate::ownership::{first_msg, lemma_first_msg_hit};
use vstd::prelude::*;
use vstd::string::*;

verus! {

/// The engine a project is made for.
#[derive(Debug, Clone)]
pub struct Engine {
    pub api: String,
    pub capability_profile: String,
    pub runtime_preset: String,
}

/// A project's manifest.
#[derive(Debug, Clone)]
pub struct GameManifest {
    pub project_format: u32,
    pub game: Game,
    pub engine: Engine,
    pub stage: Stage,
    pub inputs: Inputs,
}

/// A module's file: its identity, sources, text files and exports.
#[derive(Debug, Clone)]
pub struct ModuleFile {
    pub module_format: u32,
    pub id: String,
    pub sources: Vec<String>,
    pub text_contracts: String,
    pub text_revisions: Option<String>,
    pub exports: Vec<(String, String)>,
    pub text_bundles: Vec<(String, String)>,
}

/// A byte a slug may hold: a lowercase ASCII letter, a digit or `-`.
pub open spec fn slug_byte(c: u8) -> bool {
    (97 <= c && c <= 122) || (48 <= c && c <= 57) || c == 45
}

/// The error of a manifest: another project format, engine API or
/// capability profile; no module; an empty slug or one with another byte;
/// or no locale file.
pub open spec fn manifest_error(m: GameManifest) -> Option<Seq<char>> {
    let slug = utf8_bytes(m.game.slug@);
    if m.project_format != 1 || m.engine.api@ != "nir-player/0.1"@ || m.engine.capability_profile@ != "web-v1"@ {
        Some("E_VERSION: unsupported project/engine profile"@)
    } else if m.inputs.modules@.len() == 0 {
        Some("E_CAPABILITY: a project must list at least one module"@)
    } else if slug.len() == 0 || exists|i: int| 0 <= i < slug.len() && !slug_byte(#[trigger] slug[i]) {
        Some("E_SLUG: expected lowercase ASCII slug"@)
    } else if m.inputs.locales is None {
        Some("E_LOCALE_CONFIG: add inputs.locales = \"config/locales.toml\" and define UI/text font plans"@)
    } else {
        None
    }
}

fn slug_ok(slug: &str) -> (r: bool)
    ensures
        r == (slug.spec_bytes().len() > 0 && forall|i: int| 0 <= i < slug.spec_bytes().len() ==> slug_byte(#[trigger] slug.spec_bytes()[i])),
{
    let b = slug.as_bytes();
    if b.len() == 0 {
        return false;
    }
    let mut i: usize = 0;
    while i < b.len()
        invariant
            i <= b@.len(),
            b@ == slug.spec_bytes(),
            forall|j: int| 0 <= j < i ==> slug_byte(#[trigger] b@[j]),
        decreases b@.len() - i,
    {
        let c = b[i];
        if !((97 <= c && c <= 122) || (48 <= c && c <= 57) || c == 45) {
            assert(!slug_byte(b@[i as int]));
            return false;
        }
        i = i + 1;
    }
    true
}

/// Checks a project's manifest: project format 1 for engine API
/// `nir-player/0.1` and profile `web-v1`, at least one module, a nonempty
/// slug of lowercase ASCII letters, digits and `-`, and a locale file.
pub fn check_manifest(m: &GameManifest) -> (r: Result<(), String>)
    ensures
        match manifest_error(*m) {
            Some(e) => r matches Err(x) && x@ == e,
            None => r is Ok,
        },
{
    if m.project_format != 1 || !str_eq(m.engine.api.as_str(), "nir-player/0.1") || !str_eq(m.engine.capability_profile.as_str(), "web-v1") {
        return Err(owned("E_VERSION: unsupported project/engine profile"));
    }
    if m.inputs.modules.len() == 0 {
        return Err(owned("E_CAPABILITY: a project must list at least one module"));
    }
    if !slug_ok(m.game.slug.as_str()) {
        return Err(owned("E_SLUG: expected lowercase ASCII slug"));
    }
    if m.inputs.locales.is_none() {
        return Err(owned("E_LOCALE_CONFIG: add inputs.locales = \"config/locales.toml\" and define UI/text font plans"));
    }
    Ok(())
}

/// The game's source locale is the default text locale of its locale file.
pub fn check_source_locale(m: &GameManifest, default_text: &str) -> (r: Result<(), String>)
    ensures
        m.game.source_locale@ == default_text@ ==> r is Ok,
        m.game.source_locale@ != default_text@ ==> (r matches Err(x) && x@ == "E_LOCALE_DEFAULT: game.source_locale must match config/locales.toml default_text"@),
{
    if str_eq(default_text, m.game.source_locale.as_str()) {
        Ok(())
    } else {
        Err(owned("E_LOCALE_DEFAULT: game.source_locale must match config/locales.toml default_text"))
    }
}

/// A module file with an unsupported format, or an identity that is empty
/// or holds a dot.
pub open spec fn bad_identity(f: ModuleFile) -> bool {
    let id = utf8_bytes(f.id@);
    f.module_format != 1 || id.len() == 0 || exists|i: int| 0 <= i < id.len() && #[trigger] id[i] == 46u8
}

/// The error of module file `i` of a project: a bad identity, or an
/// identity an earlier module file has.
pub open spec fn module_file_error(fs: Seq<ModuleFile>, i: int) -> Option<Seq<char>> {
    if bad_identity(fs[i]) {
        Some("E_MODULE: unsupported identity/format"@)
    } else if exists|j: int| 0 <= j < i && (#[trigger] fs[j]).id@ == fs[i].id@ {
        Some("E_MODULE: duplicate module id "@ + fs[i].id@)
    } else {
        None
    }
}

/// The error of module file `i`, as a check over the files.
pub open spec fn module_file_check(fs: Seq<ModuleFile>) -> spec_fn(int) -> Option<Seq<char>> {
    |i: int| module_file_error(fs, i)
}

/// The name under which module `m` contributes `name`: `m.name` where the
/// project has several modules, else `name` itself.
pub open spec fn qualified(m: Seq<char>, name: Seq<char>, namespaced: bool) -> Seq<char> {
    if namespaced {
        m + "."@ + name
    } else {
        name
    }
}

/// The error of a project's module files: the first file error; else no
/// `start` export in the first module, which gives the entry.
pub open spec fn module_files_error(fs: Seq<ModuleFile>) -> Option<Seq<char>> {
    match first_msg(fs.len() as int, module_file_check(fs)) {
        Some(e) => Some(e),
        None => if assoc(fs[0].exports@, "start"@) is None {
            Some("E_EXPORT: missing start export"@)
        } else {
            None
        },
    }
}

fn has_dot(b: &[u8]) -> (r: bool)
    ensures
        r == exists|i: int| 0 <= i < b@.len() && #[trigger] b@[i] == 46u8,
{
    let mut i: usize = 0;
    while i < b.len()
        invariant
            i <= b@.len(),
            forall|j: int| 0 <= j < i ==> #[trigger] b@[j] != 46u8,
        decreases b@.len() - i,
    {
        if b[i] == 46u8 {
            return true;
        }
        i = i + 1;
    }
    false
}

/// `name` as module `m` contributes it.
pub fn qualify(m: &str, name: &str, namespaced: bool) -> (r: String)
    ensures
        r@ == qualified(m@, name@, namespaced),
{
    if namespaced {
        proof {
            reveal_strlit(".");
        }
        concat3(m, ".", name)
    } else {
        owned(name)
    }
}

/// Checks the module files of a project and gives its entry function:
/// each file has module format 1 and an identity that is nonempty, holds no
/// dot and no earlier file has; the first module's `start` export names
/// the entry, qualified by that module's identity where there are several
/// modules.
pub fn check_module_files(fs: &Vec<ModuleFile>) -> (r: Result<String, String>)
    requires
        fs@.len() > 0,
    ensures
        match module_files_error(fs@) {
            Some(e) => r matches Err(x) && x@ == e,
            None => r matches Ok(entry) && (assoc(fs@[0].exports@, "start"@) matches Some(x)
                && entry@ == qualified(fs@[0].id@, x@, fs@.len() > 1)),
        },
{
    let ghost g = module_file_check(fs@);
    let mut i: usize = 0;
    while i < fs.len()
        invariant
            i <= fs@.len(),
            g == module_file_check(fs@),
            first_msg(i as int, g) is None,
        decreases fs@.len() - i,
    {
        let f = &fs[i];
        proof {
            assert(g(i as int) == module_file_error(fs@, i as int));
        }
        let idb = f.id.as_str().as_bytes();
        proof {
            assert(idb@ == utf8_bytes(f.id@));
        }
        if f.module_format != 1 || idb.len() == 0 || has_dot(idb) {
            proof {
                lemma_first_msg_hit(g, i as int, fs@.len() as int);
            }
            return Err(owned("E_MODULE: unsupported identity/format"));
        }
        let mut j: usize = 0;
        while j < i
            invariant
                j <= i < fs@.len(),
                *f == fs@[i as int],
                g == module_file_check(fs@),
                first_msg(i as int, g) is None,
                !bad_identity(fs@[i as int]),
                forall|q: int| 0 <= q < j ==> (#[trigger] fs@[q]).id@ != f.id@,
            decreases i - j,
        {
            if str_eq(fs[j].id.as_str(), f.id.as_str()) {
                proof {
                    assert(fs@[j as int].id@ == fs@[i as int].id@);
                    lemma_first_msg_hit(g, i as int, fs@.len() as int);
                }
                return Err(concat("E_MODULE: duplicate module id ", f.id.as_str()));
            }
            j = j + 1;
        }
        i = i + 1;
    }
    let start = "start";
    proof {
        reveal_strlit("start");
    }
    match get_entry(&fs[0].exports, start) {
        Some(export) => Ok(qualify(fs[0].id.as_str(), export.as_str(), fs.len() > 1)),
        None => Err(owned("E_EXPORT: missing start export")),
    }
}

/// The entries of a fragment of module `m`, each renamed as the module
/// contributes it; the values stay as they are.
pub fn qualify_entries<T>(m: &str, entries: Vec<(String, T)>, namespaced: bool) -> (r: Vec<(String, T)>)
    ensures
        r@.len() == entries@.len(),
        forall|i: int| 0 <= i < entries@.len() ==> (#[trigger] r@[i]).0@ == qualified(m@, entries@[i].0@, namespaced)
            && r@[i].1 == entries@[i].1,
{
    let mut r: Vec<(String, T)> = Vec::new();
    let mut rest = entries;
    let ghost orig = rest@;
    let n = rest.len();
    let mut k: usize = 0;
    while rest.len() > 0
        invariant
            orig.len() == n,
            k + rest@.len() == orig.len(),
            rest@ == orig.subrange(k as int, orig.len() as int),
            r@.len() == k,
            forall|i: int| 0 <= i < k ==> (#[trigger] r@[i]).0@ == qualified(m@, orig[i].0@, namespaced) && r@[i].1 == orig[i].1,
        decreases rest@.len(),
    {
        let (name, value) = rest.remove(0);
        proof {
            assert(orig[k as int] == (name, value));
            assert(rest@ =~= orig.subrange(k + 1, orig.len() as int));
        }
        r.push((qualify(m, name.as_str(), namespaced), value));
        k = k + 1;
    }
    r
}

/// The error of an assembled program: text font plans for other locales
/// than its text bundles; else a title scene it does not declare.
pub open spec fn assembly_error(p: Program) -> Option<Seq<char>> {
    if assoc_keys(p.locale_config.text@) != assoc_keys(p.locales@) {
        Some("E_TRANSLATION: config/locales.toml text plans must exactly match complete text bundles"@)
    } else {
        match p.title_scene {
            Some(t) => if assoc(p.scenes@, t@) is None {
                Some("E_SCENE: title scene "@ + t@)
            } else {
                None
            },
            None => None,
        }
    }
}

/// Checks an assembled program: its text font plans name exactly the
/// locales of its text bundles, and its title scene, if any, is declared.
pub fn check_assembly(p: &Program) -> (r: Result<(), String>)
    ensures
        match assembly_error(*p) {
            Some(e) => r matches Err(x) && x@ == e,
            None => r is Ok,
        },
{
    if !(keys_within(&p.locale_config.text, &p.locales) && keys_within(&p.locales, &p.locale_config.text)) {
        proof {
            if assoc_keys(p.locale_config.text@) == assoc_keys(p.locales@) {
                assert(assoc_keys(p.locale_config.text@).subset_of(assoc_keys(p.locales@)));
                assert(assoc_keys(p.locales@).subset_of(assoc_keys(p.locale_config.text@)));
            }
        }
        return Err(owned("E_TRANSLATION: config/locales.toml text plans must exactly match complete text bundles"));
    }
    proof {
        assert(assoc_keys(p.locale_config.text@) =~= assoc_keys(p.locales@));
    }
    match &p.title_scene {
        Some(t) => {
            if get_entry(&p.scenes, t.as_str()).is_none() {
                return Err(concat("E_SCENE: title scene ", t.as_str()));
            }
            Ok(())
        },
        None => Ok(()),
    }
}

} // verus!
