//! The checks of a runtime root's asset, locale and ownership indexes: the
//! locale set and its font plans, the catalogs, the asset index, the task
//! owners and the title scene.
use crate::assoc::{assoc, assoc_keys, contains_name, get_entry, lemma_assoc_some};
use crate::flow::reports;
use crate::format::{AssetKind, Diagnostic, Node, MAX_NODES};
use crate::identity::{is_hash_text, valid_hash};
use crate::locale::{font_plan_identity, LocaleConfig, LocaleFontPlan};
use crate::packages::{first_of, lemma_first_of_hit, lemma_first_of_none};
use crate::scene::{scene_error, validate_scene_nodes, MediaEntry};
use crate::strings::{concat3, str_eq, utf8_bytes};
use crate::table::names_in;
use crate::text::DiagText;
use vstd::prelude::*;
use vstd::string::*;

verus! {

/// An entry of the root's asset index: the asset's kind, its object and the
/// catalog that carries it.
#[derive(Debug, Clone)]
pub struct AssetIndexEntry {
    pub kind: AssetKind,
    pub object: String,
    pub catalog: String,
}

impl MediaEntry for AssetIndexEntry {
    open spec fn media_kind(&self) -> AssetKind {
        self.kind
    }

    fn kind_now(&self) -> (k: AssetKind) {
        self.kind
    }
}

/// The indexes of a runtime root that are checked here.
#[derive(Debug, Clone)]
pub struct RootIndex {
    pub locales: Vec<String>,
    pub default_locale: String,
    pub locale_config: LocaleConfig,
    pub assets: Vec<(String, AssetIndexEntry)>,
    pub catalogs: Vec<(String, String)>,
    pub task_owners: Vec<(String, String)>,
    pub scene_owners: Vec<(String, String)>,
    pub title_scene: Option<String>,
    pub title_nodes: Vec<Node>,
}

/// A locale this player ships: `zh-Hans` or `en`.
pub open spec fn shipped_locale(l: Seq<char>) -> bool {
    l == "zh-Hans"@ || l == "en"@
}

/// The locale set is broken: the default UI locale is not shipped, the
/// default text locale is not the root's, the text plans are not for
/// exactly the root's locales, there is no UI plan or none for the default
/// UI locale, or a UI plan is for a locale that is not shipped.
pub open spec fn locale_set_broken(r: RootIndex) -> bool {
    let c = r.locale_config;
    ||| !shipped_locale(c.default_ui@)
    ||| c.default_text@ != r.default_locale@
    ||| assoc_keys(c.text@) != names_in(r.locales@)
    ||| assoc(c.ui@, c.default_ui@) is None
    ||| c.ui@.len() == 0
    ||| exists|j: int| 0 <= j < c.ui@.len() && !shipped_locale((#[trigger] c.ui@[j]).0@)
}

/// Each asset of the index with its object.
pub open spec fn index_objects(assets: Seq<(String, AssetIndexEntry)>) -> Seq<(String, String)> {
    assets.map_values(|e: (String, AssetIndexEntry)| (e.0, e.1.object))
}

/// A font plan that is broken: no font, a digest other than that of its
/// fonts' objects, a font twice, or a font that the index does not hold as
/// a font.
pub open spec fn plan_broken(r: RootIndex, plan: LocaleFontPlan) -> bool {
    let fonts = plan.fonts@;
    ||| fonts.len() == 0
    ||| plan.digest@ != font_plan_identity(fonts, index_objects(r.assets@))
    ||| exists|a: int, b: int| 0 <= a < b < fonts.len() && (#[trigger] fonts[a])@ == (#[trigger] fonts[b])@
    ||| exists|a: int| 0 <= a < fonts.len() && match assoc(r.assets@, (#[trigger] fonts[a])@) {
        Some(e) => e.kind != AssetKind::Font,
        None => true,
    }
}

/// The error of plan `i` of a surface's plans.
pub open spec fn plan_check(r: RootIndex, surface: Seq<char>, plans: Seq<(String, LocaleFontPlan)>) -> spec_fn(int) -> Option<DiagText> {
    |i: int| if plan_broken(r, plans[i].1) {
        Some(("E_FONT_PLAN"@, surface + "."@ + plans[i].0@, "invalid font plan index"@))
    } else {
        None
    }
}

/// The error of catalog `i`: an empty name or a digest that is no content
/// identity.
pub open spec fn catalog_check(r: RootIndex) -> spec_fn(int) -> Option<DiagText> {
    |i: int| if r.catalogs@[i].0@.len() == 0 || !is_hash_text(utf8_bytes(r.catalogs@[i].1@)) {
        Some(("E_CATALOG"@, r.catalogs@[i].0@, "invalid catalog identity"@))
    } else {
        None
    }
}

/// The error of asset `i`: an empty name, an object that is no content
/// identity, or a catalog the root does not list.
pub open spec fn asset_check(r: RootIndex) -> spec_fn(int) -> Option<DiagText> {
    |i: int| if r.assets@[i].0@.len() == 0 || !is_hash_text(utf8_bytes(r.assets@[i].1.object@))
        || assoc(r.catalogs@, r.assets@[i].1.catalog@) is None {
        Some(("E_ASSET"@, r.assets@[i].0@, "asset index references an unknown object or catalog"@))
    } else {
        None
    }
}

/// The error of task owner entry `i`: an empty task or owner.
pub open spec fn task_check(r: RootIndex) -> spec_fn(int) -> Option<DiagText> {
    |i: int| if r.task_owners@[i].0@.len() == 0 || r.task_owners@[i].1@.len() == 0 {
        Some(("E_TASK"@, r.task_owners@[i].0@, "invalid task owner"@))
    } else {
        None
    }
}

/// The error of the title scene: one no module owns or with too many
/// nodes, else its scene error; or title nodes without a title scene.
pub open spec fn title_scene_error(r: RootIndex) -> Option<DiagText> {
    match r.title_scene {
        Some(t) => if assoc(r.scene_owners@, t@) is None || r.title_nodes@.len() > MAX_NODES {
            Some(("E_SCENE"@, t@, "invalid root title scene"@))
        } else {
            match scene_error(r.title_nodes@, r.assets@) {
                Some(e) => Some((e.0, t@, e.1)),
                None => None,
            }
        },
        None => if r.title_nodes@.len() > 0 {
            Some(("E_SCENE"@, "title_nodes"@, "title nodes without a title scene"@))
        } else {
            None
        },
    }
}

/// The first error of the indexes, checked in this order: the locale set,
/// the UI plans, the text plans, the catalogs, the assets, the task owners
/// and the title scene.
pub open spec fn root_index_error(r: RootIndex) -> Option<DiagText> {
    if locale_set_broken(r) {
        Some(("E_LOCALE_CONFIG"@, "program.locale_config"@, "invalid runtime locale set"@))
    } else {
        let ui = r.locale_config.ui@;
        let text = r.locale_config.text@;
        match first_of(ui.len() as int, plan_check(r, "ui"@, ui)) {
            Some(d) => Some(d),
            None => match first_of(text.len() as int, plan_check(r, "text"@, text)) {
                Some(d) => Some(d),
                None => match first_of(r.catalogs@.len() as int, catalog_check(r)) {
                    Some(d) => Some(d),
                    None => match first_of(r.assets@.len() as int, asset_check(r)) {
                        Some(d) => Some(d),
                        None => match first_of(r.task_owners@.len() as int, task_check(r)) {
                            Some(d) => Some(d),
                            None => title_scene_error(r),
                        },
                    },
                },
            },
        }
    }
}

fn is_shipped(l: &str) -> (b: bool)
    ensures
        b == shipped_locale(l@),
{
    str_eq(l, "zh-Hans") || str_eq(l, "en")
}

fn locale_set_ok(r: &RootIndex) -> (b: bool)
    ensures
        b == !locale_set_broken(*r),
{
    let c = &r.locale_config;
    if !is_shipped(c.default_ui.as_str()) || !str_eq(c.default_text.as_str(), r.default_locale.as_str()) {
        return false;
    }
    let mut j: usize = 0;
    while j < c.text.len()
        invariant
            *c == r.locale_config,
            j <= c.text@.len(),
            forall|q: int| 0 <= q < j ==> names_in(r.locales@).contains((#[trigger] c.text@[q]).0@),
        decreases c.text@.len() - j,
    {
        if !contains_name(&r.locales, c.text[j].0.as_str()) {
            proof {
                assert(assoc_keys(c.text@).contains(c.text@[j as int].0@));
                assert(!names_in(r.locales@).contains(c.text@[j as int].0@));
                assert(assoc_keys(c.text@) != names_in(r.locales@));
            }
            return false;
        }
        j = j + 1;
    }
    let mut j: usize = 0;
    while j < r.locales.len()
        invariant
            *c == r.locale_config,
            j <= r.locales@.len(),
            forall|q: int| 0 <= q < c.text@.len() ==> names_in(r.locales@).contains((#[trigger] c.text@[q]).0@),
            forall|q: int| 0 <= q < j ==> assoc_keys(c.text@).contains((#[trigger] r.locales@[q])@),
        decreases r.locales@.len() - j,
    {
        if get_entry(&c.text, r.locales[j].as_str()).is_none() {
            proof {
                lemma_assoc_some(c.text@, r.locales@[j as int]@);
                assert(names_in(r.locales@).contains(r.locales@[j as int]@));
                assert(!assoc_keys(c.text@).contains(r.locales@[j as int]@));
                assert(assoc_keys(c.text@) != names_in(r.locales@));
            }
            return false;
        }
        proof {
            lemma_assoc_some(c.text@, r.locales@[j as int]@);
        }
        j = j + 1;
    }
    proof {
        assert forall|x: Seq<char>| names_in(r.locales@).contains(x) implies assoc_keys(c.text@).contains(x) by {
            let q = choose|q: int| 0 <= q < r.locales@.len() && (#[trigger] r.locales@[q])@ == x;
            assert(assoc_keys(c.text@).contains(r.locales@[q]@));
        }
        assert forall|x: Seq<char>| assoc_keys(c.text@).contains(x) implies names_in(r.locales@).contains(x) by {
            let q = choose|q: int| 0 <= q < c.text@.len() && (#[trigger] c.text@[q]).0@ == x;
            assert(names_in(r.locales@).contains(c.text@[q].0@));
        }
        assert(assoc_keys(c.text@) =~= names_in(r.locales@));
    }
    if get_entry(&c.ui, c.default_ui.as_str()).is_none() || c.ui.len() == 0 {
        return false;
    }
    let mut j: usize = 0;
    while j < c.ui.len()
        invariant
            *c == r.locale_config,
            j <= c.ui@.len(),
            forall|q: int| 0 <= q < j ==> shipped_locale((#[trigger] c.ui@[q]).0@),
        decreases c.ui@.len() - j,
    {
        if !is_shipped(c.ui[j].0.as_str()) {
            proof {
                assert(!shipped_locale(c.ui@[j as int].0@));
            }
            return false;
        }
        j = j + 1;
    }
    true
}

fn object_table(assets: &Vec<(String, AssetIndexEntry)>) -> (t: Vec<(String, String)>)
    ensures
        t@.len() == assets@.len(),
        forall|i: int| 0 <= i < assets@.len() ==> (#[trigger] t@[i]).0@ == assets@[i].0@ && t@[i].1@ == assets@[i].1.object@,
{
    let mut t: Vec<(String, String)> = Vec::new();
    let mut i: usize = 0;
    while i < assets.len()
        invariant
            i <= assets@.len(),
            t@.len() == i,
            forall|q: int| 0 <= q < i ==> (#[trigger] t@[q]).0@ == assets@[q].0@ && t@[q].1@ == assets@[q].1.object@,
        decreases assets@.len() - i,
    {
        t.push((assets[i].0.clone(), assets[i].1.object.clone()));
        i = i + 1;
    }
    t
}

fn plan_ok(r: &RootIndex, objects: &Vec<(String, String)>, plan: &LocaleFontPlan) -> (b: bool)
    requires
        objects@.len() == r.assets@.len(),
        forall|i: int| 0 <= i < r.assets@.len() ==> (#[trigger] objects@[i]).0@ == r.assets@[i].0@ && objects@[i].1@ == r.assets@[i].1.object@,
    ensures
        b == !plan_broken(*r, *plan),
{
    let fonts = &plan.fonts;
    if fonts.len() == 0 {
        return false;
    }
    let digest = LocaleFontPlan::digest_for(fonts.as_slice(), objects.as_slice());
    proof {
        lemma_same_objects(objects@, index_objects(r.assets@), fonts@);
    }
    if !str_eq(plan.digest.as_str(), digest.as_str()) {
        return false;
    }
    let mut a: usize = 0;
    while a < fonts.len()
        invariant
            *fonts == plan.fonts,
            a <= fonts@.len(),
            forall|x: int, y: int| 0 <= x < y < fonts@.len() && x < a ==> (#[trigger] fonts@[x])@ != (#[trigger] fonts@[y])@,
            forall|x: int| 0 <= x < a ==> match assoc(r.assets@, (#[trigger] fonts@[x])@) {
                Some(e) => e.kind == AssetKind::Font,
                None => false,
            },
        decreases fonts@.len() - a,
    {
        let mut b: usize = a + 1;
        while b < fonts.len()
            invariant
                *fonts == plan.fonts,
            *fonts == plan.fonts,
                a < fonts@.len(),
                a + 1 <= b <= fonts@.len(),
                forall|y: int| a < y < b ==> fonts@[a as int]@ != (#[trigger] fonts@[y])@,
            decreases fonts@.len() - b,
        {
            if str_eq(fonts[a].as_str(), fonts[b].as_str()) {
                proof {
                    assert(fonts@[a as int]@ == fonts@[b as int]@);
                }
                return false;
            }
            b = b + 1;
        }
        let is_font = match get_entry(&r.assets, fonts[a].as_str()) {
            Some(e) => match e.kind {
                AssetKind::Font => true,
                _ => false,
            },
            None => false,
        };
        if !is_font {
            proof {
                assert(!match assoc(r.assets@, fonts@[a as int]@) {
                    Some(e) => e.kind == AssetKind::Font,
                    None => false,
                });
            }
            return false;
        }
        a = a + 1;
    }
    true
}

proof fn lemma_same_objects(t: Seq<(String, String)>, u: Seq<(String, String)>, fonts: Seq<String>)
    requires
        t.len() == u.len(),
        forall|i: int| 0 <= i < t.len() ==> (#[trigger] t[i]).0@ == u[i].0@ && t[i].1@ == u[i].1@,
    ensures
        font_plan_identity(fonts, t) == font_plan_identity(fonts, u),
{
    assert forall|k: Seq<char>| crate::locale::font_object(t, k) == crate::locale::font_object(u, k) by {
        lemma_font_object_same(t, u, k);
    }
    assert(fonts.map_values(|f: String| crate::locale::font_object(t, f@)) =~= fonts.map_values(|f: String| crate::locale::font_object(u, f@)));
}

proof fn lemma_font_object_same(t: Seq<(String, String)>, u: Seq<(String, String)>, k: Seq<char>)
    requires
        t.len() == u.len(),
        forall|i: int| 0 <= i < t.len() ==> (#[trigger] t[i]).0@ == u[i].0@ && t[i].1@ == u[i].1@,
    ensures
        crate::locale::font_object(t, k) == crate::locale::font_object(u, k),
    decreases t.len(),
{
    if t.len() > 0 {
        assert(t[0].0@ == u[0].0@ && t[0].1@ == u[0].1@);
        assert forall|i: int| 0 <= i < t.drop_first().len() implies (#[trigger] t.drop_first()[i]).0@ == u.drop_first()[i].0@
            && t.drop_first()[i].1@ == u.drop_first()[i].1@ by {
            assert(t.drop_first()[i] == t[i + 1]);
            assert(u.drop_first()[i] == u[i + 1]);
        }
        lemma_font_object_same(t.drop_first(), u.drop_first(), k);
    }
}

fn check_plans(r: &RootIndex, objects: &Vec<(String, String)>, surface: &str, plans: &Vec<(String, LocaleFontPlan)>) -> (res: Result<(), Diagnostic>)
    requires
        objects@.len() == r.assets@.len(),
        forall|i: int| 0 <= i < r.assets@.len() ==> (#[trigger] objects@[i]).0@ == r.assets@[i].0@ && objects@[i].1@ == r.assets@[i].1.object@,
    ensures
        reports(res, first_of(plans@.len() as int, plan_check(*r, surface@, plans@))),
{
    let ghost f = plan_check(*r, surface@, plans@);
    let mut i: usize = 0;
    while i < plans.len()
        invariant
            i <= plans@.len(),
            f == plan_check(*r, surface@, plans@),
            first_of(i as int, f) is None,
            objects@.len() == r.assets@.len(),
            forall|q: int| 0 <= q < r.assets@.len() ==> (#[trigger] objects@[q]).0@ == r.assets@[q].0@ && objects@[q].1@ == r.assets@[q].1.object@,
        decreases plans@.len() - i,
    {
        if !plan_ok(r, objects, &plans[i].1) {
            proof {
                lemma_first_of_hit(f, i as int, plans@.len() as int);
            }
            let at = concat3(surface, ".", plans[i].0.as_str());
            proof {
                reveal_strlit(".");
            }
            return Err(Diagnostic::new("E_FONT_PLAN", at.as_str(), "invalid font plan index"));
        }
        i = i + 1;
    }
    Ok(())
}

fn check_catalogs(r: &RootIndex) -> (res: Result<(), Diagnostic>)
    ensures
        reports(res, first_of(r.catalogs@.len() as int, catalog_check(*r))),
{
    let ghost f = catalog_check(*r);
    let mut i: usize = 0;
    while i < r.catalogs.len()
        invariant
            i <= r.catalogs@.len(),
            f == catalog_check(*r),
            first_of(i as int, f) is None,
        decreases r.catalogs@.len() - i,
    {
        let name = r.catalogs[i].0.as_str();
        if name.as_bytes().len() == 0 || !valid_hash(r.catalogs[i].1.as_str()) {
            proof {
                lemma_first_of_hit(f, i as int, r.catalogs@.len() as int);
            }
            return Err(Diagnostic::new("E_CATALOG", name, "invalid catalog identity"));
        }
        i = i + 1;
    }
    Ok(())
}

fn check_index_assets(r: &RootIndex) -> (res: Result<(), Diagnostic>)
    ensures
        reports(res, first_of(r.assets@.len() as int, asset_check(*r))),
{
    let ghost f = asset_check(*r);
    let mut i: usize = 0;
    while i < r.assets.len()
        invariant
            i <= r.assets@.len(),
            f == asset_check(*r),
            first_of(i as int, f) is None,
        decreases r.assets@.len() - i,
    {
        let name = r.assets[i].0.as_str();
        let e = &r.assets[i].1;
        if name.as_bytes().len() == 0 || !valid_hash(e.object.as_str()) || get_entry(&r.catalogs, e.catalog.as_str()).is_none() {
            proof {
                lemma_first_of_hit(f, i as int, r.assets@.len() as int);
            }
            return Err(Diagnostic::new("E_ASSET", name, "asset index references an unknown object or catalog"));
        }
        i = i + 1;
    }
    Ok(())
}

fn check_task_owners(r: &RootIndex) -> (res: Result<(), Diagnostic>)
    ensures
        reports(res, first_of(r.task_owners@.len() as int, task_check(*r))),
{
    let ghost f = task_check(*r);
    let mut i: usize = 0;
    while i < r.task_owners.len()
        invariant
            i <= r.task_owners@.len(),
            f == task_check(*r),
            first_of(i as int, f) is None,
        decreases r.task_owners@.len() - i,
    {
        let task = r.task_owners[i].0.as_str();
        if task.as_bytes().len() == 0 || r.task_owners[i].1.as_str().as_bytes().len() == 0 {
            proof {
                lemma_first_of_hit(f, i as int, r.task_owners@.len() as int);
            }
            return Err(Diagnostic::new("E_TASK", task, "invalid task owner"));
        }
        i = i + 1;
    }
    Ok(())
}

fn check_title_scene(r: &RootIndex) -> (res: Result<(), Diagnostic>)
    ensures
        reports(res, title_scene_error(*r)),
{
    match &r.title_scene {
        Some(t) => {
            if get_entry(&r.scene_owners, t.as_str()).is_none() || r.title_nodes.len() > MAX_NODES {
                return Err(Diagnostic::new("E_SCENE", t.as_str(), "invalid root title scene"));
            }
            validate_scene_nodes(&r.title_nodes, t.as_str(), &r.assets)
        },
        None => {
            if r.title_nodes.len() > 0 {
                Err(Diagnostic::new("E_SCENE", "title_nodes", "title nodes without a title scene"))
            } else {
                Ok(())
            }
        },
    }
}

/// Checks a runtime root's indexes: its locale set (a shipped default UI
/// locale with a plan, the root's default text locale, text plans for
/// exactly its locales, only shipped UI locales); every UI and text font
/// plan (nonempty, distinct fonts the index holds as fonts, the digest of
/// their objects); every catalog (a name and a content identity); every
/// indexed asset (a name, a content identity and a listed catalog); every
/// task owner entry (nonempty); and the title scene (owned by a module,
/// within `MAX_NODES`, with valid nodes) or no title nodes without one.
/// The first failing check is the error.
pub fn validate_root_index(r: &RootIndex) -> (res: Result<(), Diagnostic>)
    ensures
        reports(res, root_index_error(*r)),
{
    if !locale_set_ok(r) {
        return Err(Diagnostic::new("E_LOCALE_CONFIG", "program.locale_config", "invalid runtime locale set"));
    }
    let objects = object_table(&r.assets);
    let res = check_plans(r, &objects, "ui", &r.locale_config.ui);
    if res.is_err() {
        return res;
    }
    let res = check_plans(r, &objects, "text", &r.locale_config.text);
    if res.is_err() {
        return res;
    }
    let res = check_catalogs(r);
    if res.is_err() {
        return res;
    }
    let res = check_index_assets(r);
    if res.is_err() {
        return res;
    }
    let res = check_task_owners(r);
    if res.is_err() {
        return res;
    }
    check_title_scene(r)
}


/// In an accepted root index every indexed asset has a content identity
/// and a listed catalog, and every font of every UI or text plan is indexed
/// as a font.
pub proof fn accepted_index_is_closed(r: RootIndex, i: int, j: int, k: int)
    requires
        root_index_error(r) is None,
    ensures
        0 <= i < r.assets@.len() ==> is_hash_text(utf8_bytes(r.assets@[i].1.object@))
            && assoc(r.catalogs@, r.assets@[i].1.catalog@) is Some,
        0 <= j < r.locale_config.ui@.len() && 0 <= k < r.locale_config.ui@[j].1.fonts@.len()
            ==> (assoc(r.assets@, r.locale_config.ui@[j].1.fonts@[k]@) matches Some(e) && e.kind == AssetKind::Font),
        0 <= j < r.locale_config.text@.len() && 0 <= k < r.locale_config.text@[j].1.fonts@.len()
            ==> (assoc(r.assets@, r.locale_config.text@[j].1.fonts@[k]@) matches Some(e) && e.kind == AssetKind::Font),
{
    let ui = r.locale_config.ui@;
    let text = r.locale_config.text@;
    if 0 <= i < r.assets@.len() {
        lemma_first_of_none(asset_check(r), r.assets@.len() as int, i);
    }
    if 0 <= j < ui.len() && 0 <= k < ui[j].1.fonts@.len() {
        lemma_first_of_none(plan_check(r, "ui"@, ui), ui.len() as int, j);
        assert(!plan_broken(r, ui[j].1));
        assert(match assoc(r.assets@, ui[j].1.fonts@[k]@) {
            Some(e) => e.kind == AssetKind::Font,
            None => false,
        });
    }
    if 0 <= j < text.len() && 0 <= k < text[j].1.fonts@.len() {
        lemma_first_of_none(plan_check(r, "text"@, text), text.len() as int, j);
        assert(!plan_broken(r, text[j].1));
        assert(match assoc(r.assets@, text[j].1.fonts@[k]@) {
            Some(e) => e.kind == AssetKind::Font,
            None => false,
        });
    }
}

} // verus!
