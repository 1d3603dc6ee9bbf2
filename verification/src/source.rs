//! Checks of a whole source program before it runs: its header, locale and
//! font configuration, text contracts and translations, asset sizes, scenes,
//! cues, choices and functions, in that order.
use crate::assoc::{assoc, assoc_keys, distinct_names, get_entry, lemma_assoc_some, names_distinct, position_of};
use crate::format::{fails_with, value_type, Asset, AssetKind, Choice, Cue, Diagnostic, ErrorDomain, Function, Node, Recovery, Stage, TextContract, TextDoc, Value, ValueType, FORMAT_VERSION, MAX_INPUT_BYTES};
use crate::locale::{font_plan_identity, LocaleConfig, LocaleFontPlan};
use crate::strings::{concat, concat3, str_eq};
use crate::text::{text_contract_digest, text_contract_identity, text_spans_verdict, validate_text_spans, DiagText};
use crate::expr::var_type;
use crate::scene::{scene_error, validate_scene_nodes};
use crate::diagnostics::classified_as;
use crate::flow::{copy_vars, functions_error, holds_task, or_else, task_definitions, task_effects, validate_functions, FunctionScope, Signature};
use crate::program::{choices_error, cues_error, validate_choices, validate_cues};
use crate::executable::{compile, cue_names_distinct, index_valid, bad_index, keys_distinct, program_addresses, Executable, ProgramTables};
use vstd::prelude::*;
use vstd::string::*;

verus! {

/// A source program as the compiler hands it over, keyed tables as lists of
/// (key, value) pairs. Its presentation theme and player defaults hold
/// floating-point values and are checked apart.
#[derive(Debug, Clone)]
pub struct Program {
    pub format: u32,
    pub game_id: String,
    pub revision: String,
    pub entry: String,
    pub requires: Vec<String>,
    pub stage: Stage,
    pub variables: Vec<(String, Value)>,
    pub functions: Vec<(String, Function)>,
    pub scenes: Vec<(String, Vec<Node>)>,
    pub cues: Vec<(String, Cue)>,
    pub choices: Vec<(String, Choice)>,
    pub texts: Vec<(String, TextContract)>,
    pub locales: Vec<(String, Vec<(String, TextDoc)>)>,
    pub locale_config: LocaleConfig,
    pub assets: Vec<(String, Asset)>,
    pub default_locale: String,
    pub title_scene: Option<String>,
}

/// A capability that this engine provides.
pub open spec fn known_capability(c: Seq<char>) -> bool {
    ||| c == "control.v1"@
    ||| c == "stage.sprite.v1"@
    ||| c == "stage.dissolve.v1"@
    ||| c == "clip.scalar.v1"@
    ||| c == "text.structured.v1"@
    ||| c == "text.revisions.v1"@
    ||| c == "text.gate.v1"@
    ||| c == "choice.v1"@
    ||| c == "audio.buffer.v1"@
}

/// Whether the engine provides capability `c`.
pub fn is_known_capability(c: &str) -> (r: bool)
    ensures
        r == known_capability(c@),
{
    str_eq(c, "control.v1") || str_eq(c, "stage.sprite.v1") || str_eq(c, "stage.dissolve.v1") || str_eq(c, "clip.scalar.v1")
        || str_eq(c, "text.structured.v1") || str_eq(c, "text.revisions.v1") || str_eq(c, "text.gate.v1") || str_eq(c, "choice.v1")
        || str_eq(c, "audio.buffer.v1")
}

/// The first of the first `k` required capabilities that the engine lacks.
pub open spec fn first_unknown(reqs: Seq<String>, k: int) -> Option<Seq<char>>
    decreases k,
{
    if k <= 0 {
        None
    } else {
        match first_unknown(reqs, k - 1) {
            Some(c) => Some(c),
            None => if known_capability(reqs[k - 1]@) {
                None
            } else {
                Some(reqs[k - 1]@)
            },
        }
    }
}

proof fn lemma_first_unknown_stays(reqs: Seq<String>, k: int, m: int)
    requires
        0 <= k <= m,
        first_unknown(reqs, k) is Some,
    ensures
        first_unknown(reqs, m) == first_unknown(reqs, k),
    decreases m - k,
{
    if k < m {
        lemma_first_unknown_stays(reqs, k, m - 1);
    }
}

/// The error of a program's header: another format version; more than 4096
/// functions, 100000 texts or 10000 assets; a required capability the
/// engine lacks; an empty game id, an entry that is no function or a stage
/// size outside `1..=8192`; an entry with parameters; or a default locale
/// without translations.
pub open spec fn header_error(p: Program) -> Option<DiagText> {
    if p.format != FORMAT_VERSION {
        Some(("E_VERSION"@, "program"@, "unsupported semantic version"@))
    } else if p.functions@.len() > 4096 || p.texts@.len() > 100000 || p.assets@.len() > 10000 {
        Some(("E_LIMIT"@, "program"@, "table limit"@))
    } else {
        match first_unknown(p.requires@, p.requires@.len() as int) {
            Some(c) => Some(("E_CAPABILITY"@, "requires"@, c)),
            None => if p.game_id@.len() == 0 || assoc(p.functions@, p.entry@) is None || p.stage.width == 0
                || p.stage.height == 0 || p.stage.width > 8192 || p.stage.height > 8192 {
                Some(("E_PROGRAM"@, "program"@, "invalid game, entry or stage"@))
            } else if assoc(p.functions@, p.entry@).unwrap().params@.len() != 0 {
                Some(("E_CALL"@, "entry"@, "entry requires arguments"@))
            } else if assoc(p.locales@, p.default_locale@) is None {
                Some(("E_LOCALE"@, "program"@, "missing default locale"@))
            } else {
                None
            },
        }
    }
}

fn check_header(p: &Program) -> (r: Result<(), Diagnostic>)
    ensures
        match header_error(*p) {
            Some(d) => fails_with(r, d.0, d.1, d.2),
            None => r is Ok,
        },
{
    if p.format != FORMAT_VERSION {
        return Err(Diagnostic::new("E_VERSION", "program", "unsupported semantic version"));
    }
    if p.functions.len() > 4096 || p.texts.len() > 100000 || p.assets.len() > 10000 {
        return Err(Diagnostic::new("E_LIMIT", "program", "table limit"));
    }
    let mut k: usize = 0;
    while k < p.requires.len()
        invariant
            k <= p.requires@.len(),
            p.format == FORMAT_VERSION,
            !(p.functions@.len() > 4096 || p.texts@.len() > 100000 || p.assets@.len() > 10000),
            first_unknown(p.requires@, k as int) is None,
        decreases p.requires@.len() - k,
    {
        if !is_known_capability(p.requires[k].as_str()) {
            proof {
                lemma_first_unknown_stays(p.requires@, k as int + 1, p.requires@.len() as int);
            }
            return Err(Diagnostic::new("E_CAPABILITY", "requires", p.requires[k].as_str()));
        }
        k = k + 1;
    }
    let entry = get_entry(&p.functions, p.entry.as_str());
    if p.game_id.as_str().is_empty() || entry.is_none() || p.stage.width == 0 || p.stage.height == 0 || p.stage.width > 8192
        || p.stage.height > 8192 {
        return Err(Diagnostic::new("E_PROGRAM", "program", "invalid game, entry or stage"));
    }
    match entry {
        Some(f) => {
            if f.params.len() != 0 {
                return Err(Diagnostic::new("E_CALL", "entry", "entry requires arguments"));
            }
        },
        None => {},
    }
    if get_entry(&p.locales, p.default_locale.as_str()).is_none() {
        return Err(Diagnostic::new("E_LOCALE", "program", "missing default locale"));
    }
    Ok(())
}

/// A locale of the tested language profile.
pub open spec fn tested_locale(l: Seq<char>) -> bool {
    l == "zh-Hans"@ || l == "en"@
}

fn is_tested_locale(l: &str) -> (r: bool)
    ensures
        r == tested_locale(l@),
{
    str_eq(l, "zh-Hans") || str_eq(l, "en")
}

/// The locale configuration agrees with the program: the default interface
/// locale is a tested one and has a plan, the default text locale is the
/// program's default locale and has a plan, there is some interface plan,
/// the text plans cover exactly the translated locales, and every interface
/// locale is a tested one.
pub open spec fn locale_config_ok(p: Program) -> bool {
    let c = p.locale_config;
    &&& tested_locale(c.default_ui@)
    &&& c.default_text@ == p.default_locale@
    &&& assoc(c.ui@, c.default_ui@) is Some
    &&& assoc(c.text@, c.default_text@) is Some
    &&& c.ui@.len() > 0
    &&& assoc_keys(c.text@) == assoc_keys(p.locales@)
    &&& forall|k: int| 0 <= k < c.ui@.len() ==> tested_locale((#[trigger] c.ui@[k]).0@)
}

/// The error of the locale configuration.
pub open spec fn locale_config_error(p: Program) -> Option<DiagText> {
    if locale_config_ok(p) {
        None
    } else {
        Some(("E_LOCALE_CONFIG"@, "program.locale_config"@, "invalid defaults or supported locale sets"@))
    }
}

fn keys_within<A, B>(a: &Vec<(String, A)>, b: &Vec<(String, B)>) -> (r: bool)
    ensures
        r == assoc_keys(a@).subset_of(assoc_keys(b@)),
{
    let mut k: usize = 0;
    while k < a.len()
        invariant
            k <= a@.len(),
            forall|j: int| 0 <= j < k ==> assoc_keys(b@).contains((#[trigger] a@[j]).0@),
        decreases a@.len() - k,
    {
        if position_of(b, a[k].0.as_str()).is_none() {
            proof {
                assert(assoc_keys(a@).contains(a@[k as int].0@));
            }
            return false;
        }
        proof {
            let i = choose|i: int| 0 <= i < b@.len() && b@[i].0@ == a@[k as int].0@;
            assert(assoc_keys(b@).contains(a@[k as int].0@)) by {
                lemma_assoc_some(b@, a@[k as int].0@);
            }
        }
        k = k + 1;
    }
    proof {
        assert forall|x: Seq<char>| assoc_keys(a@).contains(x) implies assoc_keys(b@).contains(x) by {
            let j = choose|j: int| 0 <= j < a@.len() && (#[trigger] a@[j]).0@ == x;
        }
    }
    true
}

fn check_locale_config(p: &Program) -> (r: Result<(), Diagnostic>)
    ensures
        match locale_config_error(*p) {
            Some(d) => fails_with(r, d.0, d.1, d.2),
            None => r is Ok,
        },
{
    let c = &p.locale_config;
    let mut ui_tested = true;
    let mut k: usize = 0;
    while k < c.ui.len()
        invariant
            k <= c.ui@.len(),
            ui_tested == forall|j: int| 0 <= j < k ==> tested_locale((#[trigger] c.ui@[j]).0@),
        decreases c.ui@.len() - k,
    {
        if !is_tested_locale(c.ui[k].0.as_str()) {
            ui_tested = false;
        }
        k = k + 1;
    }
    let same_keys = keys_within(&c.text, &p.locales) && keys_within(&p.locales, &c.text);
    proof {
        if same_keys {
            assert(assoc_keys(c.text@) =~= assoc_keys(p.locales@));
        }
    }
    let ok = is_tested_locale(c.default_ui.as_str()) && str_eq(c.default_text.as_str(), p.default_locale.as_str())
        && get_entry(&c.ui, c.default_ui.as_str()).is_some() && get_entry(&c.text, c.default_text.as_str()).is_some()
        && c.ui.len() > 0 && same_keys && ui_tested;
    if !ok {
        return Err(Diagnostic::new("E_LOCALE_CONFIG", "program.locale_config", "invalid defaults or supported locale sets"));
    }
    Ok(())
}

/// The object identity of each asset.
pub open spec fn asset_objects(assets: Seq<(String, Asset)>) -> Seq<(String, String)> {
    assets.map_values(|e: (String, Asset)| (e.0, e.1.object))
}

fn object_table(assets: &Vec<(String, Asset)>) -> (r: Vec<(String, String)>)
    ensures
        r@ == asset_objects(assets@),
{
    let mut r: Vec<(String, String)> = Vec::new();
    let mut k: usize = 0;
    while k < assets.len()
        invariant
            k <= assets@.len(),
            r@ == asset_objects(assets@.subrange(0, k as int)),
        decreases assets@.len() - k,
    {
        r.push((assets[k].0.clone(), assets[k].1.object.clone()));
        proof {
            assert(asset_objects(assets@.subrange(0, k + 1)) =~= asset_objects(assets@.subrange(0, k as int)).push((assets@[k as int].0, assets@[k as int].1.object)));
        }
        k = k + 1;
    }
    proof {
        assert(assets@.subrange(0, assets@.len() as int) =~= assets@);
    }
    r
}

/// `f` names a font asset.
pub open spec fn font_asset(assets: Seq<(String, Asset)>, f: Seq<char>) -> bool {
    match assoc(assets, f) {
        Some(a) => a.kind == AssetKind::Font,
        None => false,
    }
}

/// The first of the first `k` fonts that names no font asset.
pub open spec fn first_bad_font(assets: Seq<(String, Asset)>, fonts: Seq<String>, k: int) -> Option<Seq<char>>
    decreases k,
{
    if k <= 0 {
        None
    } else {
        match first_bad_font(assets, fonts, k - 1) {
            Some(f) => Some(f),
            None => if font_asset(assets, fonts[k - 1]@) {
                None
            } else {
                Some(fonts[k - 1]@)
            },
        }
    }
}

proof fn lemma_first_bad_font_stays(assets: Seq<(String, Asset)>, fonts: Seq<String>, k: int, m: int)
    requires
        0 <= k <= m,
        first_bad_font(assets, fonts, k) is Some,
    ensures
        first_bad_font(assets, fonts, m) == first_bad_font(assets, fonts, k),
    decreases m - k,
{
    if k < m {
        lemma_first_bad_font_stays(assets, fonts, k, m - 1);
    }
}

/// The error of the font plan of `locale` on `surface`: no fonts, a digest
/// that is not the identity of its fonts and their objects, or a font named
/// twice; then a font that is no font asset.
pub open spec fn plan_error(surface: Seq<char>, locale: Seq<char>, plan: LocaleFontPlan, assets: Seq<(String, Asset)>) -> Option<DiagText> {
    if plan.fonts@.len() == 0 || plan.digest@ != font_plan_identity(plan.fonts@, asset_objects(assets)) || !distinct_names(plan.fonts@) {
        Some(("E_FONT_PLAN"@, locale, "font plans must be nonempty, unique and have a valid digest"@))
    } else {
        match first_bad_font(assets, plan.fonts@, plan.fonts@.len() as int) {
            Some(f) => Some(("E_FONT_PLAN"@, surface + "."@ + locale, "unknown font asset "@ + f)),
            None => None,
        }
    }
}

/// The first plan error among the first `k` plans of a surface.
pub open spec fn plans_error(surface: Seq<char>, plans: Seq<(String, LocaleFontPlan)>, assets: Seq<(String, Asset)>, k: int) -> Option<DiagText>
    decreases k,
{
    if k <= 0 {
        None
    } else {
        or_else(plans_error(surface, plans, assets, k - 1), plan_error(surface, plans[k - 1].0@, plans[k - 1].1, assets))
    }
}

proof fn lemma_plans_error_stays(surface: Seq<char>, plans: Seq<(String, LocaleFontPlan)>, assets: Seq<(String, Asset)>, k: int, m: int)
    requires
        0 <= k <= m,
        plans_error(surface, plans, assets, k) is Some,
    ensures
        plans_error(surface, plans, assets, m) == plans_error(surface, plans, assets, k),
    decreases m - k,
{
    if k < m {
        lemma_plans_error_stays(surface, plans, assets, k, m - 1);
    }
}

/// The first font plan error, interface plans before text plans.
pub open spec fn font_plans_error(p: Program) -> Option<DiagText> {
    let c = p.locale_config;
    or_else(plans_error("ui"@, c.ui@, p.assets@, c.ui@.len() as int), plans_error("text"@, c.text@, p.assets@, c.text@.len() as int))
}

fn check_plan(surface: &str, locale: &str, plan: &LocaleFontPlan, assets: &Vec<(String, Asset)>, objects: &Vec<(String, String)>) -> (r: Result<(), Diagnostic>)
    requires
        objects@ == asset_objects(assets@),
    ensures
        match plan_error(surface@, locale@, *plan, assets@) {
            Some(d) => fails_with(r, d.0, d.1, d.2),
            None => r is Ok,
        },
{
    let expected = LocaleFontPlan::digest_for(plan.fonts.as_slice(), objects.as_slice());
    if plan.fonts.len() == 0 || !str_eq(plan.digest.as_str(), expected.as_str()) || !names_distinct(&plan.fonts) {
        return Err(Diagnostic::new("E_FONT_PLAN", locale, "font plans must be nonempty, unique and have a valid digest"));
    }
    let mut k: usize = 0;
    while k < plan.fonts.len()
        invariant
            k <= plan.fonts@.len(),
            plan.fonts@.len() > 0,
            plan.digest@ == font_plan_identity(plan.fonts@, asset_objects(assets@)),
            distinct_names(plan.fonts@),
            first_bad_font(assets@, plan.fonts@, k as int) is None,
        decreases plan.fonts@.len() - k,
    {
        let font = plan.fonts[k].as_str();
        let ok = match get_entry(assets, font) {
            Some(a) => match a.kind {
                AssetKind::Font => true,
                _ => false,
            },
            None => false,
        };
        if !ok {
            proof {
                lemma_first_bad_font_stays(assets@, plan.fonts@, k as int + 1, plan.fonts@.len() as int);
            }
            let at = concat3(surface, ".", locale);
            let message = concat("unknown font asset ", font);
            return Err(Diagnostic::new("E_FONT_PLAN", at.as_str(), message.as_str()));
        }
        k = k + 1;
    }
    Ok(())
}

fn check_plans(surface: &str, plans: &Vec<(String, LocaleFontPlan)>, assets: &Vec<(String, Asset)>, objects: &Vec<(String, String)>) -> (r: Result<(), Diagnostic>)
    requires
        objects@ == asset_objects(assets@),
    ensures
        match plans_error(surface@, plans@, assets@, plans@.len() as int) {
            Some(d) => fails_with(r, d.0, d.1, d.2),
            None => r is Ok,
        },
{
    let mut k: usize = 0;
    while k < plans.len()
        invariant
            k <= plans@.len(),
            objects@ == asset_objects(assets@),
            plans_error(surface@, plans@, assets@, k as int) is None,
        decreases plans@.len() - k,
    {
        match check_plan(surface, plans[k].0.as_str(), &plans[k].1, assets, objects) {
            Ok(()) => {},
            Err(d) => {
                proof {
                    lemma_plans_error_stays(surface@, plans@, assets@, k as int + 1, plans@.len() as int);
                }
                return Err(d);
            },
        }
        k = k + 1;
    }
    Ok(())
}

/// The program's variables with the types of their initial values.
pub open spec fn typed_vars(vars: Seq<(String, Value)>) -> Seq<(String, ValueType)> {
    vars.map_values(|v: (String, Value)| (v.0, value_type(v.1)))
}

pub(crate) fn type_table(vars: &Vec<(String, Value)>) -> (r: Vec<(String, ValueType)>)
    ensures
        r@ == typed_vars(vars@),
{
    let mut r: Vec<(String, ValueType)> = Vec::new();
    let mut k: usize = 0;
    while k < vars.len()
        invariant
            k <= vars@.len(),
            r@ == typed_vars(vars@.subrange(0, k as int)),
        decreases vars@.len() - k,
    {
        r.push((vars[k].0.clone(), vars[k].1.ty()));
        proof {
            assert(typed_vars(vars@.subrange(0, k + 1)) =~= typed_vars(vars@.subrange(0, k as int)).push((vars@[k as int].0, value_type(vars@[k as int].1))));
        }
        k = k + 1;
    }
    proof {
        assert(vars@.subrange(0, vars@.len() as int) =~= vars@);
    }
    r
}

/// The first of the first `k` parameters of text `id` that is not a program
/// variable of the declared type.
pub open spec fn text_params_error(vars: Seq<(String, ValueType)>, id: Seq<char>, params: Seq<(String, ValueType)>, k: int) -> Option<DiagText>
    decreases k,
{
    if k <= 0 {
        None
    } else {
        or_else(text_params_error(vars, id, params, k - 1), if var_type(vars, params[k - 1].0@) == Some(params[k - 1].1) {
            None
        } else {
            Some(("E_TEXT_PARAM"@, id, params[k - 1].0@))
        })
    }
}

proof fn lemma_text_params_error_stays(vars: Seq<(String, ValueType)>, id: Seq<char>, params: Seq<(String, ValueType)>, k: int, m: int)
    requires
        0 <= k <= m,
        text_params_error(vars, id, params, k) is Some,
    ensures
        text_params_error(vars, id, params, m) == text_params_error(vars, id, params, k),
    decreases m - k,
{
    if k < m {
        lemma_text_params_error_stays(vars, id, params, k, m - 1);
    }
}

/// The error of contract `c` of text `id` in `locale`, whose translations
/// are `docs`: a zero revision or a digest that is not the contract's
/// identity; a parameter error; a missing translation; a translation made
/// for other revisions or another digest; or a span error of the
/// translation.
pub open spec fn contract_error(vars: Seq<(String, ValueType)>, locale: Seq<char>, docs: Seq<(String, TextDoc)>, id: Seq<char>, c: TextContract) -> Option<DiagText> {
    if c.source_revision == 0 || c.contract_revision == 0 || c.meaning_revision == 0 || c.contract_digest@ != text_contract_identity(c) {
        Some(("E_TEXT_REVISION"@, id, locale))
    } else {
        or_else(text_params_error(vars, id, c.params@, c.params@.len() as int), match assoc(docs, id) {
            None => Some(("E_TRANSLATION"@, locale, id)),
            Some(d) => if d.source_revision != c.source_revision || d.contract_revision != c.contract_revision
                || d.contract_digest@ != c.contract_digest@ {
                Some(("E_TEXT_REVISION"@, id, locale))
            } else {
                text_spans_verdict(id, c, d.spans@)
            },
        })
    }
}

/// The first contract error among the first `k` contracts.
pub open spec fn contracts_error(vars: Seq<(String, ValueType)>, locale: Seq<char>, docs: Seq<(String, TextDoc)>, texts: Seq<(String, TextContract)>, k: int) -> Option<DiagText>
    decreases k,
{
    if k <= 0 {
        None
    } else {
        or_else(contracts_error(vars, locale, docs, texts, k - 1), contract_error(vars, locale, docs, texts[k - 1].0@, texts[k - 1].1))
    }
}

proof fn lemma_contracts_error_stays(vars: Seq<(String, ValueType)>, locale: Seq<char>, docs: Seq<(String, TextDoc)>, texts: Seq<(String, TextContract)>, k: int, m: int)
    requires
        0 <= k <= m,
        contracts_error(vars, locale, docs, texts, k) is Some,
    ensures
        contracts_error(vars, locale, docs, texts, m) == contracts_error(vars, locale, docs, texts, k),
    decreases m - k,
{
    if k < m {
        lemma_contracts_error_stays(vars, locale, docs, texts, k, m - 1);
    }
}

/// The error of the translations `docs` of `locale`: a locale outside the
/// tested profile; a contract error; or a translation of a text without a
/// contract.
pub open spec fn locale_texts_error(vars: Seq<(String, ValueType)>, texts: Seq<(String, TextContract)>, locale: Seq<char>, docs: Seq<(String, TextDoc)>) -> Option<DiagText> {
    if !tested_locale(locale) {
        Some(("E_CAPABILITY"@, locale, "locale is not in the tested language profile"@))
    } else {
        or_else(contracts_error(vars, locale, docs, texts, texts.len() as int), if exists|k: int|
            0 <= k < docs.len() && !assoc_keys(texts).contains((#[trigger] docs[k]).0@) {
            Some(("E_TEXT_CONTRACT"@, locale, "unexpected text"@))
        } else {
            None
        })
    }
}

/// The first locale error among the first `k` locales.
pub open spec fn locales_error(vars: Seq<(String, ValueType)>, texts: Seq<(String, TextContract)>, locales: Seq<(String, Vec<(String, TextDoc)>)>, k: int) -> Option<DiagText>
    decreases k,
{
    if k <= 0 {
        None
    } else {
        or_else(locales_error(vars, texts, locales, k - 1), locale_texts_error(vars, texts, locales[k - 1].0@, locales[k - 1].1@))
    }
}

proof fn lemma_locales_error_stays(vars: Seq<(String, ValueType)>, texts: Seq<(String, TextContract)>, locales: Seq<(String, Vec<(String, TextDoc)>)>, k: int, m: int)
    requires
        0 <= k <= m,
        locales_error(vars, texts, locales, k) is Some,
    ensures
        locales_error(vars, texts, locales, m) == locales_error(vars, texts, locales, k),
    decreases m - k,
{
    if k < m {
        lemma_locales_error_stays(vars, texts, locales, k, m - 1);
    }
}

fn check_contract(vars: &Vec<(String, ValueType)>, locale: &str, docs: &Vec<(String, TextDoc)>, id: &str, c: &TextContract) -> (r: Result<(), Diagnostic>)
    ensures
        match contract_error(vars@, locale@, docs@, id@, *c) {
            Some(d) => fails_with(r, d.0, d.1, d.2),
            None => r is Ok,
        },
{
    let digest = text_contract_digest(c);
    if c.source_revision == 0 || c.contract_revision == 0 || c.meaning_revision == 0 || !str_eq(c.contract_digest.as_str(), digest.as_str()) {
        return Err(Diagnostic::new("E_TEXT_REVISION", id, locale));
    }
    let mut k: usize = 0;
    while k < c.params.len()
        invariant
            k <= c.params@.len(),
            !(c.source_revision == 0 || c.contract_revision == 0 || c.meaning_revision == 0 || c.contract_digest@ != text_contract_identity(*c)),
            text_params_error(vars@, id@, c.params@, k as int) is None,
        decreases c.params@.len() - k,
    {
        let ok = match lookup_type(vars, c.params[k].0.as_str()) {
            Some(t) => t == c.params[k].1,
            None => false,
        };
        if !ok {
            proof {
                lemma_text_params_error_stays(vars@, id@, c.params@, k as int + 1, c.params@.len() as int);
            }
            return Err(Diagnostic::new("E_TEXT_PARAM", id, c.params[k].0.as_str()));
        }
        k = k + 1;
    }
    let d = match get_entry(docs, id) {
        Some(d) => d,
        None => {
            return Err(Diagnostic::new("E_TRANSLATION", locale, id));
        },
    };
    if d.source_revision != c.source_revision || d.contract_revision != c.contract_revision || !str_eq(d.contract_digest.as_str(), c.contract_digest.as_str()) {
        return Err(Diagnostic::new("E_TEXT_REVISION", id, locale));
    }
    validate_text_spans(id, c, d.spans.as_slice())
}

fn lookup_type(vars: &Vec<(String, ValueType)>, name: &str) -> (r: Option<ValueType>)
    ensures
        r == var_type(vars@, name@),
{
    let mut i: usize = 0;
    assert(vars@.subrange(0, vars@.len() as int) =~= vars@);
    while i < vars.len()
        invariant
            i <= vars@.len(),
            var_type(vars@, name@) == var_type(vars@.subrange(i as int, vars@.len() as int), name@),
        decreases vars@.len() - i,
    {
        assert(vars@.subrange(i as int, vars@.len() as int).drop_first() =~= vars@.subrange(i + 1, vars@.len() as int));
        if str_eq(vars[i].0.as_str(), name) {
            return Some(vars[i].1);
        }
        i = i + 1;
    }
    None
}

fn check_locale_texts(vars: &Vec<(String, ValueType)>, texts: &Vec<(String, TextContract)>, locale: &str, docs: &Vec<(String, TextDoc)>) -> (r: Result<(), Diagnostic>)
    ensures
        match locale_texts_error(vars@, texts@, locale@, docs@) {
            Some(d) => fails_with(r, d.0, d.1, d.2),
            None => r is Ok,
        },
{
    if !is_tested_locale(locale) {
        return Err(Diagnostic::new("E_CAPABILITY", locale, "locale is not in the tested language profile"));
    }
    let mut k: usize = 0;
    while k < texts.len()
        invariant
            k <= texts@.len(),
            tested_locale(locale@),
            contracts_error(vars@, locale@, docs@, texts@, k as int) is None,
        decreases texts@.len() - k,
    {
        match check_contract(vars, locale, docs, texts[k].0.as_str(), &texts[k].1) {
            Ok(()) => {},
            Err(d) => {
                proof {
                    lemma_contracts_error_stays(vars@, locale@, docs@, texts@, k as int + 1, texts@.len() as int);
                }
                return Err(d);
            },
        }
        k = k + 1;
    }
    if !keys_within(docs, texts) {
        proof {
            let x = choose|x: Seq<char>| assoc_keys(docs@).contains(x) && !assoc_keys(texts@).contains(x);
            let j = choose|j: int| 0 <= j < docs@.len() && (#[trigger] docs@[j]).0@ == x;
        }
        return Err(Diagnostic::new("E_TEXT_CONTRACT", locale, "unexpected text"));
    }
    proof {
        assert forall|j: int| 0 <= j < docs@.len() implies assoc_keys(texts@).contains((#[trigger] docs@[j]).0@) by {
            assert(assoc_keys(docs@).contains(docs@[j].0@));
        }
    }
    Ok(())
}

/// An asset larger than the engine takes: more than 16 times
/// `MAX_INPUT_BYTES`, or wider or taller than 8192.
pub open spec fn asset_too_large(a: Asset) -> bool {
    a.bytes > MAX_INPUT_BYTES * 16 || a.width > 8192 || a.height > 8192
}

/// The first of the first `k` assets that is too large.
pub open spec fn assets_error(assets: Seq<(String, Asset)>, k: int) -> Option<DiagText>
    decreases k,
{
    if k <= 0 {
        None
    } else {
        or_else(assets_error(assets, k - 1), if asset_too_large(assets[k - 1].1) {
            Some(("E_LIMIT"@, assets[k - 1].0@, "asset too large"@))
        } else {
            None
        })
    }
}

proof fn lemma_assets_error_stays(assets: Seq<(String, Asset)>, k: int, m: int)
    requires
        0 <= k <= m,
        assets_error(assets, k) is Some,
    ensures
        assets_error(assets, m) == assets_error(assets, k),
    decreases m - k,
{
    if k < m {
        lemma_assets_error_stays(assets, k, m - 1);
    }
}

fn check_assets(assets: &Vec<(String, Asset)>) -> (r: Result<(), Diagnostic>)
    ensures
        match assets_error(assets@, assets@.len() as int) {
            Some(d) => fails_with(r, d.0, d.1, d.2),
            None => r is Ok,
        },
{
    let mut k: usize = 0;
    while k < assets.len()
        invariant
            k <= assets@.len(),
            assets_error(assets@, k as int) is None,
        decreases assets@.len() - k,
    {
        let a = &assets[k].1;
        if a.bytes > (MAX_INPUT_BYTES as u64) * 16 || a.width > 8192 || a.height > 8192 {
            proof {
                lemma_assets_error_stays(assets@, k as int + 1, assets@.len() as int);
            }
            return Err(Diagnostic::new("E_LIMIT", assets[k].0.as_str(), "asset too large"));
        }
        k = k + 1;
    }
    Ok(())
}

/// A node without its clip; a source program's scenes are checked without
/// clips.
pub open spec fn without_clip(n: Node) -> Node {
    Node {
        id: n.id,
        parent: n.parent,
        asset: n.asset,
        x_bits: n.x_bits,
        y_bits: n.y_bits,
        width_bits: n.width_bits,
        height_bits: n.height_bits,
        scale_bits: n.scale_bits,
        opacity_bits: n.opacity_bits,
        color_bits: n.color_bits,
        order: n.order,
        clip_bits: None,
    }
}

/// The nodes of a scene without their clips.
pub open spec fn unclipped(nodes: Seq<Node>) -> Seq<Node> {
    nodes.map_values(|n: Node| without_clip(n))
}

fn strip_clips(nodes: &Vec<Node>) -> (r: Vec<Node>)
    ensures
        r@ == unclipped(nodes@),
{
    let mut r: Vec<Node> = Vec::new();
    let mut k: usize = 0;
    while k < nodes.len()
        invariant
            k <= nodes@.len(),
            r@ == unclipped(nodes@.subrange(0, k as int)),
        decreases nodes@.len() - k,
    {
        let n = &nodes[k];
        let parent = match &n.parent {
            Some(x) => Some(x.clone()),
            None => None,
        };
        let asset = match &n.asset {
            Some(x) => Some(x.clone()),
            None => None,
        };
        r.push(Node {
            id: n.id.clone(),
            parent,
            asset,
            x_bits: n.x_bits,
            y_bits: n.y_bits,
            width_bits: n.width_bits,
            height_bits: n.height_bits,
            scale_bits: n.scale_bits,
            opacity_bits: n.opacity_bits,
            color_bits: n.color_bits,
            order: n.order,
            clip_bits: None,
        });
        proof {
            assert(unclipped(nodes@.subrange(0, k + 1)) =~= unclipped(nodes@.subrange(0, k as int)).push(without_clip(nodes@[k as int])));
        }
        k = k + 1;
    }
    proof {
        assert(nodes@.subrange(0, nodes@.len() as int) =~= nodes@);
    }
    r
}

/// The first scene error among the first `k` scenes, clips aside.
pub open spec fn scenes_error(scenes: Seq<(String, Vec<Node>)>, assets: Seq<(String, Asset)>, k: int) -> Option<DiagText>
    decreases k,
{
    if k <= 0 {
        None
    } else {
        or_else(scenes_error(scenes, assets, k - 1), match scene_error(unclipped(scenes[k - 1].1@), assets) {
            Some(e) => Some((e.0, scenes[k - 1].0@, e.1)),
            None => None,
        })
    }
}

proof fn lemma_scenes_error_stays(scenes: Seq<(String, Vec<Node>)>, assets: Seq<(String, Asset)>, k: int, m: int)
    requires
        0 <= k <= m,
        scenes_error(scenes, assets, k) is Some,
    ensures
        scenes_error(scenes, assets, m) == scenes_error(scenes, assets, k),
    decreases m - k,
{
    if k < m {
        lemma_scenes_error_stays(scenes, assets, k, m - 1);
    }
}

/// `r` failed with the content diagnostic `d` of the check `operation`.
pub open spec fn content_failed<T>(r: Result<T, Diagnostic>, d: DiagText, operation: Seq<char>) -> bool {
    match r {
        Ok(_) => false,
        Err(x) => x.code@ == d.0 && x.location@ == d.1 && x.message@ == d.2
            && classified_as(x, ErrorDomain::Content, operation, "validate"@, seq![Recovery::FixContent]),
    }
}

fn check_scenes(scenes: &Vec<(String, Vec<Node>)>, assets: &Vec<(String, Asset)>) -> (r: Result<(), Diagnostic>)
    ensures
        match scenes_error(scenes@, assets@, scenes@.len() as int) {
            Some(d) => content_failed(r, d, "scenes"@),
            None => r is Ok,
        },
{
    let mut k: usize = 0;
    while k < scenes.len()
        invariant
            k <= scenes@.len(),
            scenes_error(scenes@, assets@, k as int) is None,
        decreases scenes@.len() - k,
    {
        let nodes = strip_clips(&scenes[k].1);
        match validate_scene_nodes(&nodes, scenes[k].0.as_str(), assets) {
            Ok(()) => {},
            Err(d) => {
                let d = d.classified(ErrorDomain::Content, "scenes", "validate", vec![Recovery::FixContent]);
                proof {
                    assert(d.details.unwrap().recovery@ =~= seq![Recovery::FixContent]);
                    lemma_scenes_error_stays(scenes@, assets@, k as int + 1, scenes@.len() as int);
                }
                return Err(d);
            },
        }
        k = k + 1;
    }
    Ok(())
}

/// The parameters and result type listed for `f`.
pub open spec fn listed_signature(sigs: Seq<(String, Signature)>, f: Seq<char>) -> Option<(Seq<(String, ValueType)>, Option<ValueType>)> {
    match assoc(sigs, f) {
        Some(g) => Some((g.params@, g.returns)),
        None => None,
    }
}

/// The parameters and result type of function `f` of a function table.
pub open spec fn function_signature(fns: Seq<(String, Function)>, f: Seq<char>) -> Option<(Seq<(String, ValueType)>, Option<ValueType>)> {
    match assoc(fns, f) {
        Some(x) => Some((x.params@, x.returns)),
        None => None,
    }
}

proof fn lemma_signatures_match(sigs: Seq<(String, Signature)>, fns: Seq<(String, Function)>, f: Seq<char>)
    requires
        sigs.len() == fns.len(),
        forall|j: int| 0 <= j < sigs.len() ==> (#[trigger] sigs[j]).0@ == fns[j].0@ && sigs[j].1.params@ == fns[j].1.params@
            && sigs[j].1.returns == fns[j].1.returns,
    ensures
        listed_signature(sigs, f) == function_signature(fns, f),
    decreases sigs.len(),
{
    if sigs.len() > 0 {
        assert forall|j: int| 0 <= j < sigs.drop_first().len() implies (#[trigger] sigs.drop_first()[j]).0@ == fns.drop_first()[j].0@
            && sigs.drop_first()[j].1.params@ == fns.drop_first()[j].1.params@ && sigs.drop_first()[j].1.returns == fns.drop_first()[j].1.returns by {
            assert(sigs[j + 1] == sigs.drop_first()[j]);
        }
        lemma_signatures_match(sigs.drop_first(), fns.drop_first(), f);
        assert(sigs[0].0@ == fns[0].0@);
    }
}

/// `s` is the scope a source program's functions are checked in: no
/// runtime rules, the program's variables typed by their initial values,
/// the signatures of its own functions, no module and no owners, its own
/// cues, choices and texts, and the task table of its cues.
pub open spec fn source_scope_of(p: Program, s: FunctionScope) -> bool {
    &&& !s.runtime
    &&& s.variables@ == typed_vars(p.variables@)
    &&& forall|f: Seq<char>| #[trigger] listed_signature(s.signatures@, f) == function_signature(p.functions@, f)
    &&& s.module is None
    &&& s.cue_owners@.len() == 0 && s.task_owners@.len() == 0 && s.choice_owners@.len() == 0
    &&& *s.cues == p.cues && *s.choices == p.choices && *s.texts == p.texts
    &&& forall|id: Seq<char>| #[trigger] holds_task(s.tasks@, id, task_effects(p.cues@, id))
}

/// Builds the scope that a source program's functions are checked in.
pub fn source_scope<'a>(p: &'a Program) -> (s: FunctionScope<'a>)
    ensures
        source_scope_of(*p, s),
{
    let mut sigs: Vec<(String, Signature)> = Vec::new();
    let mut k: usize = 0;
    while k < p.functions.len()
        invariant
            k <= p.functions@.len(),
            sigs@.len() == k,
            forall|j: int| 0 <= j < k ==> (#[trigger] sigs@[j]).0@ == p.functions@[j].0@ && sigs@[j].1.params@ == p.functions@[j].1.params@
                && sigs@[j].1.returns == p.functions@[j].1.returns,
        decreases p.functions@.len() - k,
    {
        let f = &p.functions[k];
        let mut params: Vec<(String, ValueType)> = Vec::new();
        copy_vars(&f.1.params, &mut params);
        proof {
            assert(params@ =~= f.1.params@);
        }
        sigs.push((f.0.clone(), Signature { params, returns: f.1.returns }));
        k = k + 1;
    }
    proof {
        assert forall|f: Seq<char>| #[trigger] listed_signature(sigs@, f) == function_signature(p.functions@, f) by {
            lemma_signatures_match(sigs@, p.functions@, f);
        }
    }
    FunctionScope {
        runtime: false,
        variables: type_table(&p.variables),
        signatures: sigs,
        module: None,
        cue_owners: Vec::new(),
        task_owners: Vec::new(),
        choice_owners: Vec::new(),
        cues: &p.cues,
        tasks: task_definitions(&p.cues),
        choices: &p.choices,
        texts: &p.texts,
    }
}

/// A failure of the program check: the diagnostic and, for a content
/// failure, the name of the check that classifies it (empty otherwise).
pub type Failure = (DiagText, Seq<char>);

/// A plain failure.
pub open spec fn plain(v: Option<DiagText>) -> Option<Failure> {
    match v {
        Some(d) => Some((d, Seq::empty())),
        None => None,
    }
}

/// A content failure of the check `operation`.
pub open spec fn content(v: Option<DiagText>, operation: Seq<char>) -> Option<Failure> {
    match v {
        Some(d) => Some((d, operation)),
        None => None,
    }
}

/// The first of two verdicts that finds a failure.
pub open spec fn first_of(a: Option<Failure>, b: Option<Failure>) -> Option<Failure> {
    match a {
        Some(x) => Some(x),
        None => b,
    }
}

/// The first failure of a source program, its functions checked in scope
/// `s`: header, locale configuration, font plans, translations, asset
/// sizes, scenes, cues, choices, then functions.
pub open spec fn program_error(p: Program, s: FunctionScope) -> Option<Failure> {
    let vars = typed_vars(p.variables@);
    first_of(plain(header_error(p)), first_of(plain(locale_config_error(p)), first_of(plain(font_plans_error(p)), first_of(
        plain(locales_error(vars, p.texts@, p.locales@, p.locales@.len() as int)),
        first_of(plain(assets_error(p.assets@, p.assets@.len() as int)), first_of(
            content(scenes_error(p.scenes@, p.assets@, p.scenes@.len() as int), "scenes"@),
            first_of(content(cues_error(p.cues@, p.scenes@, p.texts@, p.assets@), "cues"@), first_of(
                plain(choices_error(p.choices@, p.texts@, vars)),
                plain(functions_error(s, p.functions@, p.functions@.len() as int)),
            )),
        )),
    ))))
}

/// `r` reports the failure `v`, or succeeds when there is none.
pub open spec fn program_failed<T>(r: Result<T, Diagnostic>, v: Option<Failure>) -> bool {
    match v {
        None => r is Ok,
        Some(f) => if f.1.len() == 0 {
            fails_with(r, f.0.0, f.0.1, f.0.2)
        } else {
            content_failed(r, f.0, f.1)
        },
    }
}

/// Checks a source program before it runs, its functions in scope `s`
/// (`source_scope` builds the one for the program): the header, the locale
/// configuration and font plans, every contract against every translation,
/// asset sizes, scenes (clips aside), cues, choices and functions. The first
/// failing check is the error; scene and cue failures are classified as
/// content errors of their check.
pub fn validate_program(p: &Program, s: &FunctionScope) -> (r: Result<(), Diagnostic>)
    ensures
        program_failed(r, program_error(*p, *s)),
{
    proof {
        reveal_strlit("scenes");
        reveal_strlit("cues");
    }
    check_header(p)?;
    check_locale_config(p)?;
    let objects = object_table(&p.assets);
    check_plans("ui", &p.locale_config.ui, &p.assets, &objects)?;
    check_plans("text", &p.locale_config.text, &p.assets, &objects)?;
    let vars = type_table(&p.variables);
    let mut k: usize = 0;
    while k < p.locales.len()
        invariant
            k <= p.locales@.len(),
            vars@ == typed_vars(p.variables@),
            header_error(*p) is None,
            locale_config_error(*p) is None,
            font_plans_error(*p) is None,
            locales_error(vars@, p.texts@, p.locales@, k as int) is None,
        decreases p.locales@.len() - k,
    {
        match check_locale_texts(&vars, &p.texts, p.locales[k].0.as_str(), &p.locales[k].1) {
            Ok(()) => {},
            Err(d) => {
                proof {
                    lemma_locales_error_stays(vars@, p.texts@, p.locales@, k as int + 1, p.locales@.len() as int);
                }
                return Err(d);
            },
        }
        k = k + 1;
    }
    check_assets(&p.assets)?;
    check_scenes(&p.scenes, &p.assets)?;
    validate_cues(&p.cues, &p.scenes, &p.texts, &p.assets)?;
    validate_choices(&p.choices, &p.texts, &vars)?;
    validate_functions(s, &p.functions)
}

/// The tables of a program that its executable index is built from.
pub open spec fn program_tables(p: Program) -> ProgramTables {
    ProgramTables { functions: p.functions, scenes: p.scenes, cues: p.cues, assets: p.assets }
}

/// Compiles a source program: checks it first (in the scope `source_scope`
/// builds), then builds its executable index. It succeeds exactly when the
/// program passes its check and `compile` accepts its tables; a failed
/// check is reported as `validate_program` reports it.
pub fn compile_program(p: Program) -> (r: Result<Executable, Diagnostic>)
    ensures
        exists|s: FunctionScope| #[trigger] source_scope_of(p, s) && match program_error(p, s) {
            Some(f) => program_failed(r, Some(f)),
            None => (r is Ok <==> keys_distinct(program_addresses(p.functions@)) && cue_names_distinct(p.cues@))
                && (r matches Ok(e) ==> e.program == program_tables(p) && index_valid(e))
                && (r matches Err(d) ==> bad_index(d)),
        },
{
    let verdict = {
        let s = source_scope(&p);
        let v = validate_program(&p, &s);
        proof {
            assert(source_scope_of(p, s));
        }
        v
    };
    match verdict {
        Err(d) => Err(d),
        Ok(()) => compile(ProgramTables { functions: p.functions, scenes: p.scenes, cues: p.cues, assets: p.assets }),
    }
}

} // verus!
