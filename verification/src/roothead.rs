//! The checks of a runtime root's header and module indexes: its format,
//! limits, stage and locales, the capabilities it requires, its entry, the
//! module index with each module's functions and texts, the function index
//! and the ownership indexes.
use crate::assoc::{assoc, contains_name, get_entry};
use crate::flow::reports;
use crate::format::{Diagnostic, Stage, ValueType};
use crate::identity::{is_hash_text, valid_hash};
use crate::packages::{first_of, lemma_first_of_hit};
use crate::rootindex::{root_index_error, shipped_locale, validate_root_index, RootIndex};
use crate::source::{is_known_capability, known_capability};
use crate::strings::{str_eq, utf8_bytes};
use crate::table::names_in;
use crate::text::DiagText;
use vstd::prelude::*;
use vstd::string::*;

verus! {

/// The format version of a runtime root.
pub const RUNTIME_FORMAT_VERSION: u32 = 2;

/// What a caller needs to know of a function: its parameters, its result,
/// its entry block and the first operation there.
#[derive(Debug, Clone)]
pub struct FunctionSignature {
    pub params: Vec<(String, ValueType)>,
    pub returns: Option<ValueType>,
    pub entry: String,
    pub entry_op: String,
}

/// An entry of the function index: the module that owns the function and
/// the signature it is called by.
#[derive(Debug, Clone)]
pub struct FunctionIndexEntry {
    pub module: String,
    pub signature: FunctionSignature,
}

/// An entry of the module index.
#[derive(Debug, Clone)]
pub struct ModuleIndex {
    pub functions: Vec<(String, FunctionSignature)>,
    pub code: String,
    pub static_content: String,
    pub locales: Vec<(String, String)>,
    pub texts: Vec<String>,
}

/// The identity of a text's contract, with the module that owns the text.
#[derive(Debug, Clone)]
pub struct TextIdentityEntry {
    pub module: String,
    pub source_revision: u32,
    pub contract_revision: u32,
    pub meaning_revision: u32,
    pub contract_digest: String,
}

/// The header and module indexes of a runtime root.
#[derive(Debug, Clone)]
pub struct RootHead {
    pub format: u32,
    pub game_id: String,
    pub entry: String,
    pub requires: Vec<String>,
    pub stage: Stage,
    pub locales: Vec<String>,
    pub default_locale: String,
    pub asset_count: usize,
    pub function_index: Vec<(String, FunctionIndexEntry)>,
    pub modules: Vec<(String, ModuleIndex)>,
    pub text_contracts: Vec<(String, TextIdentityEntry)>,
    pub scene_owners: Vec<(String, String)>,
    pub cue_owners: Vec<(String, String)>,
    pub choice_owners: Vec<(String, String)>,
    pub text_owners: Vec<(String, String)>,
    pub task_owners: Vec<(String, String)>,
}

/// The header is broken: another format, no game id, more than 4096
/// indexed functions, 100000 text contracts or 10000 assets, a stage side
/// outside `1..=8192`, a default locale the root does not list, no locale,
/// or a locale this player does not ship.
pub open spec fn head_broken(r: RootHead) -> bool {
    ||| r.format != RUNTIME_FORMAT_VERSION
    ||| r.game_id@.len() == 0
    ||| r.function_index@.len() > 4096
    ||| r.text_contracts@.len() > 100000
    ||| r.asset_count > 10000
    ||| r.stage.width == 0 || r.stage.height == 0 || r.stage.width > 8192 || r.stage.height > 8192
    ||| !names_in(r.locales@).contains(r.default_locale@)
    ||| r.locales@.len() == 0
    ||| exists|j: int| 0 <= j < r.locales@.len() && !shipped_locale((#[trigger] r.locales@[j])@)
}

/// The error of required capability `i`: one the engine lacks.
pub open spec fn capability_check(r: RootHead) -> spec_fn(int) -> Option<DiagText> {
    |i: int| if known_capability(r.requires@[i]@) {
        None
    } else {
        Some(("E_CAPABILITY"@, "requires"@, r.requires@[i]@))
    }
}

/// Two signatures say the same.
pub open spec fn same_signature(a: FunctionSignature, b: FunctionSignature) -> bool {
    &&& a.params@.len() == b.params@.len()
    &&& forall|i: int| 0 <= i < a.params@.len() ==> (#[trigger] a.params@[i]).0@ == b.params@[i].0@ && a.params@[i].1 == b.params@[i].1
    &&& a.returns == b.returns
    &&& a.entry@ == b.entry@
    &&& a.entry_op@ == b.entry_op@
}

/// The fields of module `id` are broken: no name, no function, a code or
/// static content that is no content identity, a locale the root does not
/// list or whose digest is no content identity, or texts without a
/// translation for each of the root's locales.
pub open spec fn module_fields_broken(r: RootHead, id: Seq<char>, m: ModuleIndex) -> bool {
    ||| id.len() == 0
    ||| m.functions@.len() == 0
    ||| !is_hash_text(utf8_bytes(m.code@))
    ||| !is_hash_text(utf8_bytes(m.static_content@))
    ||| exists|j: int| 0 <= j < m.locales@.len() && !names_in(r.locales@).contains((#[trigger] m.locales@[j]).0@)
    ||| exists|j: int| 0 <= j < m.locales@.len() && !is_hash_text(utf8_bytes((#[trigger] m.locales@[j]).1@))
    ||| m.texts@.len() > 0 && exists|j: int| 0 <= j < r.locales@.len()
        && assoc(m.locales@, (#[trigger] r.locales@[j])@) is None
}

/// The error of function `j` of module `id`: one the function index lacks,
/// or whose index entry names another module or another signature, or whose
/// signature has no entry block or entry operation.
pub open spec fn function_check(r: RootHead, id: Seq<char>, m: ModuleIndex) -> spec_fn(int) -> Option<DiagText> {
    |j: int| {
        let f = m.functions@[j];
        match assoc(r.function_index@, f.0@) {
            None => Some(("E_MODULE"@, f.0@, "function index missing"@)),
            Some(ix) => if ix.module@ != id || !same_signature(ix.signature, f.1) || f.1.entry@.len() == 0
                || f.1.entry_op@.len() == 0 {
                Some(("E_MODULE"@, f.0@, "function interface ownership mismatch"@))
            } else {
                None
            },
        }
    }
}

/// The texts the text owner index gives to module `id`.
pub open spec fn owned_texts(owners: Seq<(String, String)>, id: Seq<char>) -> Set<Seq<char>> {
    Set::new(|t: Seq<char>| exists|k: int| 0 <= k < owners.len() && (#[trigger] owners[k]).0@ == t && owners[k].1@ == id)
}

/// The error of module `id`: broken fields, then the first broken
/// function, then texts other than those the owner index gives it.
pub open spec fn module_error(r: RootHead, id: Seq<char>, m: ModuleIndex) -> Option<DiagText> {
    if module_fields_broken(r, id, m) {
        Some(("E_MODULE"@, id, "invalid module root index"@))
    } else {
        match first_of(m.functions@.len() as int, function_check(r, id, m)) {
            Some(d) => Some(d),
            None => if owned_texts(r.text_owners@, id) != names_in(m.texts@) {
                Some(("E_MODULE"@, id, "text ownership index mismatch"@))
            } else {
                None
            },
        }
    }
}

/// The error of module entry `i`.
pub open spec fn module_check(r: RootHead) -> spec_fn(int) -> Option<DiagText> {
    |i: int| module_error(r, r.modules@[i].0@, r.modules@[i].1)
}

/// Function index entry `i` is backed by its module: the module it names
/// lists the function with the same signature.
pub open spec fn index_backed(r: RootHead, i: int) -> bool {
    let e = r.function_index@[i];
    match assoc(r.modules@, e.1.module@) {
        Some(m) => match assoc(m.functions@, e.0@) {
            Some(s) => same_signature(s, e.1.signature),
            None => false,
        },
        None => false,
    }
}

/// The error of function index entry `i`: an orphan or a mismatch.
pub open spec fn index_check(r: RootHead) -> spec_fn(int) -> Option<DiagText> {
    |i: int| if index_backed(r, i) {
        None
    } else {
        Some(("E_MODULE"@, "function_index"@, "orphan or mismatched function"@))
    }
}

/// Every owner named in `owners` is an indexed module.
pub open spec fn owners_known(r: RootHead, owners: Seq<(String, String)>) -> bool {
    forall|j: int| 0 <= j < owners.len() ==> assoc(r.modules@, (#[trigger] owners[j]).1@) is Some
}

/// Text contract entry `i` is sound: its text is owned by the module it
/// names, which is indexed; its revisions are positive; and its digest is a
/// content identity.
pub open spec fn contract_sound(r: RootHead, i: int) -> bool {
    let (id, c) = r.text_contracts@[i];
    &&& assoc(r.text_owners@, id@) matches Some(o) && o@ == c.module@
    &&& assoc(r.modules@, c.module@) is Some
    &&& c.source_revision != 0 && c.contract_revision != 0 && c.meaning_revision != 0
    &&& is_hash_text(utf8_bytes(c.contract_digest@))
}

/// The ownership indexes are broken: an owner that is no indexed module, an
/// unsound text contract entry, or an owned text without a contract.
pub open spec fn ownership_broken(r: RootHead) -> bool {
    ||| !owners_known(r, r.scene_owners@)
    ||| !owners_known(r, r.cue_owners@)
    ||| !owners_known(r, r.choice_owners@)
    ||| !owners_known(r, r.text_owners@)
    ||| !owners_known(r, r.task_owners@)
    ||| exists|i: int| 0 <= i < r.text_contracts@.len() && !#[trigger] contract_sound(r, i)
    ||| exists|k: int| 0 <= k < r.text_owners@.len() && assoc(r.text_contracts@, (#[trigger] r.text_owners@[k]).0@) is None
}

/// The first error of a runtime root's header and module indexes, checked
/// in this order: the header, the required capabilities, the entry and its
/// parameters, the number of modules, each module, the function index and
/// the ownership indexes.
pub open spec fn root_head_error(r: RootHead) -> Option<DiagText> {
    let bad: DiagText = ("E_RUNTIME_ROOT"@, "program"@, "invalid runtime root index or configuration"@);
    if head_broken(r) {
        Some(bad)
    } else {
        match first_of(r.requires@.len() as int, capability_check(r)) {
            Some(d) => Some(d),
            None => match assoc(r.function_index@, r.entry@) {
                None => Some(bad),
                Some(ix) => if ix.signature.params@.len() != 0 {
                    Some(("E_CALL"@, "entry"@, "entry requires arguments"@))
                } else if r.modules@.len() > 4096 {
                    Some(("E_LIMIT"@, "modules"@, "too many modules"@))
                } else {
                    match first_of(r.modules@.len() as int, module_check(r)) {
                        Some(d) => Some(d),
                        None => match first_of(r.function_index@.len() as int, index_check(r)) {
                            Some(d) => Some(d),
                            None => if ownership_broken(r) {
                                Some(("E_MODULE"@, "ownership"@, "invalid runtime ownership index"@))
                            } else {
                                None
                            },
                        },
                    }
                },
            },
        }
    }
}

fn head_ok(r: &RootHead) -> (b: bool)
    ensures
        b == !head_broken(*r),
{
    if r.format != RUNTIME_FORMAT_VERSION || r.game_id.as_str().as_bytes().len() == 0 || r.function_index.len() > 4096
        || r.text_contracts.len() > 100000 || r.asset_count > 10000 || r.stage.width == 0 || r.stage.height == 0
        || r.stage.width > 8192 || r.stage.height > 8192 || !contains_name(&r.locales, r.default_locale.as_str())
        || r.locales.len() == 0 {
        return false;
    }
    let mut j: usize = 0;
    while j < r.locales.len()
        invariant
            j <= r.locales@.len(),
            forall|k: int| 0 <= k < j ==> shipped_locale((#[trigger] r.locales@[k])@),
        decreases r.locales@.len() - j,
    {
        let l = r.locales[j].as_str();
        if !str_eq(l, "zh-Hans") && !str_eq(l, "en") {
            return false;
        }
        j = j + 1;
    }
    true
}

fn same_signature_now(a: &FunctionSignature, b: &FunctionSignature) -> (r: bool)
    ensures
        r == same_signature(*a, *b),
{
    if a.params.len() != b.params.len() {
        return false;
    }
    let mut i: usize = 0;
    while i < a.params.len()
        invariant
            a.params@.len() == b.params@.len(),
            i <= a.params@.len(),
            forall|k: int| 0 <= k < i ==> (#[trigger] a.params@[k]).0@ == b.params@[k].0@ && a.params@[k].1 == b.params@[k].1,
        decreases a.params@.len() - i,
    {
        if !str_eq(a.params[i].0.as_str(), b.params[i].0.as_str()) || a.params[i].1 != b.params[i].1 {
            return false;
        }
        i = i + 1;
    }
    let same_returns = match (&a.returns, &b.returns) {
        (Some(x), Some(y)) => *x == *y,
        (None, None) => true,
        _ => false,
    };
    same_returns && str_eq(a.entry.as_str(), b.entry.as_str()) && str_eq(a.entry_op.as_str(), b.entry_op.as_str())
}

fn check_capabilities(r: &RootHead) -> (res: Result<(), Diagnostic>)
    ensures
        reports(res, first_of(r.requires@.len() as int, capability_check(*r))),
{
    let ghost f = capability_check(*r);
    let mut i: usize = 0;
    while i < r.requires.len()
        invariant
            i <= r.requires@.len(),
            f == capability_check(*r),
            first_of(i as int, f) is None,
        decreases r.requires@.len() - i,
    {
        if !is_known_capability(r.requires[i].as_str()) {
            proof {
                lemma_first_of_hit(f, i as int, r.requires@.len() as int);
            }
            return Err(Diagnostic::new("E_CAPABILITY", "requires", r.requires[i].as_str()));
        }
        i = i + 1;
    }
    Ok(())
}

fn module_fields_ok(r: &RootHead, id: &str, m: &ModuleIndex) -> (b: bool)
    ensures
        b == !module_fields_broken(*r, id@, *m),
{
    if id.as_bytes().len() == 0 || m.functions.len() == 0 || !valid_hash(m.code.as_str()) || !valid_hash(m.static_content.as_str()) {
        return false;
    }
    let mut j: usize = 0;
    while j < m.locales.len()
        invariant
            j <= m.locales@.len(),
            forall|k: int| 0 <= k < j ==> names_in(r.locales@).contains((#[trigger] m.locales@[k]).0@)
                && is_hash_text(utf8_bytes(m.locales@[k].1@)),
        decreases m.locales@.len() - j,
    {
        if !contains_name(&r.locales, m.locales[j].0.as_str()) || !valid_hash(m.locales[j].1.as_str()) {
            return false;
        }
        j = j + 1;
    }
    if m.texts.len() > 0 {
        let mut k: usize = 0;
        while k < r.locales.len()
            invariant
                m.texts@.len() > 0,
                k <= r.locales@.len(),
                forall|q: int| 0 <= q < k ==> assoc(m.locales@, (#[trigger] r.locales@[q])@) is Some,
            decreases r.locales@.len() - k,
        {
            if get_entry(&m.locales, r.locales[k].as_str()).is_none() {
                return false;
            }
            k = k + 1;
        }
    }
    true
}

fn check_functions(r: &RootHead, id: &str, m: &ModuleIndex) -> (res: Result<(), Diagnostic>)
    ensures
        reports(res, first_of(m.functions@.len() as int, function_check(*r, id@, *m))),
{
    let ghost f = function_check(*r, id@, *m);
    let mut j: usize = 0;
    while j < m.functions.len()
        invariant
            j <= m.functions@.len(),
            f == function_check(*r, id@, *m),
            first_of(j as int, f) is None,
        decreases m.functions@.len() - j,
    {
        let name = m.functions[j].0.as_str();
        let sig = &m.functions[j].1;
        match get_entry(&r.function_index, name) {
            None => {
                proof {
                    lemma_first_of_hit(f, j as int, m.functions@.len() as int);
                }
                return Err(Diagnostic::new("E_MODULE", name, "function index missing"));
            },
            Some(ix) => {
                if !str_eq(ix.module.as_str(), id) || !same_signature_now(&ix.signature, sig) || sig.entry.as_str().as_bytes().len() == 0
                    || sig.entry_op.as_str().as_bytes().len() == 0 {
                    proof {
                        lemma_first_of_hit(f, j as int, m.functions@.len() as int);
                    }
                    return Err(Diagnostic::new("E_MODULE", name, "function interface ownership mismatch"));
                }
            },
        }
        j = j + 1;
    }
    Ok(())
}

fn texts_match(owners: &Vec<(String, String)>, id: &str, texts: &Vec<String>) -> (b: bool)
    ensures
        b == (owned_texts(owners@, id@) == names_in(texts@)),
{
    let mut k: usize = 0;
    while k < owners.len()
        invariant
            k <= owners@.len(),
            forall|q: int| 0 <= q < k && (#[trigger] owners@[q]).1@ == id@ ==> names_in(texts@).contains(owners@[q].0@),
        decreases owners@.len() - k,
    {
        if str_eq(owners[k].1.as_str(), id) && !contains_name(texts, owners[k].0.as_str()) {
            proof {
                assert(owned_texts(owners@, id@).contains(owners@[k as int].0@));
            }
            return false;
        }
        k = k + 1;
    }
    let mut t: usize = 0;
    while t < texts.len()
        invariant
            t <= texts@.len(),
            forall|q: int| 0 <= q < owners@.len() && (#[trigger] owners@[q]).1@ == id@ ==> names_in(texts@).contains(owners@[q].0@),
            forall|p: int| 0 <= p < t ==> owned_texts(owners@, id@).contains((#[trigger] texts@[p])@),
        decreases texts@.len() - t,
    {
        let mut k: usize = 0;
        let mut found = false;
        while k < owners.len() && !found
            invariant
                k <= owners@.len(),
                t < texts@.len(),
                found ==> 0 < k && owners@[k - 1].0@ == texts@[t as int]@ && owners@[k - 1].1@ == id@,
                !found ==> forall|q: int| 0 <= q < k ==> !((#[trigger] owners@[q]).0@ == texts@[t as int]@ && owners@[q].1@ == id@),
            decreases owners@.len() - k,
        {
            if str_eq(owners[k].0.as_str(), texts[t].as_str()) && str_eq(owners[k].1.as_str(), id) {
                found = true;
            }
            k = k + 1;
        }
        if !found {
            proof {
                assert(names_in(texts@).contains(texts@[t as int]@));
                if owned_texts(owners@, id@).contains(texts@[t as int]@) {
                    let q = choose|q: int| 0 <= q < owners@.len() && (#[trigger] owners@[q]).0@ == texts@[t as int]@ && owners@[q].1@ == id@;
                    assert(!(owners@[q].0@ == texts@[t as int]@ && owners@[q].1@ == id@));
                }
            }
            return false;
        }
        proof {
            assert(owners@[k - 1].0@ == texts@[t as int]@ && owners@[k - 1].1@ == id@);
            assert(owned_texts(owners@, id@).contains(texts@[t as int]@));
        }
        t = t + 1;
    }
    proof {
        assert forall|x: Seq<char>| owned_texts(owners@, id@).contains(x) <==> names_in(texts@).contains(x) by {
            if owned_texts(owners@, id@).contains(x) {
                let q = choose|q: int| 0 <= q < owners@.len() && (#[trigger] owners@[q]).0@ == x && owners@[q].1@ == id@;
                assert(names_in(texts@).contains(owners@[q].0@));
            }
            if names_in(texts@).contains(x) {
                let p = choose|p: int| 0 <= p < texts@.len() && (#[trigger] texts@[p])@ == x;
                assert(owned_texts(owners@, id@).contains(texts@[p]@));
            }
        }
        assert(owned_texts(owners@, id@) =~= names_in(texts@));
    }
    true
}

fn check_module(r: &RootHead, id: &str, m: &ModuleIndex) -> (res: Result<(), Diagnostic>)
    ensures
        reports(res, module_error(*r, id@, *m)),
{
    if !module_fields_ok(r, id, m) {
        return Err(Diagnostic::new("E_MODULE", id, "invalid module root index"));
    }
    let res = check_functions(r, id, m);
    if res.is_err() {
        return res;
    }
    if !texts_match(&r.text_owners, id, &m.texts) {
        return Err(Diagnostic::new("E_MODULE", id, "text ownership index mismatch"));
    }
    Ok(())
}

fn check_modules(r: &RootHead) -> (res: Result<(), Diagnostic>)
    ensures
        reports(res, first_of(r.modules@.len() as int, module_check(*r))),
{
    let ghost f = module_check(*r);
    let mut i: usize = 0;
    while i < r.modules.len()
        invariant
            i <= r.modules@.len(),
            f == module_check(*r),
            first_of(i as int, f) is None,
        decreases r.modules@.len() - i,
    {
        let res = check_module(r, r.modules[i].0.as_str(), &r.modules[i].1);
        if res.is_err() {
            proof {
                lemma_first_of_hit(f, i as int, r.modules@.len() as int);
            }
            return res;
        }
        i = i + 1;
    }
    Ok(())
}

fn check_function_index(r: &RootHead) -> (res: Result<(), Diagnostic>)
    ensures
        reports(res, first_of(r.function_index@.len() as int, index_check(*r))),
{
    let ghost f = index_check(*r);
    let mut i: usize = 0;
    while i < r.function_index.len()
        invariant
            i <= r.function_index@.len(),
            f == index_check(*r),
            first_of(i as int, f) is None,
        decreases r.function_index@.len() - i,
    {
        let name = r.function_index[i].0.as_str();
        let e = &r.function_index[i].1;
        let backed = match get_entry(&r.modules, e.module.as_str()) {
            Some(m) => match get_entry(&m.functions, name) {
                Some(s) => same_signature_now(s, &e.signature),
                None => false,
            },
            None => false,
        };
        if !backed {
            proof {
                lemma_first_of_hit(f, i as int, r.function_index@.len() as int);
            }
            return Err(Diagnostic::new("E_MODULE", "function_index", "orphan or mismatched function"));
        }
        i = i + 1;
    }
    Ok(())
}

fn owners_known_now(r: &RootHead, owners: &Vec<(String, String)>) -> (b: bool)
    ensures
        b == owners_known(*r, owners@),
{
    let mut j: usize = 0;
    while j < owners.len()
        invariant
            j <= owners@.len(),
            forall|k: int| 0 <= k < j ==> assoc(r.modules@, (#[trigger] owners@[k]).1@) is Some,
        decreases owners@.len() - j,
    {
        if get_entry(&r.modules, owners[j].1.as_str()).is_none() {
            return false;
        }
        j = j + 1;
    }
    true
}

fn ownership_ok(r: &RootHead) -> (b: bool)
    ensures
        b == !ownership_broken(*r),
{
    if !owners_known_now(r, &r.scene_owners) || !owners_known_now(r, &r.cue_owners) || !owners_known_now(r, &r.choice_owners)
        || !owners_known_now(r, &r.text_owners) || !owners_known_now(r, &r.task_owners) {
        return false;
    }
    let mut i: usize = 0;
    while i < r.text_contracts.len()
        invariant
            i <= r.text_contracts@.len(),
            forall|k: int| 0 <= k < i ==> #[trigger] contract_sound(*r, k),
        decreases r.text_contracts@.len() - i,
    {
        let id = r.text_contracts[i].0.as_str();
        let c = &r.text_contracts[i].1;
        let owner_ok = match get_entry(&r.text_owners, id) {
            Some(o) => str_eq(o.as_str(), c.module.as_str()),
            None => false,
        };
        if !owner_ok || get_entry(&r.modules, c.module.as_str()).is_none() || c.source_revision == 0 || c.contract_revision == 0
            || c.meaning_revision == 0 || !valid_hash(c.contract_digest.as_str()) {
            proof {
                assert(!contract_sound(*r, i as int));
            }
            return false;
        }
        i = i + 1;
    }
    let mut k: usize = 0;
    while k < r.text_owners.len()
        invariant
            k <= r.text_owners@.len(),
            forall|q: int| 0 <= q < k ==> assoc(r.text_contracts@, (#[trigger] r.text_owners@[q]).0@) is Some,
            forall|q: int| 0 <= q < r.text_contracts@.len() ==> #[trigger] contract_sound(*r, q),
        decreases r.text_owners@.len() - k,
    {
        if get_entry(&r.text_contracts, r.text_owners[k].0.as_str()).is_none() {
            return false;
        }
        k = k + 1;
    }
    true
}

/// Checks a runtime root's header and module indexes: the format, the game
/// id, the table limits, the stage and the locale set; every required
/// capability; an entry the function index holds, without parameters; at
/// most 4096 modules; every module (a name, functions, content identities
/// for its code, static content and locale bundles, only the root's
/// locales, all of them where it has texts; each function indexed under the
/// module with the same signature, an entry block and an entry operation;
/// exactly the texts the owner index gives it); every function index entry
/// backed by its module; and the ownership indexes (owners are indexed
/// modules, text contracts are sound and owned, owned texts have
/// contracts). The first failing check is the error.
pub fn validate_root_head(r: &RootHead) -> (res: Result<(), Diagnostic>)
    ensures
        reports(res, root_head_error(*r)),
{
    if !head_ok(r) {
        return Err(Diagnostic::new("E_RUNTIME_ROOT", "program", "invalid runtime root index or configuration"));
    }
    let res = check_capabilities(r);
    if res.is_err() {
        return res;
    }
    match get_entry(&r.function_index, r.entry.as_str()) {
        None => {
            return Err(Diagnostic::new("E_RUNTIME_ROOT", "program", "invalid runtime root index or configuration"));
        },
        Some(ix) => {
            if ix.signature.params.len() != 0 {
                return Err(Diagnostic::new("E_CALL", "entry", "entry requires arguments"));
            }
        },
    }
    if r.modules.len() > 4096 {
        return Err(Diagnostic::new("E_LIMIT", "modules", "too many modules"));
    }
    let res = check_modules(r);
    if res.is_err() {
        return res;
    }
    let res = check_function_index(r);
    if res.is_err() {
        return res;
    }
    if !ownership_ok(r) {
        return Err(Diagnostic::new("E_MODULE", "ownership", "invalid runtime ownership index"));
    }
    Ok(())
}

/// The first error of a whole runtime root: that of its header and module
/// indexes, else that of its asset, locale and ownership indexes.
pub open spec fn runtime_root_error(h: RootHead, i: RootIndex) -> Option<DiagText> {
    match root_head_error(h) {
        Some(d) => Some(d),
        None => root_index_error(i),
    }
}

/// Checks a runtime root: its header and module indexes first, then its
/// asset, locale and ownership indexes, both parts read from the same root.
pub fn validate_runtime_root(h: &RootHead, i: &RootIndex) -> (res: Result<(), Diagnostic>)
    ensures
        reports(res, runtime_root_error(*h, *i)),
{
    let res = validate_root_head(h);
    if res.is_err() {
        return res;
    }
    validate_root_index(i)
}

} // verus!
