//! Language negotiation and per-surface font plans.
use crate::identity::{content_digest, digest};
use crate::strings::{err_text, bytes_have_prefix, has_prefix, owned, str_eq, utf8_bytes, concat};
use crate::text::string_views;
use vstd::prelude::*;
use vstd::string::*;

verus! {

/// An ordered list of font assets for one locale, with its identity.
#[derive(Debug, Clone)]
pub struct LocaleFontPlan {
    pub fonts: Vec<String>,
    pub digest: String,
}

/// Default languages and font plans of the user interface and of story text.
#[derive(Debug, Clone)]
pub struct LocaleConfig {
    pub default_ui: String,
    pub default_text: String,
    pub ui: Vec<(String, LocaleFontPlan)>,
    pub text: Vec<(String, LocaleFontPlan)>,
}

/// The object identity that `objects` records for `font`, if any. The
/// table lists an asset's name once, as an asset map does; were a name
/// listed twice, its first entry would count.
pub open spec fn font_object(objects: Seq<(String, String)>, font: Seq<char>) -> Option<Seq<char>>
    decreases objects.len(),
{
    if objects.len() == 0 {
        None
    } else if objects[0].0@ == font {
        Some(objects[0].1@)
    } else {
        font_object(objects.drop_first(), font)
    }
}

/// The canonical JSON bytes that `serde_json` writes for `(1u32, [(font, object)])`.
pub uninterp spec fn font_plan_json(fonts: Seq<Seq<char>>, objects: Seq<Option<Seq<char>>>) -> Seq<u8>;

/// Calls `serde_json::to_vec` on `(1u32, pairs of font and object identity)`.
/// Claims only that the bytes are named by `font_plan_json` of the same lists.
#[verifier::external_body]
fn plan_json(fonts: &[String], objects: &Vec<Option<String>>) -> (r: Vec<u8>)
    requires
        fonts@.len() == objects@.len(),
    ensures
        r@ == font_plan_json(string_views(fonts@), objects@.map_values(|o: Option<String>| match o {
            Some(s) => Some(s@),
            None => None,
        })),
{
    let pairs: Vec<(&String, Option<&String>)> = fonts.iter().zip(objects.iter()).map(|(f, o)| (f, o.as_ref())).collect();
    match serde_json::to_vec(&(1u32, &pairs)) {
        Ok(bytes) => bytes,
        Err(_) => Vec::new(),
    }
}

/// The identity of a font plan given the object identities of its fonts.
pub open spec fn font_plan_identity(fonts: Seq<String>, objects: Seq<(String, String)>) -> Seq<char> {
    content_digest(font_plan_json(string_views(fonts), fonts.map_values(|f: String| font_object(objects, f@))))
}

fn lookup_object(objects: &[(String, String)], font: &String) -> (r: Option<String>)
    ensures
        match r {
            Some(s) => font_object(objects@, font@) == Some(s@),
            None => font_object(objects@, font@) is None,
        },
{
    let mut i: usize = 0;
    assert(objects@.subrange(0, objects@.len() as int) =~= objects@);
    while i < objects.len()
        invariant
            i <= objects@.len(),
            font_object(objects@, font@) == font_object(objects@.subrange(i as int, objects@.len() as int), font@),
        decreases objects@.len() - i,
    {
        assert(objects@.subrange(i as int, objects@.len() as int).drop_first() =~= objects@.subrange(i + 1, objects@.len() as int));
        if str_eq(objects[i].0.as_str(), font.as_str()) {
            return Some(objects[i].1.clone());
        }
        i = i + 1;
    }
    None
}

impl LocaleFontPlan {
    /// A plan whose fonts have no recorded object identities yet.
    pub fn new(fonts: Vec<String>) -> (p: LocaleFontPlan)
        ensures
            p.fonts == fonts,
            p.digest@ == font_plan_identity(fonts@, Seq::empty()),
    {
        let empty: Vec<(String, String)> = Vec::new();
        let digest = Self::digest_for(fonts.as_slice(), empty.as_slice());
        LocaleFontPlan { fonts, digest }
    }

    /// The identity of an ordered font list given each font's object identity.
    pub fn digest_for(fonts: &[String], objects: &[(String, String)]) -> (d: String)
        ensures
            d@ == font_plan_identity(fonts@, objects@),
    {
        let mut ids: Vec<Option<String>> = Vec::new();
        let mut i: usize = 0;
        while i < fonts.len()
            invariant
                i <= fonts@.len(),
                ids@.len() == i,
                forall|j: int| 0 <= j < i ==> match #[trigger] ids@[j] {
                    Some(s) => font_object(objects@, fonts@[j]@) == Some(s@),
                    None => font_object(objects@, fonts@[j]@) is None,
                },
            decreases fonts@.len() - i,
        {
            let o = lookup_object(objects, &fonts[i]);
            ids.push(o);
            i = i + 1;
        }
        let bytes = plan_json(fonts, &ids);
        assert(ids@.map_values(|o: Option<String>| match o {
            Some(s) => Some(s@),
            None => None,
        }) =~= fonts@.map_values(|f: String| font_object(objects@, f@)));
        digest(bytes.as_slice())
    }
}

/// `l` is one of the supported locales.
pub open spec fn supported_locale(l: Seq<char>) -> bool {
    l == "zh-Hans"@ || l == "en"@
}

/// A list of strings contains `x`.
pub open spec fn names_contain(v: Seq<String>, x: Seq<char>) -> bool {
    exists|i: int| 0 <= i < v.len() && (#[trigger] v[i])@ == x
}

fn contains_name(v: &[String], x: &str) -> (r: bool)
    ensures
        r == names_contain(v@, x@),
{
    let mut i: usize = 0;
    while i < v.len()
        invariant
            i <= v@.len(),
            forall|j: int| 0 <= j < i ==> (#[trigger] v@[j])@ != x@,
        decreases v@.len() - i,
    {
        if str_eq(v[i].as_str(), x) {
            return true;
        }
        i = i + 1;
    }
    false
}

/// The locale alias tried when the exact request is not available.
pub open spec fn locale_alias(requested: Seq<char>, default: Seq<char>) -> Seq<char> {
    if requested == "zh"@ || requested == "zh-CN"@ || requested == "zh-SG"@ {
        "zh-Hans"@
    } else if bytes_have_prefix(utf8_bytes(requested), utf8_bytes("en-"@)) {
        "en"@
    } else {
        default
    }
}

/// The locale chosen for a request.
pub open spec fn negotiated(requested: Seq<char>, available: Seq<String>, default: Seq<char>) -> Seq<char> {
    if names_contain(available, requested) {
        requested
    } else if names_contain(available, locale_alias(requested, default)) {
        locale_alias(requested, default)
    } else {
        default
    }
}

/// Picks an available locale: the exact request, else a known alias (Chinese
/// regions to Simplified Chinese, `en-*` to `en`), else the default. Scripts are
/// never guessed.
pub fn negotiate(requested: &str, available: &[String], default: &str) -> (r: String)
    ensures
        r@ == negotiated(requested@, available@, default@),
{
    if contains_name(available, requested) {
        return owned(requested);
    }
    let alias: &str = if str_eq(requested, "zh") || str_eq(requested, "zh-CN") || str_eq(requested, "zh-SG") {
        "zh-Hans"
    } else if has_prefix(requested.as_bytes(), "en-".as_bytes()) {
        "en"
    } else {
        default
    };
    if contains_name(available, alias) {
        owned(alias)
    } else {
        owned(default)
    }
}


/// Unicode `White_Space` characters (what `char::is_whitespace` accepts).
pub open spec fn is_unicode_whitespace(c: char) -> bool {
    let u = c as u32;
    (0x09 <= u && u <= 0x0d) || u == 0x20 || u == 0x85 || u == 0xa0 || u == 0x1680 || (0x2000
        <= u && u <= 0x200a) || u == 0x2028 || u == 0x2029 || u == 0x202f || u == 0x205f || u
        == 0x3000
}

/// `s` is empty after trimming white space on both ends.
pub open spec fn is_blank(s: Seq<char>) -> bool {
    forall|i: int| 0 <= i < s.len() ==> is_unicode_whitespace(#[trigger] s[i])
}

fn whitespace_char(c: char) -> (r: bool)
    ensures
        r == is_unicode_whitespace(c),
{
    let u = c as u32;
    (0x09 <= u && u <= 0x0d) || u == 0x20 || u == 0x85 || u == 0xa0 || u == 0x1680 || (0x2000
        <= u && u <= 0x200a) || u == 0x2028 || u == 0x2029 || u == 0x202f || u == 0x205f || u
        == 0x3000
}

/// True when `s` holds only white space.
pub fn blank(s: &str) -> (r: bool)
    ensures
        r == is_blank(s@),
{
    let n = s.unicode_len();
    let mut i: usize = 0;
    while i < n
        invariant
            n == s@.len(),
            i <= n,
            forall|j: int| 0 <= j < i ==> is_unicode_whitespace(#[trigger] s@[j]),
        decreases n - i,
    {
        if !whitespace_char(s.get_char(i)) {
            return false;
        }
        i = i + 1;
    }
    true
}

/// The author's locale configuration, before it is checked.
#[derive(Debug, Clone)]
pub struct LocaleManifest {
    pub format: u32,
    pub default_ui: String,
    pub default_text: String,
    pub ui: Vec<(String, Vec<String>)>,
    pub text: Vec<(String, Vec<String>)>,
}

/// The plan list has an entry for `locale`.
pub open spec fn plans_have(plans: Seq<(String, Vec<String>)>, locale: Seq<char>) -> bool {
    exists|i: int| 0 <= i < plans.len() && (#[trigger] plans[i]).0@ == locale
}

/// An ordered font list is usable: nonempty, no blank name, no repeated name.
pub open spec fn font_list_ok(fonts: Seq<String>) -> bool {
    &&& fonts.len() > 0
    &&& forall|i: int| 0 <= i < fonts.len() ==> !is_blank((#[trigger] fonts[i])@)
    &&& forall|i: int, j: int| 0 <= i < j < fonts.len() ==> fonts[i]@ != fonts[j]@
}

/// The entry for `locale` has an unusable font list.
pub open spec fn plan_bad(plans: Seq<(String, Vec<String>)>, locale: Seq<char>) -> bool {
    exists|i: int| 0 <= i < plans.len() && (#[trigger] plans[i]).0@ == locale && !font_list_ok(plans[i].1@)
}

/// Every key of the plan list is a supported locale.
pub open spec fn plans_supported(plans: Seq<(String, Vec<String>)>) -> bool {
    forall|i: int| 0 <= i < plans.len() ==> supported_locale((#[trigger] plans[i]).0@)
}

/// The message for an unusable font list.
pub open spec fn font_plan_message(surface: Seq<char>, locale: Seq<char>) -> Seq<char> {
    "E_FONT_PLAN: "@ + surface + "."@ + locale + " needs an ordered, nonempty list of unique font asset IDs"@
}

/// The first plan problem in key order (`en` before `zh-Hans`, `ui` before `text`).
pub open spec fn first_bad_plan(m: LocaleManifest) -> Option<(Seq<char>, Seq<char>)> {
    if plan_bad(m.ui@, "en"@) {
        Some(("ui"@, "en"@))
    } else if plan_bad(m.ui@, "zh-Hans"@) {
        Some(("ui"@, "zh-Hans"@))
    } else if plan_bad(m.text@, "en"@) {
        Some(("text"@, "en"@))
    } else if plan_bad(m.text@, "zh-Hans"@) {
        Some(("text"@, "zh-Hans"@))
    } else {
        None
    }
}

/// The message for the first unusable font list.
pub open spec fn bad_plan_text(m: LocaleManifest) -> Seq<char> {
    match first_bad_plan(m) {
        Some(p) => font_plan_message(p.0, p.1),
        None => Seq::empty(),
    }
}

/// The manifest names only supported locales and has the expected format.
pub open spec fn manifest_shape_ok(m: LocaleManifest) -> bool {
    &&& m.format == 1
    &&& supported_locale(m.default_ui@)
    &&& supported_locale(m.default_text@)
    &&& m.ui@.len() > 0
    &&& m.text@.len() > 0
    &&& plans_supported(m.ui@)
    &&& plans_supported(m.text@)
}

/// `p` is the resolved plan for the entry `e`.
pub open spec fn plan_resolved(p: (String, LocaleFontPlan), e: (String, Vec<String>)) -> bool {
    &&& p.0@ == e.0@
    &&& p.1.fonts@ == e.1@
    &&& p.1.digest@ == font_plan_identity(e.1@, Seq::empty())
}

/// Keys of a plan list are distinct.
pub open spec fn plan_keys_unique(plans: Seq<(String, Vec<String>)>) -> bool {
    forall|i: int, j: int| 0 <= i < j < plans.len() ==> plans[i].0@ != plans[j].0@
}

fn font_list_check(fonts: &Vec<String>) -> (r: bool)
    ensures
        r == font_list_ok(fonts@),
{
    if fonts.len() == 0 {
        return false;
    }
    let mut i: usize = 0;
    while i < fonts.len()
        invariant
            i <= fonts@.len(),
            forall|a: int| 0 <= a < i ==> !is_blank((#[trigger] fonts@[a])@),
            forall|a: int, b: int| 0 <= a < b < i ==> fonts@[a]@ != fonts@[b]@,
        decreases fonts@.len() - i,
    {
        if blank(fonts[i].as_str()) {
            return false;
        }
        let mut j: usize = 0;
        while j < i
            invariant
                i < fonts@.len(),
                j <= i,
                forall|a: int| 0 <= a < j ==> fonts@[a]@ != fonts@[i as int]@,
            decreases i - j,
        {
            if str_eq(fonts[j].as_str(), fonts[i].as_str()) {
                return false;
            }
            j = j + 1;
        }
        i = i + 1;
    }
    true
}

fn plan_check(plans: &Vec<(String, Vec<String>)>, locale: &str) -> (r: bool)
    ensures
        r == plan_bad(plans@, locale@),
{
    let mut i: usize = 0;
    while i < plans.len()
        invariant
            i <= plans@.len(),
            forall|a: int| 0 <= a < i ==> !((#[trigger] plans@[a]).0@ == locale@ && !font_list_ok(plans@[a].1@)),
        decreases plans@.len() - i,
    {
        if str_eq(plans[i].0.as_str(), locale) && !font_list_check(&plans[i].1) {
            return true;
        }
        i = i + 1;
    }
    false
}

fn plans_have_key(plans: &Vec<(String, Vec<String>)>, locale: &str) -> (r: bool)
    ensures
        r == plans_have(plans@, locale@),
{
    let mut i: usize = 0;
    while i < plans.len()
        invariant
            i <= plans@.len(),
            forall|a: int| 0 <= a < i ==> (#[trigger] plans@[a]).0@ != locale@,
        decreases plans@.len() - i,
    {
        if str_eq(plans[i].0.as_str(), locale) {
            return true;
        }
        i = i + 1;
    }
    false
}

fn supported(l: &str) -> (r: bool)
    ensures
        r == supported_locale(l@),
{
    str_eq(l, "zh-Hans") || str_eq(l, "en")
}

fn all_supported(plans: &Vec<(String, Vec<String>)>) -> (r: bool)
    ensures
        r == plans_supported(plans@),
{
    let mut i: usize = 0;
    while i < plans.len()
        invariant
            i <= plans@.len(),
            forall|a: int| 0 <= a < i ==> supported_locale((#[trigger] plans@[a]).0@),
        decreases plans@.len() - i,
    {
        if !supported(plans[i].0.as_str()) {
            return false;
        }
        i = i + 1;
    }
    true
}

/// A copy of a list of strings.
pub fn clone_strings(v: &Vec<String>) -> (r: Vec<String>)
    ensures
        r@ == v@,
{
    let mut r: Vec<String> = Vec::new();
    let mut i: usize = 0;
    while i < v.len()
        invariant
            i <= v@.len(),
            r@ == v@.subrange(0, i as int),
        decreases v@.len() - i,
    {
        r.push(v[i].clone());
        proof {
            assert(r@ =~= v@.subrange(0, i + 1));
        }
        i = i + 1;
    }
    assert(v@.subrange(0, v@.len() as int) =~= v@);
    r
}

fn resolve_plans(plans: &Vec<(String, Vec<String>)>) -> (r: Vec<(String, LocaleFontPlan)>)
    ensures
        r@.len() == plans@.len(),
        forall|i: int| 0 <= i < plans@.len() ==> plan_resolved(#[trigger] r@[i], plans@[i]),
{
    let mut r: Vec<(String, LocaleFontPlan)> = Vec::new();
    let mut i: usize = 0;
    while i < plans.len()
        invariant
            i <= plans@.len(),
            r@.len() == i,
            forall|a: int| 0 <= a < i ==> plan_resolved(#[trigger] r@[a], plans@[a]),
        decreases plans@.len() - i,
    {
        let fonts = clone_strings(&plans[i].1);
        r.push((plans[i].0.clone(), LocaleFontPlan::new(fonts)));
        i = i + 1;
    }
    r
}

fn bad_plan_message(surface: &str, locale: &str) -> (m: String)
    ensures
        m@ == font_plan_message(surface@, locale@),
{
    let mut msg = owned("E_FONT_PLAN: ");
    msg.append(surface);
    msg.append(".");
    msg.append(locale);
    msg.append(" needs an ordered, nonempty list of unique font asset IDs");
    msg
}

impl LocaleManifest {
    /// Checks the manifest and computes each plan's identity. Failures carry
    /// `E_LOCALE_CONFIG`, `E_FONT_PLAN` or `E_LOCALE_DEFAULT` messages. Each
    /// locale is listed once in each plan table.
    pub fn resolve(&self) -> (r: Result<LocaleConfig, String>)
        requires
            forall|i: int, j: int| 0 <= i < j < self.ui@.len() ==> (#[trigger] self.ui@[i]).0@ != (#[trigger] self.ui@[j]).0@,
            forall|i: int, j: int| 0 <= i < j < self.text@.len() ==> (#[trigger] self.text@[i]).0@ != (#[trigger] self.text@[j]).0@,
        ensures
            !manifest_shape_ok(*self) ==> err_text(r)
                == Some("E_LOCALE_CONFIG: expected format 1 and supported zh-Hans/en locale identifiers"@),
            manifest_shape_ok(*self) && first_bad_plan(*self) is Some ==> err_text(r) == Some(bad_plan_text(*self)),
            manifest_shape_ok(*self) && first_bad_plan(*self) is None && !(plans_have(self.ui@, self.default_ui@)
                && plans_have(self.text@, self.default_text@)) ==> err_text(r)
                == Some("E_LOCALE_DEFAULT: defaults must name supported locales"@),
            manifest_shape_ok(*self) && first_bad_plan(*self) is None && plans_have(self.ui@, self.default_ui@)
                && plans_have(self.text@, self.default_text@) ==> r is Ok,
            r matches Ok(c) ==> {
                &&& manifest_shape_ok(*self)
                &&& first_bad_plan(*self) is None
                &&& plans_have(self.ui@, self.default_ui@)
                &&& plans_have(self.text@, self.default_text@)
                &&& c.default_ui@ == self.default_ui@
                &&& c.default_text@ == self.default_text@
                &&& c.ui@.len() == self.ui@.len()
                &&& c.text@.len() == self.text@.len()
                &&& forall|i: int| 0 <= i < c.ui@.len() ==> plan_resolved(#[trigger] c.ui@[i], self.ui@[i])
                &&& forall|i: int| 0 <= i < c.text@.len() ==> plan_resolved(#[trigger] c.text@[i], self.text@[i])
            },
    {
        if self.format != 1 || !supported(self.default_ui.as_str()) || !supported(self.default_text.as_str())
            || self.ui.len() == 0 || self.text.len() == 0 || !all_supported(&self.ui) || !all_supported(&self.text)
        {
            return Err(owned("E_LOCALE_CONFIG: expected format 1 and supported zh-Hans/en locale identifiers"));
        }
        if plan_check(&self.ui, "en") {
            return Err(bad_plan_message("ui", "en"));
        }
        if plan_check(&self.ui, "zh-Hans") {
            return Err(bad_plan_message("ui", "zh-Hans"));
        }
        if plan_check(&self.text, "en") {
            return Err(bad_plan_message("text", "en"));
        }
        if plan_check(&self.text, "zh-Hans") {
            return Err(bad_plan_message("text", "zh-Hans"));
        }
        if !plans_have_key(&self.ui, self.default_ui.as_str()) || !plans_have_key(&self.text, self.default_text.as_str()) {
            return Err(owned("E_LOCALE_DEFAULT: defaults must name supported locales"));
        }
        Ok(LocaleConfig {
            default_ui: self.default_ui.clone(),
            default_text: self.default_text.clone(),
            ui: resolve_plans(&self.ui),
            text: resolve_plans(&self.text),
        })
    }
}

} // verus!
