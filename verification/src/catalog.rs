//! Asset catalogs: the checks on a project's catalog files and their asset
//! sources (format, rights records, path collisions, font recipes and
//! licenses, image sizes, duplicate identities) and the asset records they
//! yield, each identified by the digest of its prepared content.
use crate::format::{Asset, AssetKind, Micros};
use crate::identity::{content_digest, digest};
use crate::locale::LocaleConfig;
use crate::strings::{concat, decimal, decimal_text, owned, str_eq, utf8_bytes};
use crate::table::names_in;
use crate::assoc::contains_name;
use vstd::prelude::*;

verus! {

/// The license of a font recipe: its text, or `None` where the file is not
/// UTF-8.
#[derive(Debug, Clone)]
pub struct FontSource {
    pub license: Option<String>,
}

/// One asset source of a catalog, as read from disk: its declaration, its
/// path relative to the project and that path's normalized form, its
/// prepared content, and what inspecting the content measured (image size;
/// audio duration and decoded size).
#[derive(Debug, Clone)]
pub struct CatalogAsset {
    pub id: String,
    pub kind: AssetKind,
    pub rights: String,
    pub local: String,
    pub normalized: String,
    pub font: Option<FontSource>,
    pub expected_size: Option<(u32, u32)>,
    pub content: Vec<u8>,
    pub width: u32,
    pub height: u32,
    pub duration_us: u64,
    pub audio_decoded_bytes: u64,
}

/// One catalog file: its path, its format and its asset sources in order.
#[derive(Debug, Clone)]
pub struct CatalogFile {
    pub path: String,
    pub format: u32,
    pub assets: Vec<CatalogAsset>,
}

/// The length of the UTF-8 encoding of a Unicode white-space character that
/// starts at byte `i` of `b`, else 0.
pub open spec fn space_len(b: Seq<u8>, i: int) -> int {
    if 0 <= i < b.len() && ((9 <= b[i] <= 13) || b[i] == 32) {
        1
    } else if 0 <= i && i + 1 < b.len() && b[i] == 0xC2 && (b[i + 1] == 0x85 || b[i + 1] == 0xA0) {
        2
    } else if 0 <= i && i + 2 < b.len() && ((b[i] == 0xE1 && b[i + 1] == 0x9A && b[i + 2] == 0x80)
        || (b[i] == 0xE2 && b[i + 1] == 0x80 && ((0x80 <= b[i + 2] <= 0x8A) || b[i + 2] == 0xA8 || b[i + 2] == 0xA9
        || b[i + 2] == 0xAF)) || (b[i] == 0xE2 && b[i + 1] == 0x81 && b[i + 2] == 0x9F)
        || (b[i] == 0xE3 && b[i + 1] == 0x80 && b[i + 2] == 0x80)) {
        3
    } else {
        0
    }
}

/// From byte `i` on, `b` holds only Unicode white space.
pub open spec fn blank_from(b: Seq<u8>, i: int) -> bool
    decreases b.len() - i,
{
    if i >= b.len() || i < 0 {
        true
    } else if space_len(b, i) == 0 {
        false
    } else {
        blank_from(b, i + space_len(b, i))
    }
}

/// The text is empty once its white space is trimmed.
pub open spec fn blank(s: Seq<char>) -> bool {
    blank_from(utf8_bytes(s), 0)
}

fn is_blank(s: &str) -> (r: bool)
    ensures
        r == blank(s@),
{
    let b = s.as_bytes();
    let ghost bs = b@;
    let mut i: usize = 0;
    while i < b.len()
        invariant
            bs == b@,
            bs == utf8_bytes(s@),
            i <= bs.len(),
            blank_from(bs, 0) == blank_from(bs, i as int),
        decreases bs.len() - i,
    {
        let c = b[i];
        let n = b.len();
        let step: usize = if (9 <= c && c <= 13) || c == 32 {
            1
        } else if n - i > 1 && c == 0xC2 && (b[i + 1] == 0x85 || b[i + 1] == 0xA0) {
            2
        } else if n - i > 2 && ((c == 0xE1 && b[i + 1] == 0x9A && b[i + 2] == 0x80) || (c == 0xE2 && b[i + 1] == 0x80 && ((0x80 <= b[i
            + 2] && b[i + 2] <= 0x8A) || b[i + 2] == 0xA8 || b[i + 2] == 0xA9 || b[i + 2] == 0xAF)) || (c == 0xE2 && b[i + 1] == 0x81
            && b[i + 2] == 0x9F) || (c == 0xE3 && b[i + 1] == 0x80 && b[i + 2] == 0x80)) {
            3
        } else {
            0
        };
        assert(step == space_len(bs, i as int));
        if step == 0 {
            return false;
        }
        i = i + step;
    }
    true
}

/// The fonts that some UI or text locale plan lists.
pub open spec fn planned_fonts(c: LocaleConfig) -> Set<Seq<char>> {
    Set::new(|f: Seq<char>| (exists|j: int, k: int| 0 <= j < c.ui@.len() && 0 <= k < c.ui@[j].1.fonts@.len()
        && (#[trigger] c.ui@[j].1.fonts@[k])@ == f) || (exists|j: int, k: int| 0 <= j < c.text@.len()
        && 0 <= k < c.text@[j].1.fonts@.len() && (#[trigger] c.text@[j].1.fonts@[k])@ == f))
}

/// The local path first recorded for normalized path `n` among `prior`.
pub open spec fn first_local(prior: Seq<CatalogAsset>, n: Seq<char>) -> Option<Seq<char>>
    decreases prior.len(),
{
    if prior.len() == 0 {
        None
    } else if prior[0].normalized@ == n {
        Some(prior[0].local@)
    } else {
        first_local(prior.drop_first(), n)
    }
}

/// The error of an image source: a side outside `1..=8192`, or a size other
/// than the one its declaration expects.
pub open spec fn image_error(a: CatalogAsset) -> Option<Seq<char>> {
    if a.width > 8192 || a.height > 8192 || a.width == 0 || a.height == 0 {
        Some("E_LIMIT: image "@ + a.id@ + " dimensions"@)
    } else {
        if a.expected_size matches Some(s) && (s.0 != a.width || s.1 != a.height) {
            Some("E_ASSET_SIZE: "@ + a.id@ + " is "@ + decimal_text(a.width as nat) + "x"@ + decimal_text(a.height as nat))
        } else {
            None
        }
    }
}

/// The error of a font recipe: a recipe on another kind of asset, a license
/// that is not UTF-8 or is blank, or a font that no locale plan uses.
pub open spec fn font_error(a: CatalogAsset, plans: LocaleConfig) -> Option<Seq<char>> {
    if a.font is None {
        None
    } else if a.kind != AssetKind::Font {
        Some("E_FONT_RECIPE: font recipe requires kind = font"@)
    } else if a.font.unwrap().license is None {
        Some("E_FONT_LICENSE: expected UTF-8 license"@)
    } else if blank(a.font.unwrap().license.unwrap()@) {
        Some("E_FONT_LICENSE: empty license for "@ + a.id@)
    } else if !planned_fonts(plans).contains(a.id@) {
        Some("E_FONT_PLAN_UNUSED: font "@ + a.id@ + " is not referenced by a UI or text locale"@)
    } else {
        None
    }
}

/// The error of asset source `a` after the sources `prior`: a blank rights
/// record; a normalized path first recorded for another local path; a font
/// recipe error; an image size error; or an identity used before.
pub open spec fn source_error(prior: Seq<CatalogAsset>, a: CatalogAsset, plans: LocaleConfig) -> Option<Seq<char>> {
    if blank(a.rights@) {
        Some("E_RIGHTS: "@ + a.id@ + " lacks source/permission record"@)
    } else if first_local(prior, a.normalized@) matches Some(old) && old != a.local@ {
        Some("E_PATH_COLLISION: "@ + first_local(prior, a.normalized@).unwrap() + " / "@ + a.local@)
    } else if font_error(a, plans) is Some {
        font_error(a, plans)
    } else if a.kind == AssetKind::Image && image_error(a) is Some {
        image_error(a)
    } else if exists|q: int| 0 <= q < prior.len() && (#[trigger] prior[q]).id@ == a.id@ {
        Some("E_DUPLICATE: asset "@ + a.id@)
    } else {
        None
    }
}

/// The sources of the first `i` catalogs, in order.
pub open spec fn sources_before(cs: Seq<CatalogFile>, i: int) -> Seq<CatalogAsset>
    decreases i,
{
    if i <= 0 {
        Seq::empty()
    } else {
        sources_before(cs, i - 1) + cs[i - 1].assets@
    }
}

/// The first error among the first `j` sources of catalog `i`.
pub open spec fn sources_error(cs: Seq<CatalogFile>, i: int, j: int, plans: LocaleConfig) -> Option<Seq<char>>
    decreases j,
{
    if j <= 0 {
        None
    } else {
        match sources_error(cs, i, j - 1, plans) {
            Some(e) => Some(e),
            None => source_error(sources_before(cs, i) + cs[i].assets@.subrange(0, j - 1), cs[i].assets@[j - 1], plans),
        }
    }
}

/// The first error among the first `i` catalogs: a catalog of another
/// format, else the first error among its sources.
pub open spec fn catalogs_error(cs: Seq<CatalogFile>, i: int, plans: LocaleConfig) -> Option<Seq<char>>
    decreases i,
{
    if i <= 0 {
        None
    } else {
        match catalogs_error(cs, i - 1, plans) {
            Some(e) => Some(e),
            None => if cs[i - 1].format != 1 {
                Some("E_CATALOG_VERSION: "@ + cs[i - 1].path@)
            } else {
                sources_error(cs, i - 1, cs[i - 1].assets@.len() as int, plans)
            },
        }
    }
}

/// The first error of the catalogs.
pub open spec fn catalog_error(cs: Seq<CatalogFile>, plans: LocaleConfig) -> Option<Seq<char>> {
    catalogs_error(cs, cs.len() as int, plans)
}

/// The asset record of source `a`: its kind, the digest and size of its
/// prepared content, an image's size and decoded size (four bytes a
/// pixel), an audio clip's duration and decoded size, and for a font four
/// times its size.
pub open spec fn asset_record(a: CatalogAsset, x: Asset) -> bool {
    &&& x.kind == a.kind
    &&& x.object@ == content_digest(a.content@)
    &&& x.bytes == a.content@.len()
    &&& x.width == (if a.kind == AssetKind::Image { a.width } else { 0 })
    &&& x.height == (if a.kind == AssetKind::Image { a.height } else { 0 })
    &&& x.duration_us == Micros(if a.kind == AssetKind::Audio { a.duration_us } else { 0 })
    &&& x.decoded_bytes == match a.kind {
        AssetKind::Image => a.width as int * a.height as int * 4,
        AssetKind::Audio => a.audio_decoded_bytes as int,
        AssetKind::Font => a.content@.len() as int * 4,
    }
}

proof fn lemma_first_local_hit(prior: Seq<CatalogAsset>, n: Seq<char>, k: int)
    requires
        0 <= k < prior.len(),
        prior[k].normalized@ == n,
        forall|q: int| 0 <= q < k ==> (#[trigger] prior[q]).normalized@ != n,
    ensures
        first_local(prior, n) == Some(prior[k].local@),
    decreases k,
{
    if k > 0 {
        lemma_first_local_hit(prior.drop_first(), n, k - 1);
    }
}

proof fn lemma_first_local_none(prior: Seq<CatalogAsset>, n: Seq<char>)
    requires
        forall|q: int| 0 <= q < prior.len() ==> (#[trigger] prior[q]).normalized@ != n,
    ensures
        first_local(prior, n) is None,
    decreases prior.len(),
{
    if prior.len() > 0 {
        lemma_first_local_none(prior.drop_first(), n);
    }
}

fn in_plans(plans: &LocaleConfig, id: &str) -> (r: bool)
    ensures
        r == planned_fonts(*plans).contains(id@),
{
    let mut j: usize = 0;
    while j < plans.ui.len()
        invariant
            j <= plans.ui@.len(),
            forall|a: int, k: int| 0 <= a < j && 0 <= k < plans.ui@[a].1.fonts@.len() ==> (#[trigger] plans.ui@[a].1.fonts@[k])@ != id@,
        decreases plans.ui@.len() - j,
    {
        if contains_name(&plans.ui[j].1.fonts, id) {
            proof {
                let k = choose|k: int| 0 <= k < plans.ui@[j as int].1.fonts@.len() && (#[trigger] plans.ui@[j as int].1.fonts@[k])@ == id@;
                assert(planned_fonts(*plans).contains(id@));
            }
            return true;
        }
        j = j + 1;
    }
    let mut j: usize = 0;
    while j < plans.text.len()
        invariant
            j <= plans.text@.len(),
            forall|a: int, k: int| 0 <= a < plans.ui@.len() && 0 <= k < plans.ui@[a].1.fonts@.len() ==> (#[trigger] plans.ui@[a].1.fonts@[k])@ != id@,
            forall|a: int, k: int| 0 <= a < j && 0 <= k < plans.text@[a].1.fonts@.len() ==> (#[trigger] plans.text@[a].1.fonts@[k])@ != id@,
        decreases plans.text@.len() - j,
    {
        if contains_name(&plans.text[j].1.fonts, id) {
            proof {
                let k = choose|k: int| 0 <= k < plans.text@[j as int].1.fonts@.len() && (#[trigger] plans.text@[j as int].1.fonts@[k])@ == id@;
                assert(planned_fonts(*plans).contains(id@));
            }
            return true;
        }
        j = j + 1;
    }
    false
}

fn font_check(a: &CatalogAsset, plans: &LocaleConfig) -> (r: Option<String>)
    ensures
        match font_error(*a, *plans) {
            Some(e) => r matches Some(x) && x@ == e,
            None => r is None,
        },
{
    match &a.font {
        None => None,
        Some(f) => {
            if a.kind != AssetKind::Font {
                return Some(owned("E_FONT_RECIPE: font recipe requires kind = font"));
            }
            match &f.license {
                None => Some(owned("E_FONT_LICENSE: expected UTF-8 license")),
                Some(l) => {
                    if is_blank(l.as_str()) {
                        Some(concat("E_FONT_LICENSE: empty license for ", a.id.as_str()))
                    } else if !in_plans(plans, a.id.as_str()) {
                        let mut m = concat("E_FONT_PLAN_UNUSED: font ", a.id.as_str());
                        m.append(" is not referenced by a UI or text locale");
                        Some(m)
                    } else {
                        None
                    }
                },
            }
        },
    }
}

fn image_check(a: &CatalogAsset) -> (r: Option<String>)
    ensures
        match image_error(*a) {
            Some(e) => r matches Some(x) && x@ == e,
            None => r is None,
        },
{
    if a.width > 8192 || a.height > 8192 || a.width == 0 || a.height == 0 {
        let mut m = concat("E_LIMIT: image ", a.id.as_str());
        m.append(" dimensions");
        return Some(m);
    }
    match a.expected_size {
        Some(s) => {
            if s.0 != a.width || s.1 != a.height {
                let mut m = concat("E_ASSET_SIZE: ", a.id.as_str());
                m.append(" is ");
                m.append(decimal(a.width as u64).as_str());
                m.append("x");
                m.append(decimal(a.height as u64).as_str());
                Some(m)
            } else {
                None
            }
        },
        None => None,
    }
}

fn make_asset(a: &CatalogAsset) -> (x: Asset)
    requires
        a.content@.len() * 4 <= u64::MAX,
        a.kind == AssetKind::Image ==> a.width <= 8192 && a.height <= 8192,
    ensures
        asset_record(*a, x),
{
    let bytes = a.content.len() as u64;
    let object = digest(a.content.as_slice());
    match a.kind {
        AssetKind::Image => {
            proof {
                assert(a.width as int * a.height as int <= 8192 * 8192) by (nonlinear_arith)
                    requires a.width <= 8192u32, a.height <= 8192u32;
            }
            let decoded = (a.width as u64) * (a.height as u64);
            Asset { kind: a.kind, object, bytes, width: a.width, height: a.height, duration_us: Micros(0), decoded_bytes: decoded * 4 }
        },
        AssetKind::Audio => Asset {
            kind: a.kind,
            object,
            bytes,
            width: 0,
            height: 0,
            duration_us: Micros(a.duration_us),
            decoded_bytes: a.audio_decoded_bytes,
        },
        AssetKind::Font => Asset { kind: a.kind, object, bytes, width: 0, height: 0, duration_us: Micros(0), decoded_bytes: bytes * 4 },
    }
}

/// Checks the asset catalogs against the locale font plans and yields the
/// asset records in catalog and source order. Catalogs are taken in order:
/// each must be of format 1; each of its sources needs a rights record
/// that is not blank, a normalized path that no earlier source recorded for
/// another local path, a sound font recipe (on a font, with a UTF-8 license
/// that is not blank, for a font some locale plan uses), an image size
/// within `1..=8192` that matches the declared one, and an identity no
/// earlier source used. The first failure is the error.
pub fn check_asset_catalog(catalogs: &Vec<CatalogFile>, plans: &LocaleConfig) -> (r: Result<Vec<(String, Asset)>, String>)
    requires
        forall|i: int, j: int| 0 <= i < catalogs@.len() && 0 <= j < catalogs@[i].assets@.len()
            ==> (#[trigger] catalogs@[i].assets@[j]).content@.len() * 4 <= u64::MAX,
    ensures
        match catalog_error(catalogs@, *plans) {
            Some(e) => r matches Err(x) && x@ == e,
            None => r matches Ok(v) && v@.len() == sources_before(catalogs@, catalogs@.len() as int).len() && forall|k: int|
                0 <= k < v@.len() ==> (#[trigger] v@[k]).0@ == sources_before(catalogs@, catalogs@.len() as int)[k].id@
                    && asset_record(sources_before(catalogs@, catalogs@.len() as int)[k], v@[k].1),
        },
{
    let mut out: Vec<(String, Asset)> = Vec::new();
    let mut paths: Vec<(String, String)> = Vec::new();
    let mut ids: Vec<String> = Vec::new();
    let mut i: usize = 0;
    while i < catalogs.len()
        invariant
            i <= catalogs@.len(),
            catalogs_error(catalogs@, i as int, *plans) is None,
            forall|a: int, b: int| 0 <= a < catalogs@.len() && 0 <= b < catalogs@[a].assets@.len()
                ==> (#[trigger] catalogs@[a].assets@[b]).content@.len() * 4 <= u64::MAX,
            paths@.len() == sources_before(catalogs@, i as int).len(),
            ids@.len() == sources_before(catalogs@, i as int).len(),
            out@.len() == sources_before(catalogs@, i as int).len(),
            forall|q: int| 0 <= q < paths@.len() ==> (#[trigger] paths@[q]).0@ == sources_before(catalogs@, i as int)[q].normalized@
                && paths@[q].1@ == sources_before(catalogs@, i as int)[q].local@,
            forall|q: int| 0 <= q < ids@.len() ==> (#[trigger] ids@[q])@ == sources_before(catalogs@, i as int)[q].id@,
            forall|q: int| 0 <= q < out@.len() ==> (#[trigger] out@[q]).0@ == sources_before(catalogs@, i as int)[q].id@
                && asset_record(sources_before(catalogs@, i as int)[q], out@[q].1),
        decreases catalogs@.len() - i,
    {
        let c = &catalogs[i];
        if c.format != 1 {
            proof {
                assert(catalogs_error(catalogs@, i + 1, *plans) is Some);
                lemma_catalogs_stay(catalogs@, i + 1, catalogs@.len() as int, *plans);
            }
            return Err(concat("E_CATALOG_VERSION: ", c.path.as_str()));
        }
        let ghost base = sources_before(catalogs@, i as int);
        let mut j: usize = 0;
        while j < c.assets.len()
            invariant
                i < catalogs@.len(),
                *c == catalogs@[i as int],
                c.format == 1,
                catalogs_error(catalogs@, i as int, *plans) is None,
                base == sources_before(catalogs@, i as int),
                j <= c.assets@.len(),
                sources_error(catalogs@, i as int, j as int, *plans) is None,
                forall|a: int, b: int| 0 <= a < catalogs@.len() && 0 <= b < catalogs@[a].assets@.len()
                    ==> (#[trigger] catalogs@[a].assets@[b]).content@.len() * 4 <= u64::MAX,
                paths@.len() == base.len() + j,
                ids@.len() == base.len() + j,
                out@.len() == base.len() + j,
                forall|q: int| 0 <= q < paths@.len() ==> (#[trigger] paths@[q]).0@ == (base + c.assets@.subrange(0, j as int))[q].normalized@
                    && paths@[q].1@ == (base + c.assets@.subrange(0, j as int))[q].local@,
                forall|q: int| 0 <= q < ids@.len() ==> (#[trigger] ids@[q])@ == (base + c.assets@.subrange(0, j as int))[q].id@,
                forall|q: int| 0 <= q < out@.len() ==> (#[trigger] out@[q]).0@ == (base + c.assets@.subrange(0, j as int))[q].id@
                    && asset_record((base + c.assets@.subrange(0, j as int))[q], out@[q].1),
            decreases c.assets@.len() - j,
        {
            let a = &c.assets[j];
            let ghost prior = base + c.assets@.subrange(0, j as int);
            let found = check_source(&paths, &ids, a, plans, Ghost(prior));
            match found {
                Some(e) => {
                    proof {
                        assert(sources_error(catalogs@, i as int, j + 1, *plans) == Some(e@));
                        lemma_sources_stay(catalogs@, i as int, j + 1, c.assets@.len() as int, *plans);
                        assert(catalogs_error(catalogs@, i + 1, *plans) == Some(e@));
                        lemma_catalogs_stay(catalogs@, i + 1, catalogs@.len() as int, *plans);
                    }
                    return Err(e);
                },
                None => {},
            }
            proof {
                if a.kind == AssetKind::Image {
                    assert(image_error(*a) is None);
                }
            }
            let x = make_asset(a);
            paths.push((a.normalized.clone(), a.local.clone()));
            ids.push(a.id.clone());
            out.push((a.id.clone(), x));
            proof {
                let next = base + c.assets@.subrange(0, j + 1);
                assert(next =~= prior.push(*a));
                assert forall|q: int| 0 <= q < paths@.len() implies (#[trigger] paths@[q]).0@ == next[q].normalized@
                    && paths@[q].1@ == next[q].local@ by {
                    if q < prior.len() {
                        assert(next[q] == prior[q]);
                    }
                }
                assert forall|q: int| 0 <= q < ids@.len() implies (#[trigger] ids@[q])@ == next[q].id@ by {
                    if q < prior.len() {
                        assert(next[q] == prior[q]);
                    }
                }
                assert forall|q: int| 0 <= q < out@.len() implies (#[trigger] out@[q]).0@ == next[q].id@
                    && asset_record(next[q], out@[q].1) by {
                    if q < prior.len() {
                        assert(next[q] == prior[q]);
                    }
                }
            }
            j = j + 1;
        }
        proof {
            assert(base + c.assets@.subrange(0, c.assets@.len() as int) =~= sources_before(catalogs@, i + 1));
        }
        i = i + 1;
    }
    Ok(out)
}

fn find_path(paths: &Vec<(String, String)>, n: &str) -> (r: Option<usize>)
    ensures
        match r {
            Some(k) => k < paths@.len() && paths@[k as int].0@ == n@ && forall|q: int| 0 <= q < k ==> (#[trigger] paths@[q]).0@ != n@,
            None => forall|q: int| 0 <= q < paths@.len() ==> (#[trigger] paths@[q]).0@ != n@,
        },
{
    let mut k: usize = 0;
    while k < paths.len()
        invariant
            k <= paths@.len(),
            forall|q: int| 0 <= q < k ==> (#[trigger] paths@[q]).0@ != n@,
        decreases paths@.len() - k,
    {
        if str_eq(paths[k].0.as_str(), n) {
            return Some(k);
        }
        k = k + 1;
    }
    None
}

fn check_source(
    paths: &Vec<(String, String)>,
    ids: &Vec<String>,
    a: &CatalogAsset,
    plans: &LocaleConfig,
    Ghost(prior): Ghost<Seq<CatalogAsset>>,
) -> (r: Option<String>)
    requires
        paths@.len() == prior.len(),
        ids@.len() == prior.len(),
        forall|q: int| 0 <= q < paths@.len() ==> (#[trigger] paths@[q]).0@ == prior[q].normalized@ && paths@[q].1@ == prior[q].local@,
        forall|q: int| 0 <= q < ids@.len() ==> (#[trigger] ids@[q])@ == prior[q].id@,
    ensures
        match source_error(prior, *a, *plans) {
            Some(e) => r matches Some(x) && x@ == e,
            None => r is None,
        },
{
    if is_blank(a.rights.as_str()) {
        let mut m = concat("E_RIGHTS: ", a.id.as_str());
        m.append(" lacks source/permission record");
        return Some(m);
    }
    match find_path(paths, a.normalized.as_str()) {
        Some(k) => {
            proof {
                assert forall|q: int| 0 <= q < k implies (#[trigger] prior[q]).normalized@ != a.normalized@ by {
                    assert(paths@[q].0@ == prior[q].normalized@);
                }
                lemma_first_local_hit(prior, a.normalized@, k as int);
            }
            if !str_eq(paths[k].1.as_str(), a.local.as_str()) {
                let mut m = concat("E_PATH_COLLISION: ", paths[k].1.as_str());
                m.append(" / ");
                m.append(a.local.as_str());
                return Some(m);
            }
        },
        None => {
            proof {
                assert forall|q: int| 0 <= q < prior.len() implies (#[trigger] prior[q]).normalized@ != a.normalized@ by {
                    assert(paths@[q].0@ == prior[q].normalized@);
                }
                lemma_first_local_none(prior, a.normalized@);
            }
        },
    }
    let f = font_check(a, plans);
    if f.is_some() {
        return f;
    }
    if a.kind == AssetKind::Image {
        let g = image_check(a);
        if g.is_some() {
            return g;
        }
    }
    if contains_name(ids, a.id.as_str()) {
        proof {
            let q = choose|q: int| 0 <= q < ids@.len() && (#[trigger] ids@[q])@ == a.id@;
            assert(prior[q].id@ == a.id@);
        }
        return Some(concat("E_DUPLICATE: asset ", a.id.as_str()));
    }
    proof {
        assert forall|q: int| 0 <= q < prior.len() implies (#[trigger] prior[q]).id@ != a.id@ by {
            assert(ids@[q]@ == prior[q].id@);
            if prior[q].id@ == a.id@ {
                assert(names_in(ids@).contains(a.id@));
            }
        }
    }
    None
}

proof fn lemma_sources_stay(cs: Seq<CatalogFile>, i: int, j: int, n: int, plans: LocaleConfig)
    requires
        0 <= j <= n,
        sources_error(cs, i, j, plans) is Some,
    ensures
        sources_error(cs, i, n, plans) == sources_error(cs, i, j, plans),
    decreases n - j,
{
    if j < n {
        lemma_sources_stay(cs, i, j, n - 1, plans);
    }
}

proof fn lemma_catalogs_stay(cs: Seq<CatalogFile>, i: int, n: int, plans: LocaleConfig)
    requires
        0 <= i <= n,
        catalogs_error(cs, i, plans) is Some,
    ensures
        catalogs_error(cs, n, plans) == catalogs_error(cs, i, plans),
    decreases n - i,
{
    if i < n {
        lemma_catalogs_stay(cs, i, n - 1, plans);
    }
}

} // verus!
