//! What each part of a release needs: the objects a closure takes from the
//! release's object index, and the order in which they are asked for.
use crate::assoc::{assoc, assoc_keys, get_entry};
use crate::format::{Asset, AssetKind, Object};
use crate::release::{file_bytes, finished, use_bytes, use_keys_distinct, AssetCatalogBuildReport, ClosureBuilder, DependencyClosure, DependencyFile, ModuleBuildReport, ObjectUse};
use crate::identity::content_digest;
use crate::format::EngineFiles;
use crate::strings::{concat, err_text, owned};
use crate::modules::{module_paths, reach_paths};
use crate::text::string_views;
use crate::assoc::position_of;
use crate::table::names_in;
use vstd::prelude::*;

verus! {

/// One step of building a closure: need an object, or fail.
#[derive(Debug, Clone)]
pub enum Need {
    Object { hash: String, category: String, reason: String },
    Fail { message: String },
}

/// A step, as text.
pub enum NeedView {
    Object { hash: Seq<char>, category: Seq<char>, reason: Seq<char> },
    Fail { message: Seq<char> },
}

/// The text of a step.
pub open spec fn need_view(n: Need) -> NeedView {
    match n {
        Need::Object { hash, category, reason } => NeedView::Object { hash: hash@, category: category@, reason: reason@ },
        Need::Fail { message } => NeedView::Fail { message: message@ },
    }
}

/// The text of each step.
pub open spec fn need_views(needs: Seq<Need>) -> Seq<NeedView> {
    needs.map_values(|n: Need| need_view(n))
}

/// The object a step needs.
pub open spec fn need_hash(n: NeedView) -> Option<Seq<char>> {
    match n {
        NeedView::Object { hash, .. } => Some(hash),
        NeedView::Fail { .. } => None,
    }
}

/// Why a step fails: it is a failure, or its object is not in the index.
pub open spec fn need_failure(objects: Seq<(String, Object)>, n: NeedView) -> Option<Seq<char>> {
    match n {
        NeedView::Fail { message } => Some(message),
        NeedView::Object { hash, .. } => if assoc(objects, hash) is None {
            Some("E_DEPENDENCY_OBJECT: missing "@ + hash)
        } else {
            None
        },
    }
}

/// The failure of the first step, in order, that fails.
pub open spec fn first_failure(objects: Seq<(String, Object)>, needs: Seq<NeedView>) -> Option<Seq<char>>
    decreases needs.len(),
{
    if needs.len() == 0 {
        None
    } else {
        match first_failure(objects, needs.drop_last()) {
            Some(m) => Some(m),
            None => need_failure(objects, needs.last()),
        }
    }
}

/// Some step needs object `h`.
pub open spec fn needs_object(needs: Seq<NeedView>, h: Seq<char>) -> bool {
    exists|i: int| 0 <= i < needs.len() && need_hash(#[trigger] needs[i]) == Some(h)
}

/// The categories in which the steps need object `h`.
pub open spec fn need_categories(needs: Seq<NeedView>, h: Seq<char>) -> Set<Seq<char>> {
    Set::new(|c: Seq<char>| exists|i: int| 0 <= i < needs.len() && match #[trigger] needs[i] {
        NeedView::Object { hash, category, .. } => hash == h && category == c,
        NeedView::Fail { .. } => false,
    })
}

/// The reasons for which the steps need object `h`.
pub open spec fn need_reasons(needs: Seq<NeedView>, h: Seq<char>) -> Set<Seq<char>> {
    Set::new(|r: Seq<char>| exists|i: int| 0 <= i < needs.len() && match #[trigger] needs[i] {
        NeedView::Object { hash, reason, .. } => hash == h && reason == r,
        NeedView::Fail { .. } => false,
    })
}

/// `after` is `before` once every step of `needs` has been taken: each
/// needed object is recorded, with its size and media type from the index
/// when it is new, and with the categories and reasons of the steps added.
pub open spec fn needs_taken(before: ClosureBuilder, after: ClosureBuilder, objects: Seq<(String, Object)>, needs: Seq<NeedView>) -> bool {
    &&& after.files == before.files
    &&& forall|h: Seq<char>| #[trigger] assoc_keys(after.objects@).contains(h)
        <==> (assoc_keys(before.objects@).contains(h) || needs_object(needs, h))
    &&& forall|h: Seq<char>| !needs_object(needs, h) ==> #[trigger] assoc(after.objects@, h) == assoc(before.objects@, h)
    &&& forall|h: Seq<char>| #[trigger] needs_object(needs, h) ==> {
        let u = assoc(after.objects@, h).unwrap();
        &&& assoc(after.objects@, h) is Some
        &&& match assoc(before.objects@, h) {
            Some(p) => u.bytes == p.bytes && u.media_type == p.media_type
                && names_in(u.reasons@) == names_in(p.reasons@) + need_reasons(needs, h)
                && names_in(u.categories@) == names_in(p.categories@) + need_categories(needs, h),
            None => u.bytes == assoc(objects, h).unwrap().bytes
                && u.media_type@ == assoc(objects, h).unwrap().media_type@
                && names_in(u.reasons@) == need_reasons(needs, h)
                && names_in(u.categories@) == need_categories(needs, h),
        }
    }
}

proof fn lemma_needs_push(needs: Seq<NeedView>, n: NeedView, h: Seq<char>)
    ensures
        needs_object(needs.push(n), h) == (needs_object(needs, h) || need_hash(n) == Some(h)),
        need_categories(needs.push(n), h) == match n {
            NeedView::Object { hash, category, .. } => if hash == h { need_categories(needs, h).insert(category) } else { need_categories(needs, h) },
            NeedView::Fail { .. } => need_categories(needs, h),
        },
        need_reasons(needs.push(n), h) == match n {
            NeedView::Object { hash, reason, .. } => if hash == h { need_reasons(needs, h).insert(reason) } else { need_reasons(needs, h) },
            NeedView::Fail { .. } => need_reasons(needs, h),
        },
{
    let m = needs.push(n);
    assert forall|i: int| 0 <= i < needs.len() implies m[i] == needs[i] by {}
    assert(m[needs.len() as int] == n);
    if needs_object(m, h) {
        let i = choose|i: int| 0 <= i < m.len() && need_hash(#[trigger] m[i]) == Some(h);
        if i < needs.len() {
            assert(need_hash(needs[i]) == Some(h));
        }
    }
    if needs_object(needs, h) {
        let i = choose|i: int| 0 <= i < needs.len() && need_hash(#[trigger] needs[i]) == Some(h);
        assert(need_hash(m[i]) == Some(h));
    }
    let cats = match n {
        NeedView::Object { hash, category, .. } => if hash == h { need_categories(needs, h).insert(category) } else { need_categories(needs, h) },
        NeedView::Fail { .. } => need_categories(needs, h),
    };
    assert forall|c: Seq<char>| need_categories(m, h).contains(c) <==> cats.contains(c) by {
        if need_categories(m, h).contains(c) {
            let i = choose|i: int| 0 <= i < m.len() && match #[trigger] m[i] {
                NeedView::Object { hash, category, .. } => hash == h && category == c,
                NeedView::Fail { .. } => false,
            };
            if i < needs.len() {
                assert(m[i] == needs[i]);
            }
        }
        if need_categories(needs, h).contains(c) {
            let i = choose|i: int| 0 <= i < needs.len() && match #[trigger] needs[i] {
                NeedView::Object { hash, category, .. } => hash == h && category == c,
                NeedView::Fail { .. } => false,
            };
            assert(m[i] == needs[i]);
        }
    }
    assert(need_categories(m, h) =~= cats);
    let reasons = match n {
        NeedView::Object { hash, reason, .. } => if hash == h { need_reasons(needs, h).insert(reason) } else { need_reasons(needs, h) },
        NeedView::Fail { .. } => need_reasons(needs, h),
    };
    assert forall|r: Seq<char>| need_reasons(m, h).contains(r) <==> reasons.contains(r) by {
        if need_reasons(m, h).contains(r) {
            let i = choose|i: int| 0 <= i < m.len() && match #[trigger] m[i] {
                NeedView::Object { hash, reason, .. } => hash == h && reason == r,
                NeedView::Fail { .. } => false,
            };
            if i < needs.len() {
                assert(m[i] == needs[i]);
            }
        }
        if need_reasons(needs, h).contains(r) {
            let i = choose|i: int| 0 <= i < needs.len() && match #[trigger] needs[i] {
                NeedView::Object { hash, reason, .. } => hash == h && reason == r,
                NeedView::Fail { .. } => false,
            };
            assert(m[i] == needs[i]);
        }
    }
    assert(need_reasons(m, h) =~= reasons);
}

/// Takes the steps in order, stopping at the first that fails.
pub fn take_needs(b: &mut ClosureBuilder, objects: &Vec<(String, Object)>, needs: &Vec<Need>) -> (r: Result<(), String>)
    ensures
        match first_failure(objects@, need_views(needs@)) {
            Some(m) => err_text(r) == Some(m),
            None => r is Ok && needs_taken(*old(b), *final(b), objects@, need_views(needs@))
                && (use_keys_distinct(old(b).objects@) ==> use_keys_distinct(final(b).objects@)),
        },
{
    let ghost b0 = *b;
    let mut i: usize = 0;
    proof {
        assert(need_views(needs@).subrange(0, 0) =~= Seq::<NeedView>::empty());
        assert forall|h: Seq<char>| !needs_object(need_views(needs@).subrange(0, 0), h) by {}
    }
    while i < needs.len()
        invariant
            i <= needs@.len(),
            b0 == *old(b),
            first_failure(objects@, need_views(needs@).subrange(0, i as int)) is None,
            needs_taken(b0, *b, objects@, need_views(needs@).subrange(0, i as int)),
            use_keys_distinct(b0.objects@) ==> use_keys_distinct(b.objects@),
        decreases needs@.len() - i,
    {
        let ghost pre = need_views(needs@).subrange(0, i as int);
        let ghost next = need_views(needs@).subrange(0, i + 1);
        let ghost bb = *b;
        proof {
            assert(next.drop_last() =~= pre);
            assert(next =~= pre.push(need_view(needs@[i as int])));
        }
        match &needs[i] {
            Need::Fail { message } => {
                proof {
                    assert(first_failure(objects@, next) == Some(message@));
                    lemma_failure_prefix(objects@, need_views(needs@), i as int + 1);
                }
                return Err(message.clone());
            },
            Need::Object { hash, category, reason } => {
                let added = b.add_object(objects, hash.as_str(), category.as_str(), reason.clone());
                match added {
                    Err(e) => {
                        proof {
                            assert(first_failure(objects@, next) == Some("E_DEPENDENCY_OBJECT: missing "@ + hash@));
                            lemma_failure_prefix(objects@, need_views(needs@), i as int + 1);
                        }
                        return Err(e);
                    },
                    Ok(()) => {
                        proof {
                            assert(first_failure(objects@, next) is None);
                            assert forall|h: Seq<char>| true implies
                                needs_object(next, h) == (needs_object(pre, h) || hash@ == h)
                                && need_categories(next, h) == (if hash@ == h { need_categories(pre, h).insert(category@) } else { need_categories(pre, h) })
                                && need_reasons(next, h) == (if hash@ == h { need_reasons(pre, h).insert(reason@) } else { need_reasons(pre, h) }) by {
                                lemma_needs_push(pre, need_view(needs@[i as int]), h);
                            }
                            assert forall|h: Seq<char>| #[trigger] needs_object(next, h) implies {
                                let u = assoc(b.objects@, h).unwrap();
                                &&& assoc(b.objects@, h) is Some
                                &&& match assoc(b0.objects@, h) {
                                    Some(p) => u.bytes == p.bytes && u.media_type == p.media_type
                                        && names_in(u.reasons@) == names_in(p.reasons@) + need_reasons(next, h)
                                        && names_in(u.categories@) == names_in(p.categories@) + need_categories(next, h),
                                    None => u.bytes == assoc(objects@, h).unwrap().bytes
                                        && u.media_type@ == assoc(objects@, h).unwrap().media_type@
                                        && names_in(u.reasons@) == need_reasons(next, h)
                                        && names_in(u.categories@) == need_categories(next, h),
                                }
                            } by {
                                if h == hash@ {
                                    if needs_object(pre, h) {
                                        assert(assoc(bb.objects@, h) is Some);
                                        match assoc(b0.objects@, h) {
                                            Some(p) => {
                                                assert(names_in(p.reasons@) + need_reasons(pre, h).insert(reason@) =~= (names_in(p.reasons@) + need_reasons(pre, h)).insert(reason@));
                                                assert(names_in(p.categories@) + need_categories(pre, h).insert(category@) =~= (names_in(p.categories@) + need_categories(pre, h)).insert(category@));
                                            },
                                            None => {},
                                        }
                                    } else {
                                        assert(assoc(bb.objects@, h) == assoc(b0.objects@, h));
                                        match assoc(b0.objects@, h) {
                                            Some(p) => {
                                                assert(need_reasons(pre, h) =~= Set::empty()) by {
                                                    assert forall|r: Seq<char>| !need_reasons(pre, h).contains(r) by {
                                                        if need_reasons(pre, h).contains(r) {
                                                            let j = choose|j: int| 0 <= j < pre.len() && match #[trigger] pre[j] {
                                                                NeedView::Object { hash, reason, .. } => hash == h && reason == r,
                                                                NeedView::Fail { .. } => false,
                                                            };
                                                            assert(need_hash(pre[j]) == Some(h));
                                                        }
                                                    }
                                                }
                                                assert(need_categories(pre, h) =~= Set::empty()) by {
                                                    assert forall|c: Seq<char>| !need_categories(pre, h).contains(c) by {
                                                        if need_categories(pre, h).contains(c) {
                                                            let j = choose|j: int| 0 <= j < pre.len() && match #[trigger] pre[j] {
                                                                NeedView::Object { hash, category, .. } => hash == h && category == c,
                                                                NeedView::Fail { .. } => false,
                                                            };
                                                            assert(need_hash(pre[j]) == Some(h));
                                                        }
                                                    }
                                                }
                                                assert(names_in(p.reasons@) + Set::empty().insert(reason@) =~= names_in(p.reasons@).insert(reason@));
                                                assert(names_in(p.categories@) + Set::empty().insert(category@) =~= names_in(p.categories@).insert(category@));
                                            },
                                            None => {
                                                assert(need_reasons(pre, h) =~= Set::empty()) by {
                                                    assert forall|r: Seq<char>| !need_reasons(pre, h).contains(r) by {
                                                        if need_reasons(pre, h).contains(r) {
                                                            let j = choose|j: int| 0 <= j < pre.len() && match #[trigger] pre[j] {
                                                                NeedView::Object { hash, reason, .. } => hash == h && reason == r,
                                                                NeedView::Fail { .. } => false,
                                                            };
                                                            assert(need_hash(pre[j]) == Some(h));
                                                        }
                                                    }
                                                }
                                                assert(need_categories(pre, h) =~= Set::empty()) by {
                                                    assert forall|c: Seq<char>| !need_categories(pre, h).contains(c) by {
                                                        if need_categories(pre, h).contains(c) {
                                                            let j = choose|j: int| 0 <= j < pre.len() && match #[trigger] pre[j] {
                                                                NeedView::Object { hash, category, .. } => hash == h && category == c,
                                                                NeedView::Fail { .. } => false,
                                                            };
                                                            assert(need_hash(pre[j]) == Some(h));
                                                        }
                                                    }
                                                }
                                                assert(Set::<Seq<char>>::empty().insert(reason@) =~= set![reason@]);
                                                assert(Set::<Seq<char>>::empty().insert(category@) =~= set![category@]);
                                            },
                                        }
                                    }
                                } else {
                                    assert(needs_object(pre, h));
                                }
                            }
                            assert forall|h: Seq<char>| #[trigger] assoc_keys(b.objects@).contains(h)
                                <==> (assoc_keys(b0.objects@).contains(h) || needs_object(next, h)) by {}
                            assert forall|h: Seq<char>| !needs_object(next, h) implies #[trigger] assoc(b.objects@, h) == assoc(b0.objects@, h) by {}
                        }
                    },
                }
            },
        }
        i = i + 1;
    }
    proof {
        assert(need_views(needs@).subrange(0, needs@.len() as int) =~= need_views(needs@));
    }
    Ok(())
}

proof fn lemma_failure_prefix(objects: Seq<(String, Object)>, needs: Seq<NeedView>, n: int)
    requires
        0 <= n <= needs.len(),
        first_failure(objects, needs.subrange(0, n)) is Some,
    ensures
        first_failure(objects, needs) == first_failure(objects, needs.subrange(0, n)),
    decreases needs.len(),
{
    if n < needs.len() {
        assert(needs.drop_last().subrange(0, n) =~= needs.subrange(0, n));
        lemma_failure_prefix(objects, needs.drop_last(), n);
    } else {
        assert(needs.subrange(0, n) =~= needs);
    }
}

/// The parts of a runtime build that decide what each closure needs.
#[derive(Debug, Clone)]
pub struct RuntimeBuild {
    /// The packages of each module.
    pub modules: Vec<(String, ModuleBuildReport)>,
    /// The asset catalog packages.
    pub catalogs: Vec<(String, AssetCatalogBuildReport)>,
    /// The assets of each catalog.
    pub catalog_assets: Vec<(String, Vec<String>)>,
    /// The program's asset index.
    pub assets: Vec<(String, Asset)>,
    /// The modules each module calls into.
    pub module_dependencies: Vec<(String, Vec<String>)>,
    /// The module owning the entry function.
    pub entry_module: String,
    /// The user interface locales of the program.
    pub ui_locales: Vec<String>,
    /// The story text locales of the program.
    pub text_locales: Vec<String>,
    /// The program's game identity.
    pub game_id: String,
    /// The program's entry function.
    pub entry: String,
}

/// The closure category of an asset kind.
pub open spec fn kind_category(k: AssetKind) -> Seq<char> {
    match k {
        AssetKind::Image => "media_image"@,
        AssetKind::Audio => "media_audio"@,
        AssetKind::Font => "media_font"@,
    }
}

/// The steps for the assets `ids` selected by `consumer`: each asset's
/// object, or a failure for an asset that the index does not declare.
pub open spec fn asset_needs(ids: Seq<String>, assets: Seq<(String, Asset)>, consumer: Seq<char>) -> Seq<NeedView>
    decreases ids.len(),
{
    if ids.len() == 0 {
        Seq::empty()
    } else {
        asset_needs(ids.drop_last(), assets, consumer).push(match assoc(assets, ids.last()@) {
            Some(a) => NeedView::Object {
                hash: a.object@,
                category: kind_category(a.kind),
                reason: "asset "@ + ids.last()@ + " selected by "@ + consumer,
            },
            None => NeedView::Fail { message: "E_DEPENDENCY_ASSET: "@ + ids.last()@ },
        })
    }
}

/// The assets of catalog `id`.
pub open spec fn assets_of_catalog(catalog_assets: Seq<(String, Vec<String>)>, id: Seq<char>) -> Seq<String> {
    match assoc(catalog_assets, id) {
        Some(v) => v@,
        None => Seq::empty(),
    }
}

/// The steps for every catalog that `consumer` selects, in catalog order:
/// the catalog package, then its assets.
pub open spec fn catalog_needs_of(
    catalogs: Seq<(String, AssetCatalogBuildReport)>,
    catalog_assets: Seq<(String, Vec<String>)>,
    assets: Seq<(String, Asset)>,
    consumer: Seq<char>,
) -> Seq<NeedView>
    decreases catalogs.len(),
{
    if catalogs.len() == 0 {
        Seq::empty()
    } else {
        let id = catalogs.last().0;
        let report = catalogs.last().1;
        catalog_needs_of(catalogs.drop_last(), catalog_assets, assets, consumer) + if names_in(report.consumers@).contains(consumer) {
            seq![NeedView::Object { hash: report.object@, category: "catalog"@, reason: "catalog "@ + id@ + " selected by "@ + consumer }]
                + asset_needs(assets_of_catalog(catalog_assets, id@), assets, consumer)
        } else {
            Seq::empty()
        }
    }
}

fn cat(a: String, b: &str) -> (r: String)
    ensures
        r@ == a@ + b@,
{
    let mut r = a;
    r.append(b);
    r
}

fn push_asset_needs(out: &mut Vec<Need>, ids: &Vec<String>, assets: &Vec<(String, Asset)>, consumer: &str)
    ensures
        need_views(final(out)@) == need_views(old(out)@) + asset_needs(ids@, assets@, consumer@),
{
    let ghost base = need_views(out@);
    let mut i: usize = 0;
    proof {
        assert(ids@.subrange(0, 0) =~= Seq::<String>::empty());
        assert(base + Seq::<NeedView>::empty() =~= base);
    }
    while i < ids.len()
        invariant
            i <= ids@.len(),
            need_views(out@) == base + asset_needs(ids@.subrange(0, i as int), assets@, consumer@),
        decreases ids@.len() - i,
    {
        let ghost pre = ids@.subrange(0, i as int);
        let ghost next = ids@.subrange(0, i + 1);
        let ghost before = out@;
        proof {
            assert(next.drop_last() =~= pre);
            assert(next.last() == ids@[i as int]);
        }
        let id = &ids[i];
        let n = match get_entry(assets, id.as_str()) {
            Some(a) => {
                let category = match a.kind {
                    AssetKind::Image => owned("media_image"),
                    AssetKind::Audio => owned("media_audio"),
                    AssetKind::Font => owned("media_font"),
                };
                let reason = cat(cat(cat(owned("asset "), id.as_str()), " selected by "), consumer);
                Need::Object { hash: a.object.clone(), category, reason }
            },
            None => Need::Fail { message: concat("E_DEPENDENCY_ASSET: ", id.as_str()) },
        };
        out.push(n);
        proof {
            assert(need_views(out@) =~= need_views(before).push(need_view(n)));
            assert(base + asset_needs(next, assets@, consumer@) =~= (base + asset_needs(pre, assets@, consumer@)).push(need_view(n)));
        }
        i = i + 1;
    }
    proof {
        assert(ids@.subrange(0, ids@.len() as int) =~= ids@);
    }
}

/// The steps for the catalogs that `consumer` selects.
pub fn catalog_needs(runtime: &RuntimeBuild, consumer: &str) -> (r: Vec<Need>)
    ensures
        need_views(r@) == catalog_needs_of(runtime.catalogs@, runtime.catalog_assets@, runtime.assets@, consumer@),
{
    let mut out: Vec<Need> = Vec::new();
    let catalogs = &runtime.catalogs;
    let mut i: usize = 0;
    proof {
        assert(catalogs@.subrange(0, 0) =~= Seq::<(String, AssetCatalogBuildReport)>::empty());
        assert(need_views(out@) =~= Seq::<NeedView>::empty());
    }
    while i < catalogs.len()
        invariant
            i <= catalogs@.len(),
            catalogs == runtime.catalogs,
            need_views(out@) == catalog_needs_of(catalogs@.subrange(0, i as int), runtime.catalog_assets@, runtime.assets@, consumer@),
        decreases catalogs@.len() - i,
    {
        let ghost pre = catalogs@.subrange(0, i as int);
        let ghost next = catalogs@.subrange(0, i + 1);
        proof {
            assert(next.drop_last() =~= pre);
            assert(next.last() == catalogs@[i as int]);
        }
        let id = &catalogs[i].0;
        let report = &catalogs[i].1;
        if crate::assoc::contains_name(&report.consumers, consumer) {
            let ghost before = out@;
            let reason = cat(cat(cat(owned("catalog "), id.as_str()), " selected by "), consumer);
            let n = Need::Object { hash: report.object.clone(), category: owned("catalog"), reason };
            out.push(n);
            proof {
                assert(need_views(out@) =~= need_views(before).push(need_view(n)));
            }
            let ghost mid = need_views(out@);
            match get_entry(&runtime.catalog_assets, id.as_str()) {
                Some(ids) => {
                    push_asset_needs(&mut out, ids, &runtime.assets, consumer);
                },
                None => {
                    proof {
                        assert(asset_needs(Seq::<String>::empty(), runtime.assets@, consumer@) =~= Seq::empty());
                        assert(mid + Seq::<NeedView>::empty() =~= mid);
                    }
                },
            }
            proof {
                let cat_view = seq![need_view(n)];
                assert(need_views(before).push(need_view(n)) =~= need_views(before) + cat_view);
                assert(catalog_needs_of(next, runtime.catalog_assets@, runtime.assets@, consumer@)
                    =~= need_views(before) + (cat_view + asset_needs(assets_of_catalog(runtime.catalog_assets@, id@), runtime.assets@, consumer@)));
            }
        } else {
            proof {
                assert(catalog_needs_of(next, runtime.catalog_assets@, runtime.assets@, consumer@)
                    =~= catalog_needs_of(pre, runtime.catalog_assets@, runtime.assets@, consumer@));
            }
        }
        i = i + 1;
    }
    proof {
        assert(catalogs@.subrange(0, catalogs@.len() as int) =~= catalogs@);
    }
    out
}

/// The steps for the payload of `module` in the given locales, for
/// `reason`: its static and code packages, its text package in
/// `text_locale` if it has one, and the catalogs selected by the module and
/// by the two locales.
pub open spec fn module_needs_of(runtime: RuntimeBuild, module: Seq<char>, text_locale: Seq<char>, ui_locale: Seq<char>, reason: Seq<char>) -> Seq<NeedView> {
    match assoc(runtime.modules@, module) {
        None => seq![NeedView::Fail { message: "E_DEPENDENCY_MODULE: "@ + module }],
        Some(p) => seq![
            NeedView::Object { hash: p.static_content@, category: "static"@, reason: "module "@ + module + " static declarations ("@ + reason + ")"@ },
            NeedView::Object { hash: p.code@, category: "code"@, reason: "module "@ + module + " code ("@ + reason + ")"@ },
        ] + match assoc(p.locales@, text_locale) {
            Some(t) => seq![NeedView::Object {
                hash: t.object@,
                category: "text"@,
                reason: "module "@ + module + " text locale "@ + text_locale + " ("@ + reason + ")"@,
            }],
            None => Seq::empty(),
        } + catalog_needs_of(runtime.catalogs@, runtime.catalog_assets@, runtime.assets@, "module:"@ + module)
            + catalog_needs_of(runtime.catalogs@, runtime.catalog_assets@, runtime.assets@, "locale:ui:"@ + ui_locale)
            + catalog_needs_of(runtime.catalogs@, runtime.catalog_assets@, runtime.assets@, "locale:text:"@ + text_locale),
    }
}

fn append_needs(out: &mut Vec<Need>, more: Vec<Need>)
    ensures
        need_views(final(out)@) == need_views(old(out)@) + need_views(more@),
{
    let mut more = more;
    let ghost m = more@;
    out.append(&mut more);
    proof {
        assert(need_views(out@) =~= need_views(old(out)@) + need_views(m));
    }
}

/// The steps for the payload of `module` (see `module_needs_of`).
pub fn module_needs(runtime: &RuntimeBuild, module: &str, text_locale: &str, ui_locale: &str, reason: &str) -> (r: Vec<Need>)
    ensures
        need_views(r@) == module_needs_of(*runtime, module@, text_locale@, ui_locale@, reason@),
{
    let mut out: Vec<Need> = Vec::new();
    let package = match get_entry(&runtime.modules, module) {
        Some(p) => p,
        None => {
            out.push(Need::Fail { message: concat("E_DEPENDENCY_MODULE: ", module) });
            proof {
                assert(need_views(out@) =~= module_needs_of(*runtime, module@, text_locale@, ui_locale@, reason@));
            }
            return out;
        },
    };
    let r1 = cat(cat(cat(cat(owned("module "), module), " static declarations ("), reason), ")");
    out.push(Need::Object { hash: package.static_content.clone(), category: owned("static"), reason: r1 });
    let r2 = cat(cat(cat(cat(owned("module "), module), " code ("), reason), ")");
    out.push(Need::Object { hash: package.code.clone(), category: owned("code"), reason: r2 });
    let ghost two = need_views(out@);
    match get_entry(&package.locales, text_locale) {
        Some(t) => {
            let r3 = cat(cat(cat(cat(cat(cat(owned("module "), module), " text locale "), text_locale), " ("), reason), ")");
            out.push(Need::Object { hash: t.object.clone(), category: owned("text"), reason: r3 });
        },
        None => {},
    }
    let ghost three = need_views(out@);
    append_needs(&mut out, catalog_needs(runtime, concat("module:", module).as_str()));
    append_needs(&mut out, catalog_needs(runtime, concat("locale:ui:", ui_locale).as_str()));
    append_needs(&mut out, catalog_needs(runtime, concat("locale:text:", text_locale).as_str()));
    proof {
        let p = assoc(runtime.modules@, module@).unwrap();
        let first = seq![
            NeedView::Object { hash: p.static_content@, category: "static"@, reason: "module "@ + module@ + " static declarations ("@ + reason@ + ")"@ },
            NeedView::Object { hash: p.code@, category: "code"@, reason: "module "@ + module@ + " code ("@ + reason@ + ")"@ },
        ];
        assert(two =~= first);
        let text_part = match assoc(p.locales@, text_locale@) {
            Some(t) => seq![NeedView::Object {
                hash: t.object@,
                category: "text"@,
                reason: "module "@ + module@ + " text locale "@ + text_locale@ + " ("@ + reason@ + ")"@,
            }],
            None => Seq::<NeedView>::empty(),
        };
        assert(three =~= first + text_part);
        assert(need_views(out@) =~= module_needs_of(*runtime, module@, text_locale@, ui_locale@, reason@));
    }
    out
}

/// A loose file of the release bootstrap, as read from the output.
#[derive(Debug, Clone)]
pub struct BootFile {
    pub path: String,
    pub bytes: Vec<u8>,
    pub media_type: String,
    pub reason: String,
}

/// The sum of the sizes of the objects of an index.
pub open spec fn object_total(v: Seq<(String, Object)>) -> int
    decreases v.len(),
{
    if v.len() == 0 {
        0
    } else {
        object_total(v.drop_last()) + v.last().1.bytes
    }
}

/// The sum of the sizes of the bootstrap files.
pub open spec fn boot_total(v: Seq<BootFile>) -> int
    decreases v.len(),
{
    if v.len() == 0 {
        0
    } else {
        boot_total(v.drop_last()) + v.last().bytes@.len()
    }
}

/// No two bootstrap files share a path.
pub open spec fn boot_paths_distinct(v: Seq<BootFile>) -> bool {
    forall|a: int, b: int| 0 <= a < b < v.len() ==> (#[trigger] v[a]).path@ != (#[trigger] v[b]).path@
}

/// `fs` records exactly the bootstrap files: each with the digest, size,
/// media type and reason of the file.
pub open spec fn files_recorded(fs: Seq<(String, DependencyFile)>, files: Seq<BootFile>) -> bool {
    &&& forall|p: Seq<char>| #[trigger] assoc_keys(fs).contains(p) <==> exists|i: int| 0 <= i < files.len() && (#[trigger] files[i]).path@ == p
    &&& forall|i: int| 0 <= i < files.len() ==> {
        let d = assoc(fs, (#[trigger] files[i]).path@).unwrap();
        &&& assoc(fs, files[i].path@) is Some
        &&& d.sha256@ == content_digest(files[i].bytes@)
        &&& d.bytes == files[i].bytes@.len()
        &&& d.media_type@ == files[i].media_type@
        &&& d.reason@ == files[i].reason@
    }
}

/// Builder `b`, started empty, took every step of `needs`: it records each
/// needed object once, with its size and media type from the index and the
/// categories and reasons of the steps.
pub open spec fn needs_recorded(b: ClosureBuilder, objects: Seq<(String, Object)>, needs: Seq<NeedView>) -> bool {
    &&& use_keys_distinct(b.objects@)
    &&& forall|h: Seq<char>| #[trigger] assoc_keys(b.objects@).contains(h) <==> needs_object(needs, h)
    &&& forall|h: Seq<char>| #[trigger] needs_object(needs, h) ==> {
        let u = assoc(b.objects@, h).unwrap();
        &&& assoc(b.objects@, h) is Some
        &&& assoc(objects, h) is Some
        &&& u.bytes == assoc(objects, h).unwrap().bytes
        &&& u.media_type@ == assoc(objects, h).unwrap().media_type@
        &&& names_in(u.reasons@) == need_reasons(needs, h)
        &&& names_in(u.categories@) == need_categories(needs, h)
    }
}

/// `c` is the closure of the objects that `needs` asks for and of the
/// bootstrap `files`.
pub open spec fn closure_built(c: DependencyClosure, objects: Seq<(String, Object)>, needs: Seq<NeedView>, files: Seq<BootFile>) -> bool {
    exists|b: ClosureBuilder| #[trigger] finished(b, c) && needs_recorded(b, objects, needs) && files_recorded(b.files@, files)
}

proof fn lemma_object_total_nonneg(v: Seq<(String, Object)>)
    ensures
        object_total(v) >= 0,
    decreases v.len(),
{
    if v.len() > 0 {
        lemma_object_total_nonneg(v.drop_last());
    }
}

proof fn lemma_object_total_remove(v: Seq<(String, Object)>, j: int)
    requires
        0 <= j < v.len(),
    ensures
        object_total(v) == object_total(v.remove(j)) + v[j].1.bytes,
    decreases v.len(),
{
    if j == v.len() - 1 {
        assert(v.remove(j) =~= v.drop_last());
    } else {
        lemma_object_total_remove(v.drop_last(), j);
        assert(v.remove(j).drop_last() =~= v.drop_last().remove(j));
        assert(v.remove(j).last() == v.last());
    }
}

proof fn lemma_assoc_index(v: Seq<(String, Object)>, k: Seq<char>) -> (j: int)
    requires
        assoc(v, k) is Some,
    ensures
        0 <= j < v.len(),
        v[j].0@ == k,
        v[j].1 == assoc(v, k).unwrap(),
        forall|i: int| 0 <= i < j ==> (#[trigger] v[i]).0@ != k,
    decreases v.len(),
{
    if v[0].0@ == k {
        0
    } else {
        let j = lemma_assoc_index(v.drop_first(), k);
        assert forall|i: int| 0 <= i < j + 1 implies (#[trigger] v[i]).0@ != k by {
            if i > 0 {
                assert(v[i] == v.drop_first()[i - 1]);
            }
        }
        j + 1
    }
}

proof fn lemma_assoc_remove_other(v: Seq<(String, Object)>, j: int, k: Seq<char>)
    requires
        0 <= j < v.len(),
        forall|i: int| 0 <= i < j ==> (#[trigger] v[i]).0@ != v[j].0@,
        k != v[j].0@,
    ensures
        assoc(v.remove(j), k) == assoc(v, k),
    decreases j,
{
    if j == 0 {
        assert(v.remove(0) =~= v.drop_first());
    } else {
        assert(v.remove(j).drop_first() =~= v.drop_first().remove(j - 1));
        assert(v.remove(j)[0] == v[0]);
        assert forall|i: int| 0 <= i < j - 1 implies (#[trigger] v.drop_first()[i]).0@ != v.drop_first()[j - 1].0@ by {
            assert(v.drop_first()[i] == v[i + 1]);
        }
        lemma_assoc_remove_other(v.drop_first(), j - 1, k);
    }
}

/// A closure's objects, each recorded once with its size in the index, take
/// no more bytes than the whole index.
proof fn lemma_recorded_within(bs: Seq<(String, ObjectUse)>, v: Seq<(String, Object)>)
    requires
        use_keys_distinct(bs),
        forall|i: int| 0 <= i < bs.len() ==> assoc(v, (#[trigger] bs[i]).0@) is Some
            && bs[i].1.bytes == assoc(v, bs[i].0@).unwrap().bytes,
    ensures
        use_bytes(bs) <= object_total(v),
    decreases bs.len(),
{
    if bs.len() == 0 {
        lemma_object_total_nonneg(v);
    } else {
        let last = bs.len() - 1;
        let k = bs[last].0@;
        assert(assoc(v, k) is Some);
        let j = lemma_assoc_index(v, k);
        let w = v.remove(j);
        let rest = bs.drop_last();
        assert forall|i: int| 0 <= i < rest.len() implies assoc(w, (#[trigger] rest[i]).0@) is Some
            && rest[i].1.bytes == assoc(w, rest[i].0@).unwrap().bytes by {
            assert(rest[i] == bs[i]);
            assert(bs[i].0@ != bs[last].0@);
            lemma_assoc_remove_other(v, j, rest[i].0@);
        }
        assert forall|a: int, b: int| 0 <= a < b < rest.len() implies (#[trigger] rest[a]).0@ != (#[trigger] rest[b]).0@ by {
            assert(rest[a] == bs[a] && rest[b] == bs[b]);
        }
        lemma_recorded_within(rest, w);
        lemma_object_total_remove(v, j);
    }
}

proof fn lemma_boot_total_nonneg(v: Seq<BootFile>)
    ensures
        boot_total(v) >= 0,
    decreases v.len(),
{
    if v.len() > 0 {
        lemma_boot_total_nonneg(v.drop_last());
    }
}

proof fn lemma_no_failure_objects(objects: Seq<(String, Object)>, needs: Seq<NeedView>, h: Seq<char>)
    requires
        first_failure(objects, needs) is None,
        needs_object(needs, h),
    ensures
        assoc(objects, h) is Some,
    decreases needs.len(),
{
    let i = choose|i: int| 0 <= i < needs.len() && need_hash(#[trigger] needs[i]) == Some(h);
    if i == needs.len() - 1 {
        assert(need_failure(objects, needs.last()) is None);
    } else {
        assert(need_hash(needs.drop_last()[i]) == Some(h));
        lemma_no_failure_objects(objects, needs.drop_last(), h);
    }
}

fn add_boot_files(b: &mut ClosureBuilder, files: &Vec<BootFile>)
    requires
        old(b).files@.len() == 0,
        boot_paths_distinct(files@),
    ensures
        final(b).objects == old(b).objects,
        files_recorded(final(b).files@, files@),
        file_bytes(final(b).files@) == boot_total(files@),
{
    let mut i: usize = 0;
    proof {
        assert(files@.subrange(0, 0) =~= Seq::<BootFile>::empty());
    }
    while i < files.len()
        invariant
            i <= files@.len(),
            boot_paths_distinct(files@),
            b.objects == old(b).objects,
            files_recorded(b.files@, files@.subrange(0, i as int)),
            file_bytes(b.files@) == boot_total(files@.subrange(0, i as int)),
        decreases files@.len() - i,
    {
        let ghost pre = files@.subrange(0, i as int);
        let ghost next = files@.subrange(0, i + 1);
        let ghost before = b.files@;
        let f = &files[i];
        proof {
            assert(next.drop_last() =~= pre);
            assert(next.last() == files@[i as int]);
            assert(!assoc_keys(before).contains(f.path@)) by {
                if assoc_keys(before).contains(f.path@) {
                    let j = choose|j: int| 0 <= j < pre.len() && (#[trigger] pre[j]).path@ == f.path@;
                    assert(pre[j] == files@[j]);
                }
            }
        }
        b.add_file(f.path.as_str(), f.bytes.as_slice(), f.media_type.as_str(), f.reason.as_str());
        proof {
            assert forall|p: Seq<char>| #[trigger] assoc_keys(b.files@).contains(p) <==> exists|j: int| 0 <= j < next.len() && (#[trigger] next[j]).path@ == p by {
                if assoc_keys(b.files@).contains(p) && p != f.path@ {
                    assert(assoc_keys(before).contains(p));
                    let j = choose|j: int| 0 <= j < pre.len() && (#[trigger] pre[j]).path@ == p;
                    assert(next[j] == pre[j]);
                }
                if exists|j: int| 0 <= j < next.len() && (#[trigger] next[j]).path@ == p {
                    let j = choose|j: int| 0 <= j < next.len() && (#[trigger] next[j]).path@ == p;
                    if j < pre.len() {
                        assert(next[j] == pre[j]);
                    }
                }
            }
            assert forall|j: int| 0 <= j < next.len() implies {
                let d = assoc(b.files@, (#[trigger] next[j]).path@).unwrap();
                &&& assoc(b.files@, next[j].path@) is Some
                &&& d.sha256@ == content_digest(next[j].bytes@)
                &&& d.bytes == next[j].bytes@.len()
                &&& d.media_type@ == next[j].media_type@
                &&& d.reason@ == next[j].reason@
            } by {
                if j < pre.len() {
                    assert(next[j] == pre[j]);
                    assert(pre[j] == files@[j]);
                    assert(next[j].path@ != f.path@);
                }
            }
        }
        i = i + 1;
    }
    proof {
        assert(files@.subrange(0, files@.len() as int) =~= files@);
    }
}

/// The closure of the objects that `needs` asks for, and of the bootstrap
/// `files`; or the failure of the first step that fails.
pub fn build_closure(objects: &Vec<(String, Object)>, needs: &Vec<Need>, files: &Vec<BootFile>) -> (r: Result<DependencyClosure, String>)
    requires
        object_total(objects@) + boot_total(files@) <= u64::MAX,
        boot_paths_distinct(files@),
    ensures
        match first_failure(objects@, need_views(needs@)) {
            Some(m) => err_text(r) == Some(m),
            None => r matches Ok(c) && closure_built(c, objects@, need_views(needs@), files@),
        },
{
    let mut b = ClosureBuilder::new();
    let ghost e = b;
    match take_needs(&mut b, objects, needs) {
        Err(m) => return Err(m),
        Ok(()) => {},
    }
    let ghost steps = need_views(needs@);
    proof {
        assert(use_keys_distinct(e.objects@));
        assert forall|h: Seq<char>| !assoc_keys(e.objects@).contains(h) by {}
        assert forall|h: Seq<char>| #[trigger] needs_object(steps, h) implies assoc(objects@, h) is Some by {
            lemma_no_failure_objects(objects@, steps, h);
        }
        assert forall|h: Seq<char>| #[trigger] needs_object(steps, h) implies assoc(e.objects@, h) is None by {
            crate::assoc::lemma_assoc_some(e.objects@, h);
        }
        assert forall|h: Seq<char>| #[trigger] needs_object(steps, h) implies names_in(assoc(b.objects@, h).unwrap().reasons@) == need_reasons(steps, h)
            && names_in(assoc(b.objects@, h).unwrap().categories@) == need_categories(steps, h) by {
            assert(assoc(e.objects@, h) is None);
        }
        assert(needs_recorded(b, objects@, steps));
        assert forall|i: int| 0 <= i < b.objects@.len() implies assoc(objects@, (#[trigger] b.objects@[i]).0@) is Some
            && b.objects@[i].1.bytes == assoc(objects@, b.objects@[i].0@).unwrap().bytes by {
            let h = b.objects@[i].0@;
            assert(assoc_keys(b.objects@).contains(h));
            assert(needs_object(steps, h));
            crate::assoc::lemma_assoc_first(b.objects@, h, i);
        }
        lemma_recorded_within(b.objects@, objects@);
    }
    let ghost after_needs = b;
    add_boot_files(&mut b, files);
    proof {
        assert(b.objects == after_needs.objects);
        lemma_boot_total_nonneg(files@);
    }
    let c = b.finish();
    proof {
        assert(finished(b, c) && needs_recorded(b, objects@, steps) && files_recorded(b.files@, files@));
    }
    Ok(c)
}

/// The objects every boot closure needs first: the runtime root and the
/// three engine files.
pub open spec fn root_needs(program_hash: Seq<char>, engine: EngineFiles) -> Seq<NeedView> {
    seq![
        NeedView::Object { hash: program_hash, category: "root"@, reason: "runtime root indexes, configuration and minimal title scene"@ },
        NeedView::Object { hash: engine.js@, category: "engine"@, reason: "engine glue"@ },
        NeedView::Object { hash: engine.wasm@, category: "engine"@, reason: "engine wasm"@ },
        NeedView::Object { hash: engine.host@, category: "engine"@, reason: "host adapter"@ },
    ]
}

/// The steps of the boot closure in the given locales: the root objects,
/// then the catalogs of the bootstrap and of the two locales.
pub open spec fn boot_needs_of(runtime: RuntimeBuild, program_hash: Seq<char>, engine: EngineFiles, ui: Seq<char>, text: Seq<char>) -> Seq<NeedView> {
    root_needs(program_hash, engine)
        + catalog_needs_of(runtime.catalogs@, runtime.catalog_assets@, runtime.assets@, "bootstrap"@)
        + catalog_needs_of(runtime.catalogs@, runtime.catalog_assets@, runtime.assets@, "locale:ui:"@ + ui)
        + catalog_needs_of(runtime.catalogs@, runtime.catalog_assets@, runtime.assets@, "locale:text:"@ + text)
}

/// The steps for the payload of each module on `paths`, for the path by
/// which the entry reaches it.
pub open spec fn entry_needs_of(runtime: RuntimeBuild, paths: Seq<(String, String)>, ui: Seq<char>, text: Seq<char>) -> Seq<NeedView>
    decreases paths.len(),
{
    if paths.len() == 0 {
        Seq::empty()
    } else {
        entry_needs_of(runtime, paths.drop_last(), ui, text)
            + module_needs_of(runtime, paths.last().0@, text, ui, "entry call closure "@ + paths.last().1@)
    }
}

/// The steps of the closure of `module` alone.
pub open spec fn single_needs_of(runtime: RuntimeBuild, module: Seq<char>, ui: Seq<char>, text: Seq<char>) -> Seq<NeedView> {
    module_needs_of(runtime, module, text, ui, "single-module closure"@)
}

/// The steps of the boot and entry closures of one user interface locale,
/// text locale by text locale.
pub open spec fn boot_entry_texts(runtime: RuntimeBuild, program_hash: Seq<char>, engine: EngineFiles, paths: Seq<(String, String)>, ui: Seq<char>, texts: Seq<String>) -> Seq<NeedView>
    decreases texts.len(),
{
    if texts.len() == 0 {
        Seq::empty()
    } else {
        boot_entry_texts(runtime, program_hash, engine, paths, ui, texts.drop_last())
            + (boot_needs_of(runtime, program_hash, engine, ui, texts.last()@) + entry_needs_of(runtime, paths, ui, texts.last()@))
    }
}

/// The steps of the boot and entry closures, locale pair by locale pair.
pub open spec fn boot_entry_uis(runtime: RuntimeBuild, program_hash: Seq<char>, engine: EngineFiles, paths: Seq<(String, String)>, uis: Seq<String>, texts: Seq<String>) -> Seq<NeedView>
    decreases uis.len(),
{
    if uis.len() == 0 {
        Seq::empty()
    } else {
        boot_entry_uis(runtime, program_hash, engine, paths, uis.drop_last(), texts)
            + boot_entry_texts(runtime, program_hash, engine, paths, uis.last()@, texts)
    }
}

/// The steps of the single-module closures of `module` in one user
/// interface locale.
pub open spec fn single_texts(runtime: RuntimeBuild, module: Seq<char>, ui: Seq<char>, texts: Seq<String>) -> Seq<NeedView>
    decreases texts.len(),
{
    if texts.len() == 0 {
        Seq::empty()
    } else {
        single_texts(runtime, module, ui, texts.drop_last()) + single_needs_of(runtime, module, ui, texts.last()@)
    }
}

/// The steps of the single-module closures of `module`.
pub open spec fn single_uis(runtime: RuntimeBuild, module: Seq<char>, uis: Seq<String>, texts: Seq<String>) -> Seq<NeedView>
    decreases uis.len(),
{
    if uis.len() == 0 {
        Seq::empty()
    } else {
        single_uis(runtime, module, uis.drop_last(), texts) + single_texts(runtime, module, uis.last()@, texts)
    }
}

/// The steps of the single-module closures of every module.
pub open spec fn single_modules(runtime: RuntimeBuild, modules: Seq<(String, ModuleBuildReport)>, uis: Seq<String>, texts: Seq<String>) -> Seq<NeedView>
    decreases modules.len(),
{
    if modules.len() == 0 {
        Seq::empty()
    } else {
        single_modules(runtime, modules.drop_last(), uis, texts) + single_uis(runtime, modules.last().0@, uis, texts)
    }
}

/// Every step the dependency report takes, in the order it takes them.
pub open spec fn report_needs(runtime: RuntimeBuild, program_hash: Seq<char>, engine: EngineFiles, paths: Seq<(String, String)>) -> Seq<NeedView> {
    boot_entry_uis(runtime, program_hash, engine, paths, runtime.ui_locales@, runtime.text_locales@)
        + single_modules(runtime, runtime.modules@, runtime.ui_locales@, runtime.text_locales@)
}

proof fn lemma_failure_concat(objects: Seq<(String, Object)>, a: Seq<NeedView>, b: Seq<NeedView>)
    ensures
        first_failure(objects, a + b) == (match first_failure(objects, a) {
            Some(m) => Some(m),
            None => first_failure(objects, b),
        }),
    decreases b.len(),
{
    if b.len() == 0 {
        assert(a + b =~= a);
    } else {
        lemma_failure_concat(objects, a, b.drop_last());
        assert((a + b).drop_last() =~= a + b.drop_last());
        assert((a + b).last() == b.last());
    }
}

fn root_and_catalog_needs(runtime: &RuntimeBuild, program_hash: &str, engine: &EngineFiles, ui: &str, text: &str) -> (r: Vec<Need>)
    ensures
        need_views(r@) == boot_needs_of(*runtime, program_hash@, *engine, ui@, text@),
{
    let mut out: Vec<Need> = Vec::new();
    out.push(Need::Object { hash: owned(program_hash), category: owned("root"), reason: owned("runtime root indexes, configuration and minimal title scene") });
    out.push(Need::Object { hash: engine.js.clone(), category: owned("engine"), reason: owned("engine glue") });
    out.push(Need::Object { hash: engine.wasm.clone(), category: owned("engine"), reason: owned("engine wasm") });
    out.push(Need::Object { hash: engine.host.clone(), category: owned("engine"), reason: owned("host adapter") });
    proof {
        assert(need_views(out@) =~= root_needs(program_hash@, *engine));
    }
    append_needs(&mut out, catalog_needs(runtime, "bootstrap"));
    append_needs(&mut out, catalog_needs(runtime, concat("locale:ui:", ui).as_str()));
    append_needs(&mut out, catalog_needs(runtime, concat("locale:text:", text).as_str()));
    out
}

fn entry_needs(runtime: &RuntimeBuild, paths: &Vec<(String, String)>, ui: &str, text: &str) -> (r: Vec<Need>)
    ensures
        need_views(r@) == entry_needs_of(*runtime, paths@, ui@, text@),
{
    let mut out: Vec<Need> = Vec::new();
    let mut i: usize = 0;
    proof {
        assert(paths@.subrange(0, 0) =~= Seq::<(String, String)>::empty());
        assert(need_views(out@) =~= Seq::<NeedView>::empty());
    }
    while i < paths.len()
        invariant
            i <= paths@.len(),
            need_views(out@) == entry_needs_of(*runtime, paths@.subrange(0, i as int), ui@, text@),
        decreases paths@.len() - i,
    {
        proof {
            assert(paths@.subrange(0, i + 1).drop_last() =~= paths@.subrange(0, i as int));
            assert(paths@.subrange(0, i + 1).last() == paths@[i as int]);
        }
        let reason = concat("entry call closure ", paths[i].1.as_str());
        append_needs(&mut out, module_needs(runtime, paths[i].0.as_str(), text, ui, reason.as_str()));
        i = i + 1;
    }
    proof {
        assert(paths@.subrange(0, paths@.len() as int) =~= paths@);
    }
    out
}

proof fn lemma_boot_entry_texts_prefix(objects: Seq<(String, Object)>, runtime: RuntimeBuild, program_hash: Seq<char>, engine: EngineFiles, paths: Seq<(String, String)>, ui: Seq<char>, texts: Seq<String>, n: int)
    requires
        0 <= n <= texts.len(),
        first_failure(objects, boot_entry_texts(runtime, program_hash, engine, paths, ui, texts.subrange(0, n))) is Some,
    ensures
        first_failure(objects, boot_entry_texts(runtime, program_hash, engine, paths, ui, texts)) == first_failure(objects, boot_entry_texts(runtime, program_hash, engine, paths, ui, texts.subrange(0, n))),
    decreases texts.len(),
{
    if n < texts.len() {
        assert(texts.drop_last().subrange(0, n) =~= texts.subrange(0, n));
        lemma_boot_entry_texts_prefix(objects, runtime, program_hash, engine, paths, ui, texts.drop_last(), n);
        lemma_failure_concat(objects, boot_entry_texts(runtime, program_hash, engine, paths, ui, texts.drop_last()), boot_entry_texts(runtime, program_hash, engine, paths, ui, texts).subrange(boot_entry_texts(runtime, program_hash, engine, paths, ui, texts.drop_last()).len() as int, boot_entry_texts(runtime, program_hash, engine, paths, ui, texts).len() as int));
        assert(boot_entry_texts(runtime, program_hash, engine, paths, ui, texts) =~= boot_entry_texts(runtime, program_hash, engine, paths, ui, texts.drop_last()) + boot_entry_texts(runtime, program_hash, engine, paths, ui, texts).subrange(boot_entry_texts(runtime, program_hash, engine, paths, ui, texts.drop_last()).len() as int, boot_entry_texts(runtime, program_hash, engine, paths, ui, texts).len() as int));
    } else {
        assert(texts.subrange(0, n) =~= texts);
    }
}

proof fn lemma_boot_entry_uis_prefix(objects: Seq<(String, Object)>, runtime: RuntimeBuild, program_hash: Seq<char>, engine: EngineFiles, paths: Seq<(String, String)>, uis: Seq<String>, texts: Seq<String>, n: int)
    requires
        0 <= n <= uis.len(),
        first_failure(objects, boot_entry_uis(runtime, program_hash, engine, paths, uis.subrange(0, n), texts)) is Some,
    ensures
        first_failure(objects, boot_entry_uis(runtime, program_hash, engine, paths, uis, texts)) == first_failure(objects, boot_entry_uis(runtime, program_hash, engine, paths, uis.subrange(0, n), texts)),
    decreases uis.len(),
{
    if n < uis.len() {
        assert(uis.drop_last().subrange(0, n) =~= uis.subrange(0, n));
        lemma_boot_entry_uis_prefix(objects, runtime, program_hash, engine, paths, uis.drop_last(), texts, n);
        lemma_failure_concat(objects, boot_entry_uis(runtime, program_hash, engine, paths, uis.drop_last(), texts), boot_entry_uis(runtime, program_hash, engine, paths, uis, texts).subrange(boot_entry_uis(runtime, program_hash, engine, paths, uis.drop_last(), texts).len() as int, boot_entry_uis(runtime, program_hash, engine, paths, uis, texts).len() as int));
        assert(boot_entry_uis(runtime, program_hash, engine, paths, uis, texts) =~= boot_entry_uis(runtime, program_hash, engine, paths, uis.drop_last(), texts) + boot_entry_uis(runtime, program_hash, engine, paths, uis, texts).subrange(boot_entry_uis(runtime, program_hash, engine, paths, uis.drop_last(), texts).len() as int, boot_entry_uis(runtime, program_hash, engine, paths, uis, texts).len() as int));
    } else {
        assert(uis.subrange(0, n) =~= uis);
    }
}

proof fn lemma_single_texts_prefix(objects: Seq<(String, Object)>, runtime: RuntimeBuild, module: Seq<char>, ui: Seq<char>, texts: Seq<String>, n: int)
    requires
        0 <= n <= texts.len(),
        first_failure(objects, single_texts(runtime, module, ui, texts.subrange(0, n))) is Some,
    ensures
        first_failure(objects, single_texts(runtime, module, ui, texts)) == first_failure(objects, single_texts(runtime, module, ui, texts.subrange(0, n))),
    decreases texts.len(),
{
    if n < texts.len() {
        assert(texts.drop_last().subrange(0, n) =~= texts.subrange(0, n));
        lemma_single_texts_prefix(objects, runtime, module, ui, texts.drop_last(), n);
        lemma_failure_concat(objects, single_texts(runtime, module, ui, texts.drop_last()), single_texts(runtime, module, ui, texts).subrange(single_texts(runtime, module, ui, texts.drop_last()).len() as int, single_texts(runtime, module, ui, texts).len() as int));
        assert(single_texts(runtime, module, ui, texts) =~= single_texts(runtime, module, ui, texts.drop_last()) + single_texts(runtime, module, ui, texts).subrange(single_texts(runtime, module, ui, texts.drop_last()).len() as int, single_texts(runtime, module, ui, texts).len() as int));
    } else {
        assert(texts.subrange(0, n) =~= texts);
    }
}

proof fn lemma_single_uis_prefix(objects: Seq<(String, Object)>, runtime: RuntimeBuild, module: Seq<char>, uis: Seq<String>, texts: Seq<String>, n: int)
    requires
        0 <= n <= uis.len(),
        first_failure(objects, single_uis(runtime, module, uis.subrange(0, n), texts)) is Some,
    ensures
        first_failure(objects, single_uis(runtime, module, uis, texts)) == first_failure(objects, single_uis(runtime, module, uis.subrange(0, n), texts)),
    decreases uis.len(),
{
    if n < uis.len() {
        assert(uis.drop_last().subrange(0, n) =~= uis.subrange(0, n));
        lemma_single_uis_prefix(objects, runtime, module, uis.drop_last(), texts, n);
        lemma_failure_concat(objects, single_uis(runtime, module, uis.drop_last(), texts), single_uis(runtime, module, uis, texts).subrange(single_uis(runtime, module, uis.drop_last(), texts).len() as int, single_uis(runtime, module, uis, texts).len() as int));
        assert(single_uis(runtime, module, uis, texts) =~= single_uis(runtime, module, uis.drop_last(), texts) + single_uis(runtime, module, uis, texts).subrange(single_uis(runtime, module, uis.drop_last(), texts).len() as int, single_uis(runtime, module, uis, texts).len() as int));
    } else {
        assert(uis.subrange(0, n) =~= uis);
    }
}

proof fn lemma_single_modules_prefix(objects: Seq<(String, Object)>, runtime: RuntimeBuild, modules: Seq<(String, ModuleBuildReport)>, uis: Seq<String>, texts: Seq<String>, n: int)
    requires
        0 <= n <= modules.len(),
        first_failure(objects, single_modules(runtime, modules.subrange(0, n), uis, texts)) is Some,
    ensures
        first_failure(objects, single_modules(runtime, modules, uis, texts)) == first_failure(objects, single_modules(runtime, modules.subrange(0, n), uis, texts)),
    decreases modules.len(),
{
    if n < modules.len() {
        assert(modules.drop_last().subrange(0, n) =~= modules.subrange(0, n));
        lemma_single_modules_prefix(objects, runtime, modules.drop_last(), uis, texts, n);
        lemma_failure_concat(objects, single_modules(runtime, modules.drop_last(), uis, texts), single_modules(runtime, modules, uis, texts).subrange(single_modules(runtime, modules.drop_last(), uis, texts).len() as int, single_modules(runtime, modules, uis, texts).len() as int));
        assert(single_modules(runtime, modules, uis, texts) =~= single_modules(runtime, modules.drop_last(), uis, texts) + single_modules(runtime, modules, uis, texts).subrange(single_modules(runtime, modules.drop_last(), uis, texts).len() as int, single_modules(runtime, modules, uis, texts).len() as int));
    } else {
        assert(modules.subrange(0, n) =~= modules);
    }
}

/// The boot and entry closures of user interface locale `ui`, one per text
/// locale, are those of their steps.
pub open spec fn boot_entry_built(
    boots: Seq<(String, DependencyClosure)>,
    entries: Seq<(String, DependencyClosure)>,
    objects: Seq<(String, Object)>,
    runtime: RuntimeBuild,
    program_hash: Seq<char>,
    engine: EngineFiles,
    paths: Seq<(String, String)>,
    files: Seq<BootFile>,
    ui: Seq<char>,
    texts: Seq<String>,
) -> bool {
    &&& boots.len() == texts.len()
    &&& entries.len() == texts.len()
    &&& forall|b: int| 0 <= b < texts.len() ==> {
        &&& (#[trigger] boots[b]).0@ == texts[b]@
        &&& closure_built(boots[b].1, objects, boot_needs_of(runtime, program_hash, engine, ui, texts[b]@), files)
        &&& entries[b].0@ == texts[b]@
        &&& closure_built(entries[b].1, objects,
            boot_needs_of(runtime, program_hash, engine, ui, texts[b]@) + entry_needs_of(runtime, paths, ui, texts[b]@), files)
    }
}

fn boot_entry_for_ui(
    objects: &Vec<(String, Object)>,
    runtime: &RuntimeBuild,
    program_hash: &str,
    engine: &EngineFiles,
    files: &Vec<BootFile>,
    paths: &Vec<(String, String)>,
    ui: &str,
) -> (r: Result<(Vec<(String, DependencyClosure)>, Vec<(String, DependencyClosure)>), String>)
    requires
        object_total(objects@) + boot_total(files@) <= u64::MAX,
        boot_paths_distinct(files@),
    ensures
        match first_failure(objects@, boot_entry_texts(*runtime, program_hash@, *engine, paths@, ui@, runtime.text_locales@)) {
            Some(m) => err_text(r) == Some(m),
            None => r matches Ok(p) && boot_entry_built(p.0@, p.1@, objects@, *runtime, program_hash@, *engine, paths@, files@, ui@, runtime.text_locales@),
        },
{
    let texts = &runtime.text_locales;
    let mut boots: Vec<(String, DependencyClosure)> = Vec::new();
    let mut entries: Vec<(String, DependencyClosure)> = Vec::new();
    let mut b: usize = 0;
    proof {
        assert(texts@.subrange(0, 0) =~= Seq::<String>::empty());
    }
    while b < texts.len()
        invariant
            b <= texts@.len(),
            texts == runtime.text_locales,
            object_total(objects@) + boot_total(files@) <= u64::MAX,
            boot_paths_distinct(files@),
            first_failure(objects@, boot_entry_texts(*runtime, program_hash@, *engine, paths@, ui@, texts@.subrange(0, b as int))) is None,
            boot_entry_built(boots@, entries@, objects@, *runtime, program_hash@, *engine, paths@, files@, ui@, texts@.subrange(0, b as int)),
        decreases texts@.len() - b,
    {
        let ghost pre = texts@.subrange(0, b as int);
        let ghost next = texts@.subrange(0, b + 1);
        let text = &texts[b];
        let ghost boot_v = boot_needs_of(*runtime, program_hash@, *engine, ui@, text@);
        let ghost entry_v = entry_needs_of(*runtime, paths@, ui@, text@);
        proof {
            assert(next.drop_last() =~= pre);
            assert(next.last() == texts@[b as int]);
            lemma_failure_concat(objects@, boot_entry_texts(*runtime, program_hash@, *engine, paths@, ui@, pre), boot_v + entry_v);
            lemma_failure_concat(objects@, boot_v, entry_v);
        }
        let boot = root_and_catalog_needs(runtime, program_hash, engine, ui, text.as_str());
        let c1 = match build_closure(objects, &boot, files) {
            Ok(c) => c,
            Err(m) => {
                proof {
                    lemma_boot_entry_texts_prefix(objects@, *runtime, program_hash@, *engine, paths@, ui@, texts@, b as int + 1);
                }
                return Err(m);
            },
        };
        let mut all = root_and_catalog_needs(runtime, program_hash, engine, ui, text.as_str());
        append_needs(&mut all, entry_needs(runtime, paths, ui, text.as_str()));
        let c2 = match build_closure(objects, &all, files) {
            Ok(c) => c,
            Err(m) => {
                proof {
                    lemma_boot_entry_texts_prefix(objects@, *runtime, program_hash@, *engine, paths@, ui@, texts@, b as int + 1);
                }
                return Err(m);
            },
        };
        let ghost bb = boots@;
        let ghost eb = entries@;
        boots.push((text.clone(), c1));
        entries.push((text.clone(), c2));
        proof {
            assert forall|k: int| 0 <= k < next.len() implies {
                &&& (#[trigger] boots@[k]).0@ == next[k]@
                &&& closure_built(boots@[k].1, objects@, boot_needs_of(*runtime, program_hash@, *engine, ui@, next[k]@), files@)
                &&& entries@[k].0@ == next[k]@
                &&& closure_built(entries@[k].1, objects@,
                    boot_needs_of(*runtime, program_hash@, *engine, ui@, next[k]@) + entry_needs_of(*runtime, paths@, ui@, next[k]@), files@)
            } by {
                if k < pre.len() {
                    assert(boots@[k] == bb[k] && entries@[k] == eb[k] && next[k] == pre[k]);
                }
            }
        }
        b = b + 1;
    }
    proof {
        assert(texts@.subrange(0, texts@.len() as int) =~= texts@);
    }
    Ok((boots, entries))
}

/// The single-module closures of `module` in user interface locale `ui`,
/// one per text locale, are those of their steps.
pub open spec fn singles_built(
    closures: Seq<(String, DependencyClosure)>,
    objects: Seq<(String, Object)>,
    runtime: RuntimeBuild,
    module: Seq<char>,
    ui: Seq<char>,
    texts: Seq<String>,
) -> bool {
    &&& closures.len() == texts.len()
    &&& forall|b: int| 0 <= b < texts.len() ==> (#[trigger] closures[b]).0@ == texts[b]@
        && closure_built(closures[b].1, objects, single_needs_of(runtime, module, ui, texts[b]@), Seq::empty())
}

fn singles_for_ui(objects: &Vec<(String, Object)>, runtime: &RuntimeBuild, module: &str, ui: &str) -> (r: Result<Vec<(String, DependencyClosure)>, String>)
    requires
        object_total(objects@) <= u64::MAX,
    ensures
        match first_failure(objects@, single_texts(*runtime, module@, ui@, runtime.text_locales@)) {
            Some(m) => err_text(r) == Some(m),
            None => r matches Ok(v) && singles_built(v@, objects@, *runtime, module@, ui@, runtime.text_locales@),
        },
{
    let texts = &runtime.text_locales;
    let none: Vec<BootFile> = Vec::new();
    let mut out: Vec<(String, DependencyClosure)> = Vec::new();
    let mut b: usize = 0;
    proof {
        assert(texts@.subrange(0, 0) =~= Seq::<String>::empty());
        assert(boot_total(none@) == 0);
        assert(none@ =~= Seq::<BootFile>::empty());
    }
    while b < texts.len()
        invariant
            b <= texts@.len(),
            texts == runtime.text_locales,
            object_total(objects@) <= u64::MAX,
            none@ == Seq::<BootFile>::empty(),
            first_failure(objects@, single_texts(*runtime, module@, ui@, texts@.subrange(0, b as int))) is None,
            singles_built(out@, objects@, *runtime, module@, ui@, texts@.subrange(0, b as int)),
        decreases texts@.len() - b,
    {
        let ghost pre = texts@.subrange(0, b as int);
        let ghost next = texts@.subrange(0, b + 1);
        let text = &texts[b];
        proof {
            assert(next.drop_last() =~= pre);
            assert(next.last() == texts@[b as int]);
            lemma_failure_concat(objects@, single_texts(*runtime, module@, ui@, pre), single_needs_of(*runtime, module@, ui@, text@));
            assert(boot_total(none@) == 0);
        }
        let needs = module_needs(runtime, module, text.as_str(), ui, "single-module closure");
        let c = match build_closure(objects, &needs, &none) {
            Ok(c) => c,
            Err(m) => {
                proof {
                    lemma_single_texts_prefix(objects@, *runtime, module@, ui@, texts@, b as int + 1);
                }
                return Err(m);
            },
        };
        let ghost ob = out@;
        out.push((text.clone(), c));
        proof {
            assert forall|k: int| 0 <= k < next.len() implies (#[trigger] out@[k]).0@ == next[k]@
                && closure_built(out@[k].1, objects@, single_needs_of(*runtime, module@, ui@, next[k]@), Seq::empty()) by {
                if k < pre.len() {
                    assert(out@[k] == ob[k] && next[k] == pre[k]);
                }
            }
        }
        b = b + 1;
    }
    proof {
        assert(texts@.subrange(0, texts@.len() as int) =~= texts@);
    }
    Ok(out)
}

/// The single-module closures of `module`, per user interface locale and
/// then per text locale, are those of their steps.
pub open spec fn module_singles_built(
    closures: Seq<(String, Vec<(String, DependencyClosure)>)>,
    objects: Seq<(String, Object)>,
    runtime: RuntimeBuild,
    module: Seq<char>,
    uis: Seq<String>,
    texts: Seq<String>,
) -> bool {
    &&& closures.len() == uis.len()
    &&& forall|a: int| 0 <= a < uis.len() ==> (#[trigger] closures[a]).0@ == uis[a]@
        && singles_built(closures[a].1@, objects, runtime, module, uis[a]@, texts)
}

fn singles_for_module(objects: &Vec<(String, Object)>, runtime: &RuntimeBuild, module: &str) -> (r: Result<Vec<(String, Vec<(String, DependencyClosure)>)>, String>)
    requires
        object_total(objects@) <= u64::MAX,
    ensures
        match first_failure(objects@, single_uis(*runtime, module@, runtime.ui_locales@, runtime.text_locales@)) {
            Some(m) => err_text(r) == Some(m),
            None => r matches Ok(v) && module_singles_built(v@, objects@, *runtime, module@, runtime.ui_locales@, runtime.text_locales@),
        },
{
    let uis = &runtime.ui_locales;
    let mut out: Vec<(String, Vec<(String, DependencyClosure)>)> = Vec::new();
    let mut a: usize = 0;
    proof {
        assert(uis@.subrange(0, 0) =~= Seq::<String>::empty());
    }
    while a < uis.len()
        invariant
            a <= uis@.len(),
            uis == runtime.ui_locales,
            object_total(objects@) <= u64::MAX,
            first_failure(objects@, single_uis(*runtime, module@, uis@.subrange(0, a as int), runtime.text_locales@)) is None,
            module_singles_built(out@, objects@, *runtime, module@, uis@.subrange(0, a as int), runtime.text_locales@),
        decreases uis@.len() - a,
    {
        let ghost pre = uis@.subrange(0, a as int);
        let ghost next = uis@.subrange(0, a + 1);
        let ui = &uis[a];
        proof {
            assert(next.drop_last() =~= pre);
            assert(next.last() == uis@[a as int]);
            lemma_failure_concat(objects@, single_uis(*runtime, module@, pre, runtime.text_locales@), single_texts(*runtime, module@, ui@, runtime.text_locales@));
        }
        let per = match singles_for_ui(objects, runtime, module, ui.as_str()) {
            Ok(v) => v,
            Err(m) => {
                proof {
                    lemma_single_uis_prefix(objects@, *runtime, module@, uis@, runtime.text_locales@, a as int + 1);
                }
                return Err(m);
            },
        };
        let ghost ob = out@;
        out.push((ui.clone(), per));
        proof {
            assert forall|k: int| 0 <= k < next.len() implies (#[trigger] out@[k]).0@ == next[k]@
                && singles_built(out@[k].1@, objects@, *runtime, module@, next[k]@, runtime.text_locales@) by {
                if k < pre.len() {
                    assert(out@[k] == ob[k] && next[k] == pre[k]);
                }
            }
        }
        a = a + 1;
    }
    proof {
        assert(uis@.subrange(0, uis@.len() as int) =~= uis@);
    }
    Ok(out)
}

/// What each part of a release needs, per locale pair: the boot closure,
/// the closure of everything the entry reaches by calls, and each module
/// alone.
#[derive(Debug, Clone)]
pub struct DependencyReport {
    pub format: u32,
    pub game_id: String,
    pub entry: String,
    /// Each module with the modules it calls into; modules calling none are listed too.
    pub module_dependencies: Vec<(String, Vec<String>)>,
    /// User interface locale, then text locale, to the boot closure.
    pub boot: Vec<(String, Vec<(String, DependencyClosure)>)>,
    /// Module, then user interface locale, then text locale, to its closure.
    pub modules: Vec<(String, Vec<(String, Vec<(String, DependencyClosure)>)>)>,
    /// User interface locale, then text locale, to the entry closure.
    pub entry_reachable: Vec<(String, Vec<(String, DependencyClosure)>)>,
    /// What the byte counts cover.
    pub scope: String,
}

/// A graph as text.
pub open spec fn graph_view(g: Seq<(String, Vec<String>)>) -> Seq<(Seq<char>, Seq<Seq<char>>)> {
    g.map_values(|e: (String, Vec<String>)| (e.0@, string_views(e.1@)))
}

/// Some entry of `g` is named `m`.
pub open spec fn has_node(g: Seq<(Seq<char>, Seq<Seq<char>>)>, m: Seq<char>) -> bool {
    exists|i: int| 0 <= i < g.len() && (#[trigger] g[i]).0 == m
}

/// `g` with an entry without edges for each module that it lacks, in module order.
pub open spec fn with_all_modules(g: Seq<(Seq<char>, Seq<Seq<char>>)>, modules: Seq<(String, ModuleBuildReport)>) -> Seq<(Seq<char>, Seq<Seq<char>>)>
    decreases modules.len(),
{
    if modules.len() == 0 {
        g
    } else {
        let h = with_all_modules(g, modules.drop_last());
        let m = modules.last().0@;
        if has_node(h, m) { h } else { h.push((m, Seq::empty())) }
    }
}

/// What the byte counts of a dependency report cover.
pub open spec fn report_scope() -> Seq<char> {
    "Source-byte counts; object hashes are deduplicated. Bootstrap files are counted by path. HTTP headers, TLS, compression and retry traffic are excluded. Entry closure conservatively includes every statically reachable Call edge and every asset/font referenced by its included packages."@
}

/// `d` is the dependency report of `runtime`, with the entry module reaching
/// the others by `paths`.
pub open spec fn report_built(
    d: DependencyReport,
    objects: Seq<(String, Object)>,
    runtime: RuntimeBuild,
    program_hash: Seq<char>,
    engine: EngineFiles,
    paths: Seq<(String, String)>,
    files: Seq<BootFile>,
) -> bool {
    let uis = runtime.ui_locales@;
    let texts = runtime.text_locales@;
    &&& d.format == 1
    &&& d.game_id == runtime.game_id
    &&& d.entry == runtime.entry
    &&& d.scope@ == report_scope()
    &&& graph_view(d.module_dependencies@) == with_all_modules(graph_view(runtime.module_dependencies@), runtime.modules@)
    &&& d.boot@.len() == uis.len()
    &&& d.entry_reachable@.len() == uis.len()
    &&& forall|a: int| 0 <= a < uis.len() ==> (#[trigger] d.boot@[a]).0@ == uis[a]@ && d.entry_reachable@[a].0@ == uis[a]@
        && boot_entry_built(d.boot@[a].1@, d.entry_reachable@[a].1@, objects, runtime, program_hash, engine, paths, files, uis[a]@, texts)
    &&& d.modules@.len() == runtime.modules@.len()
    &&& forall|m: int| 0 <= m < runtime.modules@.len() ==> (#[trigger] d.modules@[m]).0@ == runtime.modules@[m].0@
        && module_singles_built(d.modules@[m].1@, objects, runtime, runtime.modules@[m].0@, uis, texts)
}

fn copy_names(v: &Vec<String>) -> (r: Vec<String>)
    ensures
        r@ == v@,
{
    let mut r: Vec<String> = Vec::new();
    let mut i: usize = 0;
    while i < v.len()
        invariant
            i <= v@.len(),
            r@ == v@.subrange(0, i as int),
        decreases v@.len() - i,
    {
        r.push(v[i].clone());
        proof {
            assert(r@ =~= v@.subrange(0, i + 1));
        }
        i = i + 1;
    }
    proof {
        assert(v@.subrange(0, v@.len() as int) =~= v@);
    }
    r
}

fn full_graph(deps: &Vec<(String, Vec<String>)>, modules: &Vec<(String, ModuleBuildReport)>) -> (r: Vec<(String, Vec<String>)>)
    ensures
        graph_view(r@) == with_all_modules(graph_view(deps@), modules@),
{
    let mut out: Vec<(String, Vec<String>)> = Vec::new();
    let mut i: usize = 0;
    while i < deps.len()
        invariant
            i <= deps@.len(),
            graph_view(out@) == graph_view(deps@.subrange(0, i as int)),
        decreases deps@.len() - i,
    {
        let ghost ob = out@;
        let e = (deps[i].0.clone(), copy_names(&deps[i].1));
        out.push(e);
        proof {
            assert(e.0@ == deps@[i as int].0@ && e.1@ == deps@[i as int].1@);
            assert(graph_view(out@) =~= graph_view(ob).push((e.0@, string_views(e.1@))));
            assert(graph_view(deps@.subrange(0, i + 1)) =~= graph_view(deps@.subrange(0, i as int)).push((e.0@, string_views(e.1@))));
        }
        i = i + 1;
    }
    proof {
        assert(deps@.subrange(0, deps@.len() as int) =~= deps@);
    }
    let mut k: usize = 0;
    proof {
        assert(modules@.subrange(0, 0) =~= Seq::<(String, ModuleBuildReport)>::empty());
    }
    while k < modules.len()
        invariant
            k <= modules@.len(),
            graph_view(out@) == with_all_modules(graph_view(deps@), modules@.subrange(0, k as int)),
        decreases modules@.len() - k,
    {
        let ghost pre = modules@.subrange(0, k as int);
        let ghost next = modules@.subrange(0, k + 1);
        let ghost ob = out@;
        proof {
            assert(next.drop_last() =~= pre);
            assert(next.last() == modules@[k as int]);
        }
        let m = &modules[k].0;
        match position_of(&out, m.as_str()) {
            Some(p) => {
                proof {
                    assert(graph_view(out@)[p as int].0 == m@);
                    assert(has_node(graph_view(out@), m@));
                }
            },
            None => {
                proof {
                    assert(!has_node(graph_view(out@), m@)) by {
                        if has_node(graph_view(out@), m@) {
                            let j = choose|j: int| 0 <= j < graph_view(out@).len() && (#[trigger] graph_view(out@)[j]).0 == m@;
                            assert(out@[j].0@ == m@);
                            assert(assoc_keys(out@).contains(m@));
                        }
                    }
                }
                let none: Vec<String> = Vec::new();
                proof {
                    assert(string_views(none@) =~= Seq::<Seq<char>>::empty());
                }
                out.push((m.clone(), none));
                proof {
                    assert(graph_view(out@) =~= graph_view(ob).push((m@, Seq::<Seq<char>>::empty())));
                }
            },
        }
        k = k + 1;
    }
    proof {
        assert(modules@.subrange(0, modules@.len() as int) =~= modules@);
    }
    out
}

/// The dependency report of a runtime build: for every pair of a user
/// interface locale and a text locale, the boot closure (the runtime root,
/// the engine, the catalogs of the bootstrap and of the two locales, and
/// the bootstrap files) and the entry closure (the boot closure and the
/// payload of every module that the entry module reaches by calls); and
/// for every module and locale pair, the closure of that module alone. The
/// first step that fails, in that order, is the error.
pub fn dependency_report(
    objects: &Vec<(String, Object)>,
    runtime: &RuntimeBuild,
    program_hash: &str,
    engine: &EngineFiles,
    files: &Vec<BootFile>,
) -> (r: Result<DependencyReport, String>)
    requires
        object_total(objects@) + boot_total(files@) <= u64::MAX,
        boot_paths_distinct(files@),
    ensures
        exists|paths: Seq<(String, String)>| reach_paths(runtime.module_dependencies@, runtime.entry_module@, paths)
            && match first_failure(objects@, report_needs(*runtime, program_hash@, *engine, paths)) {
                Some(m) => err_text(r) == Some(m),
                None => r matches Ok(d) && report_built(d, objects@, *runtime, program_hash@, *engine, paths, files@),
            },
{
    let graph = full_graph(&runtime.module_dependencies, &runtime.modules);
    let paths = module_paths(&runtime.module_dependencies, runtime.entry_module.as_str());
    let ghost ps = paths@;
    let ghost all = report_needs(*runtime, program_hash@, *engine, ps);
    let ghost first = boot_entry_uis(*runtime, program_hash@, *engine, ps, runtime.ui_locales@, runtime.text_locales@);
    let ghost second = single_modules(*runtime, runtime.modules@, runtime.ui_locales@, runtime.text_locales@);
    proof {
        lemma_failure_concat(objects@, first, second);
        lemma_boot_total_nonneg(files@);
    }
    let uis = &runtime.ui_locales;
    let mut boot: Vec<(String, Vec<(String, DependencyClosure)>)> = Vec::new();
    let mut entry_reachable: Vec<(String, Vec<(String, DependencyClosure)>)> = Vec::new();
    let mut a: usize = 0;
    proof {
        assert(uis@.subrange(0, 0) =~= Seq::<String>::empty());
    }
    while a < uis.len()
        invariant
            a <= uis@.len(),
            uis == runtime.ui_locales,
            ps == paths@,
            reach_paths(runtime.module_dependencies@, runtime.entry_module@, ps),
            first == boot_entry_uis(*runtime, program_hash@, *engine, ps, runtime.ui_locales@, runtime.text_locales@),
            object_total(objects@) + boot_total(files@) <= u64::MAX,
            boot_paths_distinct(files@),
            first_failure(objects@, boot_entry_uis(*runtime, program_hash@, *engine, ps, uis@.subrange(0, a as int), runtime.text_locales@)) is None,
            boot@.len() == a,
            entry_reachable@.len() == a,
            forall|k: int| 0 <= k < a ==> (#[trigger] boot@[k]).0@ == uis@[k]@ && entry_reachable@[k].0@ == uis@[k]@
                && boot_entry_built(boot@[k].1@, entry_reachable@[k].1@, objects@, *runtime, program_hash@, *engine, ps, files@, uis@[k]@, runtime.text_locales@),
        decreases uis@.len() - a,
    {
        let ghost pre = uis@.subrange(0, a as int);
        let ghost next = uis@.subrange(0, a + 1);
        let ui = &uis[a];
        proof {
            assert(next.drop_last() =~= pre);
            assert(next.last() == uis@[a as int]);
            lemma_failure_concat(objects@, boot_entry_uis(*runtime, program_hash@, *engine, ps, pre, runtime.text_locales@),
                boot_entry_texts(*runtime, program_hash@, *engine, ps, ui@, runtime.text_locales@));
        }
        let (b, e) = match boot_entry_for_ui(objects, runtime, program_hash, engine, files, &paths, ui.as_str()) {
            Ok(p) => p,
            Err(m) => {
                proof {
                    lemma_boot_entry_uis_prefix(objects@, *runtime, program_hash@, *engine, ps, uis@, runtime.text_locales@, a as int + 1);
                    let second = single_modules(*runtime, runtime.modules@, runtime.ui_locales@, runtime.text_locales@);
                    lemma_failure_concat(objects@, first, second);
                    assert(report_needs(*runtime, program_hash@, *engine, ps) == first + second);
                    assert(first_failure(objects@, report_needs(*runtime, program_hash@, *engine, ps)) == Some(m@));
                    assert(reach_paths(runtime.module_dependencies@, runtime.entry_module@, ps));
                }
                return Err(m);
            },
        };
        let ghost bb = boot@;
        let ghost eb = entry_reachable@;
        boot.push((ui.clone(), b));
        entry_reachable.push((ui.clone(), e));
        proof {
            assert forall|k: int| 0 <= k < a + 1 implies (#[trigger] boot@[k]).0@ == uis@[k]@ && entry_reachable@[k].0@ == uis@[k]@
                && boot_entry_built(boot@[k].1@, entry_reachable@[k].1@, objects@, *runtime, program_hash@, *engine, ps, files@, uis@[k]@, runtime.text_locales@) by {
                if k < a {
                    assert(boot@[k] == bb[k] && entry_reachable@[k] == eb[k]);
                }
            }
        }
        a = a + 1;
    }
    proof {
        assert(uis@.subrange(0, uis@.len() as int) =~= uis@);
    }
    let modules = &runtime.modules;
    let mut singles: Vec<(String, Vec<(String, Vec<(String, DependencyClosure)>)>)> = Vec::new();
    let mut m: usize = 0;
    proof {
        assert(modules@.subrange(0, 0) =~= Seq::<(String, ModuleBuildReport)>::empty());
        lemma_object_total_nonneg(objects@);
    }
    while m < modules.len()
        invariant
            m <= modules@.len(),
            modules == runtime.modules,
            ps == paths@,
            reach_paths(runtime.module_dependencies@, runtime.entry_module@, ps),
            second == single_modules(*runtime, runtime.modules@, runtime.ui_locales@, runtime.text_locales@),
            object_total(objects@) + boot_total(files@) <= u64::MAX,
            boot_total(files@) >= 0,
            first_failure(objects@, boot_entry_uis(*runtime, program_hash@, *engine, ps, runtime.ui_locales@, runtime.text_locales@)) is None,
            first_failure(objects@, single_modules(*runtime, modules@.subrange(0, m as int), runtime.ui_locales@, runtime.text_locales@)) is None,
            singles@.len() == m,
            forall|k: int| 0 <= k < m ==> (#[trigger] singles@[k]).0@ == modules@[k].0@
                && module_singles_built(singles@[k].1@, objects@, *runtime, modules@[k].0@, runtime.ui_locales@, runtime.text_locales@),
        decreases modules@.len() - m,
    {
        let ghost pre = modules@.subrange(0, m as int);
        let ghost next = modules@.subrange(0, m + 1);
        let name = &modules[m].0;
        proof {
            assert(next.drop_last() =~= pre);
            assert(next.last() == modules@[m as int]);
            lemma_failure_concat(objects@, single_modules(*runtime, pre, runtime.ui_locales@, runtime.text_locales@),
                single_uis(*runtime, name@, runtime.ui_locales@, runtime.text_locales@));
        }
        let per = match singles_for_module(objects, runtime, name.as_str()) {
            Ok(v) => v,
            Err(e) => {
                proof {
                    lemma_single_modules_prefix(objects@, *runtime, modules@, runtime.ui_locales@, runtime.text_locales@, m as int + 1);
                    let first = boot_entry_uis(*runtime, program_hash@, *engine, ps, runtime.ui_locales@, runtime.text_locales@);
                    lemma_failure_concat(objects@, first, second);
                    assert(report_needs(*runtime, program_hash@, *engine, ps) == first + second);
                    assert(first_failure(objects@, report_needs(*runtime, program_hash@, *engine, ps)) == Some(e@));
                    assert(reach_paths(runtime.module_dependencies@, runtime.entry_module@, ps));
                }
                return Err(e);
            },
        };
        let ghost sb = singles@;
        singles.push((name.clone(), per));
        proof {
            assert forall|k: int| 0 <= k < m + 1 implies (#[trigger] singles@[k]).0@ == modules@[k].0@
                && module_singles_built(singles@[k].1@, objects@, *runtime, modules@[k].0@, runtime.ui_locales@, runtime.text_locales@) by {
                if k < m {
                    assert(singles@[k] == sb[k]);
                }
            }
        }
        m = m + 1;
    }
    proof {
        assert(modules@.subrange(0, modules@.len() as int) =~= modules@);
        assert(reach_paths(runtime.module_dependencies@, runtime.entry_module@, ps));
        lemma_failure_concat(objects@, first, second);
        assert(first_failure(objects@, report_needs(*runtime, program_hash@, *engine, ps)) is None);
    }
    let scope = owned("Source-byte counts; object hashes are deduplicated. Bootstrap files are counted by path. HTTP headers, TLS, compression and retry traffic are excluded. Entry closure conservatively includes every statically reachable Call edge and every asset/font referenced by its included packages.");
    let d = DependencyReport {
        format: 1,
        game_id: runtime.game_id.clone(),
        entry: runtime.entry.clone(),
        module_dependencies: graph,
        boot,
        modules: singles,
        entry_reachable,
        scope,
    };
    proof {
        assert(report_built(d, objects@, *runtime, program_hash@, *engine, ps, files@));
    }
    Ok(d)
}


proof fn lemma_closure_keys(c: DependencyClosure, objects: Seq<(String, Object)>, needs: Seq<NeedView>, files: Seq<BootFile>, h: Seq<char>)
    requires
        closure_built(c, objects, needs, files),
    ensures
        assoc_keys(c.objects@).contains(h) <==> needs_object(needs, h),
{
    let b = choose|b: ClosureBuilder| #[trigger] finished(b, c) && needs_recorded(b, objects, needs) && files_recorded(b.files@, files);
    if assoc_keys(c.objects@).contains(h) {
        let i = choose|i: int| 0 <= i < c.objects@.len() && (#[trigger] c.objects@[i]).0@ == h;
        assert(b.objects@[i].0 == c.objects@[i].0);
        assert(assoc_keys(b.objects@).contains(h));
    }
    if needs_object(needs, h) {
        assert(assoc_keys(b.objects@).contains(h));
        let i = choose|i: int| 0 <= i < b.objects@.len() && (#[trigger] b.objects@[i]).0@ == h;
        assert(c.objects@[i].0 == b.objects@[i].0);
    }
}

/// In a dependency report, the entry closure of each locale pair holds every
/// object of the boot closure of that pair.
pub proof fn entry_closure_includes_boot(
    d: DependencyReport,
    objects: Seq<(String, Object)>,
    runtime: RuntimeBuild,
    program_hash: Seq<char>,
    engine: EngineFiles,
    paths: Seq<(String, String)>,
    files: Seq<BootFile>,
    a: int,
    b: int,
    h: Seq<char>,
)
    requires
        report_built(d, objects, runtime, program_hash, engine, paths, files),
        0 <= a < runtime.ui_locales@.len(),
        0 <= b < runtime.text_locales@.len(),
        assoc_keys(d.boot@[a].1@[b].1.objects@).contains(h),
    ensures
        assoc_keys(d.entry_reachable@[a].1@[b].1.objects@).contains(h),
{
    let ui = runtime.ui_locales@[a]@;
    let text = runtime.text_locales@[b]@;
    let boot = boot_needs_of(runtime, program_hash, engine, ui, text);
    let all = boot + entry_needs_of(runtime, paths, ui, text);
    assert(d.boot@[a].0@ == ui);
    assert(boot_entry_built(d.boot@[a].1@, d.entry_reachable@[a].1@, objects, runtime, program_hash, engine, paths, files, ui, runtime.text_locales@));
    assert(d.boot@[a].1@[b].0@ == text);
    lemma_closure_keys(d.boot@[a].1@[b].1, objects, boot, files, h);
    let i = choose|i: int| 0 <= i < boot.len() && need_hash(#[trigger] boot[i]) == Some(h);
    assert(all[i] == boot[i]);
    assert(needs_object(all, h));
    lemma_closure_keys(d.entry_reachable@[a].1@[b].1, objects, all, files, h);
}

} // verus!
