//! Author-side text revisions of one module: its text contracts, its
//! localized bundles and its revision ledger, and the rules by which an
//! author records a source revision or reviews a translation.
use crate::assoc::{assoc, assoc_keys, contains_name, distinct_names, names_distinct, get_entry, lemma_put_back, position_of, put_entry, replaced, same_names, stored};
use crate::table::names_in;
use crate::diagnostics::{escape, pointer_segment};
use crate::format::{clone_spans, diag_is, Diagnostic, Span, TextContract, ValueType};
use crate::identity::content_digest;
use crate::locale::clone_strings;
use crate::strings::{bytes_contain, bytes_occur_at, concat, concat3, contains_bytes, decimal, decimal_text, err_text, occurs_at, str_eq, utf8_bytes};
use crate::text::{
    span_scan, string_views, text_contract_digest, text_contract_identity, text_contract_json,
    text_spans_verdict, validate_text_spans, value_type_name, span_local_error, param_declared,
    params_covered, DiagText,
};
use crate::order::canonical;
use vstd::prelude::*;
use vstd::string::*;

verus! {

/// The author's contract of one text.
#[derive(Debug, Clone)]
pub struct AuthorTextContract {
    pub source_revision: u32,
    pub contract_revision: u32,
    pub meaning_revision: u32,
    pub gates: Vec<String>,
    pub params: Vec<(String, ValueType)>,
}

/// One localized text as the author writes it.
#[derive(Debug, Clone)]
pub struct AuthorTextDoc {
    pub source_revision: u32,
    pub contract_revision: u32,
    pub spans: Vec<Span>,
}

/// What was recorded the last time a text's source was confirmed.
#[derive(Debug, Clone)]
pub struct RevisionRecord {
    pub source_revision: u32,
    pub contract_revision: u32,
    pub meaning_revision: u32,
    pub source_digest: String,
    pub contract_digest: String,
    pub shape_digest: String,
    /// Locale to the digest of the reviewed translation.
    pub reviewed: Vec<(String, String)>,
}

/// The revision ledger of a module.
#[derive(Debug, Clone)]
pub struct TextRevisions {
    pub format: u32,
    pub source_locale: String,
    pub texts: Vec<(String, RevisionRecord)>,
}

/// A problem found by the text status report.
#[derive(Debug, Clone)]
pub struct TextIssue {
    pub code: String,
    pub text_id: String,
    pub locale: String,
    pub file: String,
    pub pointer: String,
    pub message: String,
}

/// The text status of a module or a project.
#[derive(Debug, Clone)]
pub struct TextStatus {
    pub format: u32,
    pub source_locale: String,
    pub texts: usize,
    pub locales: usize,
    pub ready: bool,
    pub issues: Vec<TextIssue>,
}

/// The texts of one locale and the file they come from.
#[derive(Debug, Clone)]
pub struct LocaleBundle {
    pub file: String,
    pub docs: Vec<(String, AuthorTextDoc)>,
}

/// The loaded text sources of one module.
#[derive(Debug, Clone)]
pub struct TextSources {
    pub module_id: String,
    /// Text IDs are reported as `module.text` when a project has several modules.
    pub namespaced: bool,
    /// The source locale.
    pub source: String,
    /// The contract file, relative to the project.
    pub contract_file: String,
    pub contracts: Vec<(String, AuthorTextContract)>,
    /// Locale to its bundle.
    pub bundles: Vec<(String, LocaleBundle)>,
    pub ledger: TextRevisions,
}

/// The files a module's text sources come from: each locale bundle, then the
/// contract file and the ledger file.
pub open spec fn source_files(bundles: Seq<(String, LocaleBundle)>, contract_file: String, ledger_file: String) -> Seq<String> {
    Seq::new(bundles.len(), |i: int| bundles[i].1.file) + seq![contract_file, ledger_file]
}

/// Why text sources read from disk are refused, checked in this order: the
/// source locale must have a bundle, every file must be distinct, and the
/// ledger must be of format 1 and of the project's source locale.
pub open spec fn sources_refusal(
    source: Seq<char>,
    bundles: Seq<(String, LocaleBundle)>,
    contract_file: String,
    ledger_file: String,
    ledger: TextRevisions,
) -> Option<Seq<char>> {
    if assoc(bundles, source) is None {
        Some("E_LOCALE: source locale bundle is missing"@)
    } else if !distinct_names(source_files(bundles, contract_file, ledger_file)) {
        Some("E_TEXT_PATH: contract, locale bundles and revision record must use distinct files"@)
    } else if ledger.format != 1 || ledger.source_locale@ != source {
        Some("E_TEXT_LEDGER: unsupported record or source locale changed"@)
    } else {
        None
    }
}

/// Why a revision operation refused to change the sources.
#[derive(Debug, Clone)]
pub enum RevisionError {
    /// The text does not have the shape its contract requires.
    Spans(Diagnostic),
    /// The request itself was refused.
    Refused(String),
}

/// `r` refused with exactly `message`.
pub open spec fn refused_with<T>(r: Result<T, RevisionError>, message: Seq<char>) -> bool {
    match r {
        Err(RevisionError::Refused(m)) => m@ == message,
        _ => false,
    }
}

/// `r` failed on the span rules with exactly the diagnostic `t`.
pub open spec fn spans_failed<T>(r: Result<T, RevisionError>, t: DiagText) -> bool {
    match r {
        Err(RevisionError::Spans(d)) => diag_is(d, t.0, t.1, t.2),
        _ => false,
    }
}

/// The semantic identity of the runtime contract an author contract compiles to.
pub open spec fn author_identity(c: AuthorTextContract) -> Seq<char> {
    content_digest(
        text_contract_json(
            c.contract_revision,
            c.meaning_revision,
            canonical(c.params@.map_values(|p: (String, ValueType)| (p.0@, value_type_name(p.1)))),
            string_views(c.gates@),
        ),
    )
}

/// The runtime contract of `c` as far as the span rules read it.
pub open spec fn shape_contract(c: AuthorTextContract) -> TextContract {
    TextContract {
        source_revision: c.source_revision,
        contract_revision: c.contract_revision,
        meaning_revision: c.meaning_revision,
        contract_digest: arbitrary(),
        gates: c.gates,
        params: c.params,
    }
}

/// The verdict of the span rules on `spans` for text `id` under `c`.
pub open spec fn author_verdict(id: Seq<char>, c: AuthorTextContract, spans: Seq<Span>) -> Option<DiagText> {
    text_spans_verdict(id, shape_contract(c), spans)
}

proof fn lemma_scan_shape(id: Seq<char>, a: TextContract, b: TextContract, spans: Seq<Span>, k: int)
    requires
        a.gates@ == b.gates@,
        a.params@ == b.params@,
    ensures
        span_scan(id, a, spans, k) == span_scan(id, b, spans, k),
    decreases spans.len() - k,
{
    if 0 <= k < spans.len() {
        match spans[k] {
            Span::Param { id: sid, name } => {
                assert(param_declared(a, name@) == param_declared(b, name@));
            },
            _ => {},
        }
        assert(span_local_error(a, spans[k]) == span_local_error(b, spans[k]));
        lemma_scan_shape(id, a, b, spans, k + 1);
    }
}

/// The span rules read only the gates and parameters of a contract.
proof fn lemma_verdict_shape(id: Seq<char>, a: TextContract, b: TextContract, spans: Seq<Span>)
    requires
        a.gates@ == b.gates@,
        a.params@ == b.params@,
    ensures
        text_spans_verdict(id, a, spans) == text_spans_verdict(id, b, spans),
{
    lemma_scan_shape(id, a, b, spans, 0);
    assert(params_covered(a, spans) == params_covered(b, spans));
}

fn clone_params(v: &Vec<(String, ValueType)>) -> (r: Vec<(String, ValueType)>)
    ensures
        r@ == v@,
{
    let mut r: Vec<(String, ValueType)> = Vec::new();
    let mut i: usize = 0;
    while i < v.len()
        invariant
            i <= v@.len(),
            r@ == v@.subrange(0, i as int),
        decreases v@.len() - i,
    {
        r.push((v[i].0.clone(), v[i].1));
        i = i + 1;
        assert(r@ =~= v@.subrange(0, i as int));
    }
    assert(v@.subrange(0, v@.len() as int) =~= v@);
    r
}

impl AuthorTextContract {
    /// The runtime contract: the same revisions, gates and parameters, and
    /// the semantic digest of them.
    pub fn runtime(&self) -> (c: TextContract)
        ensures
            c.source_revision == self.source_revision,
            c.contract_revision == self.contract_revision,
            c.meaning_revision == self.meaning_revision,
            c.gates@ == self.gates@,
            c.params@ == self.params@,
            c.contract_digest@ == author_identity(*self),
    {
        let mut c = TextContract {
            source_revision: self.source_revision,
            contract_revision: self.contract_revision,
            meaning_revision: self.meaning_revision,
            contract_digest: String::new(),
            gates: clone_strings(&self.gates),
            params: clone_params(&self.params),
        };
        let digest = text_contract_digest(&c);
        proof {
            assert(c.params@.map_values(|p: (String, ValueType)| (p.0@, value_type_name(p.1)))
                =~= self.params@.map_values(|p: (String, ValueType)| (p.0@, value_type_name(p.1))));
            assert(string_views(c.gates@) =~= string_views(self.gates@));
        }
        c.contract_digest = digest;
        c
    }
}

/// The next revision number.
pub fn next(n: u32) -> (r: Result<u32, String>)
    ensures
        n < u32::MAX ==> r == Ok::<u32, String>((n + 1) as u32),
        n == u32::MAX ==> err_text(r) == Some("E_TEXT_REVISION: revision overflow"@),
{
    match n.checked_add(1) {
        Some(m) => Ok(m),
        None => Err(crate::strings::owned("E_TEXT_REVISION: revision overflow")),
    }
}

/// The revisions a text update records: the source revision always moves
/// on; the contract and meaning revisions move on with it when the contract
/// shape changed or the author declared a change of meaning.
pub open spec fn bumped_revisions(c: AuthorTextContract, contract_moves: bool) -> Option<(u32, u32, u32)> {
    if c.source_revision == u32::MAX {
        None
    } else if !contract_moves {
        Some(((c.source_revision + 1) as u32, c.contract_revision, c.meaning_revision))
    } else if c.contract_revision == u32::MAX || c.meaning_revision == u32::MAX {
        None
    } else {
        Some(((c.source_revision + 1) as u32, (c.contract_revision + 1) as u32, (c.meaning_revision + 1) as u32))
    }
}

/// What a text update does with the current sources.
pub enum UpdatePlan {
    /// Refused with this message.
    Refuse(Seq<char>),
    /// The text breaks the span rules.
    Invalid(DiagText),
    /// Nothing changed since the recorded revision; nothing is written.
    Keep,
    /// Record these source, contract and meaning revisions.
    Record(u32, u32, u32),
}

/// The decision of a text update for text `id`, given the digest of its
/// source spans and of its contract shape (parameters and gates).
pub open spec fn update_plan(
    s: TextSources,
    id: Seq<char>,
    meaning_changed: bool,
    source_digest: Seq<char>,
    shape_digest: Seq<char>,
) -> UpdatePlan {
    match assoc(s.contracts@, id) {
        None => UpdatePlan::Refuse("E_TEXT_ID: unknown contract "@ + id),
        Some(c) => match assoc(assoc(s.bundles@, s.source@).unwrap().docs@, id) {
            None => UpdatePlan::Refuse("E_TRANSLATION_MISSING: source "@ + id),
            Some(d) => match author_verdict(id, c, d.spans@) {
                Some(t) => UpdatePlan::Invalid(t),
                None => match assoc(s.ledger.texts@, id) {
                    Some(old) => {
                        let changed = old.shape_digest@ != shape_digest;
                        if c.source_revision != old.source_revision || c.contract_revision != old.contract_revision
                            || c.meaning_revision != old.meaning_revision || d.source_revision != old.source_revision
                            || d.contract_revision != old.contract_revision {
                            UpdatePlan::Refuse("E_TEXT_REVISION: "@ + id + ": leave recorded integers unchanged; text update increments them"@)
                        } else if changed && !meaning_changed {
                            UpdatePlan::Refuse("E_TEXT_MEANING: Gate/parameter contract changes require --meaning bump"@)
                        } else if source_digest == old.source_digest@ && !changed && !meaning_changed {
                            UpdatePlan::Keep
                        } else {
                            match bumped_revisions(c, changed || meaning_changed) {
                                None => UpdatePlan::Refuse("E_TEXT_REVISION: revision overflow"@),
                                Some(r) => UpdatePlan::Record(r.0, r.1, r.2),
                            }
                        }
                    },
                    None => if c.source_revision != 1 || c.contract_revision != 1 || c.meaning_revision != 1
                        || d.source_revision != 1 || d.contract_revision != 1 {
                        UpdatePlan::Refuse("E_TEXT_REVISION: new text must begin at revisions 1"@)
                    } else {
                        UpdatePlan::Record(1, 1, 1)
                    },
                },
            },
        },
    }
}

/// Sources whose source locale has a bundle.
pub open spec fn has_source_bundle(s: TextSources) -> bool {
    assoc(s.bundles@, s.source@) is Some
}

/// `after` is `before` once text `id` has been recorded at revisions `sr`,
/// `cr`, `mr`: its contract and source text carry them, and the ledger
/// holds a fresh record of them with the given digests and no reviews.
pub open spec fn update_recorded(
    after: TextSources,
    before: TextSources,
    id: Seq<char>,
    source_digest: Seq<char>,
    shape_digest: Seq<char>,
    sr: u32,
    cr: u32,
    mr: u32,
) -> bool {
    let c = assoc(before.contracts@, id).unwrap();
    let bundle = assoc(before.bundles@, before.source@).unwrap();
    let d = assoc(bundle.docs@, id).unwrap();
    let nb = assoc(after.bundles@, before.source@).unwrap();
    let nc = assoc(after.contracts@, id).unwrap();
    let nd = assoc(nb.docs@, id).unwrap();
    let rec = assoc(after.ledger.texts@, id).unwrap();
    &&& replaced(after.contracts@, before.contracts@, id, nc)
    &&& nc.source_revision == sr && nc.contract_revision == cr && nc.meaning_revision == mr
    &&& nc.gates == c.gates && nc.params == c.params
    &&& replaced(after.bundles@, before.bundles@, before.source@, nb)
    &&& nb.file == bundle.file
    &&& replaced(nb.docs@, bundle.docs@, id, nd)
    &&& nd.source_revision == sr && nd.contract_revision == cr && nd.spans == d.spans
    &&& stored(after.ledger.texts@, before.ledger.texts@, id, rec)
    &&& after.ledger.format == before.ledger.format
    &&& after.ledger.source_locale == before.ledger.source_locale
    &&& rec.source_revision == sr && rec.contract_revision == cr && rec.meaning_revision == mr
    &&& rec.source_digest@ == source_digest
    &&& rec.contract_digest@ == author_identity(nc)
    &&& rec.shape_digest@ == shape_digest
    &&& rec.reviewed@.len() == 0
    &&& after.module_id == before.module_id && after.namespaced == before.namespaced
    &&& after.source == before.source && after.contract_file == before.contract_file
}

/// Recording is idempotent: right after text `id` was recorded, an update
/// with the same digests and no declared change of meaning changes nothing.
pub proof fn update_after_record_keeps(
    before: TextSources,
    after: TextSources,
    id: Seq<char>,
    meaning_changed: bool,
    source_digest: Seq<char>,
    shape_digest: Seq<char>,
    sr: u32,
    cr: u32,
    mr: u32,
)
    requires
        has_source_bundle(before),
        update_plan(before, id, meaning_changed, source_digest, shape_digest) == UpdatePlan::Record(sr, cr, mr),
        update_recorded(after, before, id, source_digest, shape_digest, sr, cr, mr),
    ensures
        has_source_bundle(after),
        update_plan(after, id, false, source_digest, shape_digest) == UpdatePlan::Keep,
{
    let c = assoc(before.contracts@, id).unwrap();
    let nc = assoc(after.contracts@, id).unwrap();
    let bundle = assoc(before.bundles@, before.source@).unwrap();
    let d = assoc(bundle.docs@, id).unwrap();
    lemma_verdict_shape(id, shape_contract(nc), shape_contract(c), d.spans@);
}

/// Records a source revision of text `id` (an explicit content decision:
/// a change of meaning is never inferred from digests). `source_digest` and
/// `shape_digest` are the digests of the source spans and of the contract's
/// parameters and gates. Returns whether anything was recorded; on an error
/// the sources are unchanged.
pub fn text_update(
    s: &mut TextSources,
    id: &str,
    meaning_changed: bool,
    source_digest: &str,
    shape_digest: &str,
) -> (r: Result<bool, RevisionError>)
    requires
        has_source_bundle(*old(s)),
    ensures
        match update_plan(*old(s), id@, meaning_changed, source_digest@, shape_digest@) {
            UpdatePlan::Refuse(m) => refused_with(r, m) && *final(s) == *old(s),
            UpdatePlan::Invalid(t) => spans_failed(r, t) && *final(s) == *old(s),
            UpdatePlan::Keep => r == Ok::<bool, RevisionError>(false) && *final(s) == *old(s),
            UpdatePlan::Record(sr, cr, mr) => r == Ok::<bool, RevisionError>(true)
                && update_recorded(*final(s), *old(s), id@, source_digest@, shape_digest@, sr, cr, mr),
        },
{
    let ghost plan = update_plan(*old(s), id@, meaning_changed, source_digest@, shape_digest@);
    let ci = match position_of(&s.contracts, id) {
        Some(i) => i,
        None => return Err(RevisionError::Refused(concat("E_TEXT_ID: unknown contract ", id))),
    };
    let bi = match position_of(&s.bundles, s.source.as_str()) {
        Some(i) => i,
        None => return Err(RevisionError::Refused(concat("E_TRANSLATION_MISSING: source ", id))),
    };
    let di = match position_of(&s.bundles[bi].1.docs, id) {
        Some(i) => i,
        None => return Err(RevisionError::Refused(concat("E_TRANSLATION_MISSING: source ", id))),
    };
    let runtime = s.contracts[ci].1.runtime();
    proof {
        lemma_verdict_shape(id@, runtime, shape_contract(s.contracts@[ci as int].1), s.bundles@[bi as int].1.docs@[di as int].1.spans@);
    }
    match validate_text_spans(id, &runtime, s.bundles[bi].1.docs[di].1.spans.as_slice()) {
        Ok(()) => {},
        Err(e) => return Err(RevisionError::Spans(e)),
    }
    let c_s = s.contracts[ci].1.source_revision;
    let c_c = s.contracts[ci].1.contract_revision;
    let c_m = s.contracts[ci].1.meaning_revision;
    let d_s = s.bundles[bi].1.docs[di].1.source_revision;
    let d_c = s.bundles[bi].1.docs[di].1.contract_revision;
    let (new_s, new_c, new_m) = match position_of(&s.ledger.texts, id) {
        Some(li) => {
            let old = &s.ledger.texts[li].1;
            if c_s != old.source_revision || c_c != old.contract_revision || c_m != old.meaning_revision
                || d_s != old.source_revision || d_c != old.contract_revision {
                return Err(RevisionError::Refused(concat3("E_TEXT_REVISION: ", id, ": leave recorded integers unchanged; text update increments them")));
            }
            let changed = !str_eq(old.shape_digest.as_str(), shape_digest);
            if changed && !meaning_changed {
                return Err(RevisionError::Refused(crate::strings::owned("E_TEXT_MEANING: Gate/parameter contract changes require --meaning bump")));
            }
            if str_eq(old.source_digest.as_str(), source_digest) && !changed && !meaning_changed {
                return Ok(false);
            }
            let ns = match next(c_s) {
                Ok(n) => n,
                Err(m) => return Err(RevisionError::Refused(m)),
            };
            if changed || meaning_changed {
                let nc = match next(c_c) {
                    Ok(n) => n,
                    Err(m) => return Err(RevisionError::Refused(m)),
                };
                let nm = match next(c_m) {
                    Ok(n) => n,
                    Err(m) => return Err(RevisionError::Refused(m)),
                };
                (ns, nc, nm)
            } else {
                (ns, c_c, c_m)
            }
        },
        None => {
            if c_s != 1 || c_c != 1 || c_m != 1 || d_s != 1 || d_c != 1 {
                return Err(RevisionError::Refused(crate::strings::owned("E_TEXT_REVISION: new text must begin at revisions 1")));
            }
            (1u32, 1u32, 1u32)
        },
    };
    assert(plan == UpdatePlan::Record(new_s, new_c, new_m));
    let ghost before = *s;
    // The contract.
    let (key, mut contract) = s.contracts.remove(ci);
    contract.source_revision = new_s;
    contract.contract_revision = new_c;
    contract.meaning_revision = new_m;
    let contract_digest = contract.runtime().contract_digest;
    proof {
        lemma_put_back(before.contracts@, ci as int, key, contract);
    }
    s.contracts.insert(ci, (key, contract));
    // The source text.
    let (locale, mut bundle) = s.bundles.remove(bi);
    let ghost old_bundle = bundle;
    let (doc_key, mut doc) = bundle.docs.remove(di);
    doc.source_revision = new_s;
    doc.contract_revision = new_c;
    proof {
        lemma_put_back(old_bundle.docs@, di as int, doc_key, doc);
    }
    bundle.docs.insert(di, (doc_key, doc));
    proof {
        lemma_put_back(before.bundles@, bi as int, locale, bundle);
    }
    s.bundles.insert(bi, (locale, bundle));
    // The ledger.
    let record = RevisionRecord {
        source_revision: new_s,
        contract_revision: new_c,
        meaning_revision: new_m,
        source_digest: crate::strings::owned(source_digest),
        contract_digest,
        shape_digest: crate::strings::owned(shape_digest),
        reviewed: Vec::new(),
    };
    put_entry(&mut s.ledger.texts, crate::strings::owned(id), record);
    Ok(true)
}

/// A text issue as (code, text ID, locale, file, pointer, message).
pub type IssueView = (Seq<char>, Seq<char>, Seq<char>, Seq<char>, Seq<char>, Seq<char>);

/// The view of an issue.
pub open spec fn issue_view(i: TextIssue) -> IssueView {
    (i.code@, i.text_id@, i.locale@, i.file@, i.pointer@, i.message@)
}

/// The views of a list of issues.
pub open spec fn issue_views(v: Seq<TextIssue>) -> Seq<IssueView> {
    v.map_values(|i: TextIssue| issue_view(i))
}

/// The text ID as reported: qualified by the module when the project has several.
pub open spec fn qualified_id(s: TextSources, id: Seq<char>) -> Seq<char> {
    if s.namespaced {
        s.module_id@ + "."@ + id
    } else {
        id
    }
}

/// An issue about text `id`, pointing at its entry in `file`.
pub open spec fn new_issue(s: TextSources, code: Seq<char>, id: Seq<char>, locale: Seq<char>, file: Seq<char>, message: Seq<char>) -> IssueView {
    (code, qualified_id(s, id), locale, file, "/"@ + pointer_segment(id), message)
}

/// The record confirms the contract: same revisions and the digest of its
/// runtime contract.
pub open spec fn confirmed(rec: Option<RevisionRecord>, c: AuthorTextContract) -> bool {
    match rec {
        Some(r) => r.source_revision == c.source_revision && r.contract_revision == c.contract_revision
            && r.meaning_revision == c.meaning_revision && r.contract_digest@ == author_identity(c),
        None => false,
    }
}

/// The digest given for text `id` of `locale`: of its spans for the source
/// locale, of the whole text for a translation.
pub open spec fn given_digest(digests: Seq<(String, Vec<(String, String)>)>, locale: Seq<char>, id: Seq<char>) -> Option<Seq<char>> {
    match assoc(digests, locale) {
        Some(v) => match assoc(v@, id) {
            Some(h) => Some(h@),
            None => None,
        },
        None => None,
    }
}

/// The message of a stale translation.
pub open spec fn stale_message(c: AuthorTextContract, d: AuthorTextDoc) -> Seq<char> {
    "expected source "@ + decimal_text(c.source_revision as nat) + " / contract "@ + decimal_text(c.contract_revision as nat)
        + ", found source "@ + decimal_text(d.source_revision as nat) + " / contract "@ + decimal_text(d.contract_revision as nat)
}

/// The issues of text `id` in one locale bundle.
pub open spec fn locale_issues(
    s: TextSources,
    id: Seq<char>,
    c: AuthorTextContract,
    locale: Seq<char>,
    b: LocaleBundle,
    digests: Seq<(String, Vec<(String, String)>)>,
) -> Seq<IssueView> {
    let rec = assoc(s.ledger.texts@, id);
    match assoc(b.docs@, id) {
        None => seq![new_issue(s, "E_TRANSLATION_MISSING"@, id, locale, b.file@, "missing text"@)],
        Some(d) => {
            let shape = match author_verdict(id, c, d.spans@) {
                Some(t) => seq![new_issue(s, t.0, id, locale, b.file@, t.2)],
                None => Seq::empty(),
            };
            let stale = if d.source_revision != c.source_revision || d.contract_revision != c.contract_revision {
                seq![new_issue(s, "E_TRANSLATION_STALE"@, id, locale, b.file@, stale_message(c, d))]
            } else {
                Seq::empty()
            };
            let review = if locale == s.source@ {
                if !(rec is Some && given_digest(digests, locale, id) == Some(rec.unwrap().source_digest@)) {
                    seq![new_issue(s, "E_TEXT_SOURCE_CHANGED"@, id, locale, b.file@, "source text changed without a recorded revision; run text update"@)]
                } else {
                    Seq::empty()
                }
            } else if !confirmed(rec, c) || !(rec is Some && given_digest(digests, locale, id) is Some
                && assoc(rec.unwrap().reviewed@, locale) is Some
                && assoc(rec.unwrap().reviewed@, locale).unwrap()@ == given_digest(digests, locale, id).unwrap()) {
                seq![new_issue(s, "E_TRANSLATION_UNREVIEWED"@, id, locale, b.file@, "translation needs explicit text review against the current source"@)]
            } else {
                Seq::empty()
            };
            shape + stale + review
        },
    }
}

/// The issues of text `id` in the bundles `bs`, in order.
pub open spec fn bundles_issues(
    s: TextSources,
    id: Seq<char>,
    c: AuthorTextContract,
    bs: Seq<(String, LocaleBundle)>,
    digests: Seq<(String, Vec<(String, String)>)>,
) -> Seq<IssueView>
    decreases bs.len(),
{
    if bs.len() == 0 {
        Seq::empty()
    } else {
        bundles_issues(s, id, c, bs.drop_last(), digests) + locale_issues(s, id, c, bs.last().0@, bs.last().1, digests)
    }
}

/// The issues of one contract: an unrecorded revision, then each locale's.
pub open spec fn contract_issues(
    s: TextSources,
    id: Seq<char>,
    c: AuthorTextContract,
    digests: Seq<(String, Vec<(String, String)>)>,
) -> Seq<IssueView> {
    let unrecorded = if !confirmed(assoc(s.ledger.texts@, id), c) || c.source_revision == 0
        || c.contract_revision == 0 || c.meaning_revision == 0 {
        seq![new_issue(s, "E_TEXT_UNRECORDED"@, id, s.source@, s.contract_file@, "contract/revisions changed; run text update with an explicit meaning decision"@)]
    } else {
        Seq::empty()
    };
    unrecorded + bundles_issues(s, id, c, s.bundles@, digests)
}

/// The issues of the contracts `cs`, in order.
pub open spec fn contracts_issues(
    s: TextSources,
    cs: Seq<(String, AuthorTextContract)>,
    digests: Seq<(String, Vec<(String, String)>)>,
) -> Seq<IssueView>
    decreases cs.len(),
{
    if cs.len() == 0 {
        Seq::empty()
    } else {
        contracts_issues(s, cs.drop_last(), digests) + contract_issues(s, cs.last().0@, cs.last().1, digests)
    }
}

/// The texts of `docs` in a bundle of `locale` that have no contract.
pub open spec fn stray_texts(s: TextSources, locale: Seq<char>, file: Seq<char>, docs: Seq<(String, AuthorTextDoc)>) -> Seq<IssueView>
    decreases docs.len(),
{
    if docs.len() == 0 {
        Seq::empty()
    } else {
        let id = docs.last().0@;
        stray_texts(s, locale, file, docs.drop_last()) + if assoc(s.contracts@, id) is None {
            seq![new_issue(s, "E_TEXT_CONTRACT"@, id, locale, file, "text has no contract"@)]
        } else {
            Seq::empty()
        }
    }
}

/// The texts without a contract in the bundles `bs`, in order.
pub open spec fn strays(s: TextSources, bs: Seq<(String, LocaleBundle)>) -> Seq<IssueView>
    decreases bs.len(),
{
    if bs.len() == 0 {
        Seq::empty()
    } else {
        strays(s, bs.drop_last()) + stray_texts(s, bs.last().0@, bs.last().1.file@, bs.last().1.docs@)
    }
}

/// All issues of a module's text sources, in report order.
pub open spec fn report_issues(s: TextSources, digests: Seq<(String, Vec<(String, String)>)>) -> Seq<IssueView> {
    contracts_issues(s, s.contracts@, digests) + strays(s, s.bundles@)
}

proof fn lemma_views_push(v: Seq<TextIssue>, i: TextIssue)
    ensures
        issue_views(v.push(i)) == issue_views(v).push(issue_view(i)),
{
    assert(issue_views(v.push(i)) =~= issue_views(v).push(issue_view(i)));
}

proof fn lemma_views_append(a: Seq<TextIssue>, b: Seq<TextIssue>)
    ensures
        issue_views(a + b) == issue_views(a) + issue_views(b),
{
    assert(issue_views(a + b) =~= issue_views(a) + issue_views(b));
}

impl TextSources {
    fn qualify(&self, id: &str) -> (r: String)
        ensures
            r@ == qualified_id(*self, id@),
    {
        if self.namespaced {
            concat3(self.module_id.as_str(), ".", id)
        } else {
            crate::strings::owned(id)
        }
    }

    fn issue(&self, code: &str, id: &str, locale: &str, file: &str, message: &str) -> (r: TextIssue)
        ensures
            issue_view(r) == new_issue(*self, code@, id@, locale@, file@, message@),
    {
        let escaped = escape(id);
        TextIssue {
            code: crate::strings::owned(code),
            text_id: self.qualify(id),
            locale: crate::strings::owned(locale),
            file: crate::strings::owned(file),
            pointer: concat("/", escaped.as_str()),
            message: crate::strings::owned(message),
        }
    }

    fn locale_issues(
        &self,
        id: &str,
        c: &AuthorTextContract,
        locale: &str,
        b: &LocaleBundle,
        digests: &Vec<(String, Vec<(String, String)>)>,
    ) -> (r: Vec<TextIssue>)
        ensures
            issue_views(r@) == locale_issues(*self, id@, *c, locale@, *b, digests@),
    {
        let mut out: Vec<TextIssue> = Vec::new();
        let d = match get_entry(&b.docs, id) {
            None => {
                out.push(self.issue("E_TRANSLATION_MISSING", id, locale, b.file.as_str(), "missing text"));
                proof {
                    lemma_views_push(Seq::empty(), out@[0]);
                    assert(out@ =~= Seq::empty().push(out@[0]));
                }
                return out;
            },
            Some(d) => d,
        };
        let runtime = c.runtime();
        proof {
            lemma_verdict_shape(id@, runtime, shape_contract(*c), d.spans@);
        }
        let ghost shape_part: Seq<IssueView> = match author_verdict(id@, *c, d.spans@) {
            Some(t) => seq![new_issue(*self, t.0, id@, locale@, b.file@, t.2)],
            None => Seq::empty(),
        };
        match validate_text_spans(id, &runtime, d.spans.as_slice()) {
            Ok(()) => {},
            Err(e) => {
                out.push(self.issue(e.code.as_str(), id, locale, b.file.as_str(), e.message.as_str()));
            },
        }
        proof {
            assert(issue_views(out@) =~= shape_part);
        }
        let ghost stale_part: Seq<IssueView> = if d.source_revision != c.source_revision || d.contract_revision != c.contract_revision {
            seq![new_issue(*self, "E_TRANSLATION_STALE"@, id@, locale@, b.file@, stale_message(*c, *d))]
        } else {
            Seq::empty()
        };
        let ghost before_stale = out@;
        if d.source_revision != c.source_revision || d.contract_revision != c.contract_revision {
            let mut m = crate::strings::owned("expected source ");
            m.append(decimal(c.source_revision as u64).as_str());
            m.append(" / contract ");
            m.append(decimal(c.contract_revision as u64).as_str());
            m.append(", found source ");
            m.append(decimal(d.source_revision as u64).as_str());
            m.append(" / contract ");
            m.append(decimal(d.contract_revision as u64).as_str());
            out.push(self.issue("E_TRANSLATION_STALE", id, locale, b.file.as_str(), m.as_str()));
            proof {
                lemma_views_push(before_stale, out@.last());
                assert(out@ =~= before_stale.push(out@.last()));
            }
        }
        proof {
            assert(issue_views(out@) =~= shape_part + stale_part);
        }
        let ghost before_review = out@;
        let record = get_entry(&self.ledger.texts, id);
        let given = match get_entry(digests, locale) {
            Some(v) => get_entry(v, id),
            None => None,
        };
        let mut flag = false;
        let mut message: &str = "";
        let mut code: &str = "";
        if str_eq(locale, self.source.as_str()) {
            let matches_record = match (record, given) {
                (Some(r), Some(h)) => str_eq(h.as_str(), r.source_digest.as_str()),
                _ => false,
            };
            if !matches_record {
                flag = true;
                code = "E_TEXT_SOURCE_CHANGED";
                message = "source text changed without a recorded revision; run text update";
            }
        } else {
            let confirmed = match record {
                Some(r) => r.source_revision == c.source_revision && r.contract_revision == c.contract_revision
                    && r.meaning_revision == c.meaning_revision && str_eq(r.contract_digest.as_str(), runtime.contract_digest.as_str()),
                None => false,
            };
            let reviewed = match (record, given) {
                (Some(r), Some(h)) => match get_entry(&r.reviewed, locale) {
                    Some(x) => str_eq(x.as_str(), h.as_str()),
                    None => false,
                },
                _ => false,
            };
            if !confirmed || !reviewed {
                flag = true;
                code = "E_TRANSLATION_UNREVIEWED";
                message = "translation needs explicit text review against the current source";
            }
        }
        if flag {
            out.push(self.issue(code, id, locale, b.file.as_str(), message));
            proof {
                lemma_views_push(before_review, out@.last());
                assert(out@ =~= before_review.push(out@.last()));
            }
        }
        out
    }

    fn contract_issues(&self, id: &str, c: &AuthorTextContract, digests: &Vec<(String, Vec<(String, String)>)>) -> (r: Vec<TextIssue>)
        ensures
            issue_views(r@) == contract_issues(*self, id@, *c, digests@),
    {
        let mut out: Vec<TextIssue> = Vec::new();
        let runtime_digest = c.runtime().contract_digest;
        let confirmed = match get_entry(&self.ledger.texts, id) {
            Some(r) => r.source_revision == c.source_revision && r.contract_revision == c.contract_revision
                && r.meaning_revision == c.meaning_revision && str_eq(r.contract_digest.as_str(), runtime_digest.as_str()),
            None => false,
        };
        if !confirmed || c.source_revision == 0 || c.contract_revision == 0 || c.meaning_revision == 0 {
            out.push(self.issue(
                "E_TEXT_UNRECORDED",
                id,
                self.source.as_str(),
                self.contract_file.as_str(),
                "contract/revisions changed; run text update with an explicit meaning decision",
            ));
            proof {
                lemma_views_push(Seq::empty(), out@[0]);
                assert(out@ =~= Seq::empty().push(out@[0]));
            }
        }
        let ghost first = issue_views(out@);
        let mut i: usize = 0;
        while i < self.bundles.len()
            invariant
                i <= self.bundles@.len(),
                issue_views(out@) == first + bundles_issues(*self, id@, *c, self.bundles@.subrange(0, i as int), digests@),
            decreases self.bundles@.len() - i,
        {
            let mut part = self.locale_issues(id, c, self.bundles[i].0.as_str(), &self.bundles[i].1, digests);
            let ghost before = out@;
            let ghost piece = part@;
            out.append(&mut part);
            proof {
                lemma_views_append(before, piece);
                let pre = self.bundles@.subrange(0, i + 1);
                assert(pre.drop_last() =~= self.bundles@.subrange(0, i as int));
                assert(pre.last() == self.bundles@[i as int]);
            }
            i = i + 1;
        }
        proof {
            assert(self.bundles@.subrange(0, self.bundles@.len() as int) =~= self.bundles@);
        }
        out
    }

    fn stray_texts(&self, locale: &str, b: &LocaleBundle) -> (r: Vec<TextIssue>)
        ensures
            issue_views(r@) == stray_texts(*self, locale@, b.file@, b.docs@),
    {
        let mut out: Vec<TextIssue> = Vec::new();
        let mut i: usize = 0;
        while i < b.docs.len()
            invariant
                i <= b.docs@.len(),
                issue_views(out@) == stray_texts(*self, locale@, b.file@, b.docs@.subrange(0, i as int)),
            decreases b.docs@.len() - i,
        {
            let ghost before = out@;
            proof {
                let pre = b.docs@.subrange(0, i + 1);
                assert(pre.drop_last() =~= b.docs@.subrange(0, i as int));
                assert(pre.last() == b.docs@[i as int]);
            }
            if position_of(&self.contracts, b.docs[i].0.as_str()).is_none() {
                out.push(self.issue("E_TEXT_CONTRACT", b.docs[i].0.as_str(), locale, b.file.as_str(), "text has no contract"));
                proof {
                    lemma_views_push(before, out@.last());
                    assert(out@ =~= before.push(out@.last()));
                }
            } else {
                proof {
                    assert(issue_views(out@) =~= issue_views(before) + Seq::<IssueView>::empty());
                }
            }
            i = i + 1;
        }
        proof {
            assert(b.docs@.subrange(0, b.docs@.len() as int) =~= b.docs@);
        }
        out
    }

    /// The text status of this module. `digests` gives, per locale and text,
    /// the digest of the source spans (source locale) or of the whole text
    /// (translations); a missing digest never matches a record.
    pub fn report(&self, digests: &Vec<(String, Vec<(String, String)>)>) -> (st: TextStatus)
        ensures
            st.format == 1,
            st.source_locale@ == self.source@,
            st.texts == self.contracts@.len(),
            st.locales == self.bundles@.len(),
            issue_views(st.issues@) == report_issues(*self, digests@),
            st.ready == (report_issues(*self, digests@).len() == 0),
    {
        let mut issues: Vec<TextIssue> = Vec::new();
        let mut i: usize = 0;
        while i < self.contracts.len()
            invariant
                i <= self.contracts@.len(),
                issue_views(issues@) == contracts_issues(*self, self.contracts@.subrange(0, i as int), digests@),
            decreases self.contracts@.len() - i,
        {
            let mut part = self.contract_issues(self.contracts[i].0.as_str(), &self.contracts[i].1, digests);
            let ghost before = issues@;
            let ghost piece = part@;
            issues.append(&mut part);
            proof {
                lemma_views_append(before, piece);
                let pre = self.contracts@.subrange(0, i + 1);
                assert(pre.drop_last() =~= self.contracts@.subrange(0, i as int));
                assert(pre.last() == self.contracts@[i as int]);
            }
            i = i + 1;
        }
        proof {
            assert(self.contracts@.subrange(0, self.contracts@.len() as int) =~= self.contracts@);
        }
        let ghost first = issue_views(issues@);
        let mut j: usize = 0;
        while j < self.bundles.len()
            invariant
                j <= self.bundles@.len(),
                issue_views(issues@) == first + strays(*self, self.bundles@.subrange(0, j as int)),
            decreases self.bundles@.len() - j,
        {
            let mut part = self.stray_texts(self.bundles[j].0.as_str(), &self.bundles[j].1);
            let ghost before = issues@;
            let ghost piece = part@;
            issues.append(&mut part);
            proof {
                lemma_views_append(before, piece);
                let pre = self.bundles@.subrange(0, j + 1);
                assert(pre.drop_last() =~= self.bundles@.subrange(0, j as int));
                assert(pre.last() == self.bundles@[j as int]);
            }
            j = j + 1;
        }
        proof {
            assert(self.bundles@.subrange(0, self.bundles@.len() as int) =~= self.bundles@);
        }
        let ready = issues.len() == 0;
        TextStatus {
            format: 1,
            source_locale: self.source.clone(),
            texts: self.contracts.len(),
            locales: self.bundles.len(),
            ready,
            issues,
        }
    }
}

/// Text `t` ends with `p`, compared byte for byte.
pub open spec fn ends_with(t: Seq<char>, p: Seq<char>) -> bool {
    utf8_bytes(p).len() <= utf8_bytes(t).len()
        && bytes_occur_at(utf8_bytes(t), utf8_bytes(p), utf8_bytes(t).len() - utf8_bytes(p).len())
}

/// The report still has an issue with the source of text `id`.
pub open spec fn source_blocked(issues: Seq<IssueView>, id: Seq<char>, source: Seq<char>) -> bool {
    exists|i: int| 0 <= i < issues.len() && ((#[trigger] issues[i]).1 == id || ends_with(issues[i].1, "."@ + id))
        && issues[i].2 == source
}

/// What a translation review does with the current sources.
pub enum ReviewPlan {
    /// Refused with this message.
    Refuse(Seq<char>),
    /// The translation breaks the span rules.
    Invalid(DiagText),
    /// The translation takes the current source and contract revisions.
    Review,
}

/// The decision of a review of text `id` in `locale`.
pub open spec fn review_plan(s: TextSources, id: Seq<char>, locale: Seq<char>, digests: Seq<(String, Vec<(String, String)>)>) -> ReviewPlan {
    if locale == s.source@ {
        ReviewPlan::Refuse("E_TEXT_REVIEW: use text update for the source locale"@)
    } else {
        match assoc(s.contracts@, id) {
            None => ReviewPlan::Refuse("E_TEXT_ID: unknown contract "@ + id),
            Some(c) => if source_blocked(report_issues(s, digests), id, s.source@) {
                ReviewPlan::Refuse("E_TEXT_SOURCE_CHANGED: record valid source "@ + id + " before reviewing translations"@)
            } else {
                match assoc(s.bundles@, locale) {
                    None => ReviewPlan::Refuse("E_LOCALE: unknown "@ + locale),
                    Some(b) => match assoc(b.docs@, id) {
                        None => ReviewPlan::Refuse("E_TRANSLATION_MISSING: "@ + locale + "/"@ + id),
                        Some(d) => match author_verdict(id, c, d.spans@) {
                            Some(t) => ReviewPlan::Invalid(t),
                            None => if assoc(s.ledger.texts@, id) is None {
                                ReviewPlan::Refuse("E_TEXT_UNRECORDED: "@ + id)
                            } else {
                                ReviewPlan::Review
                            },
                        },
                    },
                }
            },
        }
    }
}

/// `after` is `before` once the translation of `id` in `locale` took the
/// source and contract revisions of its contract; nothing else changed.
pub open spec fn review_applied(after: TextSources, before: TextSources, id: Seq<char>, locale: Seq<char>) -> bool {
    let c = assoc(before.contracts@, id).unwrap();
    let b = assoc(before.bundles@, locale).unwrap();
    let d = assoc(b.docs@, id).unwrap();
    let nb = assoc(after.bundles@, locale).unwrap();
    let nd = assoc(nb.docs@, id).unwrap();
    &&& replaced(after.bundles@, before.bundles@, locale, nb)
    &&& nb.file == b.file
    &&& replaced(nb.docs@, b.docs@, id, nd)
    &&& nd.source_revision == c.source_revision && nd.contract_revision == c.contract_revision
    &&& nd.spans == d.spans
    &&& after.contracts == before.contracts && after.ledger == before.ledger
    &&& after.module_id == before.module_id && after.namespaced == before.namespaced
    &&& after.source == before.source && after.contract_file == before.contract_file
}

fn source_blocked_exec(issues: &Vec<TextIssue>, id: &str, source: &str) -> (r: bool)
    ensures
        r == source_blocked(issue_views(issues@), id@, source@),
{
    let suffix = concat(".", id);
    let mut i: usize = 0;
    while i < issues.len()
        invariant
            i <= issues@.len(),
            suffix@ == "."@ + id@,
            forall|j: int| 0 <= j < i ==> !(((#[trigger] issue_views(issues@)[j]).1 == id@
                || ends_with(issue_views(issues@)[j].1, "."@ + id@)) && issue_views(issues@)[j].2 == source@),
        decreases issues@.len() - i,
    {
        let t = issues[i].text_id.as_str().as_bytes();
        let p = suffix.as_str().as_bytes();
        let ends = p.len() <= t.len() && occurs_at(t, p, t.len() - p.len());
        if (str_eq(issues[i].text_id.as_str(), id) || ends) && str_eq(issues[i].locale.as_str(), source) {
            proof {
                assert(issue_views(issues@)[i as int] == issue_view(issues@[i as int]));
            }
            return true;
        }
        proof {
            assert(issue_views(issues@)[i as int] == issue_view(issues@[i as int]));
        }
        i = i + 1;
    }
    false
}

/// Reviews the translation of text `id` in `locale` against the current
/// source: it takes the contract's source and contract revisions. The
/// digest of the reviewed text is then stored with `record_review`. On
/// an error the sources are unchanged.
pub fn text_review(s: &mut TextSources, id: &str, locale: &str, digests: &Vec<(String, Vec<(String, String)>)>) -> (r: Result<(), RevisionError>)
    ensures
        match review_plan(*old(s), id@, locale@, digests@) {
            ReviewPlan::Refuse(m) => refused_with(r, m) && *final(s) == *old(s),
            ReviewPlan::Invalid(t) => spans_failed(r, t) && *final(s) == *old(s),
            ReviewPlan::Review => r is Ok && review_applied(*final(s), *old(s), id@, locale@),
        },
{
    if str_eq(locale, s.source.as_str()) {
        return Err(RevisionError::Refused(crate::strings::owned("E_TEXT_REVIEW: use text update for the source locale")));
    }
    let ci = match position_of(&s.contracts, id) {
        Some(i) => i,
        None => return Err(RevisionError::Refused(concat("E_TEXT_ID: unknown contract ", id))),
    };
    let status = s.report(digests);
    if source_blocked_exec(&status.issues, id, s.source.as_str()) {
        let mut m = crate::strings::owned("E_TEXT_SOURCE_CHANGED: record valid source ");
        m.append(id);
        m.append(" before reviewing translations");
        return Err(RevisionError::Refused(m));
    }
    let bi = match position_of(&s.bundles, locale) {
        Some(i) => i,
        None => return Err(RevisionError::Refused(concat("E_LOCALE: unknown ", locale))),
    };
    let di = match position_of(&s.bundles[bi].1.docs, id) {
        Some(i) => i,
        None => {
            let mut m = crate::strings::owned("E_TRANSLATION_MISSING: ");
            m.append(locale);
            m.append("/");
            m.append(id);
            return Err(RevisionError::Refused(m));
        },
    };
    let runtime = s.contracts[ci].1.runtime();
    proof {
        lemma_verdict_shape(id@, runtime, shape_contract(s.contracts@[ci as int].1), s.bundles@[bi as int].1.docs@[di as int].1.spans@);
    }
    match validate_text_spans(id, &runtime, s.bundles[bi].1.docs[di].1.spans.as_slice()) {
        Ok(()) => {},
        Err(e) => return Err(RevisionError::Spans(e)),
    }
    if position_of(&s.ledger.texts, id).is_none() {
        return Err(RevisionError::Refused(concat("E_TEXT_UNRECORDED: ", id)));
    }
    let source_revision = s.contracts[ci].1.source_revision;
    let contract_revision = s.contracts[ci].1.contract_revision;
    let ghost before = *s;
    let (key, mut bundle) = s.bundles.remove(bi);
    let ghost old_bundle = bundle;
    let (doc_key, mut doc) = bundle.docs.remove(di);
    doc.source_revision = source_revision;
    doc.contract_revision = contract_revision;
    proof {
        lemma_put_back(old_bundle.docs@, di as int, doc_key, doc);
    }
    bundle.docs.insert(di, (doc_key, doc));
    proof {
        lemma_put_back(before.bundles@, bi as int, key, bundle);
    }
    s.bundles.insert(bi, (key, bundle));
    Ok(())
}

impl TextSources {
    /// The text sources of module `module_id` as read from its files, once
    /// they pass the checks of `sources_refusal`.
    pub fn assemble(
        module_id: String,
        namespaced: bool,
        source: String,
        contract_file: String,
        ledger_file: String,
        contracts: Vec<(String, AuthorTextContract)>,
        bundles: Vec<(String, LocaleBundle)>,
        ledger: TextRevisions,
    ) -> (r: Result<TextSources, String>)
        ensures
            match sources_refusal(source@, bundles@, contract_file, ledger_file, ledger) {
                Some(m) => err_text(r) == Some(m),
                None => r matches Ok(s) && has_source_bundle(s) && s.module_id == module_id
                    && s.namespaced == namespaced && s.source == source && s.contract_file == contract_file
                    && s.contracts == contracts && s.bundles == bundles && s.ledger == ledger,
            },
    {
        if position_of(&bundles, source.as_str()).is_none() {
            return Err(crate::strings::owned("E_LOCALE: source locale bundle is missing"));
        }
        let mut files: Vec<String> = Vec::new();
        let mut i: usize = 0;
        while i < bundles.len()
            invariant
                i <= bundles@.len(),
                files@.len() == i,
                forall|j: int| 0 <= j < i ==> files@[j] == (#[trigger] bundles@[j]).1.file,
            decreases bundles@.len() - i,
        {
            files.push(bundles[i].1.file.clone());
            i = i + 1;
        }
        files.push(contract_file.clone());
        files.push(ledger_file.clone());
        assert(files@ =~= source_files(bundles@, contract_file, ledger_file));
        if !names_distinct(&files) {
            return Err(crate::strings::owned("E_TEXT_PATH: contract, locale bundles and revision record must use distinct files"));
        }
        if ledger.format != 1 || !str_eq(ledger.source_locale.as_str(), source.as_str()) {
            return Err(crate::strings::owned("E_TEXT_LEDGER: unsupported record or source locale changed"));
        }
        Ok(TextSources { module_id, namespaced, source, contract_file, contracts, bundles, ledger })
    }

    /// Stores `digest` as the reviewed translation of text `id` in `locale`.
    /// Returns false, changing nothing, when the ledger has no record of `id`.
    pub fn record_review(&mut self, id: &str, locale: &str, digest: &str) -> (r: bool)
        ensures
            r == (assoc(old(self).ledger.texts@, id@) is Some),
            !r ==> *final(self) == *old(self),
            r ==> {
                let rec = assoc(old(self).ledger.texts@, id@).unwrap();
                let nrec = assoc(final(self).ledger.texts@, id@).unwrap();
                &&& replaced(final(self).ledger.texts@, old(self).ledger.texts@, id@, nrec)
                &&& assoc(nrec.reviewed@, locale@) is Some && assoc(nrec.reviewed@, locale@).unwrap()@ == digest@
                &&& forall|l: Seq<char>| l != locale@ ==> #[trigger] assoc(nrec.reviewed@, l) == assoc(rec.reviewed@, l)
                &&& nrec.source_revision == rec.source_revision && nrec.contract_revision == rec.contract_revision
                &&& nrec.meaning_revision == rec.meaning_revision && nrec.source_digest == rec.source_digest
                &&& nrec.contract_digest == rec.contract_digest && nrec.shape_digest == rec.shape_digest
                &&& final(self).ledger.format == old(self).ledger.format
                &&& final(self).ledger.source_locale == old(self).ledger.source_locale
                &&& final(self).contracts == old(self).contracts && final(self).bundles == old(self).bundles
                &&& final(self).module_id == old(self).module_id && final(self).namespaced == old(self).namespaced
                &&& final(self).source == old(self).source && final(self).contract_file == old(self).contract_file
            },
    {
        let li = match position_of(&self.ledger.texts, id) {
            Some(i) => i,
            None => return false,
        };
        let ghost before = *self;
        let (key, mut rec) = self.ledger.texts.remove(li);
        put_entry(&mut rec.reviewed, crate::strings::owned(locale), crate::strings::owned(digest));
        proof {
            lemma_put_back(before.ledger.texts@, li as int, key, rec);
        }
        self.ledger.texts.insert(li, (key, rec));
        true
    }
}

/// The index of the first `c` in `s`.
pub open spec fn char_pos(s: Seq<char>, c: char) -> Option<int>
    decreases s.len(),
{
    if s.len() == 0 {
        None
    } else if s[0] == c {
        Some(0)
    } else {
        match char_pos(s.drop_first(), c) {
            Some(i) => Some(i + 1),
            None => None,
        }
    }
}

/// The text before and after the first `c` in `s`, if `c` occurs.
fn split_once(s: &str, c: char) -> (r: Option<(String, String)>)
    ensures
        match char_pos(s@, c) {
            None => r is None,
            Some(i) => r matches Some(p) && p.0@ == s@.subrange(0, i) && p.1@ == s@.subrange(i + 1, s@.len() as int),
        },
{
    let n = s.unicode_len();
    let mut i: usize = 0;
    assert(s@.subrange(0, n as int) =~= s@);
    while i < n
        invariant
            n == s@.len(),
            i <= n,
            char_pos(s@, c) == match char_pos(s@.subrange(i as int, n as int), c) {
                Some(k) => Some(k + i),
                None => None::<int>,
            },
        decreases n - i,
    {
        assert(s@.subrange(i as int, n as int).drop_first() =~= s@.subrange(i + 1, n as int));
        if s.get_char(i) == c {
            let before = crate::strings::owned(s.substring_char(0, i));
            let after = crate::strings::owned(s.substring_char(i + 1, n));
            return Some((before, after));
        }
        i = i + 1;
    }
    None
}

/// Where text `id` lives in a project with modules `modules`: in a
/// single-module project any ID belongs to that module; otherwise IDs take
/// the form `module.text` and name a listed module and a nonempty text.
pub open spec fn text_target_spec(modules: Seq<String>, id: Seq<char>) -> Result<(Seq<char>, Seq<char>), Seq<char>> {
    if modules.len() == 1 {
        Ok((modules[0]@, id))
    } else {
        match char_pos(id, '.') {
            None => Err("E_TEXT_ID: multi-module text IDs use module.text form"@),
            Some(i) => {
                let module = id.subrange(0, i);
                let local = id.subrange(i + 1, id.len() as int);
                if !(exists|j: int| 0 <= j < modules.len() && (#[trigger] modules[j])@ == module) || local.len() == 0 {
                    Err("E_TEXT_ID: unknown module/text "@ + id)
                } else {
                    Ok((module, local))
                }
            },
        }
    }
}

/// Resolves text `id` to its module and its ID inside that module.
pub fn text_target(modules: &Vec<String>, id: &str) -> (r: Result<(String, String), String>)
    ensures
        match text_target_spec(modules@, id@) {
            Ok(t) => r matches Ok(p) && p.0@ == t.0 && p.1@ == t.1,
            Err(m) => err_text(r) == Some(m),
        },
{
    if modules.len() == 1 {
        return Ok((modules[0].clone(), crate::strings::owned(id)));
    }
    let (module, local) = match split_once(id, '.') {
        Some(p) => p,
        None => return Err(crate::strings::owned("E_TEXT_ID: multi-module text IDs use module.text form")),
    };
    let mut known = false;
    let mut j: usize = 0;
    while j < modules.len()
        invariant
            j <= modules@.len(),
            known == exists|k: int| 0 <= k < j && (#[trigger] modules@[k])@ == module@,
        decreases modules@.len() - j,
    {
        if str_eq(modules[j].as_str(), module.as_str()) {
            known = true;
        }
        j = j + 1;
    }
    if !known || local.as_str().is_empty() {
        return Err(concat("E_TEXT_ID: unknown module/text ", id));
    }
    Ok((module, local))
}

proof fn lemma_char_pos_concat(a: Seq<char>, b: Seq<char>, c: char)
    requires
        forall|i: int| 0 <= i < a.len() ==> a[i] != c,
    ensures
        char_pos(a + seq![c] + b, c) == Some(a.len() as int),
    decreases a.len(),
{
    if a.len() > 0 {
        lemma_char_pos_concat(a.drop_first(), b, c);
        assert((a + seq![c] + b).drop_first() =~= a.drop_first() + seq![c] + b);
    }
}

/// Qualified text IDs resolve back: in a project of several modules, the ID
/// `module.text` that the status report gives to text `text` of a listed
/// module without a dot in its ID resolves to that module and that text.
pub proof fn qualified_id_resolves(modules: Seq<String>, module: Seq<char>, text: Seq<char>)
    requires
        modules.len() > 1,
        exists|j: int| 0 <= j < modules.len() && (#[trigger] modules[j])@ == module,
        forall|i: int| 0 <= i < module.len() ==> module[i] != '.',
        text.len() > 0,
    ensures
        text_target_spec(modules, module + "."@ + text) == Ok::<(Seq<char>, Seq<char>), Seq<char>>((module, text)),
{
    reveal_strlit(".");
    let q = module + "."@ + text;
    assert("."@ =~= seq!['.']);
    lemma_char_pos_concat(module, text, '.');
    assert(q =~= module + seq!['.'] + text);
    assert(q.subrange(0, module.len() as int) =~= module);
    assert(q.subrange(module.len() as int + 1, q.len() as int) =~= text);
}

/// A text contract of the legacy format, with a single revision.
#[derive(Debug, Clone)]
pub struct LegacyContract {
    pub revision: u32,
    pub gates: Vec<String>,
    pub params: Vec<(String, ValueType)>,
}

/// A localized text of the legacy format.
#[derive(Debug, Clone)]
pub struct LegacyDoc {
    pub revision: u32,
    pub spans: Vec<Span>,
}

/// Migrates legacy contracts: the single revision becomes the source,
/// contract and meaning revision alike.
pub fn migrate_contracts(old: &Vec<(String, LegacyContract)>) -> (r: Vec<(String, AuthorTextContract)>)
    ensures
        r@.len() == old@.len(),
        forall|i: int| 0 <= i < r@.len() ==> {
            let c = (#[trigger] r@[i]).1;
            let o = old@[i].1;
            &&& r@[i].0@ == old@[i].0@
            &&& c.source_revision == o.revision && c.contract_revision == o.revision && c.meaning_revision == o.revision
            &&& c.gates@ == o.gates@ && c.params@ == o.params@
        },
{
    let mut r: Vec<(String, AuthorTextContract)> = Vec::new();
    let mut i: usize = 0;
    while i < old.len()
        invariant
            i <= old@.len(),
            r@.len() == i,
            forall|k: int| 0 <= k < i ==> {
                let c = (#[trigger] r@[k]).1;
                let o = old@[k].1;
                &&& r@[k].0@ == old@[k].0@
                &&& c.source_revision == o.revision && c.contract_revision == o.revision && c.meaning_revision == o.revision
                &&& c.gates@ == o.gates@ && c.params@ == o.params@
            },
        decreases old@.len() - i,
    {
        let o = &old[i].1;
        let c = AuthorTextContract {
            source_revision: o.revision,
            contract_revision: o.revision,
            meaning_revision: o.revision,
            gates: clone_strings(&o.gates),
            params: clone_params(&o.params),
        };
        r.push((old[i].0.clone(), c));
        i = i + 1;
    }
    r
}

/// The outcome of migrating one legacy bundle.
pub enum MigrationCheck {
    Refuse(Seq<char>),
    Invalid(DiagText),
    Pass,
}

/// The first problem, in contract order, of migrating the legacy texts `old`
/// of `locale` for the contracts `cs`.
pub open spec fn bundle_check(locale: Seq<char>, cs: Seq<(String, AuthorTextContract)>, old: Seq<(String, LegacyDoc)>) -> MigrationCheck
    decreases cs.len(),
{
    if cs.len() == 0 {
        MigrationCheck::Pass
    } else {
        match bundle_check(locale, cs.drop_last(), old) {
            MigrationCheck::Pass => {
                let id = cs.last().0@;
                let c = cs.last().1;
                match assoc(old, id) {
                    None => MigrationCheck::Refuse("E_TRANSLATION_MISSING: "@ + locale + "/"@ + id),
                    Some(d) => if c.source_revision == 0 || d.revision != c.source_revision {
                        MigrationCheck::Refuse("E_TEXT_REVISION: legacy "@ + locale + "/"@ + id)
                    } else {
                        match author_verdict(id, c, d.spans@) {
                            Some(t) => MigrationCheck::Invalid(t),
                            None => MigrationCheck::Pass,
                        }
                    },
                }
            },
            other => other,
        }
    }
}

/// Migrates the legacy texts of one locale: there must be exactly one text
/// per contract, at the contract's revision and of the shape the contract
/// requires. Each becomes a text at that source and contract revision.
pub fn migrate_bundle(locale: &str, contracts: &Vec<(String, AuthorTextContract)>, old: &Vec<(String, LegacyDoc)>) -> (r: Result<Vec<(String, AuthorTextDoc)>, RevisionError>)
    ensures
        old@.len() != contracts@.len() ==> refused_with(r, "E_TEXT_MIGRATION: incomplete/extra legacy translations in "@ + locale@),
        old@.len() == contracts@.len() ==> match bundle_check(locale@, contracts@, old@) {
            MigrationCheck::Refuse(m) => refused_with(r, m),
            MigrationCheck::Invalid(t) => spans_failed(r, t),
            MigrationCheck::Pass => r matches Ok(v) && v@.len() == contracts@.len() && forall|i: int| 0 <= i < v@.len() ==> {
                let d = assoc(old@, contracts@[i].0@).unwrap();
                &&& (#[trigger] v@[i]).0@ == contracts@[i].0@
                &&& v@[i].1.source_revision == d.revision && v@[i].1.contract_revision == d.revision
                &&& v@[i].1.spans@ == d.spans@
            },
        },
{
    if old.len() != contracts.len() {
        return Err(RevisionError::Refused(concat("E_TEXT_MIGRATION: incomplete/extra legacy translations in ", locale)));
    }
    let mut out: Vec<(String, AuthorTextDoc)> = Vec::new();
    let mut i: usize = 0;
    while i < contracts.len()
        invariant
            old@.len() == contracts@.len(),
            i <= contracts@.len(),
            bundle_check(locale@, contracts@.subrange(0, i as int), old@) is Pass,
            out@.len() == i,
            forall|k: int| 0 <= k < i ==> {
                let d = assoc(old@, contracts@[k].0@).unwrap();
                &&& (#[trigger] out@[k]).0@ == contracts@[k].0@
                &&& out@[k].1.source_revision == d.revision && out@[k].1.contract_revision == d.revision
                &&& out@[k].1.spans@ == d.spans@
            },
        decreases contracts@.len() - i,
    {
        let id = contracts[i].0.as_str();
        let c = &contracts[i].1;
        proof {
            let pre = contracts@.subrange(0, i as int);
            let next = contracts@.subrange(0, i + 1);
            assert(next.drop_last() =~= pre);
            assert(next.last() == contracts@[i as int]);
            lemma_check_stops(locale@, contracts@, old@, i as int);
            assert(contracts@.subrange(0, contracts@.len() as int) =~= contracts@);
        }
        let d = match get_entry(old, id) {
            Some(d) => d,
            None => {
                let mut m = crate::strings::owned("E_TRANSLATION_MISSING: ");
                m.append(locale);
                m.append("/");
                m.append(id);
                return Err(RevisionError::Refused(m));
            },
        };
        if c.source_revision == 0 || d.revision != c.source_revision {
            let mut m = crate::strings::owned("E_TEXT_REVISION: legacy ");
            m.append(locale);
            m.append("/");
            m.append(id);
            return Err(RevisionError::Refused(m));
        }
        let runtime = c.runtime();
        proof {
            lemma_verdict_shape(id@, runtime, shape_contract(*c), d.spans@);
        }
        match validate_text_spans(id, &runtime, d.spans.as_slice()) {
            Ok(()) => {},
            Err(e) => return Err(RevisionError::Spans(e)),
        }
        out.push((contracts[i].0.clone(), AuthorTextDoc { source_revision: d.revision, contract_revision: d.revision, spans: clone_spans(&d.spans) }));
        i = i + 1;
    }
    proof {
        assert(contracts@.subrange(0, contracts@.len() as int) =~= contracts@);
    }
    Ok(out)
}

/// Once a prefix fails, every longer prefix fails the same way.
proof fn lemma_check_stops(locale: Seq<char>, cs: Seq<(String, AuthorTextContract)>, old: Seq<(String, LegacyDoc)>, i: int)
    requires
        0 <= i < cs.len(),
    ensures
        !(bundle_check(locale, cs.subrange(0, i + 1), old) is Pass) ==> forall|n: int| i + 1 <= n <= cs.len() ==>
            #[trigger] bundle_check(locale, cs.subrange(0, n), old) == bundle_check(locale, cs.subrange(0, i + 1), old),
{
    if !(bundle_check(locale, cs.subrange(0, i + 1), old) is Pass) {
        assert forall|n: int| i + 1 <= n <= cs.len() implies #[trigger] bundle_check(locale, cs.subrange(0, n), old) == bundle_check(locale, cs.subrange(0, i + 1), old) by {
            lemma_check_prefix(locale, cs, old, i + 1, n);
        }
    }
}

proof fn lemma_check_prefix(locale: Seq<char>, cs: Seq<(String, AuthorTextContract)>, old: Seq<(String, LegacyDoc)>, m: int, n: int)
    requires
        0 <= m <= n <= cs.len(),
        !(bundle_check(locale, cs.subrange(0, m), old) is Pass),
    ensures
        bundle_check(locale, cs.subrange(0, n), old) == bundle_check(locale, cs.subrange(0, m), old),
    decreases n - m,
{
    if n > m {
        lemma_check_prefix(locale, cs, old, m, n - 1);
        assert(cs.subrange(0, n).drop_last() =~= cs.subrange(0, n - 1));
    }
}

/// The review baseline a migration records for text `id`: every locale
/// but the source, with the digest of its migrated text.
pub open spec fn baseline_reviews(source: Seq<char>, locales: Seq<String>, digests: Seq<(String, Vec<(String, String)>)>, id: Seq<char>) -> Seq<(Seq<char>, Seq<char>)>
    decreases locales.len(),
{
    if locales.len() == 0 {
        Seq::empty()
    } else {
        let l = locales.last()@;
        baseline_reviews(source, locales.drop_last(), digests, id) + if l != source {
            seq![(l, given_digest(digests, l, id).unwrap())]
        } else {
            Seq::empty()
        }
    }
}

/// Every digest the migration ledger reads is given.
pub open spec fn migration_digests_given(
    locales: Seq<String>,
    contracts: Seq<(String, AuthorTextContract)>,
    digests: Seq<(String, Vec<(String, String)>)>,
    shapes: Seq<(String, String)>,
) -> bool {
    forall|i: int, j: int| 0 <= i < contracts.len() && 0 <= j < locales.len() ==> given_digest(digests, (#[trigger] locales[j])@, (#[trigger] contracts[i]).0@) is Some
        && assoc(shapes, contracts[i].0@) is Some
}

/// The revision ledger of a migrated module: one record per contract at its
/// revisions, with the digest of its source spans and of its shape, and the
/// migrated translations as the reviewed baseline. `locales` are the
/// migrated bundles; `digests` gives per locale and text the digest of the
/// source spans (source locale) or of the whole text (translations), and
/// `shapes` the digest of each contract's parameters and gates.
pub fn migration_ledger(
    source: &str,
    locales: &Vec<String>,
    contracts: &Vec<(String, AuthorTextContract)>,
    digests: &Vec<(String, Vec<(String, String)>)>,
    shapes: &Vec<(String, String)>,
) -> (r: Result<TextRevisions, String>)
    requires
        migration_digests_given(locales@, contracts@, digests@, shapes@),
    ensures
        match r {
            Err(e) => !names_in(locales@).contains(source@) && e@ == "E_LOCALE: missing legacy source"@,
            Ok(l) => {
                &&& names_in(locales@).contains(source@)
                &&& l.format == 1
                &&& l.source_locale@ == source@
                &&& l.texts@.len() == contracts@.len()
                &&& forall|i: int| 0 <= i < contracts@.len() ==> {
                    let id = contracts@[i].0@;
                    let c = contracts@[i].1;
                    let rec = (#[trigger] l.texts@[i]).1;
                    &&& l.texts@[i].0@ == id
                    &&& rec.source_revision == c.source_revision && rec.contract_revision == c.contract_revision
                    &&& rec.meaning_revision == c.meaning_revision
                    &&& rec.source_digest@ == given_digest(digests@, source@, id).unwrap()
                    &&& rec.contract_digest@ == author_identity(c)
                    &&& rec.shape_digest@ == assoc(shapes@, id).unwrap()@
                    &&& rec.reviewed@.map_values(|p: (String, String)| (p.0@, p.1@)) == baseline_reviews(source@, locales@, digests@, id)
                }
            },
        },
{
    if !contains_name(locales, source) {
        return Err(crate::strings::owned("E_LOCALE: missing legacy source"));
    }
    let ghost src_index = choose|j: int| 0 <= j < locales@.len() && (#[trigger] locales@[j])@ == source@;
    let mut texts: Vec<(String, RevisionRecord)> = Vec::new();
    let mut i: usize = 0;
    while i < contracts.len()
        invariant
            migration_digests_given(locales@, contracts@, digests@, shapes@),
            0 <= src_index < locales@.len(),
            locales@[src_index]@ == source@,
            i <= contracts@.len(),
            texts@.len() == i,
            forall|k: int| 0 <= k < i ==> {
                let id = contracts@[k].0@;
                let c = contracts@[k].1;
                let rec = (#[trigger] texts@[k]).1;
                &&& texts@[k].0@ == id
                &&& rec.source_revision == c.source_revision && rec.contract_revision == c.contract_revision
                &&& rec.meaning_revision == c.meaning_revision
                &&& rec.source_digest@ == given_digest(digests@, source@, id).unwrap()
                &&& rec.contract_digest@ == author_identity(c)
                &&& rec.shape_digest@ == assoc(shapes@, id).unwrap()@
                &&& rec.reviewed@.map_values(|p: (String, String)| (p.0@, p.1@)) == baseline_reviews(source@, locales@, digests@, id)
            },
        decreases contracts@.len() - i,
    {
        let id = contracts[i].0.as_str();
        let c = &contracts[i].1;
        proof {
            assert(given_digest(digests@, locales@[src_index]@, contracts@[i as int].0@) is Some);
        }
        let source_digest = digest_at(digests, source, id);
        let shape = match get_entry(shapes, id) {
            Some(h) => h.clone(),
            None => String::new(),
        };
        let mut reviewed: Vec<(String, String)> = Vec::new();
        let mut j: usize = 0;
        while j < locales.len()
            invariant
                migration_digests_given(locales@, contracts@, digests@, shapes@),
                i < contracts@.len(),
                id@ == contracts@[i as int].0@,
                j <= locales@.len(),
                reviewed@.map_values(|p: (String, String)| (p.0@, p.1@)) == baseline_reviews(source@, locales@.subrange(0, j as int), digests@, id@),
            decreases locales@.len() - j,
        {
            let ghost before = reviewed@;
            proof {
                assert(locales@.subrange(0, j + 1).drop_last() =~= locales@.subrange(0, j as int));
                assert(locales@.subrange(0, j + 1).last() == locales@[j as int]);
                assert(given_digest(digests@, locales@[j as int]@, contracts@[i as int].0@) is Some);
            }
            if !crate::strings::str_eq(locales[j].as_str(), source) {
                let h = digest_at(digests, locales[j].as_str(), id);
                reviewed.push((locales[j].clone(), h));
                proof {
                    assert(reviewed@.map_values(|p: (String, String)| (p.0@, p.1@)) =~= before.map_values(|p: (String, String)| (p.0@, p.1@)).push((locales@[j as int]@, given_digest(digests@, locales@[j as int]@, id@).unwrap())));
                }
            } else {
                proof {
                    assert(baseline_reviews(source@, locales@.subrange(0, j + 1), digests@, id@) =~= baseline_reviews(source@, locales@.subrange(0, j as int), digests@, id@));
                }
            }
            j = j + 1;
        }
        proof {
            assert(locales@.subrange(0, locales@.len() as int) =~= locales@);
        }
        let record = RevisionRecord {
            source_revision: c.source_revision,
            contract_revision: c.contract_revision,
            meaning_revision: c.meaning_revision,
            source_digest,
            contract_digest: c.runtime().contract_digest,
            shape_digest: shape,
            reviewed,
        };
        texts.push((contracts[i].0.clone(), record));
        i = i + 1;
    }
    Ok(TextRevisions { format: 1, source_locale: crate::strings::owned(source), texts })
}

fn digest_at(digests: &Vec<(String, Vec<(String, String)>)>, locale: &str, id: &str) -> (r: String)
    requires
        given_digest(digests@, locale@, id@) is Some,
    ensures
        r@ == given_digest(digests@, locale@, id@).unwrap(),
{
    match get_entry(digests, locale) {
        Some(v) => match get_entry(v, id) {
            Some(h) => h.clone(),
            None => String::new(),
        },
        None => String::new(),
    }
}

/// The project-wide text status gathered module by module.
#[derive(Debug, Clone)]
pub struct StatusTotals {
    /// The locales of the modules seen so far; every module has the same set.
    pub locales: Option<Vec<String>>,
    pub texts: usize,
    pub issues: Vec<TextIssue>,
}

/// Some issue lost its module qualifier: its text ID has no dot.
pub open spec fn unqualified_issue(issues: Seq<TextIssue>) -> bool {
    exists|i: int| 0 <= i < issues.len() && !bytes_contain(utf8_bytes((#[trigger] issues[i]).text_id@), utf8_bytes("."@))
}

impl StatusTotals {
    /// Nothing gathered yet.
    pub fn new() -> (t: Self)
        ensures
            t.locales is None,
            t.texts == 0,
            t.issues@.len() == 0,
    {
        StatusTotals { locales: None, texts: 0, issues: Vec::new() }
    }

    /// Adds the report of one module, whose bundles are `locales`. All
    /// modules must provide the same locale bundles.
    pub fn add(&mut self, locales: Vec<String>, report: TextStatus) -> (r: Result<(), String>)
        requires
            old(self).texts + report.texts <= usize::MAX,
        ensures
            match old(self).locales {
                Some(expected) => names_in(expected@) != names_in(locales@),
                None => false,
            } ==> err_text(r) == Some("E_TRANSLATION: all modules must provide the same locale bundles"@)
                && *final(self) == *old(self),
            !match old(self).locales {
                Some(expected) => names_in(expected@) != names_in(locales@),
                None => false,
            } ==> r is Ok && final(self).locales == Some(locales) && final(self).texts == old(self).texts + report.texts
                && final(self).issues@ == old(self).issues@ + report.issues@,
    {
        let differs = match &self.locales {
            Some(expected) => !same_names(expected, &locales),
            None => false,
        };
        if differs {
            return Err(crate::strings::owned("E_TRANSLATION: all modules must provide the same locale bundles"));
        }
        self.locales = Some(locales);
        self.texts = self.texts + report.texts;
        let mut issues = report.issues;
        self.issues.append(&mut issues);
        Ok(())
    }

    /// The project status. In a project of several modules every issue must
    /// carry a module-qualified text ID.
    pub fn finish(self, source_locale: &str, namespaced: bool) -> (r: Result<TextStatus, String>)
        ensures
            match r {
                Err(e) => namespaced && unqualified_issue(self.issues@) && e@ == "E_TEXT_ID: internal module-qualified diagnostic was lost"@,
                Ok(st) => {
                    &&& !(namespaced && unqualified_issue(self.issues@))
                    &&& st.format == 1
                    &&& st.source_locale@ == source_locale@
                    &&& st.texts == self.texts
                    &&& st.locales == match self.locales { Some(l) => l@.len(), None => 0 }
                    &&& st.ready == (self.issues@.len() == 0)
                    &&& st.issues@ == self.issues@
                },
            },
    {
        if namespaced {
            let mut i: usize = 0;
            while i < self.issues.len()
                invariant
                    namespaced,
                    i <= self.issues@.len(),
                    forall|k: int| 0 <= k < i ==> bytes_contain(utf8_bytes((#[trigger] self.issues@[k]).text_id@), utf8_bytes("."@)),
                decreases self.issues@.len() - i,
            {
                if !contains_bytes(self.issues[i].text_id.as_str().as_bytes(), ".".as_bytes()) {
                    return Err(crate::strings::owned("E_TEXT_ID: internal module-qualified diagnostic was lost"));
                }
                i = i + 1;
            }
        }
        let locales = match &self.locales {
            Some(l) => l.len(),
            None => 0,
        };
        let ready = self.issues.len() == 0;
        Ok(TextStatus {
            format: 1,
            source_locale: crate::strings::owned(source_locale),
            texts: self.texts,
            locales,
            ready,
            issues: self.issues,
        })
    }
}

} // verus!
