//! Structured text contracts: span shape rules and contract identity.
use crate::format::{diag_is, Diagnostic, Span, TextContract, ValueType};
use crate::identity::{content_digest, sha256, hex_lower};
use crate::strings::{str_eq, utf8_bytes};
use crate::order::{ascending, canonical, canonical_table, text_views};
use vstd::prelude::*;
use vstd::string::*;

verus! {

/// Longest text span accepted, in UTF-8 bytes.
pub const MAX_SPAN_BYTES: usize = 131072;

/// The logical identity of a span.
pub open spec fn span_id(s: Span) -> Seq<char> {
    match s {
        Span::Text { id, .. } => id@,
        Span::Break { id } => id@,
        Span::Param { id, .. } => id@,
        Span::Gate { id } => id@,
    }
}

/// The contract declares a parameter called `name`.
pub open spec fn param_declared(c: TextContract, name: Seq<char>) -> bool {
    exists|i: int| 0 <= i < c.params.len() && (#[trigger] c.params[i]).0@ == name
}

/// A diagnostic as (code, location, message).
pub type DiagText = (Seq<char>, Seq<char>, Seq<char>);

/// The error a single span raises on its own, if any.
pub open spec fn span_local_error(c: TextContract, s: Span) -> Option<DiagText> {
    match s {
        Span::Text { id, text, .. } => if utf8_bytes(text@).len() > MAX_SPAN_BYTES {
            Some(("E_LIMIT"@, id@, "text too long"@))
        } else {
            None
        },
        Span::Param { id, name } => if !param_declared(c, name@) {
            Some(("E_TEXT_PARAM"@, id@, name@))
        } else {
            None
        },
        _ => None,
    }
}

/// Span `k` repeats the identity of an earlier span.
pub open spec fn id_repeated(spans: Seq<Span>, k: int) -> bool {
    exists|j: int| 0 <= j < k && span_id(#[trigger] spans[j]) == span_id(spans[k])
}

/// The first span error found scanning from position `k`.
pub open spec fn span_scan(id: Seq<char>, c: TextContract, spans: Seq<Span>, k: int) -> Option<DiagText>
    decreases spans.len() - k,
{
    if k < 0 || k >= spans.len() {
        None
    } else if span_local_error(c, spans[k]) is Some {
        span_local_error(c, spans[k])
    } else if span_id(spans[k]).len() == 0 || id_repeated(spans, k) {
        Some(("E_DUPLICATE"@, id, "empty or duplicate span identity"@))
    } else {
        span_scan(id, c, spans, k + 1)
    }
}

/// Names of gate spans, as they occur.
pub open spec fn gate_ids(spans: Seq<Span>) -> Seq<Seq<char>>
    decreases spans.len(),
{
    if spans.len() == 0 {
        Seq::empty()
    } else {
        let rest = gate_ids(spans.drop_last());
        match spans.last() {
            Span::Gate { id } => rest.push(id@),
            _ => rest,
        }
    }
}

/// The parameter a span refers to, if it is a parameter span.
pub open spec fn span_param(s: Span) -> Option<Seq<char>> {
    match s {
        Span::Param { name, .. } => Some(name@),
        _ => None,
    }
}

/// Some parameter span names `name`.
pub open spec fn param_used(spans: Seq<Span>, name: Seq<char>) -> bool {
    exists|k: int| 0 <= k < spans.len() && span_param(#[trigger] spans[k]) == Some(name)
}

/// Every declared parameter is used by some span.
pub open spec fn params_covered(c: TextContract, spans: Seq<Span>) -> bool {
    forall|i: int| 0 <= i < c.params.len() ==> param_used(spans, (#[trigger] c.params[i]).0@)
}

/// The views of a list of strings.
pub open spec fn string_views(v: Seq<String>) -> Seq<Seq<char>> {
    v.map_values(|s: String| s@)
}

/// The verdict of the span shape rules for text `id` under contract `c`.
pub open spec fn text_spans_verdict(id: Seq<char>, c: TextContract, spans: Seq<Span>) -> Option<DiagText> {
    match span_scan(id, c, spans, 0) {
        Some(t) => Some(t),
        None => if gate_ids(spans) != string_views(c.gates@) {
            Some(("E_GATE"@, id, "gate order/count mismatch"@))
        } else if !params_covered(c, spans) {
            Some(("E_TEXT_PARAM"@, id, "parameter coverage mismatch"@))
        } else {
            None
        },
    }
}

/// Finds a declared parameter.
fn find_param(c: &TextContract, name: &String) -> (r: bool)
    ensures
        r == param_declared(*c, name@),
{
    let mut i: usize = 0;
    while i < c.params.len()
        invariant
            i <= c.params@.len(),
            forall|j: int| 0 <= j < i ==> (#[trigger] c.params@[j]).0@ != name@,
        decreases c.params@.len() - i,
    {
        if str_eq(c.params[i].0.as_str(), name.as_str()) {
            return true;
        }
        i = i + 1;
    }
    false
}

fn span_ident(s: &Span) -> (r: &String)
    ensures
        r@ == span_id(*s),
{
    match s {
        Span::Text { id, .. } => id,
        Span::Break { id } => id,
        Span::Param { id, .. } => id,
        Span::Gate { id } => id,
    }
}

/// Checks the shape of a text against its contract: span sizes, declared
/// parameters, unique nonempty span identities, gate order and parameter coverage.
pub fn validate_text_spans(id: &str, c: &TextContract, spans: &[Span]) -> (r: Result<(), Diagnostic>)
    ensures
        match text_spans_verdict(id@, *c, spans@) {
            None => r is Ok,
            Some(t) => r matches Err(d) && diag_is(d, t.0, t.1, t.2),
        },
{
    let n = spans.len();
    let mut k: usize = 0;
    while k < n
        invariant
            n == spans@.len(),
            k <= n,
            span_scan(id@, *c, spans@, 0) == span_scan(id@, *c, spans@, k as int),
        decreases n - k,
    {
        let s = &spans[k];
        match s {
            Span::Text { id: sid, text, .. } => {
                if text.as_str().as_bytes().len() > MAX_SPAN_BYTES {
                    return Err(Diagnostic::new("E_LIMIT", sid.as_str(), "text too long"));
                }
            },
            Span::Param { id: sid, name } => {
                if !find_param(c, name) {
                    return Err(Diagnostic::new("E_TEXT_PARAM", sid.as_str(), name.as_str()));
                }
            },
            _ => {},
        }
        let sid = span_ident(s);
        let mut repeated = sid.as_str().as_bytes().len() == 0;
        proof {
            if repeated {
                assert(span_id(spans@[k as int]).len() == 0) by {
                    vstd::utf8::encode_utf8_decode_utf8(sid@);
                }
            } else {
                assert(sid@.len() != 0);
            }
        }
        let mut j: usize = 0;
        while j < k && !repeated
            invariant
                k < n,
                n == spans@.len(),
                j <= k,
                sid@ == span_id(spans@[k as int]),
                repeated ==> (span_id(spans@[k as int]).len() == 0 || id_repeated(spans@, k as int)),
                !repeated ==> span_id(spans@[k as int]).len() != 0,
                !repeated ==> forall|m: int| 0 <= m < j ==> span_id(#[trigger] spans@[m]) != sid@,
            decreases k - j,
        {
            if str_eq(span_ident(&spans[j]).as_str(), sid.as_str()) {
                repeated = true;
            }
            j = j + 1;
        }
        if repeated {
            return Err(Diagnostic::new("E_DUPLICATE", id, "empty or duplicate span identity"));
        }
        k = k + 1;
    }
    let mut gates: Vec<String> = Vec::new();
    let mut g: usize = 0;
    while g < n
        invariant
            n == spans@.len(),
            g <= n,
            string_views(gates@) == gate_ids(spans@.subrange(0, g as int)),
        decreases n - g,
    {
        proof {
            assert(spans@.subrange(0, g + 1).drop_last() =~= spans@.subrange(0, g as int));
        }
        match &spans[g] {
            Span::Gate { id: gid } => {
                gates.push(gid.clone());
                proof {
                    assert(string_views(gates@) =~= gate_ids(spans@.subrange(0, g as int)).push(gid@));
                }
            },
            _ => {},
        }
        g = g + 1;
    }
    assert(spans@.subrange(0, n as int) =~= spans@);
    let mut same = gates.len() == c.gates.len();
    let mut q: usize = 0;
    while q < gates.len() && same
        invariant
            q <= gates@.len(),
            same ==> gates@.len() == c.gates@.len(),
            same ==> forall|m: int| 0 <= m < q ==> gates@[m]@ == c.gates@[m]@,
            !same ==> string_views(gates@) != string_views(c.gates@),
        decreases gates@.len() - q,
    {
        if !str_eq(gates[q].as_str(), c.gates[q].as_str()) {
            same = false;
            proof {
                assert(string_views(gates@)[q as int] != string_views(c.gates@)[q as int]);
            }
        }
        q = q + 1;
    }
    if !same {
        return Err(Diagnostic::new("E_GATE", id, "gate order/count mismatch"));
    }
    assert(string_views(gates@) =~= string_views(c.gates@));
    let mut p: usize = 0;
    while p < c.params.len()
        invariant
            n == spans@.len(),
            p <= c.params@.len(),
            span_scan(id@, *c, spans@, 0) is None,
            gate_ids(spans@) == string_views(c.gates@),
            forall|m: int| 0 <= m < p ==> param_used(spans@, (#[trigger] c.params@[m]).0@),
        decreases c.params@.len() - p,
    {
        let mut found = false;
        let mut k2: usize = 0;
        while k2 < n && !found
            invariant
                n == spans@.len(),
                p < c.params@.len(),
                k2 <= n,
                found ==> param_used(spans@, c.params@[p as int].0@),
                !found ==> forall|m: int| 0 <= m < k2 ==> span_param(#[trigger] spans@[m]) != Some(c.params@[p as int].0@),
            decreases n - k2,
        {
            match &spans[k2] {
                Span::Param { name, .. } => {
                    if str_eq(name.as_str(), c.params[p].0.as_str()) {
                        found = true;
                    }
                },
                _ => {},
            }
            k2 = k2 + 1;
        }
        if !found {
            assert(!param_used(spans@, c.params@[p as int].0@));
            return Err(Diagnostic::new("E_TEXT_PARAM", id, "parameter coverage mismatch"));
        }
        p = p + 1;
    }
    Ok(())
}


/// The wire name of a value type.
pub open spec fn value_type_name(t: ValueType) -> Seq<char> {
    match t {
        ValueType::Bool => "bool"@,
        ValueType::I32 => "i32"@,
        ValueType::String => "string"@,
    }
}

/// The wire name of a value type.
pub fn value_type_wire(t: ValueType) -> (r: &'static str)
    ensures
        r@ == value_type_name(t),
{
    match t {
        ValueType::Bool => "bool",
        ValueType::I32 => "i32",
        ValueType::String => "string",
    }
}

/// The canonical JSON bytes that `serde_json` writes for the semantic part of
/// a text contract: the number 1, the contract and meaning revisions, the
/// parameter table (name to type name) and its list of gates.
pub uninterp spec fn text_contract_json(
    contract_revision: u32,
    meaning_revision: u32,
    params: Seq<(Seq<char>, Seq<char>)>,
    gates: Seq<Seq<char>>,
) -> Seq<u8>;

/// Calls `serde_json::to_vec` on `(1u32, contract_revision, meaning_revision,
/// params as a map, gates)`; the parameter table comes in ascending name order
/// with one entry per name, so the map holds its entries one for one in the
/// same order. Claims only that the bytes are named by `text_contract_json`
/// of the same arguments.
#[verifier::external_body]
fn contract_json(
    contract_revision: u32,
    meaning_revision: u32,
    params: &Vec<(String, String)>,
    gates: &Vec<String>,
) -> (r: Vec<u8>)
    requires
        ascending(text_views(params@)),
    ensures
        r@ == text_contract_json(
            contract_revision,
            meaning_revision,
            params@.map_values(|p: (String, String)| (p.0@, p.1@)),
            string_views(gates@),
        ),
{
    let table: std::collections::BTreeMap<&String, &String> = params.iter().map(|p| (&p.0, &p.1)).collect();
    match serde_json::to_vec(&(1u32, contract_revision, meaning_revision, &table, gates)) {
        Ok(bytes) => bytes,
        Err(_) => Vec::new(),
    }
}

/// The parameter table of a contract with type names.
pub open spec fn contract_param_names(c: TextContract) -> Seq<(Seq<char>, Seq<char>)> {
    c.params@.map_values(|p: (String, ValueType)| (p.0@, value_type_name(p.1)))
}

/// The semantic identity of a text contract. Copy edits (source revisions)
/// do not enter it. The parameter table enters in ascending name order, a
/// later entry under a name replacing an earlier one.
pub open spec fn text_contract_identity(c: TextContract) -> Seq<char> {
    content_digest(
        text_contract_json(
            c.contract_revision,
            c.meaning_revision,
            canonical(contract_param_names(c)),
            string_views(c.gates@),
        ),
    )
}

/// Copy edits keep a text's identity: two contracts with the same contract
/// and meaning revisions, the same gates and the same parameter table have
/// the same semantic identity, whatever their source revisions and stored
/// digests.
pub proof fn copy_edits_keep_identity(c1: TextContract, c2: TextContract)
    requires
        c1.contract_revision == c2.contract_revision,
        c1.meaning_revision == c2.meaning_revision,
        string_views(c1.gates@) == string_views(c2.gates@),
        contract_param_names(c1) == contract_param_names(c2),
    ensures
        text_contract_identity(c1) == text_contract_identity(c2),
{
}

/// Computes the semantic identity of a text contract.
pub fn text_contract_digest(c: &TextContract) -> (d: String)
    ensures
        d@ == text_contract_identity(*c),
        d@.len() == 64,
        forall|i: int| 0 <= i < d@.len() ==> crate::identity::lower_hex_char(#[trigger] d@[i]),
{
    let mut params: Vec<(String, String)> = Vec::new();
    let mut i: usize = 0;
    while i < c.params.len()
        invariant
            i <= c.params@.len(),
            params@.len() == i,
            forall|j: int| 0 <= j < i ==> (#[trigger] params@[j]).0@ == c.params@[j].0@ && params@[j].1@ == value_type_name(c.params@[j].1),
        decreases c.params@.len() - i,
    {
        let name = c.params[i].0.clone();
        let ty = crate::strings::owned(value_type_wire(c.params[i].1));
        params.push((name, ty));
        i = i + 1;
    }
    assert(text_views(params@) =~= contract_param_names(*c));
    let table = canonical_table(&params);
    assert(table@.map_values(|p: (String, String)| (p.0@, p.1@)) == text_views(table@));
    let bytes = contract_json(c.contract_revision, c.meaning_revision, &table, &c.gates);
    crate::identity::digest(bytes.as_slice())
}

} // verus!
