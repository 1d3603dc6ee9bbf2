//! Author-side diagnostics: JSON pointers into source files, source
//! positions, and the stable envelope of tool errors.
use crate::assoc::{assoc, assoc_keys, get_entry, lemma_assoc_push, lemma_assoc_update, position_of, put_entry};
use crate::format::{Diagnostic, DiagnosticDetails, ErrorDomain, Recovery, SourceRef};
use crate::strings::{concat3, str_eq};
use vstd::prelude::*;
use vstd::string::*;

verus! {

/// One character as written in a JSON pointer segment.
pub open spec fn pointer_char(c: char) -> Seq<char> {
    if c == '~' {
        seq!['~', '0']
    } else if c == '/' {
        seq!['~', '1']
    } else {
        seq![c]
    }
}

/// A name escaped as one JSON pointer segment: `~` becomes `~0` and `/`
/// becomes `~1`.
pub open spec fn pointer_segment(s: Seq<char>) -> Seq<char>
    decreases s.len(),
{
    if s.len() == 0 {
        Seq::empty()
    } else {
        pointer_segment(s.drop_last()) + pointer_char(s.last())
    }
}

/// Escapes a name as one JSON pointer segment.
pub fn escape(s: &str) -> (r: String)
    ensures
        r@ == pointer_segment(s@),
{
    let n = s.unicode_len();
    let mut out = String::new();
    let mut i: usize = 0;
    while i < n
        invariant
            n == s@.len(),
            i <= n,
            out@ == pointer_segment(s@.subrange(0, i as int)),
        decreases n - i,
    {
        let c = s.get_char(i);
        if c == '~' {
            out.append("~0");
        } else if c == '/' {
            out.append("~1");
        } else {
            out.append(s.substring_char(i, i + 1));
        }
        proof {
            reveal_strlit("~0");
            reveal_strlit("~1");
            let pre = s@.subrange(0, i + 1);
            assert(pre.drop_last() =~= s@.subrange(0, i as int));
            assert(pre.last() == c);
            assert("~0"@ =~= seq!['~', '0']);
            assert("~1"@ =~= seq!['~', '1']);
            assert(s@.subrange(i as int, i + 1) =~= seq![c]);
        }
        i = i + 1;
    }
    proof {
        assert(s@.subrange(0, n as int) =~= s@);
    }
    out
}

/// A character of an error-code word: an ASCII letter or digit, or `_`.
pub open spec fn is_word_char(c: char) -> bool {
    ('a' <= c && c <= 'z') || ('A' <= c && c <= 'Z') || ('0' <= c && c <= '9') || c == '_'
}

/// The end of the word of `s` that starts at `i`.
pub open spec fn word_end(s: Seq<char>, i: int) -> int
    decreases s.len() - i,
{
    if i < 0 || i >= s.len() || !is_word_char(s[i]) {
        i
    } else {
        word_end(s, i + 1)
    }
}

pub proof fn lemma_word_end(s: Seq<char>, i: int)
    requires
        0 <= i <= s.len(),
    ensures
        i <= word_end(s, i) <= s.len(),
        forall|k: int| i <= k < word_end(s, i) ==> is_word_char(#[trigger] s[k]),
        word_end(s, i) < s.len() ==> !is_word_char(s[word_end(s, i)]),
    decreases s.len() - i,
{
    if i < s.len() && is_word_char(s[i]) {
        lemma_word_end(s, i + 1);
    }
}

/// The first word of `s` at or after word start `i` that begins with `E_`:
/// the error code a message mentions.
pub open spec fn error_code_from(s: Seq<char>, i: int) -> Option<Seq<char>>
    decreases s.len() - i,
{
    if i < 0 || i > s.len() {
        None
    } else {
        let e = word_end(s, i);
        proof {
            lemma_word_end(s, i);
        }
        if e - i >= 2 && s[i] == 'E' && s[i + 1] == '_' {
            Some(s.subrange(i, e))
        } else if e >= s.len() {
            None
        } else {
            error_code_from(s, e + 1)
        }
    }
}

/// The code a tool error reports: the first `E_` word of its message, else `E_TOOL`.
pub open spec fn tool_error_code(message: Seq<char>) -> Seq<char> {
    match error_code_from(message, 0) {
        Some(c) => c,
        None => "E_TOOL"@,
    }
}

/// The details of `d` are exactly those `classified` attaches.
pub open spec fn classified_as(d: Diagnostic, domain: ErrorDomain, operation: Seq<char>, stage: Seq<char>, recovery: Seq<Recovery>) -> bool {
    match d.details {
        Some(x) => {
            &&& x.domain == domain
            &&& x.operation@ == operation
            &&& x.stage@ == stage
            &&& x.source is None
            &&& x.references@.len() == 0
            &&& x.recovery@ == recovery
            &&& x.hint is None
            &&& x.release is None
            &&& x.session is None
            &&& x.device is None
            &&& x.request is None
            &&& x.task is None
        },
        None => false,
    }
}

fn word_end_exec(s: &str, n: usize, i: usize) -> (e: usize)
    requires
        n == s@.len(),
        i <= n,
    ensures
        e == word_end(s@, i as int),
{
    let mut e = i;
    while e < n
        invariant
            n == s@.len(),
            i <= e <= n,
            word_end(s@, i as int) == word_end(s@, e as int),
        decreases n - e,
    {
        let c = s.get_char(e);
        if !(('a' <= c && c <= 'z') || ('A' <= c && c <= 'Z') || ('0' <= c && c <= '9') || c == '_') {
            return e;
        }
        e = e + 1;
    }
    e
}

fn find_error_code(message: &str) -> (r: Option<String>)
    ensures
        match error_code_from(message@, 0) {
            Some(c) => r matches Some(x) && x@ == c,
            None => r is None,
        },
{
    let n = message.unicode_len();
    let mut i: usize = 0;
    while i <= n
        invariant
            n == message@.len(),
            error_code_from(message@, 0) == error_code_from(message@, i as int),
        decreases n + 1 - i,
    {
        let e = word_end_exec(message, n, i);
        proof {
            lemma_word_end(message@, i as int);
        }
        if e - i >= 2 && message.get_char(i) == 'E' && message.get_char(i + 1) == '_' {
            return Some(crate::strings::owned(message.substring_char(i, e)));
        }
        if e >= n {
            return None;
        }
        i = e + 1;
    }
    None
}

/// The stable envelope of a tool error with message `message`: the first
/// `E_` word of the message as its code (`E_TOOL` if there is none), at
/// `project`, classified as a content error of the project tool.
pub fn diagnostic(message: &str) -> (d: Diagnostic)
    ensures
        d.code@ == tool_error_code(message@),
        d.location@ == "project"@,
        d.message@ == message@,
        classified_as(d, ErrorDomain::Content, "project"@, "tool"@, seq![Recovery::FixContent]),
{
    let code = find_error_code(message);
    let code = match code {
        Some(c) => c,
        None => crate::strings::owned("E_TOOL"),
    };
    let r = Diagnostic::new(code.as_str(), "project", message).classified(ErrorDomain::Content, "project", "tool", vec![Recovery::FixContent]);
    proof {
        assert(r.details.unwrap().recovery@ =~= seq![Recovery::FixContent]);
    }
    r
}

/// The number of line feeds in `b`.
pub open spec fn newline_count(b: Seq<u8>) -> nat
    decreases b.len(),
{
    if b.len() == 0 {
        0
    } else {
        newline_count(b.drop_last()) + if b.last() == 10u8 { 1nat } else { 0nat }
    }
}

/// Where the last line of `b` starts: just after its last line feed, or 0.
pub open spec fn line_start(b: Seq<u8>) -> int
    decreases b.len(),
{
    if b.len() == 0 {
        0
    } else if b.last() == 10u8 {
        b.len() as int
    } else {
        line_start(b.drop_last())
    }
}

proof fn lemma_line_bounds(b: Seq<u8>)
    ensures
        newline_count(b) <= b.len(),
        0 <= line_start(b) <= b.len(),
    decreases b.len(),
{
    if b.len() > 0 {
        lemma_line_bounds(b.drop_last());
    }
}

/// The one-based line and byte column of byte `offset` of a source file.
pub fn source_position(bytes: &[u8], offset: usize) -> (r: (usize, usize))
    requires
        offset <= bytes@.len(),
        offset < usize::MAX,
    ensures
        r.0 == 1 + newline_count(bytes@.subrange(0, offset as int)),
        r.1 == offset - line_start(bytes@.subrange(0, offset as int)) + 1,
{
    let mut lines: usize = 0;
    let mut start: usize = 0;
    let mut i: usize = 0;
    while i < offset
        invariant
            offset <= bytes@.len(),
            offset < usize::MAX,
            i <= offset,
            lines == newline_count(bytes@.subrange(0, i as int)),
            start == line_start(bytes@.subrange(0, i as int)),
        decreases offset - i,
    {
        proof {
            let pre = bytes@.subrange(0, i + 1);
            assert(pre.drop_last() =~= bytes@.subrange(0, i as int));
            lemma_line_bounds(bytes@.subrange(0, i as int));
        }
        if bytes[i] == 10u8 {
            lines = lines + 1;
            start = i + 1;
        }
        i = i + 1;
    }
    proof {
        lemma_line_bounds(bytes@.subrange(0, offset as int));
    }
    (lines + 1, offset - start + 1)
}

/// The value recorded under `k` in a list of offsets, or 0.
pub open spec fn offset_of(offsets: Seq<(String, usize)>, k: Seq<char>) -> usize {
    match assoc(offsets, k) {
        Some(o) => o,
        None => 0,
    }
}

/// The source reference of the JSON value at `pointer` in `file`, whose
/// bytes are `bytes` and whose values start at `offsets` (0 when unknown).
pub fn source_ref(file: &str, bytes: &[u8], offsets: &Vec<(String, usize)>, pointer: String) -> (r: SourceRef)
    requires
        offset_of(offsets@, pointer@) <= bytes@.len(),
        offset_of(offsets@, pointer@) < usize::MAX,
    ensures
        r.file@ == file@,
        r.pointer@ == pointer@,
        r.line == 1 + newline_count(bytes@.subrange(0, offset_of(offsets@, pointer@) as int)),
        r.column == offset_of(offsets@, pointer@) - line_start(bytes@.subrange(0, offset_of(offsets@, pointer@) as int)) + 1,
{
    let offset = match get_entry(offsets, pointer.as_str()) {
        Some(o) => *o,
        None => 0,
    };
    let (line, column) = source_position(bytes, offset);
    SourceRef { file: crate::strings::owned(file), line, column, pointer }
}

/// Where author declarations and the references they make are written.
#[derive(Debug)]
pub struct SourceIndex {
    declarations: Vec<(String, SourceRef)>,
    references: Vec<(String, Vec<(String, SourceRef)>)>,
}

/// The hint an annotated diagnostic gives for its code.
pub open spec fn annotation_hint(code: Seq<char>) -> Seq<char> {
    if code == "E_ASSET_TYPE"@ {
        "Register the referenced resource in the asset catalog with the required type, or correct the reference."@
    } else if code == "E_BLOCK"@ {
        "Declare the target block in this function or correct its logical ID."@
    } else if code == "E_TRANSLATION"@ || code == "E_TEXT_CONTRACT"@ || code == "E_GATE"@ {
        "Check the locale bundle against the text contract and preserve Gate order."@
    } else if code == "E_UNINITIALIZED"@ {
        "Assign the local on every incoming control-flow path before reading it."@
    } else {
        "Check this logical declaration and its references against the project schema."@
    }
}

fn hint_text(code: &str) -> (r: &'static str)
    ensures
        r@ == annotation_hint(code@),
{
    if str_eq(code, "E_ASSET_TYPE") {
        "Register the referenced resource in the asset catalog with the required type, or correct the reference."
    } else if str_eq(code, "E_BLOCK") {
        "Declare the target block in this function or correct its logical ID."
    } else if str_eq(code, "E_TRANSLATION") || str_eq(code, "E_TEXT_CONTRACT") || str_eq(code, "E_GATE") {
        "Check the locale bundle against the text contract and preserve Gate order."
    } else if str_eq(code, "E_UNINITIALIZED") {
        "Assign the local on every incoming control-flow path before reading it."
    } else {
        "Check this logical declaration and its references against the project schema."
    }
}

impl SourceIndex {
    /// Where `key` is declared.
    pub closed spec fn declaration(&self, key: Seq<char>) -> Option<SourceRef> {
        assoc(self.declarations@, key)
    }

    /// Where declaration `owner` refers to `target`.
    pub closed spec fn reference(&self, owner: Seq<char>, target: Seq<char>) -> Option<SourceRef> {
        match assoc(self.references@, owner) {
            Some(v) => assoc(v@, target),
            None => None,
        }
    }

    /// The source an annotation points at: the reference from `key` to the
    /// message, else the declaration of `key`, else that of the location.
    pub open spec fn source_for(&self, key: Seq<char>, message: Seq<char>, location: Seq<char>) -> Option<SourceRef> {
        match self.reference(key, message) {
            Some(r) => Some(r),
            None => match self.declaration(key) {
                Some(r) => Some(r),
                None => self.declaration(location),
            },
        }
    }

    /// An empty index.
    pub fn new() -> (r: Self)
        ensures
            forall|k: Seq<char>| #[trigger] r.declaration(k) is None,
            forall|o: Seq<char>, t: Seq<char>| #[trigger] r.reference(o, t) is None,
    {
        SourceIndex { declarations: Vec::new(), references: Vec::new() }
    }

    /// Records where `key` is declared, replacing an earlier record.
    pub fn declare(&mut self, key: String, at: SourceRef)
        ensures
            final(self).declaration(key@) == Some(at),
            forall|k: Seq<char>| k != key@ ==> #[trigger] final(self).declaration(k) == old(self).declaration(k),
            forall|o: Seq<char>, t: Seq<char>| #[trigger] final(self).reference(o, t) == old(self).reference(o, t),
    {
        put_entry(&mut self.declarations, key, at);
    }

    /// Records where `key` is declared unless it already has a record.
    pub fn declare_first(&mut self, key: String, at: SourceRef)
        ensures
            final(self).declaration(key@) == (if old(self).declaration(key@) is Some { old(self).declaration(key@) } else { Some(at) }),
            forall|k: Seq<char>| k != key@ ==> #[trigger] final(self).declaration(k) == old(self).declaration(k),
            forall|o: Seq<char>, t: Seq<char>| #[trigger] final(self).reference(o, t) == old(self).reference(o, t),
    {
        if position_of(&self.declarations, key.as_str()).is_none() {
            put_entry(&mut self.declarations, key, at);
        }
    }

    /// Records where `owner` refers to `target` unless that reference
    /// already has a record.
    pub fn refer(&mut self, owner: String, target: String, at: SourceRef)
        ensures
            final(self).reference(owner@, target@) == (if old(self).reference(owner@, target@) is Some {
                old(self).reference(owner@, target@)
            } else {
                Some(at)
            }),
            forall|o: Seq<char>, t: Seq<char>| !(o == owner@ && t == target@) ==> #[trigger] final(self).reference(o, t) == old(self).reference(o, t),
            forall|k: Seq<char>| #[trigger] final(self).declaration(k) == old(self).declaration(k),
    {
        match position_of(&self.references, owner.as_str()) {
            Some(i) => {
                let ghost before = self.references@;
                let (key, mut targets) = self.references.remove(i);
                let ghost old_targets = targets@;
                if position_of(&targets, target.as_str()).is_none() {
                    put_entry(&mut targets, target, at);
                }
                proof {
                    assert forall|other: Seq<char>| other != key@ implies #[trigger] assoc(before.update(i as int, (key, targets)), other) == assoc(before, other) by {
                        lemma_assoc_update(before, i as int, key, targets, other);
                    }
                    lemma_assoc_update(before, i as int, key, targets, key@);
                    assert(before.remove(i as int).insert(i as int, (key, targets)) =~= before.update(i as int, (key, targets)));
                }
                self.references.insert(i, (key, targets));
            },
            None => {
                let mut targets: Vec<(String, SourceRef)> = Vec::new();
                put_entry(&mut targets, target, at);
                let ghost before = self.references@;
                proof {
                    assert forall|j: int| 0 <= j < before.len() implies (#[trigger] before[j]).0@ != owner@ by {
                        if before[j].0@ == owner@ {
                            assert(assoc_keys(before).contains(owner@));
                        }
                    }
                    assert forall|other: Seq<char>| other != owner@ implies #[trigger] assoc(before.push((owner, targets)), other) == assoc(before, other) by {
                        lemma_assoc_push(before, owner, targets, other);
                    }
                    lemma_assoc_push(before, owner, targets, owner@);
                }
                self.references.push((owner, targets));
            },
        }
    }

    /// Attaches the author source of a diagnostic. A diagnostic without
    /// details is first classified as a content check failure; the source is
    /// found through `source_for` with the key `operation:location`; the
    /// references become the location and the message, and the hint follows
    /// the code.
    pub fn annotate(&self, d: Diagnostic) -> (r: Diagnostic)
        ensures
            r.code == d.code,
            r.location == d.location,
            r.message == d.message,
            r.details matches Some(x) && {
                &&& d.details is None ==> {
                    &&& x.domain == ErrorDomain::Content
                    &&& x.operation@ == "check"@
                    &&& x.stage@ == "validate"@
                    &&& x.recovery@ == seq![Recovery::FixContent]
                    &&& x.release is None && x.session is None && x.device is None
                    &&& x.request is None && x.task is None
                }
                &&& d.details is Some ==> {
                    let y = d.details.unwrap();
                    &&& x.domain == y.domain && x.operation == y.operation && x.stage == y.stage
                    &&& x.recovery == y.recovery && x.release == y.release && x.session == y.session
                    &&& x.device == y.device && x.request == y.request && x.task == y.task
                }
                &&& x.source == self.source_for(x.operation@ + ":"@ + d.location@, d.message@, d.location@)
                &&& x.references@.len() == 2
                &&& x.references@[0]@ == d.location@
                &&& x.references@[1]@ == d.message@
                &&& x.hint matches Some(h) && h@ == annotation_hint(d.code@)
            },
    {
        let d = if d.details.is_none() {
            d.classified(ErrorDomain::Content, "check", "validate", vec![Recovery::FixContent])
        } else {
            d
        };
        let Diagnostic { code, location, message, details } = d;
        let mut x: DiagnosticDetails = match details {
            Some(b) => *b,
            None => DiagnosticDetails {
                domain: ErrorDomain::Content,
                operation: crate::strings::owned("check"),
                stage: crate::strings::owned("validate"),
                source: None,
                references: Vec::new(),
                recovery: vec![Recovery::FixContent],
                hint: None,
                release: None,
                session: None,
                device: None,
                request: None,
                task: None,
            },
        };
        let key = concat3(x.operation.as_str(), ":", location.as_str());
        let source = match self.find_reference(key.as_str(), message.as_str()) {
            Some(r) => Some(r.clone()),
            None => match get_entry(&self.declarations, key.as_str()) {
                Some(r) => Some(r.clone()),
                None => match get_entry(&self.declarations, location.as_str()) {
                    Some(r) => Some(r.clone()),
                    None => None,
                },
            },
        };
        x.source = source;
        x.references = vec![location.clone(), message.clone()];
        x.hint = Some(crate::strings::owned(hint_text(code.as_str())));
        Diagnostic { code, location, message, details: Some(Box::new(x)) }
    }

    fn find_reference(&self, owner: &str, target: &str) -> (r: Option<&SourceRef>)
        ensures
            match r {
                Some(x) => self.reference(owner@, target@) == Some(*x),
                None => self.reference(owner@, target@) is None,
            },
    {
        match get_entry(&self.references, owner) {
            Some(v) => get_entry(v, target),
            None => None,
        }
    }
}

} // verus!
