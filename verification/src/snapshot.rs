//! The checks a saved state passes before it is restored: it belongs to
//! this game, revision and release; its sizes are within limits; its
//! variables have the program's layout; and every call frame addresses an
//! operation of the program, with a fresh identity and typed locals.
use crate::assoc::{assoc, get_entry};
use crate::dialogue::{grapheme_clusters, graphemes, spans_text, Dialogue, Frame, FrozenSpan, OfferedChoice, TaskState, Waiting};
use crate::machine::{frozen_spans, span_view, MachineState, PendingCue};
use crate::flow::{or_else, reports};
use crate::eval::{location, location_of, next_id};
use crate::format::{diag_is, value_type, fails_with, AssetKind, Block, Diagnostic, Effect, EffectDef, Function, Micros, Milestone, Node, Scope, Span, Terminator, TextDoc, Value, WaitCondition, ValueType, MAX_FRAMES, MAX_NODES, MAX_TASKS};
use crate::packages::{first_of, lemma_first_of_hit, lemma_first_of_none};
use crate::ownership::pair_views;
use crate::source::Program;
use crate::strings::{str_eq, utf8_bytes};
use crate::scene::{check_chain, f32_finite, finite, node_chain_error, node_ids, node_visual_ok, visual_ok};
use crate::text::DiagText;
use vstd::prelude::*;
use vstd::string::*;

verus! {

/// A presentation task as a saved state holds it: its identity, the
/// effect it runs and where it runs it, how far it is, and the dialogue
/// line and scene nodes it carries. Floats are held as their bit patterns.
#[derive(Debug, Clone)]
pub struct SavedTask {
    pub id: u32,
    pub name: String,
    pub frame: u32,
    pub scene_generation: u32,
    pub scope: Scope,
    pub effect: Effect,
    pub state: TaskState,
    pub started_us: Micros,
    pub elapsed_us: Micros,
    pub milestones: Vec<Milestone>,
    pub captured_bits: u32,
    pub base_bits: u32,
    pub dialogue: Option<Dialogue>,
    pub source: Vec<Node>,
    pub target: Vec<Node>,
}

/// A saved state of the story machine.
#[derive(Debug, Clone)]
pub struct Snapshot {
    pub format: u32,
    pub game_id: String,
    pub revision: String,
    pub release: String,
    pub locale: String,
    pub variables: Vec<(String, Value)>,
    pub frames: Vec<Frame>,
    pub scene: Vec<Node>,
    pub draft: Vec<Node>,
    pub tick_us: Micros,
    pub tasks: Vec<(u32, SavedTask)>,
    pub handles: Vec<(String, u32)>,
    pub pending: Option<PendingCue>,
    pub waiting: Option<Waiting>,
    pub choice: Option<OfferedChoice>,
    pub history_len: usize,
    pub next_id: u32,
    pub scene_generation: u32,
    pub last_input: u32,
    pub outcome: Option<String>,
    pub fault: Option<Diagnostic>,
    pub unsuspended_ops: u64,
}

/// The error every restore check reports.
pub open spec fn restore_fault(message: Seq<char>) -> Option<DiagText> {
    Some(("E_SNAPSHOT"@, "restore"@, message))
}

/// The state is of another format, game, revision or release.
pub open spec fn incompatible(p: Program, s: Snapshot, release: Seq<char>) -> bool {
    s.format != 1 || s.game_id@ != p.game_id@ || s.revision@ != p.revision@ || s.release@ != release
}

/// The state's locale is unknown to the program, or a size is outside its
/// limit: no frame or more than `MAX_FRAMES`, more than twice `MAX_TASKS`
/// tasks, more than `MAX_NODES` scene or draft nodes, more than a thousand
/// history entries, or no identity left to hand out.
pub open spec fn out_of_limits(p: Program, s: Snapshot) -> bool {
    ||| assoc(p.locales@, s.locale@) is None
    ||| s.frames@.len() == 0
    ||| s.frames@.len() > MAX_FRAMES
    ||| s.tasks@.len() > 2 * MAX_TASKS
    ||| s.scene@.len() > MAX_NODES
    ||| s.draft@.len() > MAX_NODES
    ||| s.history_len > 1000
    ||| s.next_id == 0
}

/// The state's variables differ from the program's in number, or a
/// program variable is missing from it or has another type there.
pub open spec fn layout_differs(p: Program, s: Snapshot) -> bool {
    s.variables@.len() != p.variables@.len() || exists|j: int| 0 <= j < p.variables@.len() && match assoc(s.variables@, (#[trigger] p.variables@[j]).0@) {
        Some(v) => value_type(v) != value_type(p.variables@[j].1),
        None => true,
    }
}

/// The identity of the operation a frame stands at: the operation's, or
/// `@terminator` past the last one.
pub open spec fn op_identity(b: Block, op: int) -> Seq<char> {
    if op < b.ops@.len() {
        b.ops@[op].id@
    } else {
        "@terminator"@
    }
}

/// The declared type of local or parameter `k` of a function.
pub open spec fn slot_type(f: Function, k: Seq<char>) -> Option<ValueType> {
    match assoc(f.locals@, k) {
        Some(t) => Some(t),
        None => assoc(f.params@, k),
    }
}

/// The error of frame `i`: its function or block is missing; its address
/// is past the block's end or names another operation, its identity is not
/// below the next one or repeats an earlier frame's; or a local has no
/// declared slot of its type.
pub open spec fn frame_error(p: Program, s: Snapshot, i: int) -> Option<DiagText> {
    let fr = s.frames@[i];
    match assoc(p.functions@, fr.function@) {
        None => restore_fault("missing function"@),
        Some(def) => match assoc(def.blocks@, fr.block@) {
            None => restore_fault("missing block"@),
            Some(b) => if fr.op > b.ops@.len() || fr.op_id@ != op_identity(b, fr.op as int) || fr.id >= s.next_id
                || exists|j: int| 0 <= j < i && (#[trigger] s.frames@[j]).id == fr.id {
                restore_fault("invalid frame address/identity"@)
            } else if exists|k: int| 0 <= k < fr.locals@.len()
                && slot_type(def, (#[trigger] fr.locals@[k]).0@) != Some(value_type(fr.locals@[k].1)) {
                restore_fault("local layout"@)
            } else {
                None
            },
        },
    }
}

/// The error of frame `i`, as a check over frames.
pub open spec fn frame_check(p: Program, s: Snapshot) -> spec_fn(int) -> Option<DiagText> {
    |i: int| frame_error(p, s, i)
}

/// The first error of a saved state's head: incompatibility, limits or
/// locale, variable layout, then the frames in order.
pub open spec fn restore_head_error(p: Program, s: Snapshot, release: Seq<char>) -> Option<DiagText> {
    if incompatible(p, s, release) {
        restore_fault("incompatible content/release"@)
    } else if out_of_limits(p, s) {
        restore_fault("state limits/locale"@)
    } else if layout_differs(p, s) {
        restore_fault("variable layout"@)
    } else {
        first_of(s.frames@.len() as int, frame_check(p, s))
    }
}

fn fault(message: &str) -> (r: Result<(), Diagnostic>)
    ensures
        reports(r, restore_fault(message@)),
{
    Err(Diagnostic::new("E_SNAPSHOT", "restore", message))
}

fn layout_matches(p: &Program, s: &Snapshot) -> (r: bool)
    ensures
        r == !layout_differs(*p, *s),
{
    if s.variables.len() != p.variables.len() {
        return false;
    }
    let mut j: usize = 0;
    while j < p.variables.len()
        invariant
            j <= p.variables@.len(),
            s.variables@.len() == p.variables@.len(),
            forall|q: int| 0 <= q < j ==> !match assoc(s.variables@, (#[trigger] p.variables@[q]).0@) {
                Some(v) => value_type(v) != value_type(p.variables@[q].1),
                None => true,
            },
        decreases p.variables@.len() - j,
    {
        match get_entry(&s.variables, p.variables[j].0.as_str()) {
            Some(v) => {
                if v.ty() != p.variables[j].1.ty() {
                    return false;
                }
            },
            None => {
                return false;
            },
        }
        j = j + 1;
    }
    true
}

fn check_frame(p: &Program, s: &Snapshot, i: usize) -> (r: Result<(), Diagnostic>)
    requires
        i < s.frames@.len(),
    ensures
        reports(r, frame_error(*p, *s, i as int)),
{
    let fr = &s.frames[i];
    let def = match get_entry(&p.functions, fr.function.as_str()) {
        Some(d) => d,
        None => {
            return fault("missing function");
        },
    };
    let b = match get_entry(&def.blocks, fr.block.as_str()) {
        Some(b) => b,
        None => {
            return fault("missing block");
        },
    };
    let mut bad = fr.op > b.ops.len() || fr.id >= s.next_id;
    if !bad {
        let same = if fr.op < b.ops.len() {
            str_eq(fr.op_id.as_str(), b.ops[fr.op].id.as_str())
        } else {
            let t = "@terminator";
            proof {
                reveal_strlit("@terminator");
            }
            str_eq(fr.op_id.as_str(), t)
        };
        bad = !same;
    }
    if !bad {
        let mut j: usize = 0;
        while j < i
            invariant
                j <= i < s.frames@.len(),
                fr == s.frames@[i as int],
                !bad ==> forall|q: int| 0 <= q < j ==> (#[trigger] s.frames@[q]).id != fr.id,
                bad ==> exists|q: int| 0 <= q < i && (#[trigger] s.frames@[q]).id == fr.id,
            decreases i - j,
        {
            if s.frames[j].id == fr.id {
                bad = true;
            }
            j = j + 1;
        }
    }
    if bad {
        return fault("invalid frame address/identity");
    }
    let ghost addr_ok = !(fr.op > b.ops@.len() || fr.op_id@ != op_identity(*b, fr.op as int) || fr.id >= s.next_id
        || exists|j: int| 0 <= j < i && (#[trigger] s.frames@[j]).id == fr.id);
    proof {
        if fr.op < b.ops@.len() {
            assert(op_identity(*b, fr.op as int) == b.ops@[fr.op as int].id@);
        }
        assert(addr_ok);
    }
    let mut k: usize = 0;
    while k < fr.locals.len()
        invariant
            i < s.frames@.len(),
            fr == s.frames@[i as int],
            assoc(p.functions@, fr.function@) == Some(*def),
            assoc(def.blocks@, fr.block@) == Some(*b),
            addr_ok,
            addr_ok == !(fr.op > b.ops@.len() || fr.op_id@ != op_identity(*b, fr.op as int) || fr.id >= s.next_id
                || exists|j: int| 0 <= j < i && (#[trigger] s.frames@[j]).id == fr.id),
            k <= fr.locals@.len(),
            forall|q: int| 0 <= q < k ==> slot_type(*def, (#[trigger] fr.locals@[q]).0@) == Some(value_type(fr.locals@[q].1)),
        decreases fr.locals@.len() - k,
    {
        let name = fr.locals[k].0.as_str();
        let declared = match get_entry(&def.locals, name) {
            Some(t) => Some(*t),
            None => match get_entry(&def.params, name) {
                Some(t) => Some(*t),
                None => None,
            },
        };
        let ok = match declared {
            Some(t) => t == fr.locals[k].1.ty(),
            None => false,
        };
        if !ok {
            proof {
                assert(slot_type(*def, fr.locals@[k as int].0@) != Some(value_type(fr.locals@[k as int].1)));
            }
            return fault("local layout");
        }
        k = k + 1;
    }
    Ok(())
}

/// Checks the head of a saved state against the program and the release
/// it is restored under: the same format, game, revision and release; a
/// known locale and sizes within their limits; the program's variable
/// layout; and frames that each address an operation of a declared block,
/// with identities below the next one and distinct, and locals of their
/// declared types. The first failing check is the error.
pub fn check_restore_head(p: &Program, s: &Snapshot, release: &str) -> (r: Result<(), Diagnostic>)
    ensures
        reports(r, restore_head_error(*p, *s, release@)),
{
    if s.format != 1 || !str_eq(s.game_id.as_str(), p.game_id.as_str()) || !str_eq(s.revision.as_str(), p.revision.as_str())
        || !str_eq(s.release.as_str(), release) {
        return fault("incompatible content/release");
    }
    if get_entry(&p.locales, s.locale.as_str()).is_none() || s.frames.len() == 0 || s.frames.len() > MAX_FRAMES
        || s.tasks.len() > 2 * MAX_TASKS || s.scene.len() > MAX_NODES || s.draft.len() > MAX_NODES || s.history_len > 1000
        || s.next_id == 0 {
        return fault("state limits/locale");
    }
    if !layout_matches(p, s) {
        return fault("variable layout");
    }
    let ghost f = frame_check(*p, *s);
    let mut i: usize = 0;
    while i < s.frames.len()
        invariant
            i <= s.frames@.len(),
            f == frame_check(*p, *s),
            !incompatible(*p, *s, release@),
            !out_of_limits(*p, *s),
            !layout_differs(*p, *s),
            first_of(i as int, f) is None,
        decreases s.frames@.len() - i,
    {
        let r = check_frame(p, s, i);
        if r.is_err() {
            proof {
                crate::packages::lemma_first_of_hit(f, i as int, s.frames@.len() as int);
            }
            return r;
        }
        i = i + 1;
    }
    Ok(())
}


/// An accepted state head belongs to the program and release it is
/// restored into (format, game, revision, release, a known locale), keeps
/// the program's variables with their types and a bounded stack of frames;
/// frame identities are distinct and below the next identity, and every
/// frame stands at an operation of a declared block of a declared function,
/// named by that operation's identity, with locals of their declared types.
pub proof fn accepted_frames_are_addressed(p: Program, s: Snapshot, release: Seq<char>, i: int, j: int)
    requires
        restore_head_error(p, s, release) is None,
        0 <= i < s.frames@.len(),
        0 <= j < s.frames@.len(),
    ensures
        i != j ==> s.frames@[i].id != s.frames@[j].id,
        s.frames@[i].id < s.next_id,
        assoc(p.functions@, s.frames@[i].function@) matches Some(f)
            && (assoc(f.blocks@, s.frames@[i].block@) matches Some(b) && s.frames@[i].op <= b.ops@.len()
            && s.frames@[i].op_id@ == op_identity(b, s.frames@[i].op as int)
            && forall|k: int| 0 <= k < s.frames@[i].locals@.len()
                ==> slot_type(f, (#[trigger] s.frames@[i].locals@[k]).0@) == Some(value_type(s.frames@[i].locals@[k].1))),
        s.format == 1 && s.game_id@ == p.game_id@ && s.revision@ == p.revision@ && s.release@ == release,
        assoc(p.locales@, s.locale@) is Some && s.next_id > 0 && s.frames@.len() <= MAX_FRAMES,
        s.variables@.len() == p.variables@.len(),
        forall|k: int| 0 <= k < p.variables@.len() ==> (assoc(s.variables@, (#[trigger] p.variables@[k]).0@) matches Some(v)
            && value_type(v) == value_type(p.variables@[k].1)),
{
    let f = frame_check(p, s);
    let n = s.frames@.len() as int;
    lemma_first_of_none(f, n, i);
    lemma_first_of_none(f, n, j);
    assert(frame_error(p, s, i) is None);
    assert(frame_error(p, s, j) is None);
    if i < j {
        assert(s.frames@[j].id != s.frames@[i].id);
    } else if j < i {
        assert(s.frames@[i].id != s.frames@[j].id);
    }
}


/// The error of a saved dialogue line, reported at `dialogue`.
pub open spec fn dialogue_fault(message: Seq<char>) -> Option<DiagText> {
    Some(("E_SNAPSHOT"@, "dialogue"@, message))
}

/// A frozen span matches the span of the text it was frozen from: the same
/// id and gate flag, the same text and emphasis for plain text, a line
/// break for a break, nothing for a gate, and at most 128 KiB for a
/// parameter.
pub open spec fn span_matches(f: FrozenSpan, s: Span) -> bool {
    match s {
        Span::Text { id, text, emphasis } => f.id@ == id@ && f.text@ == text@ && f.emphasis == emphasis && !f.gate,
        Span::Break { id } => f.id@ == id@ && f.text@ == "\n"@ && !f.gate,
        Span::Gate { id } => f.id@ == id@ && f.text@.len() == 0 && f.gate,
        Span::Param { id, .. } => f.id@ == id@ && !f.gate && utf8_bytes(f.text@).len() <= 131072,
    }
}

/// The view that span `s` freezes to, as far as the span alone fixes it.
spec fn frozen_as(v: (Seq<char>, Seq<char>, bool, bool), s: Span) -> bool {
    match s {
        Span::Text { id, text, emphasis } => v == (id@, text@, emphasis, false),
        Span::Break { id } => v == (id@, "\n"@, false, false),
        Span::Gate { id } => v == (id@, ""@, false, true),
        Span::Param { id, .. } => v.0 == id@ && !v.2 && !v.3,
    }
}

proof fn lemma_frozen_shape(a: MachineState, spans: Seq<Span>, k: int, vs: Seq<(Seq<char>, Seq<char>, bool, bool)>)
    requires
        0 <= k <= spans.len(),
        frozen_spans(a, spans, k) == Ok::<Seq<(Seq<char>, Seq<char>, bool, bool)>, DiagText>(vs),
    ensures
        vs.len() == k,
        forall|i: int| 0 <= i < k ==> frozen_as(#[trigger] vs[i], spans[i]),
    decreases k,
{
    if k > 0 {
        match frozen_spans(a, spans, k - 1) {
            Ok(prev) => {
                lemma_frozen_shape(a, spans, k - 1, prev);
                assert(vs.drop_last() =~= prev);
                assert forall|i: int| 0 <= i < k implies frozen_as(#[trigger] vs[i], spans[i]) by {
                    if i < k - 1 {
                        assert(vs[i] == prev[i]);
                    }
                }
            },
            Err(_) => {},
        }
    }
}

/// What the story machine freezes, a restore accepts: every span that the
/// machine freezes from the spans of a text matches its source span (plain
/// text as it stands, a break as a line break, a gate as nothing, a
/// parameter under its own identity), given that each parameter's frozen
/// text keeps within the 128 KiB that a restore allows.
pub proof fn frozen_spans_pass_restore(a: MachineState, spans: Seq<Span>, fs: Seq<FrozenSpan>)
    requires
        frozen_spans(a, spans, spans.len() as int)
            == Ok::<Seq<(Seq<char>, Seq<char>, bool, bool)>, DiagText>(fs.map_values(|f: FrozenSpan| span_view(f))),
        forall|i: int| 0 <= i < fs.len() && (#[trigger] spans[i]) is Param ==> utf8_bytes(fs[i].text@).len() <= 131072,
    ensures
        fs.len() == spans.len(),
        forall|i: int| 0 <= i < fs.len() ==> span_matches(#[trigger] fs[i], spans[i]),
{
    reveal_strlit("");
    let vs = fs.map_values(|f: FrozenSpan| span_view(f));
    lemma_frozen_shape(a, spans, spans.len() as int, vs);
    assert forall|i: int| 0 <= i < fs.len() implies span_matches(#[trigger] fs[i], spans[i]) by {
        assert(vs[i] == span_view(fs[i]));
        assert(frozen_as(vs[i], spans[i]));
    }
}

/// The source document of a dialogue line: its text in its locale.
pub open spec fn line_doc(p: Program, d: Dialogue) -> Option<TextDoc> {
    match assoc(p.locales@, d.locale@) {
        Some(l) => assoc(l@, d.text_id@),
        None => None,
    }
}

/// The error of a saved dialogue line: its text or its text in its locale
/// is unknown; its revision is not the text's meaning revision, its
/// interaction not below the next identity, its spans not as many as the
/// text's, its cursor past them or its last reveal after the tick; a span
/// does not match its source; or its cursor is past the clusters of its
/// span, at a gate that is none, or awaiting an advance before the end.
pub open spec fn dialogue_error(p: Program, d: Dialogue, tick: Micros, next_id: u32) -> Option<DiagText> {
    let n = d.spans@.len();
    match assoc(p.texts@, d.text_id@) {
        None => dialogue_fault("missing text"@),
        Some(c) => match line_doc(p, d) {
            None => dialogue_fault("missing locale"@),
            Some(doc) => if d.revision != c.meaning_revision || d.interaction >= next_id || n != doc.spans@.len() || d.span > n
                || d.last_reveal_us.0 > tick.0 {
                dialogue_fault("dialogue identity/progress"@)
            } else if exists|i: int| 0 <= i < n && !span_matches(#[trigger] d.spans@[i], doc.spans@[i]) {
                dialogue_fault("frozen text contract mismatch"@)
            } else if (d.span < n && d.cluster > graphemes(d.spans@[d.span as int].text@).len())
                || (d.at_gate && !(d.span < n && d.spans@[d.span as int].gate)) || (d.awaiting_advance && d.span != n) {
                dialogue_fault("invalid reveal cursor"@)
            } else {
                None
            },
        },
    }
}

fn dfault(message: &str) -> (r: Result<(), Diagnostic>)
    ensures
        reports(r, dialogue_fault(message@)),
{
    Err(Diagnostic::new("E_SNAPSHOT", "dialogue", message))
}

fn span_ok(f: &FrozenSpan, s: &Span) -> (r: bool)
    ensures
        r == span_matches(*f, *s),
{
    proof {
        reveal_strlit("\n");
    }
    match s {
        Span::Text { id, text, emphasis } => str_eq(f.id.as_str(), id.as_str()) && str_eq(f.text.as_str(), text.as_str()) && f.emphasis == *emphasis && !f.gate,
        Span::Break { id } => str_eq(f.id.as_str(), id.as_str()) && str_eq(f.text.as_str(), "\n") && !f.gate,
        Span::Gate { id } => str_eq(f.id.as_str(), id.as_str()) && f.text.as_str().unicode_len() == 0 && f.gate,
        Span::Param { id, .. } => str_eq(f.id.as_str(), id.as_str()) && !f.gate && f.text.as_str().as_bytes().len() <= 131072,
    }
}

/// A saved dialogue line that a restore accepts is a line of the program as
/// it stands: of a known text in a known locale, at the text's meaning
/// revision, with one frozen span per span of the text, each matching it;
/// its interaction was handed out before, its last reveal is not in the
/// future, and its cursor is within the line: on a cluster of its span, on
/// a gate span when it is at a gate, and at the end when it awaits an
/// advance.
pub proof fn accepted_dialogue_is_consistent(p: Program, d: Dialogue, tick: Micros, next_id: u32, i: int)
    requires
        dialogue_error(p, d, tick, next_id) is None,
        0 <= i < d.spans@.len(),
    ensures
        assoc(p.texts@, d.text_id@) matches Some(c) && d.revision == c.meaning_revision,
        line_doc(p, d) matches Some(doc) && doc.spans@.len() == d.spans@.len() && span_matches(d.spans@[i], doc.spans@[i]),
        d.interaction < next_id,
        d.last_reveal_us.0 <= tick.0,
        d.span <= d.spans@.len(),
        d.span < d.spans@.len() ==> d.cluster <= graphemes(d.spans@[d.span as int].text@).len(),
        d.at_gate ==> d.span < d.spans@.len() && d.spans@[d.span as int].gate,
        d.awaiting_advance ==> d.span == d.spans@.len(),
{
}

/// Checks a saved dialogue line against the program, the tick and the next
/// identity.
pub fn check_dialogue(p: &Program, d: &Dialogue, tick: Micros, next_id: u32) -> (r: Result<(), Diagnostic>)
    ensures
        reports(r, dialogue_error(*p, *d, tick, next_id)),
{
    let c = match get_entry(&p.texts, d.text_id.as_str()) {
        Some(c) => c,
        None => {
            return dfault("missing text");
        },
    };
    let doc = match get_entry(&p.locales, d.locale.as_str()) {
        Some(l) => match get_entry(l, d.text_id.as_str()) {
            Some(doc) => doc,
            None => {
                return dfault("missing locale");
            },
        },
        None => {
            return dfault("missing locale");
        },
    };
    let n = d.spans.len();
    if d.revision != c.meaning_revision || d.interaction >= next_id || n != doc.spans.len() || d.span > n || d.last_reveal_us.0 > tick.0 {
        return dfault("dialogue identity/progress");
    }
    let mut i: usize = 0;
    while i < n
        invariant
            i <= n,
            n == d.spans@.len(),
            n == doc.spans@.len(),
            assoc(p.texts@, d.text_id@) == Some(*c),
            line_doc(*p, *d) == Some(*doc),
            !(d.revision != c.meaning_revision || d.interaction >= next_id || d.span > n || d.last_reveal_us.0 > tick.0),
            forall|j: int| 0 <= j < i ==> span_matches(#[trigger] d.spans@[j], doc.spans@[j]),
        decreases n - i,
    {
        if !span_ok(&d.spans[i], &doc.spans[i]) {
            proof {
                assert(!span_matches(d.spans@[i as int], doc.spans@[i as int]));
            }
            return dfault("frozen text contract mismatch");
        }
        i = i + 1;
    }
    let beyond = if d.span < n {
        let clusters = grapheme_clusters(d.spans[d.span].text.as_str());
        d.cluster > clusters.len()
    } else {
        false
    };
    let gate_ok = d.span < n && d.spans[d.span].gate;
    if beyond || (d.at_gate && !gate_ok) || (d.awaiting_advance && d.span != n) {
        return dfault("invalid reveal cursor");
    }
    Ok(())
}


/// Some task is filed under identity `id`.
pub open spec fn task_key(s: Snapshot, id: u32) -> bool {
    exists|j: int| 0 <= j < s.tasks@.len() && (#[trigger] s.tasks@[j]).0 == id
}

/// A task's dialogue line is out of its limits: an unknown locale or text,
/// a cursor past its spans, more than 8192 spans or 128 KiB of text, or a
/// cluster past the clusters of its span.
pub open spec fn line_out_of_limits(p: Program, d: Dialogue) -> bool {
    let n = d.spans@.len();
    ||| assoc(p.locales@, d.locale@) is None
    ||| assoc(p.texts@, d.text_id@) is None
    ||| d.span > n
    ||| n > 8192
    ||| utf8_bytes(spans_text(d.spans@)).len() > 131072
    ||| (d.span < n && d.cluster > graphemes(d.spans@[d.span as int].text@).len())
}

/// The state error of task entry `i`: filed under another identity, an
/// identity not below the next one or already a frame's or an earlier
/// task's, a start after the tick or a non-finite captured or base value;
/// else a dialogue line out of its limits.
pub open spec fn task_state_error(p: Program, s: Snapshot, i: int) -> Option<DiagText> {
    let (k, t) = s.tasks@[i];
    if k != t.id || t.id >= s.next_id || (exists|f: int| 0 <= f < s.frames@.len() && (#[trigger] s.frames@[f]).id == t.id)
        || (exists|j: int| 0 <= j < i && (#[trigger] s.tasks@[j]).1.id == t.id) || t.started_us.0 > s.tick_us.0
        || !f32_finite(t.captured_bits) || !f32_finite(t.base_bits) {
        restore_fault("task state"@)
    } else {
        match t.dialogue {
            Some(d) => if line_out_of_limits(p, d) {
                restore_fault("dialogue state"@)
            } else {
                None
            },
            None => None,
        }
    }
}

/// The state error of task entry `i`, as a check over the tasks.
pub open spec fn task_state_check(p: Program, s: Snapshot) -> spec_fn(int) -> Option<DiagText> {
    |i: int| task_state_error(p, s, i)
}

/// A handle, or a condition of the wait, names no task.
pub open spec fn handle_dangles(s: Snapshot) -> bool {
    ||| exists|i: int| 0 <= i < s.handles@.len() && !task_key(s, (#[trigger] s.handles@[i]).1)
    ||| (s.waiting matches Some(w) && exists|i: int| 0 <= i < w.conditions@.len() && !task_key(s, (#[trigger] w.conditions@[i]).0))
}

/// Two effects that are the same, their texts compared as text.
pub open spec fn same_effect(a: Effect, b: Effect) -> bool {
    match (a, b) {
        (Effect::StagePresent { scene: s1, duration_us: d1 }, Effect::StagePresent { scene: s2, duration_us: d2 }) => s1@ == s2@ && d1 == d2,
        (Effect::Clip { node: n1, property: p1, to_bits: t1, duration_us: d1, replace: r1, easing: e1, finish: f1, cancel: c1 },
         Effect::Clip { node: n2, property: p2, to_bits: t2, duration_us: d2, replace: r2, easing: e2, finish: f2, cancel: c2 }) =>
            n1@ == n2@ && p1 == p2 && t1 == t2 && d1 == d2 && r1 == r2 && e1 == e2 && f1 == f2 && c1 == c2,
        (Effect::Dialogue { text: t1, speaker: s1, reveal_us: r1 }, Effect::Dialogue { text: t2, speaker: s2, reveal_us: r2 }) =>
            t1@ == t2@ && s1@ == s2@ && r1 == r2,
        (Effect::Audio { asset: a1, bus: b1, looped: l1 }, Effect::Audio { asset: a2, bus: b2, looped: l2 }) => a1@ == a2@ && b1 == b2 && l1 == l2,
        (Effect::Delay { duration_us: d1 }, Effect::Delay { duration_us: d2 }) => d1 == d2,
        _ => false,
    }
}

/// Two effect lists that are the same, entry by entry.
pub open spec fn same_effects(a: Seq<EffectDef>, b: Seq<EffectDef>) -> bool {
    a.len() == b.len() && forall|i: int| 0 <= i < a.len()
        ==> (#[trigger] a[i]).id@ == b[i].id@ && a[i].scope == b[i].scope && same_effect(a[i].effect, b[i].effect)
}

/// The error of the pending cue: a cue the program lacks, or effects other
/// than the cue's.
pub open spec fn pending_cue_error(p: Program, s: Snapshot) -> Option<DiagText> {
    match s.pending {
        None => None,
        Some(pc) => match assoc(p.cues@, pc.cue@) {
            None => restore_fault("missing pending cue"@),
            Some(c) => if same_effects(c.effects@, pc.effects@) {
                None
            } else {
                restore_fault("pending cue mismatch"@)
            },
        },
    }
}

/// The error of the offered choice: a choice the program lacks, no option,
/// or an option it does not declare.
pub open spec fn offered_choice_error(p: Program, s: Snapshot) -> Option<DiagText> {
    match s.choice {
        None => None,
        Some(c) => match assoc(p.choices@, c.id@) {
            None => restore_fault("missing choice"@),
            Some(def) => if c.options@.len() == 0 || exists|i: int| 0 <= i < c.options@.len()
                && !declared_option(def, (#[trigger] c.options@[i]).id@) {
                restore_fault("invalid offered choice"@)
            } else {
                None
            },
        },
    }
}

/// The choice declares an option named `id`.
pub open spec fn declared_option(def: crate::format::Choice, id: Seq<char>) -> bool {
    exists|j: int| 0 <= j < def.options@.len() && (#[trigger] def.options@[j]).id@ == id
}

/// How many of the pending cue, the wait and the choice are active.
pub open spec fn active_count(s: Snapshot) -> int {
    (if s.pending is Some { 1int } else { 0int }) + (if s.waiting is Some { 1int } else { 0int }) + (if s.choice is Some { 1int } else { 0int })
}

fn is_task_key(s: &Snapshot, id: u32) -> (r: bool)
    ensures
        r == task_key(*s, id),
{
    let mut j: usize = 0;
    while j < s.tasks.len()
        invariant
            j <= s.tasks@.len(),
            forall|q: int| 0 <= q < j ==> (#[trigger] s.tasks@[q]).0 != id,
        decreases s.tasks@.len() - j,
    {
        if s.tasks[j].0 == id {
            return true;
        }
        j = j + 1;
    }
    false
}

fn line_ok(p: &Program, d: &Dialogue) -> (r: bool)
    ensures
        r == !line_out_of_limits(*p, *d),
{
    let n = d.spans.len();
    if get_entry(&p.locales, d.locale.as_str()).is_none() || get_entry(&p.texts, d.text_id.as_str()).is_none() || d.span > n || n > 8192 {
        return false;
    }
    let full = d.full_text();
    if full.as_str().as_bytes().len() > 131072 {
        return false;
    }
    if d.span < n {
        let clusters = grapheme_clusters(d.spans[d.span].text.as_str());
        if d.cluster > clusters.len() {
            return false;
        }
    }
    true
}

fn check_task_state(p: &Program, s: &Snapshot, i: usize) -> (r: Result<(), Diagnostic>)
    requires
        i < s.tasks@.len(),
    ensures
        reports(r, task_state_error(*p, *s, i as int)),
{
    let (k, t) = (s.tasks[i].0, &s.tasks[i].1);
    let mut bad = k != t.id || t.id >= s.next_id || t.started_us.0 > s.tick_us.0 || !finite(t.captured_bits) || !finite(t.base_bits);
    let mut f: usize = 0;
    while f < s.frames.len()
        invariant
            f <= s.frames@.len(),
            i < s.tasks@.len(),
            k == s.tasks@[i as int].0,
            *t == s.tasks@[i as int].1,
            !bad ==> !(k != t.id || t.id >= s.next_id || t.started_us.0 > s.tick_us.0 || !f32_finite(t.captured_bits) || !f32_finite(t.base_bits)),
            !bad ==> forall|q: int| 0 <= q < f ==> (#[trigger] s.frames@[q]).id != t.id,
            bad ==> (k != t.id || t.id >= s.next_id || t.started_us.0 > s.tick_us.0 || !f32_finite(t.captured_bits) || !f32_finite(t.base_bits)
                || exists|q: int| 0 <= q < s.frames@.len() && (#[trigger] s.frames@[q]).id == t.id),
        decreases s.frames@.len() - f,
    {
        if s.frames[f].id == t.id {
            bad = true;
        }
        f = f + 1;
    }
    let mut j: usize = 0;
    while j < i
        invariant
            j <= i < s.tasks@.len(),
            k == s.tasks@[i as int].0,
            *t == s.tasks@[i as int].1,
            !bad ==> !(k != t.id || t.id >= s.next_id || t.started_us.0 > s.tick_us.0 || !f32_finite(t.captured_bits) || !f32_finite(t.base_bits)),
            !bad ==> forall|q: int| 0 <= q < s.frames@.len() ==> (#[trigger] s.frames@[q]).id != t.id,
            !bad ==> forall|q: int| 0 <= q < j ==> (#[trigger] s.tasks@[q]).1.id != t.id,
            bad ==> (k != t.id || t.id >= s.next_id || t.started_us.0 > s.tick_us.0 || !f32_finite(t.captured_bits) || !f32_finite(t.base_bits)
                || (exists|q: int| 0 <= q < s.frames@.len() && (#[trigger] s.frames@[q]).id == t.id)
                || exists|q: int| 0 <= q < i && (#[trigger] s.tasks@[q]).1.id == t.id),
        decreases i - j,
    {
        if s.tasks[j].1.id == t.id {
            bad = true;
        }
        j = j + 1;
    }
    if bad {
        return fault("task state");
    }
    match &t.dialogue {
        Some(d) => if !line_ok(p, d) {
            fault("dialogue state")
        } else {
            Ok(())
        },
        None => Ok(()),
    }
}

fn effect_same(a: &Effect, b: &Effect) -> (r: bool)
    ensures
        r == same_effect(*a, *b),
{
    match (a, b) {
        (Effect::StagePresent { scene: s1, duration_us: d1 }, Effect::StagePresent { scene: s2, duration_us: d2 }) => str_eq(s1.as_str(), s2.as_str()) && d1.0 == d2.0,
        (Effect::Clip { node: n1, property: p1, to_bits: t1, duration_us: d1, replace: r1, easing: e1, finish: f1, cancel: c1 },
         Effect::Clip { node: n2, property: p2, to_bits: t2, duration_us: d2, replace: r2, easing: e2, finish: f2, cancel: c2 }) =>
            str_eq(n1.as_str(), n2.as_str()) && *p1 == *p2 && *t1 == *t2 && d1.0 == d2.0 && *r1 == *r2 && *e1 == *e2 && *f1 == *f2 && *c1 == *c2,
        (Effect::Dialogue { text: t1, speaker: s1, reveal_us: r1 }, Effect::Dialogue { text: t2, speaker: s2, reveal_us: r2 }) =>
            str_eq(t1.as_str(), t2.as_str()) && str_eq(s1.as_str(), s2.as_str()) && r1.0 == r2.0,
        (Effect::Audio { asset: a1, bus: b1, looped: l1 }, Effect::Audio { asset: a2, bus: b2, looped: l2 }) =>
            str_eq(a1.as_str(), a2.as_str()) && *b1 == *b2 && *l1 == *l2,
        (Effect::Delay { duration_us: d1 }, Effect::Delay { duration_us: d2 }) => d1.0 == d2.0,
        _ => false,
    }
}

fn effects_same(a: &Vec<EffectDef>, b: &Vec<EffectDef>) -> (r: bool)
    ensures
        r == same_effects(a@, b@),
{
    if a.len() != b.len() {
        return false;
    }
    let mut i: usize = 0;
    while i < a.len()
        invariant
            i <= a@.len(),
            a@.len() == b@.len(),
            forall|q: int| 0 <= q < i ==> (#[trigger] a@[q]).id@ == b@[q].id@ && a@[q].scope == b@[q].scope && same_effect(a@[q].effect, b@[q].effect),
        decreases a@.len() - i,
    {
        if !(str_eq(a[i].id.as_str(), b[i].id.as_str()) && a[i].scope == b[i].scope && effect_same(&a[i].effect, &b[i].effect)) {
            return false;
        }
        i = i + 1;
    }
    true
}

fn check_handles(s: &Snapshot) -> (r: bool)
    ensures
        r == !handle_dangles(*s),
{
    let mut i: usize = 0;
    while i < s.handles.len()
        invariant
            i <= s.handles@.len(),
            forall|q: int| 0 <= q < i ==> task_key(*s, (#[trigger] s.handles@[q]).1),
        decreases s.handles@.len() - i,
    {
        if !is_task_key(s, s.handles[i].1) {
            return false;
        }
        i = i + 1;
    }
    match &s.waiting {
        Some(w) => {
            let mut i: usize = 0;
            while i < w.conditions.len()
                invariant
                    i <= w.conditions@.len(),
                    s.waiting == Some(*w),
                    forall|q: int| 0 <= q < s.handles@.len() ==> task_key(*s, (#[trigger] s.handles@[q]).1),
                    forall|q: int| 0 <= q < i ==> task_key(*s, (#[trigger] w.conditions@[q]).0),
                decreases w.conditions@.len() - i,
            {
                if !is_task_key(s, w.conditions[i].0) {
                    proof {
                        assert(!task_key(*s, w.conditions@[i as int].0));
                        assert(s.waiting matches Some(w2) && w2 == *w);
                        assert(exists|q: int| 0 <= q < w.conditions@.len() && !task_key(*s, (#[trigger] w.conditions@[q]).0));
                        assert(handle_dangles(*s));
                    }
                    return false;
                }
                i = i + 1;
            }
            true
        },
        None => true,
    }
}

fn check_pending_cue(p: &Program, s: &Snapshot) -> (r: Result<(), Diagnostic>)
    ensures
        reports(r, pending_cue_error(*p, *s)),
{
    match &s.pending {
        None => Ok(()),
        Some(pc) => match get_entry(&p.cues, pc.cue.as_str()) {
            None => fault("missing pending cue"),
            Some(c) => if effects_same(&c.effects, &pc.effects) {
                Ok(())
            } else {
                fault("pending cue mismatch")
            },
        },
    }
}

fn check_offered_choice(p: &Program, s: &Snapshot) -> (r: Result<(), Diagnostic>)
    ensures
        reports(r, offered_choice_error(*p, *s)),
{
    match &s.choice {
        None => Ok(()),
        Some(c) => match get_entry(&p.choices, c.id.as_str()) {
            None => fault("missing choice"),
            Some(def) => {
                if c.options.len() == 0 {
                    return fault("invalid offered choice");
                }
                let mut i: usize = 0;
                while i < c.options.len()
                    invariant
                        i <= c.options@.len(),
                        s.choice == Some(*c),
                        assoc(p.choices@, c.id@) == Some(*def),
                        c.options@.len() > 0,
                        forall|q: int| 0 <= q < i ==> declared_option(*def, (#[trigger] c.options@[q]).id@),
                    decreases c.options@.len() - i,
                {
                    let mut found = false;
                    let mut j: usize = 0;
                    while j < def.options.len()
                        invariant
                            j <= def.options@.len(),
                            i < c.options@.len(),
                            found ==> exists|q: int| 0 <= q < def.options@.len() && (#[trigger] def.options@[q]).id@ == c.options@[i as int].id@,
                            !found ==> forall|q: int| 0 <= q < j ==> (#[trigger] def.options@[q]).id@ != c.options@[i as int].id@,
                        decreases def.options@.len() - j,
                    {
                        if str_eq(def.options[j].id.as_str(), c.options[i].id.as_str()) {
                            found = true;
                        }
                        j = j + 1;
                    }
                    if !found {
                        proof {
                            assert(!declared_option(*def, c.options@[i as int].id@));
                        }
                        return fault("invalid offered choice");
                    }
                    i = i + 1;
                }
                Ok(())
            },
        },
    }
}


/// The block the innermost frame stands in.
pub open spec fn top_block(p: Program, s: Snapshot) -> Option<Block> {
    let t = s.frames@.last();
    match assoc(p.functions@, t.function@) {
        Some(def) => assoc(def.blocks@, t.block@),
        None => None,
    }
}

/// The innermost frame stands at the terminator of block `b`.
pub open spec fn at_terminator(s: Snapshot, b: Block) -> bool {
    s.frames@.last().op == b.ops@.len()
}

/// The error of saved dialogue line `i` of the pending cue: no dialogue
/// effect of that name for its text, else the line's own error.
pub open spec fn pending_line_error(p: Program, s: Snapshot, pc: PendingCue, i: int) -> Option<DiagText> {
    let (name, d) = pc.dialogues@[i];
    if !exists|e: int| 0 <= e < pc.effects@.len() && (#[trigger] pc.effects@[e]).id@ == name@
        && (pc.effects@[e].effect matches Effect::Dialogue { text, .. } && text@ == d.text_id@) {
        restore_fault("pending dialogue mismatch"@)
    } else {
        dialogue_error(p, d, s.tick_us, s.next_id)
    }
}

/// The error of saved dialogue line `i` of the pending cue, as a check.
pub open spec fn pending_line_check(p: Program, s: Snapshot, pc: PendingCue) -> spec_fn(int) -> Option<DiagText> {
    |i: int| pending_line_error(p, s, pc, i)
}

/// The error of the pending cue's continuation: the innermost frame must
/// stand at an activation of that cue continuing at its next block, and
/// the cue's identity be below the next one; then each saved line must
/// belong to a dialogue effect of the cue and be valid.
pub open spec fn pending_continuation_error(p: Program, s: Snapshot) -> Option<DiagText> {
    match s.pending {
        None => None,
        Some(pc) => if !(top_block(p, s) matches Some(b) && at_terminator(s, b) && (match b.terminator {
            Terminator::Activate { cue, next } => cue@ == pc.cue@ && next@ == pc.next@,
            _ => false,
        })) || pc.id >= s.next_id {
            restore_fault("pending continuation mismatch"@)
        } else {
            first_of(pc.dialogues@.len() as int, pending_line_check(p, s, pc))
        },
    }
}

/// Two milestones that are the same, marker names compared as text.
pub open spec fn same_milestone(a: Milestone, b: Milestone) -> bool {
    match (a, b) {
        (Milestone::Started, Milestone::Started) => true,
        (Milestone::Finished, Milestone::Finished) => true,
        (Milestone::Marker(x), Milestone::Marker(y)) => x@ == y@,
        _ => false,
    }
}

/// The wait entries are the conditions resolved through the handles.
pub open spec fn wait_matches(handles: Seq<(String, u32)>, cs: Seq<WaitCondition>, w: Seq<(u32, Milestone)>) -> bool {
    w.len() == cs.len() && forall|i: int| 0 <= i < cs.len()
        ==> assoc(handles, (#[trigger] cs[i]).task@) == Some(w[i].0) && same_milestone(w[i].1, cs[i].milestone)
}

/// The error of the wait's continuation: the innermost frame must stand at
/// an await whose conditions, resolved through the handles, and blocks are
/// the wait's.
pub open spec fn wait_continuation_error(p: Program, s: Snapshot) -> Option<DiagText> {
    match s.waiting {
        None => None,
        Some(w) => match top_block(p, s) {
            Some(b) => match b.terminator {
                Terminator::Await { conditions, next, on_cancelled, on_failed } => if !wait_matches(s.handles@, conditions@, w.conditions@)
                    || next@ != w.next@ || on_cancelled@ != w.on_cancelled@ || on_failed@ != w.on_failed@ || !at_terminator(s, b) {
                    restore_fault("wait continuation mismatch"@)
                } else {
                    None
                },
                _ => restore_fault("unexpected wait"@),
            },
            None => restore_fault("unexpected wait"@),
        },
    }
}

/// The error of the choice's continuation: the innermost frame must stand
/// at an interaction with that choice and its branches, the interaction be
/// below the next identity and the locale known; the offered options must
/// be distinct with one enabled; and a default must be offered enabled.
pub open spec fn choice_continuation_error(p: Program, s: Snapshot) -> Option<DiagText> {
    match s.choice {
        None => None,
        Some(c) => {
            let os = c.options@;
            if !(top_block(p, s) matches Some(b) && at_terminator(s, b) && (match b.terminator {
                Terminator::Interact { choice, branches, .. } => choice@ == c.id@ && pair_views(branches@) == pair_views(c.branches@),
                _ => false,
            })) || c.interaction >= s.next_id || assoc(p.locales@, c.locale@) is None {
                restore_fault("choice continuation mismatch"@)
            } else if (exists|i: int, j: int| 0 <= i < j < os.len() && (#[trigger] os[i]).id@ == (#[trigger] os[j]).id@)
                || !(exists|i: int| 0 <= i < os.len() && (#[trigger] os[i]).enabled) {
                restore_fault("invalid offered options"@)
            } else if (c.default matches Some(d) && !exists|i: int| 0 <= i < os.len() && (#[trigger] os[i]).id@ == d@ && os[i].enabled) {
                restore_fault("unavailable timeout default"@)
            } else {
                None
            }
        },
    }
}

/// The error of frame `i`'s return address: the first frame returns
/// nowhere, and every other one to a block of its caller's function.
pub open spec fn return_error(p: Program, s: Snapshot, i: int) -> Option<DiagText> {
    let f = s.frames@[i];
    if i == 0 {
        if f.return_to is Some {
            restore_fault("root return address"@)
        } else {
            None
        }
    } else if f.return_to matches Some(b) && (match assoc(p.functions@, s.frames@[i - 1].function@) {
        Some(def) => assoc(def.blocks@, b@) is Some,
        None => false,
    }) {
        None
    } else {
        restore_fault("invalid return address"@)
    }
}

/// The error of frame `i`'s return address, as a check over the frames.
pub open spec fn return_check(p: Program, s: Snapshot) -> spec_fn(int) -> Option<DiagText> {
    |i: int| return_error(p, s, i)
}

fn find_top_block<'a>(p: &'a Program, s: &Snapshot) -> (r: Option<&'a Block>)
    requires
        s.frames@.len() > 0,
    ensures
        match r {
            Some(b) => top_block(*p, *s) == Some(*b),
            None => top_block(*p, *s) is None,
        },
{
    let t = &s.frames[s.frames.len() - 1];
    match get_entry(&p.functions, t.function.as_str()) {
        Some(def) => get_entry(&def.blocks, t.block.as_str()),
        None => None,
    }
}

fn check_pending_continuation(p: &Program, s: &Snapshot) -> (r: Result<(), Diagnostic>)
    requires
        s.frames@.len() > 0,
    ensures
        reports(r, pending_continuation_error(*p, *s)),
{
    match &s.pending {
        None => Ok(()),
        Some(pc) => {
            let ok = match find_top_block(p, s) {
                Some(b) => s.frames[s.frames.len() - 1].op == b.ops.len() && match &b.terminator {
                    Terminator::Activate { cue, next } => str_eq(cue.as_str(), pc.cue.as_str()) && str_eq(next.as_str(), pc.next.as_str()),
                    _ => false,
                },
                None => false,
            };
            if !ok || pc.id >= s.next_id {
                return fault("pending continuation mismatch");
            }
            let ghost f = pending_line_check(*p, *s, *pc);
            let mut i: usize = 0;
            while i < pc.dialogues.len()
                invariant
                    i <= pc.dialogues@.len(),
                    s.pending == Some(*pc),
                    f == pending_line_check(*p, *s, *pc),
                    first_of(i as int, f) is None,
                    !(!(top_block(*p, *s) matches Some(b) && at_terminator(*s, b) && (match b.terminator {
                        Terminator::Activate { cue, next } => cue@ == pc.cue@ && next@ == pc.next@,
                        _ => false,
                    })) || pc.id >= s.next_id),
                decreases pc.dialogues@.len() - i,
            {
                let (name, d) = (&pc.dialogues[i].0, &pc.dialogues[i].1);
                let mut found = false;
                let mut e: usize = 0;
                while e < pc.effects.len()
                    invariant
                        e <= pc.effects@.len(),
                        i < pc.dialogues@.len(),
                        *name == pc.dialogues@[i as int].0,
                        *d == pc.dialogues@[i as int].1,
                        found ==> exists|q: int| 0 <= q < pc.effects@.len() && (#[trigger] pc.effects@[q]).id@ == name@
                            && (pc.effects@[q].effect matches Effect::Dialogue { text, .. } && text@ == d.text_id@),
                        !found ==> forall|q: int| 0 <= q < e ==> !((#[trigger] pc.effects@[q]).id@ == name@
                            && (pc.effects@[q].effect matches Effect::Dialogue { text, .. } && text@ == d.text_id@)),
                    decreases pc.effects@.len() - e,
                {
                    let hit = str_eq(pc.effects[e].id.as_str(), name.as_str()) && match &pc.effects[e].effect {
                        Effect::Dialogue { text, .. } => str_eq(text.as_str(), d.text_id.as_str()),
                        _ => false,
                    };
                    if hit {
                        found = true;
                    }
                    e = e + 1;
                }
                proof {
                    assert(f(i as int) == pending_line_error(*p, *s, *pc, i as int));
                }
                if !found {
                    proof {
                        lemma_first_of_hit(f, i as int, pc.dialogues@.len() as int);
                    }
                    return fault("pending dialogue mismatch");
                }
                let r = check_dialogue(p, d, s.tick_us, s.next_id);
                if r.is_err() {
                    proof {
                        lemma_first_of_hit(f, i as int, pc.dialogues@.len() as int);
                    }
                    return r;
                }
                i = i + 1;
            }
            Ok(())
        },
    }
}

pub(crate) fn milestone_same(a: &Milestone, b: &Milestone) -> (r: bool)
    ensures
        r == same_milestone(*a, *b),
{
    match (a, b) {
        (Milestone::Started, Milestone::Started) => true,
        (Milestone::Finished, Milestone::Finished) => true,
        (Milestone::Marker(x), Milestone::Marker(y)) => str_eq(x.as_str(), y.as_str()),
        _ => false,
    }
}

fn wait_ok(handles: &Vec<(String, u32)>, cs: &Vec<WaitCondition>, w: &Vec<(u32, Milestone)>) -> (r: bool)
    ensures
        r == wait_matches(handles@, cs@, w@),
{
    if w.len() != cs.len() {
        return false;
    }
    let mut i: usize = 0;
    while i < cs.len()
        invariant
            i <= cs@.len(),
            w@.len() == cs@.len(),
            forall|q: int| 0 <= q < i ==> assoc(handles@, (#[trigger] cs@[q]).task@) == Some(w@[q].0) && same_milestone(w@[q].1, cs@[q].milestone),
        decreases cs@.len() - i,
    {
        let ok = match get_entry(handles, cs[i].task.as_str()) {
            Some(id) => *id == w[i].0,
            None => false,
        };
        if !ok || !milestone_same(&w[i].1, &cs[i].milestone) {
            return false;
        }
        i = i + 1;
    }
    true
}

fn check_wait_continuation(p: &Program, s: &Snapshot) -> (r: Result<(), Diagnostic>)
    requires
        s.frames@.len() > 0,
    ensures
        reports(r, wait_continuation_error(*p, *s)),
{
    match &s.waiting {
        None => Ok(()),
        Some(w) => match find_top_block(p, s) {
            Some(b) => match &b.terminator {
                Terminator::Await { conditions, next, on_cancelled, on_failed } => {
                    if !wait_ok(&s.handles, conditions, &w.conditions) || !str_eq(next.as_str(), w.next.as_str())
                        || !str_eq(on_cancelled.as_str(), w.on_cancelled.as_str()) || !str_eq(on_failed.as_str(), w.on_failed.as_str())
                        || s.frames[s.frames.len() - 1].op != b.ops.len() {
                        fault("wait continuation mismatch")
                    } else {
                        Ok(())
                    }
                },
                _ => fault("unexpected wait"),
            },
            None => fault("unexpected wait"),
        },
    }
}

fn pairs_same(a: &Vec<(String, String)>, b: &Vec<(String, String)>) -> (r: bool)
    ensures
        r == (pair_views(a@) == pair_views(b@)),
{
    if a.len() != b.len() {
        proof {
            assert(pair_views(a@).len() != pair_views(b@).len());
        }
        return false;
    }
    let mut i: usize = 0;
    while i < a.len()
        invariant
            i <= a@.len(),
            a@.len() == b@.len(),
            forall|q: int| 0 <= q < i ==> (#[trigger] pair_views(a@)[q]) == pair_views(b@)[q],
        decreases a@.len() - i,
    {
        if !(str_eq(a[i].0.as_str(), b[i].0.as_str()) && str_eq(a[i].1.as_str(), b[i].1.as_str())) {
            proof {
                assert(pair_views(a@)[i as int] != pair_views(b@)[i as int]);
            }
            return false;
        }
        i = i + 1;
    }
    proof {
        assert(pair_views(a@) =~= pair_views(b@));
    }
    true
}

fn check_choice_continuation(p: &Program, s: &Snapshot) -> (r: Result<(), Diagnostic>)
    requires
        s.frames@.len() > 0,
    ensures
        reports(r, choice_continuation_error(*p, *s)),
{
    match &s.choice {
        None => Ok(()),
        Some(c) => {
            let at_interact = match find_top_block(p, s) {
                Some(b) => s.frames[s.frames.len() - 1].op == b.ops.len() && match &b.terminator {
                    Terminator::Interact { choice, branches, .. } => str_eq(choice.as_str(), c.id.as_str()) && pairs_same(branches, &c.branches),
                    _ => false,
                },
                None => false,
            };
            if !at_interact || c.interaction >= s.next_id || get_entry(&p.locales, c.locale.as_str()).is_none() {
                return fault("choice continuation mismatch");
            }
            let os = &c.options;
            let mut distinct = true;
            let mut any = false;
            let mut i: usize = 0;
            while i < os.len()
                invariant
                    i <= os@.len(),
                    distinct == forall|x: int, y: int| 0 <= x < y < i ==> (#[trigger] os@[x]).id@ != (#[trigger] os@[y]).id@,
                    any == exists|x: int| 0 <= x < i && (#[trigger] os@[x]).enabled,
                decreases os@.len() - i,
            {
                let mut j: usize = 0;
                while j < i
                    invariant
                        j <= i < os@.len(),
                        distinct ==> forall|x: int, y: int| 0 <= x < y < i ==> (#[trigger] os@[x]).id@ != (#[trigger] os@[y]).id@,
                        distinct ==> forall|x: int| 0 <= x < j ==> (#[trigger] os@[x]).id@ != os@[i as int].id@,
                        !distinct ==> exists|x: int, y: int| 0 <= x < y < i + 1 && (#[trigger] os@[x]).id@ == (#[trigger] os@[y]).id@,
                    decreases i - j,
                {
                    if distinct && str_eq(os[j].id.as_str(), os[i].id.as_str()) {
                        distinct = false;
                        proof {
                            assert(os@[j as int].id@ == os@[i as int].id@);
                        }
                    }
                    j = j + 1;
                }
                if os[i].enabled {
                    any = true;
                }
                i = i + 1;
            }
            if !distinct || !any {
                return fault("invalid offered options");
            }
            match &c.default {
                Some(d) => {
                    let mut found = false;
                    let mut i: usize = 0;
                    while i < os.len()
                        invariant
                            i <= os@.len(),
                            found == exists|x: int| 0 <= x < i && (#[trigger] os@[x]).id@ == d@ && os@[x].enabled,
                        decreases os@.len() - i,
                    {
                        if os[i].enabled && str_eq(os[i].id.as_str(), d.as_str()) {
                            found = true;
                        }
                        i = i + 1;
                    }
                    if !found {
                        return fault("unavailable timeout default");
                    }
                    Ok(())
                },
                None => Ok(()),
            }
        },
    }
}

fn check_returns(p: &Program, s: &Snapshot) -> (r: Result<(), Diagnostic>)
    ensures
        reports(r, first_of(s.frames@.len() as int, return_check(*p, *s))),
{
    let ghost f = return_check(*p, *s);
    let mut i: usize = 0;
    while i < s.frames.len()
        invariant
            i <= s.frames@.len(),
            f == return_check(*p, *s),
            first_of(i as int, f) is None,
        decreases s.frames@.len() - i,
    {
        proof {
            assert(f(i as int) == return_error(*p, *s, i as int));
        }
        let ok = if i == 0 {
            s.frames[0].return_to.is_none()
        } else {
            match &s.frames[i].return_to {
                Some(b) => match get_entry(&p.functions, s.frames[i - 1].function.as_str()) {
                    Some(def) => get_entry(&def.blocks, b.as_str()).is_some(),
                    None => false,
                },
                None => false,
            }
        };
        if !ok {
            proof {
                lemma_first_of_hit(f, i as int, s.frames@.len() as int);
            }
            if i == 0 {
                return fault("root return address");
            }
            return fault("invalid return address");
        }
        i = i + 1;
    }
    Ok(())
}


/// A cue of the program declares an effect named as the task, with its
/// scope and effect.
pub open spec fn declared_effect(p: Program, t: SavedTask) -> bool {
    exists|c: int, e: int| 0 <= c < p.cues@.len() && 0 <= e < p.cues@[c].1.effects@.len()
        && (#[trigger] p.cues@[c].1.effects@[e]).id@ == t.name@ && p.cues@[c].1.effects@[e].scope == t.scope
        && same_effect(p.cues@[c].1.effects@[e].effect, t.effect)
}

/// The task has reached its finished milestone.
pub open spec fn has_finished(t: SavedTask) -> bool {
    exists|m: int| 0 <= m < t.milestones@.len() && (#[trigger] t.milestones@[m]) is Finished
}

/// The error of task entry `i` against the program: no declared effect
/// like it; a running frame task of no frame; a running task whose elapsed
/// time is not the time since its start; a finished state without the
/// finished milestone or the other way round; else its dialogue line's
/// error.
pub open spec fn task_program_error(p: Program, s: Snapshot, i: int) -> Option<DiagText> {
    let t = s.tasks@[i].1;
    let running = t.state == TaskState::Running;
    if !declared_effect(p, t) {
        restore_fault("task does not match a declared effect"@)
    } else if running && t.scope == Scope::Frame && !exists|f: int| 0 <= f < s.frames@.len() && (#[trigger] s.frames@[f]).id == t.frame {
        restore_fault("orphan frame task"@)
    } else if running && t.elapsed_us.0 != s.tick_us.0 - t.started_us.0 {
        restore_fault("task progress mismatch"@)
    } else if (t.state == TaskState::Finished) != has_finished(t) {
        restore_fault("task terminal milestone mismatch"@)
    } else {
        match t.dialogue {
            Some(d) => dialogue_error(p, d, s.tick_us, s.next_id),
            None => None,
        }
    }
}

/// The error of task entry `i` against the program, as a check.
pub open spec fn task_program_check(p: Program, s: Snapshot) -> spec_fn(int) -> Option<DiagText> {
    |i: int| task_program_error(p, s, i)
}

/// The error of node `i` of a saved node list: values out of range, an
/// asset that is no image of the program, or a parent chain that cycles
/// or reaches a missing node.
pub open spec fn saved_node_error(p: Program, ns: Seq<Node>, i: int) -> Option<DiagText> {
    let n = ns[i];
    if !node_visual_ok(n) {
        restore_fault("invalid scene values"@)
    } else if (n.asset matches Some(a) && !(assoc(p.assets@, a@) matches Some(x) && x.kind == AssetKind::Image)) {
        restore_fault("scene asset missing"@)
    } else {
        match node_chain_error(ns, n) {
            Some(e) => if e.0 == "E_SCENE_CYCLE"@ {
                restore_fault("scene cycle"@)
            } else {
                restore_fault("scene parent missing"@)
            },
            None => None,
        }
    }
}

/// The error of node `i`, as a check over a node list.
pub open spec fn saved_node_check(p: Program, ns: Seq<Node>) -> spec_fn(int) -> Option<DiagText> {
    |i: int| saved_node_error(p, ns, i)
}

/// The error of a saved node list: more than `MAX_NODES` nodes, a name
/// twice, else the first node error.
pub open spec fn saved_nodes_error(p: Program, ns: Seq<Node>) -> Option<DiagText> {
    if ns.len() > MAX_NODES {
        restore_fault("scene size"@)
    } else if !node_ids(ns).no_duplicates() {
        restore_fault("duplicate scene node"@)
    } else {
        first_of(ns.len() as int, saved_node_check(p, ns))
    }
}

/// The error of task entry `i`'s source and target nodes.
pub open spec fn task_nodes_check(p: Program, s: Snapshot) -> spec_fn(int) -> Option<DiagText> {
    |i: int| or_else(saved_nodes_error(p, s.tasks@[i].1.source@), saved_nodes_error(p, s.tasks@[i].1.target@))
}

/// The error of the saved node lists: the scene, the draft, then each
/// task's source and target.
pub open spec fn saved_scenes_error(p: Program, s: Snapshot) -> Option<DiagText> {
    or_else(saved_nodes_error(p, s.scene@), or_else(saved_nodes_error(p, s.draft@), first_of(s.tasks@.len() as int, task_nodes_check(p, s))))
}

/// The first reason a saved state cannot be restored under the release,
/// in this order: its head; each task's state and line; a handle or wait
/// condition without its task; the pending cue; the offered choice; more
/// than one of cue, wait and choice active; their continuations; the
/// return addresses; each task against the program; and the saved node
/// lists.
pub open spec fn restore_error(p: Program, s: Snapshot, release: Seq<char>) -> Option<DiagText> {
    or_else(restore_head_error(p, s, release),
    or_else(first_of(s.tasks@.len() as int, task_state_check(p, s)),
    or_else(if handle_dangles(s) { restore_fault("dangling task handle"@) } else { None },
    or_else(pending_cue_error(p, s),
    or_else(offered_choice_error(p, s),
    or_else(if active_count(s) > 1 { restore_fault("multiple active terminators"@) } else { None },
    or_else(pending_continuation_error(p, s),
    or_else(wait_continuation_error(p, s),
    or_else(choice_continuation_error(p, s),
    or_else(first_of(s.frames@.len() as int, return_check(p, s)),
    or_else(first_of(s.tasks@.len() as int, task_program_check(p, s)),
    saved_scenes_error(p, s))))))))))))
}

/// A saved state can be restored under the release.
pub open spec fn restorable(p: Program, s: Snapshot, release: Seq<char>) -> bool {
    restore_error(p, s, release) is None
}

/// A state that a restore accepts keeps its tasks apart and in time: each
/// task is filed under its own identity, below the next identity and unlike
/// any frame's or other task's; it started no later than the saved tick;
/// every handle names a filed task; a pending cue is a cue of the program
/// with that cue's effects; and the machine is suspended on at most one of
/// a cue, a wait and a choice.
pub proof fn restorable_state_is_consistent(p: Program, s: Snapshot, release: Seq<char>, i: int, j: int)
    requires
        restorable(p, s, release),
        0 <= i < s.tasks@.len(),
        0 <= j < s.tasks@.len(),
    ensures
        s.tasks@[i].0 == s.tasks@[i].1.id,
        s.tasks@[i].1.id < s.next_id,
        s.tasks@[i].1.started_us.0 <= s.tick_us.0,
        i != j ==> s.tasks@[i].1.id != s.tasks@[j].1.id,
        forall|f: int| 0 <= f < s.frames@.len() ==> (#[trigger] s.frames@[f]).id != s.tasks@[i].1.id,
        forall|h: int| 0 <= h < s.handles@.len() ==> task_key(s, (#[trigger] s.handles@[h]).1),
        s.pending matches Some(pc) ==> (assoc(p.cues@, pc.cue@) matches Some(c) && same_effects(c.effects@, pc.effects@)),
        active_count(s) <= 1,
{
    let f = task_state_check(p, s);
    let n = s.tasks@.len() as int;
    lemma_first_of_none(f, n, i);
    lemma_first_of_none(f, n, j);
    assert(task_state_error(p, s, i) is None);
    assert(task_state_error(p, s, j) is None);
    if i < j {
        assert(s.tasks@[i].1.id != s.tasks@[j].1.id);
    } else if j < i {
        assert(s.tasks@[j].1.id != s.tasks@[i].1.id);
    }
}

fn is_declared_effect(p: &Program, t: &SavedTask) -> (r: bool)
    ensures
        r == declared_effect(*p, *t),
{
    let mut c: usize = 0;
    while c < p.cues.len()
        invariant
            c <= p.cues@.len(),
            forall|x: int, e: int| 0 <= x < c && 0 <= e < p.cues@[x].1.effects@.len() ==> !((#[trigger] p.cues@[x].1.effects@[e]).id@ == t.name@
                && p.cues@[x].1.effects@[e].scope == t.scope && same_effect(p.cues@[x].1.effects@[e].effect, t.effect)),
        decreases p.cues@.len() - c,
    {
        let effs = &p.cues[c].1.effects;
        let mut e: usize = 0;
        while e < effs.len()
            invariant
                e <= effs@.len(),
                c < p.cues@.len(),
                *effs == p.cues@[c as int].1.effects,
                forall|q: int| 0 <= q < e ==> !((#[trigger] effs@[q]).id@ == t.name@ && effs@[q].scope == t.scope && same_effect(effs@[q].effect, t.effect)),
            decreases effs@.len() - e,
        {
            if str_eq(effs[e].id.as_str(), t.name.as_str()) && effs[e].scope == t.scope && effect_same(&effs[e].effect, &t.effect) {
                proof {
                    assert(p.cues@[c as int].1.effects@[e as int] == effs@[e as int]);
                }
                return true;
            }
            e = e + 1;
        }
        proof {
            assert forall|x: int, q: int| 0 <= x < c + 1 && 0 <= q < p.cues@[x].1.effects@.len() implies !((#[trigger] p.cues@[x].1.effects@[q]).id@ == t.name@
                && p.cues@[x].1.effects@[q].scope == t.scope && same_effect(p.cues@[x].1.effects@[q].effect, t.effect)) by {
                if x == c {
                    assert(p.cues@[x].1.effects@[q] == effs@[q]);
                }
            }
        }
        c = c + 1;
    }
    false
}

fn check_task_program(p: &Program, s: &Snapshot, i: usize) -> (r: Result<(), Diagnostic>)
    requires
        i < s.tasks@.len(),
    ensures
        reports(r, task_program_error(*p, *s, i as int)),
{
    let t = &s.tasks[i].1;
    if !is_declared_effect(p, t) {
        return fault("task does not match a declared effect");
    }
    let running = t.state == TaskState::Running;
    if running && t.scope == Scope::Frame {
        let mut found = false;
        let mut f: usize = 0;
        while f < s.frames.len()
            invariant
                f <= s.frames@.len(),
                found == exists|q: int| 0 <= q < f && (#[trigger] s.frames@[q]).id == t.frame,
            decreases s.frames@.len() - f,
        {
            if s.frames[f].id == t.frame {
                found = true;
            }
            f = f + 1;
        }
        if !found {
            return fault("orphan frame task");
        }
    }
    if running && (t.started_us.0 > s.tick_us.0 || t.elapsed_us.0 != s.tick_us.0 - t.started_us.0) {
        return fault("task progress mismatch");
    }
    let mut finished = false;
    let mut m: usize = 0;
    while m < t.milestones.len()
        invariant
            m <= t.milestones@.len(),
            finished == exists|q: int| 0 <= q < m && (#[trigger] t.milestones@[q]) is Finished,
        decreases t.milestones@.len() - m,
    {
        match &t.milestones[m] {
            Milestone::Finished => {
                finished = true;
            },
            _ => {},
        }
        m = m + 1;
    }
    if (t.state == TaskState::Finished) != finished {
        return fault("task terminal milestone mismatch");
    }
    match &t.dialogue {
        Some(d) => check_dialogue(p, d, s.tick_us, s.next_id),
        None => Ok(()),
    }
}

fn check_saved_nodes(p: &Program, ns: &Vec<Node>) -> (r: Result<(), Diagnostic>)
    ensures
        reports(r, saved_nodes_error(*p, ns@)),
{
    if ns.len() > MAX_NODES {
        return fault("scene size");
    }
    let mut i: usize = 0;
    while i < ns.len()
        invariant
            i <= ns@.len(),
            ns@.len() <= MAX_NODES,
            forall|x: int, y: int| 0 <= x < ns@.len() && 0 <= y < i && x != y ==> (#[trigger] node_ids(ns@)[x]) != (#[trigger] node_ids(ns@)[y]),
        decreases ns@.len() - i,
    {
        let mut j: usize = 0;
        while j < ns.len()
            invariant
                j <= ns@.len(),
                i < ns@.len(),
                ns@.len() <= MAX_NODES,
                forall|x: int, y: int| 0 <= x < ns@.len() && 0 <= y < i && x != y ==> (#[trigger] node_ids(ns@)[x]) != (#[trigger] node_ids(ns@)[y]),
                forall|x: int| 0 <= x < j && x != i ==> (#[trigger] node_ids(ns@)[x]) != node_ids(ns@)[i as int],
            decreases ns@.len() - j,
        {
            if j != i && str_eq(ns[j].id.as_str(), ns[i].id.as_str()) {
                proof {
                    assert(node_ids(ns@)[j as int] == node_ids(ns@)[i as int]);
                    assert(!node_ids(ns@).no_duplicates());
                }
                return fault("duplicate scene node");
            }
            j = j + 1;
        }
        i = i + 1;
    }
    proof {
        assert(node_ids(ns@).no_duplicates());
    }
    let ghost f = saved_node_check(*p, ns@);
    let mut k: usize = 0;
    while k < ns.len()
        invariant
            k <= ns@.len(),
            ns@.len() <= MAX_NODES,
            node_ids(ns@).no_duplicates(),
            f == saved_node_check(*p, ns@),
            first_of(k as int, f) is None,
        decreases ns@.len() - k,
    {
        proof {
            assert(f(k as int) == saved_node_error(*p, ns@, k as int));
        }
        let n = &ns[k];
        if !visual_ok(n) {
            proof {
                lemma_first_of_hit(f, k as int, ns@.len() as int);
            }
            return fault("invalid scene values");
        }
        let image = match &n.asset {
            Some(a) => match get_entry(&p.assets, a.as_str()) {
                Some(x) => match x.kind {
                    AssetKind::Image => true,
                    _ => false,
                },
                None => false,
            },
            None => true,
        };
        if !image {
            proof {
                lemma_first_of_hit(f, k as int, ns@.len() as int);
            }
            return fault("scene asset missing");
        }
        match check_chain(ns, k, "restore") {
            Ok(()) => {},
            Err(d) => {
                proof {
                    reveal_strlit("E_SCENE_CYCLE");
                    lemma_first_of_hit(f, k as int, ns@.len() as int);
                }
                if str_eq(d.code.as_str(), "E_SCENE_CYCLE") {
                    return fault("scene cycle");
                }
                return fault("scene parent missing");
            },
        }
        k = k + 1;
    }
    Ok(())
}

/// Checks that a saved state can be restored under `release`: its head
/// (identity, limits, variables and frames), every task's state and
/// dialogue line, that every handle and wait condition has its task, the
/// pending cue and the offered choice against the program, that at most one
/// of them and the wait is active and that each continues the innermost
/// frame's terminator, the return addresses, every task against the
/// program's effects, and the scene, draft and task node lists. The first
/// failing check, in that order, is the error.
pub fn check_restore(p: &Program, s: &Snapshot, release: &str) -> (r: Result<(), Diagnostic>)
    ensures
        reports(r, restore_error(*p, *s, release@)),
        r is Ok <==> restorable(*p, *s, release@),
{
    let r = check_restore_head(p, s, release);
    if r.is_err() {
        return r;
    }
    let ghost f = task_state_check(*p, *s);
    let mut i: usize = 0;
    while i < s.tasks.len()
        invariant
            i <= s.tasks@.len(),
            f == task_state_check(*p, *s),
            restore_head_error(*p, *s, release@) is None,
            first_of(i as int, f) is None,
        decreases s.tasks@.len() - i,
    {
        let r = check_task_state(p, s, i);
        if r.is_err() {
            proof {
                lemma_first_of_hit(f, i as int, s.tasks@.len() as int);
            }
            return r;
        }
        i = i + 1;
    }
    if !check_handles(s) {
        return fault("dangling task handle");
    }
    let r = check_pending_cue(p, s);
    if r.is_err() {
        return r;
    }
    let r = check_offered_choice(p, s);
    if r.is_err() {
        return r;
    }
    let active = (if s.pending.is_some() { 1u8 } else { 0u8 }) + (if s.waiting.is_some() { 1u8 } else { 0u8 }) + (if s.choice.is_some() { 1u8 } else { 0u8 });
    if active > 1 {
        return fault("multiple active terminators");
    }
    let r = check_pending_continuation(p, s);
    if r.is_err() {
        return r;
    }
    let r = check_wait_continuation(p, s);
    if r.is_err() {
        return r;
    }
    let r = check_choice_continuation(p, s);
    if r.is_err() {
        return r;
    }
    let r = check_returns(p, s);
    if r.is_err() {
        return r;
    }
    let ghost g = task_program_check(*p, *s);
    let mut i: usize = 0;
    while i < s.tasks.len()
        invariant
            i <= s.tasks@.len(),
            g == task_program_check(*p, *s),
            restore_head_error(*p, *s, release@) is None,
            first_of(s.tasks@.len() as int, task_state_check(*p, *s)) is None,
            !handle_dangles(*s),
            pending_cue_error(*p, *s) is None,
            offered_choice_error(*p, *s) is None,
            active_count(*s) <= 1,
            pending_continuation_error(*p, *s) is None,
            wait_continuation_error(*p, *s) is None,
            choice_continuation_error(*p, *s) is None,
            first_of(s.frames@.len() as int, return_check(*p, *s)) is None,
            first_of(i as int, g) is None,
        decreases s.tasks@.len() - i,
    {
        let r = check_task_program(p, s, i);
        if r.is_err() {
            proof {
                lemma_first_of_hit(g, i as int, s.tasks@.len() as int);
            }
            return r;
        }
        i = i + 1;
    }
    let r = check_saved_nodes(p, &s.scene);
    if r.is_err() {
        return r;
    }
    let r = check_saved_nodes(p, &s.draft);
    if r.is_err() {
        return r;
    }
    let ghost h = task_nodes_check(*p, *s);
    let mut i: usize = 0;
    while i < s.tasks.len()
        invariant
            i <= s.tasks@.len(),
            h == task_nodes_check(*p, *s),
            restore_head_error(*p, *s, release@) is None,
            first_of(s.tasks@.len() as int, task_state_check(*p, *s)) is None,
            !handle_dangles(*s),
            pending_cue_error(*p, *s) is None,
            offered_choice_error(*p, *s) is None,
            active_count(*s) <= 1,
            pending_continuation_error(*p, *s) is None,
            wait_continuation_error(*p, *s) is None,
            choice_continuation_error(*p, *s) is None,
            first_of(s.frames@.len() as int, return_check(*p, *s)) is None,
            first_of(s.tasks@.len() as int, task_program_check(*p, *s)) is None,
            saved_nodes_error(*p, s.scene@) is None,
            saved_nodes_error(*p, s.draft@) is None,
            first_of(i as int, h) is None,
        decreases s.tasks@.len() - i,
    {
        let r = check_saved_nodes(p, &s.tasks[i].1.source);
        if r.is_err() {
            proof {
                lemma_first_of_hit(h, i as int, s.tasks@.len() as int);
            }
            return r;
        }
        let r = check_saved_nodes(p, &s.tasks[i].1.target);
        if r.is_err() {
            proof {
                lemma_first_of_hit(h, i as int, s.tasks@.len() as int);
            }
            return r;
        }
        i = i + 1;
    }
    Ok(())
}


/// Task entry `i` is running with a dialogue line, which restoring gives a
/// fresh interaction.
pub open spec fn takes_fresh(s: Snapshot, i: int) -> bool {
    s.tasks@[i].1.state == TaskState::Running && s.tasks@[i].1.dialogue is Some
}

/// How many of the first `k` task entries take a fresh interaction.
pub open spec fn fresh_before(s: Snapshot, k: int) -> nat
    decreases k,
{
    if k <= 0 {
        0
    } else {
        fresh_before(s, k - 1) + if takes_fresh(s, k - 1) { 1nat } else { 0nat }
    }
}

/// How many identities restoring hands out: one per running dialogue line
/// and one for an offered choice.
pub open spec fn fresh_needed(s: Snapshot) -> nat {
    fresh_before(s, s.tasks@.len() as int) + if s.choice is Some { 1nat } else { 0nat }
}

proof fn lemma_fresh_grows(s: Snapshot, k: int, n: int)
    requires
        0 <= k <= n,
    ensures
        fresh_before(s, k) <= fresh_before(s, n),
    decreases n - k,
{
    if k < n {
        lemma_fresh_grows(s, k, n - 1);
    }
}

/// `b` is `a` with fresh interactions: each running dialogue line, in task
/// order, then the offered choice take the next identities; nothing else
/// changes.
pub open spec fn renumbered(a: Snapshot, b: Snapshot) -> bool {
    &&& b.tasks@.len() == a.tasks@.len()
    &&& forall|i: int| 0 <= i < a.tasks@.len() ==> {
        let (k, t) = #[trigger] a.tasks@[i];
        let (k2, t2) = b.tasks@[i];
        &&& k2 == k
        &&& if takes_fresh(a, i) {
            t2.dialogue matches Some(d2) && t.dialogue matches Some(d) && d2 == (Dialogue { interaction: (a.next_id + fresh_before(a, i)) as u32, ..d })
                && t2 == (SavedTask { dialogue: t2.dialogue, ..t })
        } else {
            t2 == t
        }
    }
    &&& match a.choice {
        Some(c) => b.choice matches Some(c2) && c2 == (OfferedChoice { interaction: (a.next_id + fresh_before(a, a.tasks@.len() as int)) as u32, ..c }),
        None => b.choice is None,
    }
    &&& b.next_id == a.next_id + fresh_needed(a)
    &&& b == (Snapshot { tasks: b.tasks, choice: b.choice, next_id: b.next_id, ..a })
}

/// Gives the restored state fresh interactions: each running dialogue line,
/// then the offered choice, takes the next identity; running out of
/// identities is `E_LIMIT` at the state's location.
pub fn renumber_interactions(s: &mut Snapshot) -> (r: Result<(), Diagnostic>)
    ensures
        old(s).next_id + fresh_needed(*old(s)) <= u32::MAX ==> r is Ok && renumbered(*old(s), *final(s)),
        old(s).next_id + fresh_needed(*old(s)) > u32::MAX ==> fails_with(r, "E_LIMIT"@, location_of(old(s).frames@), "instance counter overflow"@),
{
    let ghost a = *s;
    let at = location(&s.frames);
    let mut rest: Vec<(u32, SavedTask)> = Vec::new();
    std::mem::swap(&mut rest, &mut s.tasks);
    let n = rest.len();
    let mut done: Vec<(u32, SavedTask)> = Vec::new();
    let mut i: usize = 0;
    while i < n
        invariant
            i <= n,
            a == *old(s),
            n == a.tasks@.len(),
            rest@ == a.tasks@.subrange(i as int, n as int),
            done@.len() == i,
            s.next_id == a.next_id + fresh_before(a, i as int),
            at@ == location_of(a.frames@),
            *s == (Snapshot { tasks: s.tasks, next_id: s.next_id, ..a }),
            forall|j: int| 0 <= j < i ==> {
                let (k, t) = #[trigger] a.tasks@[j];
                let (k2, t2) = done@[j];
                &&& k2 == k
                &&& if takes_fresh(a, j) {
                    t2.dialogue matches Some(d2) && t.dialogue matches Some(d) && d2 == (Dialogue { interaction: (a.next_id + fresh_before(a, j)) as u32, ..d })
                        && t2 == (SavedTask { dialogue: t2.dialogue, ..t })
                } else {
                    t2 == t
                }
            },
        decreases n - i,
    {
        let (k, mut t) = rest.remove(0);
        proof {
            assert(a.tasks@[i as int] == (k, t));
            assert(rest@ =~= a.tasks@.subrange(i + 1, n as int));
        }
        let fresh = t.state == TaskState::Running && t.dialogue.is_some();
        if fresh {
            let id = match next_id(&mut s.next_id, at.as_str()) {
                Ok(id) => id,
                Err(e) => {
                    proof {
                        assert(takes_fresh(a, i as int));
                        assert(fresh_before(a, i + 1) == fresh_before(a, i as int) + 1);
                        lemma_fresh_grows(a, i as int + 1, n as int);
                    }
                    return Err(e);
                },
            };
            match t.dialogue {
                Some(mut d) => {
                    d.interaction = id;
                    t.dialogue = Some(d);
                },
                None => {},
            }
        }
        done.push((k, t));
        i = i + 1;
    }
    s.tasks = done;
    match &mut s.choice {
        Some(c) => {
            let id = match next_id(&mut s.next_id, at.as_str()) {
                Ok(id) => id,
                Err(e) => {
                    return Err(e);
                },
            };
            c.interaction = id;
        },
        None => {},
    }
    Ok(())
}


/// Restores a saved state under the release: it must be restorable, and
/// it comes back with fresh interactions for its running dialogue lines and
/// its offered choice.
pub fn restore(p: &Program, s: Snapshot, release: &str) -> (r: Result<Snapshot, Diagnostic>)
    ensures
        r is Ok <==> restorable(*p, s, release@) && s.next_id + fresh_needed(s) <= u32::MAX,
        !restorable(*p, s, release@) ==> (r matches Err(d) && {
            let e = restore_error(*p, s, release@).unwrap();
            diag_is(d, e.0, e.1, e.2)
        }),
        restorable(*p, s, release@) && s.next_id + fresh_needed(s) > u32::MAX
            ==> (r matches Err(d) && diag_is(d, "E_LIMIT"@, location_of(s.frames@), "instance counter overflow"@)),
        r matches Ok(x) ==> renumbered(s, x),
{
    match check_restore(p, &s, release) {
        Err(d) => Err(d),
        Ok(()) => {
            let mut s = s;
            match renumber_interactions(&mut s) {
                Ok(()) => Ok(s),
                Err(d) => Err(d),
            }
        },
    }
}

} // verus!
