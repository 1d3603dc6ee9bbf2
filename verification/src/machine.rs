//! How the story machine ends a block: the terminators move the innermost
//! frame, call and return, suspend on a cue, a wait or a choice, end the
//! story or fault. The state is the machine's integer and text state; the
//! floating-point scene values that a cancelled clip leaves are settled by
//! the presentation layer.
use crate::assoc::{assoc, get_entry, lemma_assoc_absent, lemma_assoc_first};
use crate::dialogue::{CoreIntent, Dialogue, Frame, FrozenSpan, OfferedChoice, OfferedOption, TaskState, Waiting};
use crate::eval::{eval, evaluation, location, location_of, lookup, next_id, visible, ValueView};
use crate::format::{diag_is, fails_with, AudioBus, ChoiceOption, Diagnostic, Effect, EffectDef, Expr, Micros, Milestone, Scope, Span, Terminator, Value, WaitCondition, MAX_FRAMES};
use crate::snapshot::op_identity;
use crate::source::Program;
use crate::strings::{concat, decimal, decimal_text, owned};
use vstd::prelude::*;
use vstd::string::*;

verus! {

/// What the machine keeps of a presentation task to end it.
#[derive(Debug, Clone, Copy, PartialEq, Eq, Structural)]
pub struct TaskSlot {
    pub id: u32,
    pub frame: u32,
    pub scope: Scope,
    pub state: TaskState,
    pub audio: bool,
}

/// A cue whose activation waits for its media: its identity, the cue, the
/// block that follows, its effects and the dialogue lines it starts.
#[derive(Debug, Clone)]
pub struct PendingCue {
    pub id: u32,
    pub cue: String,
    pub next: String,
    pub effects: Vec<EffectDef>,
    pub dialogues: Vec<(String, Dialogue)>,
}

/// The machine's state, its tasks listed by identity.
#[derive(Debug, Clone)]
pub struct MachineState {
    pub variables: Vec<(String, Value)>,
    pub frames: Vec<Frame>,
    pub tasks: Vec<TaskSlot>,
    pub handles: Vec<(String, u32)>,
    pub pending: Option<PendingCue>,
    pub waiting: Option<Waiting>,
    pub choice: Option<OfferedChoice>,
    pub locale: String,
    pub tick_us: Micros,
    pub next_id: u32,
    pub outcome: Option<String>,
    pub unsuspended_ops: u64,
    pub intents: Vec<CoreIntent>,
}

/// An intent, with its texts as views.
pub enum IntentView {
    Prepare(u32, Seq<char>),
    AudioStart(u32, Seq<char>, AudioBus, bool, Micros),
    AudioStop(u32),
    ProfileMerge(Seq<char>),
    Checkpoint,
    Trace(Seq<char>, Seq<char>),
}

/// The view of an intent.
pub open spec fn intent_view(i: CoreIntent) -> IntentView {
    match i {
        CoreIntent::Prepare { activation, cue } => IntentView::Prepare(activation, cue@),
        CoreIntent::AudioStart { task, asset, bus, looped, position_us } => IntentView::AudioStart(task, asset@, bus, looped, position_us),
        CoreIntent::AudioStop { task } => IntentView::AudioStop(task),
        CoreIntent::ProfileMerge { key } => IntentView::ProfileMerge(key@),
        CoreIntent::Checkpoint => IntentView::Checkpoint,
        CoreIntent::Trace { event, at } => IntentView::Trace(event@, at@),
    }
}

/// The views of a list of intents.
pub open spec fn intent_views(v: Seq<CoreIntent>) -> Seq<IntentView> {
    v.map_values(|i: CoreIntent| intent_view(i))
}

/// The identity of the first operation of block `b` of function `f`:
/// `@terminator` for an empty or undeclared block.
pub open spec fn first_op(p: Program, f: Seq<char>, b: Seq<char>) -> Seq<char> {
    match assoc(p.functions@, f) {
        Some(def) => match assoc(def.blocks@, b) {
            Some(bl) => op_identity(bl, 0),
            None => "@terminator"@,
        },
        None => "@terminator"@,
    }
}

fn first_op_id(p: &Program, f: &str, b: &str) -> (r: String)
    ensures
        r@ == first_op(*p, f@, b@),
{
    let t = "@terminator";
    proof {
        reveal_strlit("@terminator");
    }
    match get_entry(&p.functions, f) {
        Some(def) => match get_entry(&def.blocks, b) {
            Some(bl) => if bl.ops.len() > 0 {
                bl.ops[0].id.clone()
            } else {
                owned(t)
            },
            None => owned(t),
        },
        None => owned(t),
    }
}

/// `after` is `before` moved to the start of block `b`.
pub open spec fn moved_to(p: Program, before: Frame, after: Frame, b: Seq<char>) -> bool {
    &&& after.id == before.id
    &&& after.function == before.function
    &&& after.block@ == b
    &&& after.op == 0
    &&& after.op_id@ == first_op(p, before.function@, b)
    &&& after.locals == before.locals
    &&& after.return_to == before.return_to
    &&& after.result == before.result
}

/// The innermost frame of `after` is that of `before` moved to block `b`;
/// the outer frames stay.
pub open spec fn jumped(p: Program, before: Seq<Frame>, after: Seq<Frame>, b: Seq<char>) -> bool {
    &&& after.len() == before.len()
    &&& after.drop_last() == before.drop_last()
    &&& moved_to(p, before.last(), after.last(), b)
}

pub(crate) fn jump(frames: &mut Vec<Frame>, p: &Program, b: &str)
    requires
        old(frames)@.len() > 0,
    ensures
        jumped(*p, old(frames)@, final(frames)@, b@),
{
    let ghost before = frames@;
    let f = frames.pop().unwrap();
    proof {
        assert(f == before.last());
        assert(frames@ =~= before.drop_last());
    }
    let op_id = first_op_id(p, f.function.as_str(), b);
    let ghost rest = frames@;
    frames.push(Frame {
        id: f.id,
        function: f.function,
        block: owned(b),
        op: 0,
        op_id,
        locals: f.locals,
        return_to: f.return_to,
        result: f.result,
    });
    proof {
        assert(frames@.drop_last() =~= rest);
    }
}

/// The decimal notation of an `i32`, with a minus sign when negative.
pub open spec fn i32_text(v: i32) -> Seq<char> {
    if v < 0 {
        "-"@ + decimal_text((-(v as int)) as nat)
    } else {
        decimal_text(v as nat)
    }
}

fn i32_string(v: i32) -> (s: String)
    ensures
        s@ == i32_text(v),
{
    if v < 0 {
        let m: u64 = (0i64 - (v as i64)) as u64;
        let d = decimal(m);
        proof {
            reveal_strlit("-");
        }
        concat("-", d.as_str())
    } else {
        decimal(v as u64)
    }
}

/// The texts of `true` and `false`.
pub open spec fn bool_text(b: bool) -> Seq<char> {
    if b {
        "true"@
    } else {
        "false"@
    }
}

fn bool_string(b: bool) -> (s: String)
    ensures
        s@ == bool_text(b),
{
    proof {
        reveal_strlit("true");
        reveal_strlit("false");
    }
    if b {
        owned("true")
    } else {
        owned("false")
    }
}

/// The task a cancellation ends: a running one that the selection takes,
/// all of them, or those of frame `fid` with frame scope.
pub open spec fn ends(t: TaskSlot, all: bool, fid: u32) -> bool {
    t.state == TaskState::Running && (all || (t.frame == fid && t.scope == Scope::Frame))
}

/// The tasks after the selected running ones were cancelled.
pub open spec fn cancelled(tasks: Seq<TaskSlot>, all: bool, fid: u32) -> Seq<TaskSlot> {
    tasks.map_values(|t: TaskSlot| if ends(t, all, fid) {
        TaskSlot { state: TaskState::Cancelled, ..t }
    } else {
        t
    })
}

/// The intents that cancelling the first `k` tasks emits: for each ended
/// task, a stop of its audio if it plays any, then a trace at `at`.
pub open spec fn cancel_intents(tasks: Seq<TaskSlot>, all: bool, fid: u32, at: Seq<char>, k: int) -> Seq<IntentView>
    decreases k,
{
    if k <= 0 {
        Seq::empty()
    } else {
        let t = tasks[k - 1];
        cancel_intents(tasks, all, fid, at, k - 1) + if ends(t, all, fid) {
            (if t.audio { seq![IntentView::AudioStop(t.id)] } else { Seq::empty() })
                + seq![IntentView::Trace("task:"@ + decimal_text(t.id as nat) + ":Cancelled"@, at)]
        } else {
            Seq::empty()
        }
    }
}

fn cancel_tasks(tasks: &mut Vec<TaskSlot>, intents: &mut Vec<CoreIntent>, all: bool, fid: u32, at: &String)
    ensures
        final(tasks)@ == cancelled(old(tasks)@, all, fid),
        intent_views(final(intents)@) == intent_views(old(intents)@) + cancel_intents(old(tasks)@, all, fid, at@, old(tasks)@.len() as int),
{
    let ghost start = tasks@;
    let ghost before = intent_views(intents@);
    let mut i: usize = 0;
    while i < tasks.len()
        invariant
            i <= tasks@.len(),
            tasks@.len() == start.len(),
            forall|j: int| 0 <= j < i ==> #[trigger] tasks@[j] == cancelled(start, all, fid)[j],
            forall|j: int| i <= j < start.len() ==> #[trigger] tasks@[j] == start[j],
            intent_views(intents@) == before + cancel_intents(start, all, fid, at@, i as int),
        decreases tasks@.len() - i,
    {
        let t = tasks[i];
        if t.state == TaskState::Running && (all || (t.frame == fid && t.scope == Scope::Frame)) {
            tasks.set(i, TaskSlot { state: TaskState::Cancelled, ..t });
            let ghost mid = intents@;
            if t.audio {
                intents.push(CoreIntent::AudioStop { task: t.id });
            }
            let e1 = concat("task:", decimal(t.id as u64).as_str());
            let event = concat(e1.as_str(), ":Cancelled");
            intents.push(CoreIntent::Trace { event, at: at.clone() });
            proof {
                reveal_strlit("task:");
                reveal_strlit(":Cancelled");
                assert(intent_views(intents@) =~= intent_views(mid) + (if t.audio { seq![IntentView::AudioStop(t.id)] } else { Seq::empty() })
                    + seq![IntentView::Trace("task:"@ + decimal_text(t.id as nat) + ":Cancelled"@, at@)]);
            }
        } else {
            proof {
                assert(cancelled(start, all, fid)[i as int] == start[i as int]);
            }
        }
        proof {
            assert(cancel_intents(start, all, fid, at@, i + 1) =~= cancel_intents(start, all, fid, at@, i as int) + if ends(start[i as int], all, fid) {
                (if start[i as int].audio { seq![IntentView::AudioStop(start[i as int].id)] } else { Seq::empty() })
                    + seq![IntentView::Trace("task:"@ + decimal_text(start[i as int].id as nat) + ":Cancelled"@, at@)]
            } else {
                Seq::empty()
            });
        }
        i = i + 1;
    }
    proof {
        assert(tasks@ =~= cancelled(start, all, fid));
    }
}


/// A list of bindings, as views.
pub open spec fn binding_views(v: Seq<(String, Value)>) -> Seq<(Seq<char>, ValueView)> {
    v.map_values(|e: (String, Value)| (e.0@, e.1@))
}

/// The values of call arguments `k` onward, evaluated in order, or the
/// first evaluation error.
pub open spec fn arguments(args: Seq<(String, crate::format::Expr)>, locals: Seq<(String, Value)>, globals: Seq<(String, Value)>, at: Seq<char>, k: int) -> Result<Seq<(Seq<char>, ValueView)>, crate::text::DiagText>
    decreases k,
{
    if k <= 0 {
        Ok(Seq::empty())
    } else {
        match arguments(args, locals, globals, at, k - 1) {
            Err(d) => Err(d),
            Ok(vs) => match evaluation(args[k - 1].1, locals, globals, at) {
                Err(d) => Err(d),
                Ok(v) => Ok(vs.push((args[k - 1].0@, v))),
            },
        }
    }
}

fn evaluate_arguments(args: &Vec<(String, crate::format::Expr)>, locals: &Vec<(String, Value)>, globals: &Vec<(String, Value)>, at: &String) -> (r: Result<Vec<(String, Value)>, Diagnostic>)
    ensures
        match arguments(args@, locals@, globals@, at@, args@.len() as int) {
            Ok(vs) => r matches Ok(x) && binding_views(x@) == vs,
            Err(d) => r matches Err(e) && diag_is(e, d.0, d.1, d.2),
        },
{
    let mut out: Vec<(String, Value)> = Vec::new();
    let mut k: usize = 0;
    proof {
        assert(binding_views(out@) =~= Seq::<(Seq<char>, ValueView)>::empty());
    }
    while k < args.len()
        invariant
            k <= args@.len(),
            arguments(args@, locals@, globals@, at@, k as int) == Ok::<Seq<(Seq<char>, ValueView)>, crate::text::DiagText>(binding_views(out@)),
        decreases args@.len() - k,
    {
        match eval(&args[k].1, locals, globals, at.as_str()) {
            Ok(v) => {
                let ghost before = out@;
                out.push((args[k].0.clone(), v));
                proof {
                    assert(binding_views(out@) =~= binding_views(before).push((args@[k as int].0@, v@)));
                }
            },
            Err(e) => {
                proof {
                    lemma_arguments_stay(args@, locals@, globals@, at@, k as int + 1, args@.len() as int);
                }
                return Err(e);
            },
        }
        k = k + 1;
    }
    Ok(out)
}

proof fn lemma_arguments_stay(args: Seq<(String, crate::format::Expr)>, locals: Seq<(String, Value)>, globals: Seq<(String, Value)>, at: Seq<char>, k: int, n: int)
    requires
        0 <= k <= n,
        arguments(args, locals, globals, at, k) is Err,
    ensures
        arguments(args, locals, globals, at, n) == arguments(args, locals, globals, at, k),
    decreases n - k,
{
    if k < n {
        lemma_arguments_stay(args, locals, globals, at, k, n - 1);
    }
}

fn copy_milestone(m: &Milestone) -> (r: Milestone)
    ensures
        r == *m,
{
    match m {
        Milestone::Started => Milestone::Started,
        Milestone::Finished => Milestone::Finished,
        Milestone::Marker(s) => Milestone::Marker(s.clone()),
    }
}

/// The conditions of a wait, each with the task its handle names, or the
/// first condition whose handle is unknown.
pub open spec fn wait_targets(handles: Seq<(String, u32)>, cs: Seq<WaitCondition>) -> Option<int> {
    if exists|i: int| 0 <= i < cs.len() && assoc(handles, (#[trigger] cs[i]).task@) is None {
        Some(choose|i: int| 0 <= i < cs.len() && assoc(handles, cs[i].task@) is None
            && forall|j: int| 0 <= j < i ==> assoc(handles, (#[trigger] cs[j]).task@) is Some)
    } else {
        None
    }
}

/// The wait entries resolve the conditions through the handles.
pub open spec fn resolved(handles: Seq<(String, u32)>, cs: Seq<WaitCondition>, w: Seq<(u32, Milestone)>) -> bool {
    w.len() == cs.len() && forall|i: int| 0 <= i < cs.len()
        ==> assoc(handles, (#[trigger] cs[i]).task@) == Some(w[i].0) && w[i].1 == cs[i].milestone
}

fn resolve_conditions(handles: &Vec<(String, u32)>, cs: &Vec<WaitCondition>, at: &String) -> (r: Result<Vec<(u32, Milestone)>, Diagnostic>)
    ensures
        match wait_targets(handles@, cs@) {
            Some(i) => fails_with(r, "E_TASK"@, at@, cs@[i].task@),
            None => r matches Ok(w) && resolved(handles@, cs@, w@),
        },
{
    let mut w: Vec<(u32, Milestone)> = Vec::new();
    let mut i: usize = 0;
    while i < cs.len()
        invariant
            i <= cs@.len(),
            w@.len() == i,
            forall|j: int| 0 <= j < i ==> assoc(handles@, (#[trigger] cs@[j]).task@) == Some(w@[j].0) && w@[j].1 == cs@[j].milestone,
        decreases cs@.len() - i,
    {
        match get_entry(handles, cs[i].task.as_str()) {
            Some(id) => {
                w.push((*id, copy_milestone(&cs[i].milestone)));
            },
            None => {
                proof {
                    assert(assoc(handles@, cs@[i as int].task@) is None);
                    let k = choose|k: int| 0 <= k < cs@.len() && assoc(handles@, cs@[k].task@) is None
                        && forall|j: int| 0 <= j < k ==> assoc(handles@, (#[trigger] cs@[j]).task@) is Some;
                    if k < i {
                        assert(assoc(handles@, cs@[k].task@) is Some);
                    }
                    if k > i {
                        assert(assoc(handles@, cs@[i as int].task@) is Some);
                    }
                }
                return Err(Diagnostic::new("E_TASK", at.as_str(), cs[i].task.as_str()));
            },
        }
        i = i + 1;
    }
    Ok(w)
}


/// The location at which the machine reports.
pub open spec fn at_of(a: MachineState) -> Seq<char> {
    location_of(a.frames@)
}

/// The innermost frame.
pub open spec fn top(a: MachineState) -> Frame {
    a.frames@.last()
}

/// Evaluates `e` in the innermost frame.
pub open spec fn evaluated(a: MachineState, e: Expr) -> Result<ValueView, crate::text::DiagText> {
    evaluation(e, top(a).locals@, a.variables@, at_of(a))
}

/// `r` fails with diagnostic text `d`.
pub open spec fn fails(r: Result<(), Diagnostic>, d: crate::text::DiagText) -> bool {
    fails_with(r, d.0, d.1, d.2)
}

/// `b` is `a` with its innermost frame moved to block `target`.
pub open spec fn goes_to(p: Program, a: MachineState, b: MachineState, target: Seq<char>) -> bool {
    jumped(p, a.frames@, b.frames@, target) && b == (MachineState { frames: b.frames, ..a })
}

/// A branch: a `Bool` condition picks the block and traces the choice.
pub open spec fn branch_step(p: Program, a: MachineState, b: MachineState, r: Result<(), Diagnostic>, condition: Expr, yes: Seq<char>, no: Seq<char>) -> bool {
    match evaluated(a, condition) {
        Err(d) => fails(r, d),
        Ok(ValueView::Bool(x)) => r is Ok && jumped(p, a.frames@, b.frames@, if x { yes } else { no })
            && intent_views(b.intents@) == intent_views(a.intents@).push(IntentView::Trace("branch:"@ + bool_text(x), at_of(a)))
            && b == (MachineState { frames: b.frames, intents: b.intents, ..a }),
        Ok(_) => fails_with(r, "E_TYPE"@, at_of(a), "branch"@),
    }
}

/// The case key of a switch value: an `I32` in decimal or a string.
pub open spec fn case_key(v: ValueView) -> Option<Seq<char>> {
    match v {
        ValueView::I32(i) => Some(i32_text(i)),
        ValueView::Str(s) => Some(s),
        ValueView::Bool(_) => None,
    }
}

/// A switch: the case of the value's key, else the default.
pub open spec fn switch_step(p: Program, a: MachineState, b: MachineState, r: Result<(), Diagnostic>, value: Expr, cases: Seq<(String, String)>, default: Seq<char>) -> bool {
    match evaluated(a, value) {
        Err(d) => fails(r, d),
        Ok(v) => match case_key(v) {
            None => fails_with(r, "E_TYPE"@, at_of(a), "switch"@),
            Some(k) => r is Ok && goes_to(p, a, b, match assoc(cases, k) {
                Some(t) => t@,
                None => default,
            }),
        },
    }
}

/// A call: within `MAX_FRAMES` frames, the arguments evaluated in order
/// bind the locals of a new frame at the callee's entry block, with a fresh
/// identity, returning to `next` and storing into `result`.
pub open spec fn call_step(p: Program, a: MachineState, b: MachineState, r: Result<(), Diagnostic>, function: Seq<char>, args: Seq<(String, Expr)>, next: String, result: Option<String>) -> bool {
    if a.frames@.len() >= MAX_FRAMES {
        fails_with(r, "E_LIMIT"@, at_of(a), "call depth"@)
    } else {
        match arguments(args, top(a).locals@, a.variables@, at_of(a), args.len() as int) {
            Err(d) => fails(r, d),
            Ok(vs) => if a.next_id == u32::MAX {
                fails_with(r, "E_LIMIT"@, at_of(a), "instance counter overflow"@)
            } else {
                let entry = assoc(p.functions@, function).unwrap().entry;
                let f = b.frames@.last();
                &&& r is Ok
                &&& b.frames@.len() == a.frames@.len() + 1
                &&& b.frames@.drop_last() == a.frames@
                &&& f.id == a.next_id && f.function@ == function && f.block == entry && f.op == 0
                &&& f.op_id@ == first_op(p, function, entry@) && binding_views(f.locals@) == vs
                &&& f.return_to == Some(next) && f.result == result
                &&& b == (MachineState { frames: b.frames, next_id: (a.next_id + 1) as u32, ..a })
            },
        }
    }
}

/// A write of `v` into `name` as the machine writes: a global in place,
/// else a local of the frame.
pub open spec fn stores(ol: Seq<(String, Value)>, og: Seq<(String, Value)>, nl: Seq<(String, Value)>, ng: Seq<(String, Value)>, name: Seq<char>, v: ValueView) -> bool {
    &&& lookup(og, name) is Some ==> (lookup(ng, name) matches Some(x) && x@ == v) && nl == ol
    &&& lookup(og, name) is None ==> (lookup(nl, name) matches Some(x) && x@ == v) && ng == og
    &&& forall|o: Seq<char>| o != name ==> #[trigger] lookup(ng, o) == lookup(og, o)
    &&& forall|o: Seq<char>| o != name ==> #[trigger] lookup(nl, o) == lookup(ol, o)
}

/// A return: the value (if any) is evaluated; the running tasks of the
/// frame with frame scope end (all of them when it is the last frame); then
/// the frame is left for its caller, which stores the value into the
/// frame's result and moves to the return block, or, with no caller to
/// return to, the story ends as returned.
pub open spec fn return_step(p: Program, a: MachineState, b: MachineState, r: Result<(), Diagnostic>, value: Option<Expr>) -> bool {
    let t = top(a);
    let all = a.frames@.len() == 1;
    let ev: Result<Option<ValueView>, crate::text::DiagText> = match value {
        None => Ok(None),
        Some(e) => match evaluated(a, e) {
            Ok(v) => Ok(Some(v)),
            Err(d) => Err(d),
        },
    };
    match ev {
        Err(d) => fails(r, d),
        Ok(v) => {
            &&& r is Ok
            &&& b.tasks@ == cancelled(a.tasks@, all, t.id)
            &&& intent_views(b.intents@) == intent_views(a.intents@) + cancel_intents(a.tasks@, all, t.id, at_of(a), a.tasks@.len() as int)
            &&& match t.return_to {
                None => b.outcome matches Some(o) && o@ == "returned"@
                    && b == (MachineState { tasks: b.tasks, intents: b.intents, outcome: b.outcome, ..a }),
                Some(next) => {
                    let caller = a.frames@[a.frames@.len() - 2];
                    let c = b.frames@.last();
                    &&& b.frames@.len() == a.frames@.len() - 1
                    &&& b.frames@.drop_last() == a.frames@.drop_last().drop_last()
                    &&& moved_to(p, Frame { locals: c.locals, ..caller }, c, next@)
                    &&& match (t.result, v) {
                        (Some(target), Some(x)) => stores(caller.locals@, a.variables@, c.locals@, b.variables@, target@, x),
                        _ => c.locals == caller.locals && b.variables == a.variables,
                    }
                    &&& b == (MachineState { tasks: b.tasks, intents: b.intents, frames: b.frames, variables: b.variables, ..a })
                },
            }
        },
    }
}

/// A wait: every condition's task is resolved through the handles, or the
/// first unknown one is an error; the machine then waits.
pub open spec fn await_step(a: MachineState, b: MachineState, r: Result<(), Diagnostic>, cs: Seq<WaitCondition>, next: String, on_cancelled: String, on_failed: String) -> bool {
    match wait_targets(a.handles@, cs) {
        Some(i) => fails_with(r, "E_TASK"@, at_of(a), cs[i].task@),
        None => r is Ok && (b.waiting matches Some(w) && resolved(a.handles@, cs, w.conditions@) && w.next == next
            && w.on_cancelled == on_cancelled && w.on_failed == on_failed)
            && b == (MachineState { waiting: b.waiting, unsuspended_ops: 0, ..a }),
    }
}

/// The end: every running task is cancelled, the end is traced and the
/// story has its outcome.
pub open spec fn end_step(a: MachineState, b: MachineState, r: Result<(), Diagnostic>, outcome: String) -> bool {
    &&& r is Ok
    &&& b.tasks@ == cancelled(a.tasks@, true, 0)
    &&& intent_views(b.intents@) == intent_views(a.intents@) + cancel_intents(a.tasks@, true, 0, at_of(a), a.tasks@.len() as int)
        + seq![IntentView::Trace("end:"@ + outcome@, at_of(a))]
    &&& b == (MachineState { tasks: b.tasks, intents: b.intents, outcome: Some(outcome), ..a })
}

fn copy_text(o: &Option<String>) -> (r: Option<String>)
    ensures
        r == *o,
{
    match o {
        Some(s) => Some(s.clone()),
        None => None,
    }
}

fn branch(st: &mut MachineState, p: &Program, condition: &Expr, yes: &String, no: &String) -> (r: Result<(), Diagnostic>)
    requires
        old(st).frames@.len() > 0,
    ensures
        branch_step(*p, *old(st), *final(st), r, *condition, yes@, no@),
{
    let at = location(&st.frames);
    let n = st.frames.len();
    match eval(condition, &st.frames[n - 1].locals, &st.variables, at.as_str()) {
        Ok(Value::Bool(x)) => {
            let ghost before = intent_views(st.intents@);
            let event = concat("branch:", bool_string(x).as_str());
            proof {
                reveal_strlit("branch:");
            }
            st.intents.push(CoreIntent::Trace { event, at });
            proof {
                assert(intent_views(st.intents@) =~= before.push(IntentView::Trace("branch:"@ + bool_text(x), at_of(*old(st)))));
            }
            if x {
                jump(&mut st.frames, p, yes.as_str());
            } else {
                jump(&mut st.frames, p, no.as_str());
            }
            Ok(())
        },
        Ok(_) => Err(Diagnostic::new("E_TYPE", at.as_str(), "branch")),
        Err(e) => Err(e),
    }
}

fn switch(st: &mut MachineState, p: &Program, value: &Expr, cases: &Vec<(String, String)>, default: &String) -> (r: Result<(), Diagnostic>)
    requires
        old(st).frames@.len() > 0,
    ensures
        switch_step(*p, *old(st), *final(st), r, *value, cases@, default@),
{
    let at = location(&st.frames);
    let n = st.frames.len();
    let key = match eval(value, &st.frames[n - 1].locals, &st.variables, at.as_str()) {
        Ok(Value::I32(v)) => i32_string(v),
        Ok(Value::String(s)) => s,
        Ok(_) => {
            return Err(Diagnostic::new("E_TYPE", at.as_str(), "switch"));
        },
        Err(e) => {
            return Err(e);
        },
    };
    match get_entry(cases, key.as_str()) {
        Some(t) => jump(&mut st.frames, p, t.as_str()),
        None => jump(&mut st.frames, p, default.as_str()),
    }
    Ok(())
}

fn call(st: &mut MachineState, p: &Program, function: &String, args: &Vec<(String, Expr)>, next: &String, result: &Option<String>) -> (r: Result<(), Diagnostic>)
    requires
        old(st).frames@.len() > 0,
        assoc(p.functions@, function@) is Some,
    ensures
        call_step(*p, *old(st), *final(st), r, function@, args@, *next, *result),
{
    let at = location(&st.frames);
    if st.frames.len() >= MAX_FRAMES {
        return Err(Diagnostic::new("E_LIMIT", at.as_str(), "call depth"));
    }
    let n = st.frames.len();
    let locals = match evaluate_arguments(args, &st.frames[n - 1].locals, &st.variables, &at) {
        Ok(l) => l,
        Err(e) => {
            return Err(e);
        },
    };
    let entry = match get_entry(&p.functions, function.as_str()) {
        Some(def) => def.entry.clone(),
        None => {
            return Err(Diagnostic::new("E_CALL", at.as_str(), function.as_str()));
        },
    };
    let id = match next_id(&mut st.next_id, at.as_str()) {
        Ok(id) => id,
        Err(e) => {
            return Err(e);
        },
    };
    let op_id = first_op_id(p, function.as_str(), entry.as_str());
    let ghost before = st.frames@;
    st.frames.push(Frame {
        id,
        function: function.clone(),
        block: entry,
        op: 0,
        op_id,
        locals,
        return_to: Some(next.clone()),
        result: copy_text(result),
    });
    proof {
        assert(st.frames@.drop_last() =~= before);
    }
    Ok(())
}

fn await_on(st: &mut MachineState, cs: &Vec<WaitCondition>, next: &String, on_cancelled: &String, on_failed: &String) -> (r: Result<(), Diagnostic>)
    requires
        old(st).frames@.len() > 0,
    ensures
        await_step(*old(st), *final(st), r, cs@, *next, *on_cancelled, *on_failed),
{
    let at = location(&st.frames);
    let conditions = match resolve_conditions(&st.handles, cs, &at) {
        Ok(w) => w,
        Err(e) => {
            return Err(e);
        },
    };
    st.waiting = Some(Waiting { conditions, next: next.clone(), on_cancelled: on_cancelled.clone(), on_failed: on_failed.clone() });
    st.unsuspended_ops = 0;
    Ok(())
}

fn end(st: &mut MachineState, outcome: &String) -> (r: Result<(), Diagnostic>)
    ensures
        end_step(*old(st), *final(st), r, *outcome),
{
    let at = location(&st.frames);
    cancel_tasks(&mut st.tasks, &mut st.intents, true, 0, &at);
    let ghost before = intent_views(st.intents@);
    let event = concat("end:", outcome.as_str());
    proof {
        reveal_strlit("end:");
    }
    st.intents.push(CoreIntent::Trace { event, at });
    proof {
        assert(intent_views(st.intents@) =~= before.push(IntentView::Trace("end:"@ + outcome@, at_of(*old(st)))));
        assert(intent_views(st.intents@) =~= intent_views(old(st).intents@) + cancel_intents(old(st).tasks@, true, 0, at_of(*old(st)), old(st).tasks@.len() as int)
            + seq![IntentView::Trace("end:"@ + outcome@, at_of(*old(st)))]);
    }
    st.outcome = Some(outcome.clone());
    Ok(())
}

fn return_from(st: &mut MachineState, p: &Program, value: &Option<Expr>) -> (r: Result<(), Diagnostic>)
    requires
        old(st).frames@.len() > 0,
        top(*old(st)).return_to is Some ==> old(st).frames@.len() >= 2,
    ensures
        return_step(*p, *old(st), *final(st), r, *value),
{
    let at = location(&st.frames);
    let n = st.frames.len();
    let v = match value {
        None => None,
        Some(e) => match eval(e, &st.frames[n - 1].locals, &st.variables, at.as_str()) {
            Ok(v) => Some(v),
            Err(e) => {
                return Err(e);
            },
        },
    };
    let fid = st.frames[n - 1].id;
    cancel_tasks(&mut st.tasks, &mut st.intents, n == 1, fid, &at);
    let ghost a_frames = st.frames@;
    match &st.frames[n - 1].return_to {
        None => {
            st.outcome = Some(owned("returned"));
            proof {
                reveal_strlit("returned");
            }
            Ok(())
        },
        Some(next0) => {
            let next = next0.clone();
            let f = st.frames.pop().unwrap();
            proof {
                assert(st.frames@ =~= a_frames.drop_last());
            }
            match (f.result, v) {
                (Some(target), Some(val)) => {
                    let ghost rest = st.frames@;
                    let mut caller = st.frames.pop().unwrap();
                    proof {
                        assert(caller == a_frames[n - 2]);
                    }
                    crate::eval::write(&mut caller.locals, &mut st.variables, target.as_str(), val);
                    st.frames.push(caller);
                    proof {
                        assert(st.frames@.drop_last() =~= rest.drop_last());
                    }
                },
                _ => {},
            }
            let ghost mid = st.frames@;
            jump(&mut st.frames, p, next.as_str());
            proof {
                assert(st.frames@.drop_last() =~= a_frames.drop_last().drop_last());
            }
            Ok(())
        },
    }
}


/// A frozen span as views: its id, text, emphasis and gate.
pub open spec fn span_view(f: FrozenSpan) -> (Seq<char>, Seq<char>, bool, bool) {
    (f.id@, f.text@, f.emphasis, f.gate)
}

/// The text of a parameter value: a string as it is, a number in decimal,
/// a flag as `true` or `false`.
pub open spec fn value_text(v: Value) -> Seq<char> {
    match v {
        Value::String(s) => s@,
        Value::I32(i) => i32_text(i),
        Value::Bool(b) => bool_text(b),
    }
}

/// The frozen views of spans `0..k` of a text, read in the innermost
/// frame: a parameter becomes its value between directional isolates.
pub open spec fn frozen_spans(a: MachineState, spans: Seq<Span>, k: int) -> Result<Seq<(Seq<char>, Seq<char>, bool, bool)>, crate::text::DiagText>
    decreases k,
{
    if k <= 0 {
        Ok(Seq::empty())
    } else {
        match frozen_spans(a, spans, k - 1) {
            Err(d) => Err(d),
            Ok(vs) => match spans[k - 1] {
                Span::Text { id, text, emphasis } => Ok(vs.push((id@, text@, emphasis, false))),
                Span::Break { id } => Ok(vs.push((id@, "\n"@, false, false))),
                Span::Gate { id } => Ok(vs.push((id@, ""@, false, true))),
                Span::Param { id, name } => match visible(top(a).locals@, a.variables@, name@) {
                    None => Err(("E_UNINITIALIZED"@, at_of(a), name@)),
                    Some(v) => Ok(vs.push((id@, "\u{2068}"@ + value_text(v) + "\u{2069}"@, false, false))),
                },
            },
        }
    }
}

/// The frozen views of text `id` in the machine's locale, or the error of a
/// text the locale lacks.
pub open spec fn frozen(a: MachineState, p: Program, id: Seq<char>) -> Result<Seq<(Seq<char>, Seq<char>, bool, bool)>, crate::text::DiagText> {
    match assoc(assoc(p.locales@, a.locale@).unwrap()@, id) {
        None => Err(("E_TEXT"@, at_of(a), id)),
        Some(doc) => frozen_spans(a, doc.spans@, doc.spans@.len() as int),
    }
}

/// The texts of frozen span views, joined.
pub open spec fn joined(vs: Seq<(Seq<char>, Seq<char>, bool, bool)>) -> Seq<char>
    decreases vs.len(),
{
    if vs.len() == 0 {
        Seq::empty()
    } else {
        joined(vs.drop_last()) + vs.last().1
    }
}

/// The display text of text `id`.
pub open spec fn label(a: MachineState, p: Program, id: Seq<char>) -> Result<Seq<char>, crate::text::DiagText> {
    match frozen(a, p, id) {
        Ok(vs) => Ok(joined(vs)),
        Err(d) => Err(d),
    }
}

proof fn lemma_frozen_stays(a: MachineState, spans: Seq<Span>, k: int, n: int)
    requires
        0 <= k <= n,
        frozen_spans(a, spans, k) is Err,
    ensures
        frozen_spans(a, spans, n) == frozen_spans(a, spans, k),
    decreases n - k,
{
    if k < n {
        lemma_frozen_stays(a, spans, k, n - 1);
    }
}

fn value_string(v: &Value) -> (s: String)
    ensures
        s@ == value_text(*v),
{
    match v {
        Value::String(t) => t.clone(),
        Value::I32(i) => i32_string(*i),
        Value::Bool(b) => bool_string(*b),
    }
}

fn freeze_text(st: &MachineState, p: &Program, id: &str) -> (r: Result<Vec<FrozenSpan>, Diagnostic>)
    requires
        st.frames@.len() > 0,
        assoc(p.locales@, st.locale@) is Some,
    ensures
        match frozen(*st, *p, id@) {
            Ok(vs) => r matches Ok(x) && x@.map_values(|f: FrozenSpan| span_view(f)) == vs,
            Err(d) => r matches Err(e) && diag_is(e, d.0, d.1, d.2),
        },
{
    let at = location(&st.frames);
    let docs = get_entry(&p.locales, st.locale.as_str()).unwrap();
    let doc = match get_entry(docs, id) {
        Some(d) => d,
        None => {
            return Err(Diagnostic::new("E_TEXT", at.as_str(), id));
        },
    };
    let n = st.frames.len();
    let mut out: Vec<FrozenSpan> = Vec::new();
    let mut k: usize = 0;
    proof {
        assert(out@.map_values(|f: FrozenSpan| span_view(f)) =~= Seq::<(Seq<char>, Seq<char>, bool, bool)>::empty());
        reveal_strlit("\n");
        reveal_strlit("");
        reveal_strlit("\u{2068}");
        reveal_strlit("\u{2069}");
    }
    while k < doc.spans.len()
        invariant
            k <= doc.spans@.len(),
            assoc(assoc(p.locales@, st.locale@).unwrap()@, id@) == Some(*doc),
            n == st.frames@.len(),
            n > 0,
            at@ == at_of(*st),
            frozen_spans(*st, doc.spans@, k as int) == Ok::<Seq<(Seq<char>, Seq<char>, bool, bool)>, crate::text::DiagText>(out@.map_values(|f: FrozenSpan| span_view(f))),
            "\n"@ == seq!['\n'],
            ""@ == Seq::<char>::empty(),
            "\u{2068}"@ == seq!['\u{2068}'],
            "\u{2069}"@ == seq!['\u{2069}'],
        decreases doc.spans@.len() - k,
    {
        let ghost before = out@;
        let f = match &doc.spans[k] {
            Span::Text { id, text, emphasis } => FrozenSpan { id: id.clone(), text: text.clone(), emphasis: *emphasis, gate: false },
            Span::Break { id } => FrozenSpan { id: id.clone(), text: owned("\n"), emphasis: false, gate: false },
            Span::Gate { id } => FrozenSpan { id: id.clone(), text: owned(""), emphasis: false, gate: true },
            Span::Param { id, name } => {
                match crate::eval::read(&st.frames[n - 1].locals, &st.variables, name.as_str(), at.as_str()) {
                    Ok(v) => {
                        let t1 = concat("\u{2068}", value_string(&v).as_str());
                        FrozenSpan { id: id.clone(), text: concat(t1.as_str(), "\u{2069}"), emphasis: false, gate: false }
                    },
                    Err(e) => {
                        proof {
                            lemma_frozen_stays(*st, doc.spans@, k as int + 1, doc.spans@.len() as int);
                        }
                        return Err(e);
                    },
                }
            },
        };
        out.push(f);
        proof {
            assert(out@.map_values(|f: FrozenSpan| span_view(f)) =~= before.map_values(|f: FrozenSpan| span_view(f)).push(span_view(f)));
        }
        k = k + 1;
    }
    Ok(out)
}

fn text_of(st: &MachineState, p: &Program, id: &str) -> (r: Result<String, Diagnostic>)
    requires
        st.frames@.len() > 0,
        assoc(p.locales@, st.locale@) is Some,
    ensures
        match label(*st, *p, id@) {
            Ok(t) => r matches Ok(x) && x@ == t,
            Err(d) => r matches Err(e) && diag_is(e, d.0, d.1, d.2),
        },
{
    let spans = match freeze_text(st, p, id) {
        Ok(v) => v,
        Err(e) => {
            return Err(e);
        },
    };
    let ghost vs = spans@.map_values(|f: FrozenSpan| span_view(f));
    let mut s = String::new();
    let mut k: usize = 0;
    proof {
        assert(vs.subrange(0, 0) =~= Seq::<(Seq<char>, Seq<char>, bool, bool)>::empty());
    }
    while k < spans.len()
        invariant
            k <= spans@.len(),
            vs == spans@.map_values(|f: FrozenSpan| span_view(f)),
            s@ == joined(vs.subrange(0, k as int)),
        decreases spans@.len() - k,
    {
        s.append(spans[k].text.as_str());
        proof {
            assert(vs.subrange(0, k + 1).drop_last() =~= vs.subrange(0, k as int));
        }
        k = k + 1;
    }
    proof {
        assert(vs.subrange(0, spans@.len() as int) =~= vs);
    }
    Ok(s)
}


/// An optional guard in the innermost frame: absent is true, present must
/// be a `Bool`.
pub open spec fn guard(a: MachineState, e: Option<Expr>) -> Result<bool, crate::text::DiagText> {
    match e {
        None => Ok(true),
        Some(x) => match evaluated(a, x) {
            Ok(ValueView::Bool(b)) => Ok(b),
            Ok(_) => Err(("E_TYPE"@, at_of(a), "predicate"@)),
            Err(d) => Err(d),
        },
    }
}

/// The options `0..k` of a choice as offered: each visible one with its
/// label and whether it is enabled, or the first error.
pub open spec fn offered(a: MachineState, p: Program, opts: Seq<ChoiceOption>, k: int) -> Result<Seq<(Seq<char>, Seq<char>, bool)>, crate::text::DiagText>
    decreases k,
{
    if k <= 0 {
        Ok(Seq::empty())
    } else {
        match offered(a, p, opts, k - 1) {
            Err(d) => Err(d),
            Ok(vs) => {
                let o = opts[k - 1];
                match guard(a, o.visible) {
                    Err(d) => Err(d),
                    Ok(false) => Ok(vs),
                    Ok(true) => match label(a, p, o.text@) {
                        Err(d) => Err(d),
                        Ok(l) => match guard(a, o.enabled) {
                            Err(d) => Err(d),
                            Ok(en) => Ok(vs.push((o.id@, l, en))),
                        },
                    },
                }
            },
        }
    }
}

proof fn lemma_offered_stays(a: MachineState, p: Program, opts: Seq<ChoiceOption>, k: int, n: int)
    requires
        0 <= k <= n,
        offered(a, p, opts, k) is Err,
    ensures
        offered(a, p, opts, n) == offered(a, p, opts, k),
    decreases n - k,
{
    if k < n {
        lemma_offered_stays(a, p, opts, k, n - 1);
    }
}

/// An offered option as views.
pub open spec fn option_view(o: OfferedOption) -> (Seq<char>, Seq<char>, bool) {
    (o.id@, o.label@, o.enabled)
}

/// An interaction: the visible options are offered; with none enabled the
/// frame moves to `on_empty`; a default must be offered and enabled; the
/// choice gets a fresh interaction identity and, with a timeout, a
/// deadline; the machine then waits on it and asks for a checkpoint.
pub open spec fn interact_step(p: Program, a: MachineState, b: MachineState, r: Result<(), Diagnostic>, choice: Seq<char>, branches: Seq<(String, String)>, on_empty: Seq<char>) -> bool {
    let c = assoc(p.choices@, choice).unwrap();
    match offered(a, p, c.options@, c.options@.len() as int) {
        Err(d) => fails(r, d),
        Ok(os) => if !exists|i: int| 0 <= i < os.len() && (#[trigger] os[i]).2 {
            r is Ok && goes_to(p, a, b, on_empty)
        } else if (c.default matches Some(d) && !exists|i: int| 0 <= i < os.len() && (#[trigger] os[i]).0 == d@ && os[i].2) {
            fails_with(r, "E_CHOICE_DEFAULT"@, at_of(a), "default not offered/enabled"@)
        } else if a.next_id == u32::MAX {
            fails_with(r, "E_LIMIT"@, at_of(a), "instance counter overflow"@)
        } else if (c.timeout_us matches Some(t) && a.tick_us.0 + t.0 > u64::MAX) {
            fails_with(r, "E_TIME"@, at_of(a), "choice deadline overflow"@)
        } else {
            &&& r is Ok
            &&& b.choice matches Some(oc) && {
                &&& oc.id@ == choice && oc.locale == a.locale && oc.interaction == a.next_id
                &&& oc.options@.map_values(|o: OfferedOption| option_view(o)) == os
                &&& oc.branches@ == branches && oc.default == c.default
                &&& oc.deadline_us == match c.timeout_us {
                    Some(t) => Some(Micros((a.tick_us.0 + t.0) as u64)),
                    None => None,
                }
            }
            &&& intent_views(b.intents@) == intent_views(a.intents@).push(IntentView::Checkpoint)
            &&& b == (MachineState { choice: b.choice, intents: b.intents, next_id: (a.next_id + 1) as u32, unsuspended_ops: 0, ..a })
        },
    }
}

fn guard_of(st: &MachineState, e: &Option<Expr>) -> (r: Result<bool, Diagnostic>)
    requires
        st.frames@.len() > 0,
    ensures
        match guard(*st, *e) {
            Ok(b) => r == Ok::<bool, Diagnostic>(b),
            Err(d) => r matches Err(x) && diag_is(x, d.0, d.1, d.2),
        },
{
    let at = location(&st.frames);
    let n = st.frames.len();
    crate::eval::predicate(e, &st.frames[n - 1].locals, &st.variables, at.as_str())
}

fn copy_pairs(v: &Vec<(String, String)>) -> (r: Vec<(String, String)>)
    ensures
        r@ == v@,
{
    let mut r: Vec<(String, String)> = Vec::new();
    let mut i: usize = 0;
    while i < v.len()
        invariant
            i <= v@.len(),
            r@ == v@.subrange(0, i as int),
        decreases v@.len() - i,
    {
        r.push((v[i].0.clone(), v[i].1.clone()));
        proof {
            assert(r@ =~= v@.subrange(0, i + 1));
        }
        i = i + 1;
    }
    proof {
        assert(v@.subrange(0, v@.len() as int) =~= v@);
    }
    r
}

fn offer(st: &MachineState, p: &Program, opts: &Vec<ChoiceOption>) -> (r: Result<Vec<OfferedOption>, Diagnostic>)
    requires
        st.frames@.len() > 0,
        assoc(p.locales@, st.locale@) is Some,
    ensures
        match offered(*st, *p, opts@, opts@.len() as int) {
            Ok(os) => r matches Ok(x) && x@.map_values(|o: OfferedOption| option_view(o)) == os,
            Err(d) => r matches Err(x) && diag_is(x, d.0, d.1, d.2),
        },
{
    let mut out: Vec<OfferedOption> = Vec::new();
    let mut k: usize = 0;
    proof {
        assert(out@.map_values(|o: OfferedOption| option_view(o)) =~= Seq::<(Seq<char>, Seq<char>, bool)>::empty());
    }
    while k < opts.len()
        invariant
            k <= opts@.len(),
            st.frames@.len() > 0,
            assoc(p.locales@, st.locale@) is Some,
            offered(*st, *p, opts@, k as int) == Ok::<Seq<(Seq<char>, Seq<char>, bool)>, crate::text::DiagText>(out@.map_values(|o: OfferedOption| option_view(o))),
        decreases opts@.len() - k,
    {
        let o = &opts[k];
        let visible = match guard_of(st, &o.visible) {
            Ok(b) => b,
            Err(e) => {
                proof {
                    lemma_offered_stays(*st, *p, opts@, k as int + 1, opts@.len() as int);
                }
                return Err(e);
            },
        };
        if visible {
            let l = match text_of(st, p, o.text.as_str()) {
                Ok(l) => l,
                Err(e) => {
                    proof {
                        lemma_offered_stays(*st, *p, opts@, k as int + 1, opts@.len() as int);
                    }
                    return Err(e);
                },
            };
            let enabled = match guard_of(st, &o.enabled) {
                Ok(b) => b,
                Err(e) => {
                    proof {
                        lemma_offered_stays(*st, *p, opts@, k as int + 1, opts@.len() as int);
                    }
                    return Err(e);
                },
            };
            let ghost before = out@;
            out.push(OfferedOption { id: o.id.clone(), label: l, enabled });
            proof {
                assert(out@.map_values(|o: OfferedOption| option_view(o)) =~= before.map_values(|o: OfferedOption| option_view(o)).push(option_view(out@.last())));
            }
        }
        k = k + 1;
    }
    Ok(out)
}

fn interact(st: &mut MachineState, p: &Program, choice: &String, branches: &Vec<(String, String)>, on_empty: &String) -> (r: Result<(), Diagnostic>)
    requires
        old(st).frames@.len() > 0,
        assoc(p.locales@, old(st).locale@) is Some,
        assoc(p.choices@, choice@) is Some,
    ensures
        interact_step(*p, *old(st), *final(st), r, choice@, branches@, on_empty@),
{
    let at = location(&st.frames);
    let c = get_entry(&p.choices, choice.as_str()).unwrap();
    let options = match offer(st, p, &c.options) {
        Ok(o) => o,
        Err(e) => {
            return Err(e);
        },
    };
    let ghost os = options@.map_values(|o: OfferedOption| option_view(o));
    let mut any = false;
    let mut i: usize = 0;
    while i < options.len()
        invariant
            i <= options@.len(),
            os == options@.map_values(|o: OfferedOption| option_view(o)),
            any == exists|j: int| 0 <= j < i && (#[trigger] os[j]).2,
        decreases options@.len() - i,
    {
        proof {
            assert(os[i as int] == option_view(options@[i as int]));
        }
        if options[i].enabled {
            any = true;
        }
        i = i + 1;
    }
    if !any {
        jump(&mut st.frames, p, on_empty.as_str());
        return Ok(());
    }
    match &c.default {
        Some(d) => {
            let mut found = false;
            let mut i: usize = 0;
            while i < options.len()
                invariant
                    i <= options@.len(),
                    os == options@.map_values(|o: OfferedOption| option_view(o)),
                    found == exists|j: int| 0 <= j < i && (#[trigger] os[j]).0 == d@ && os[j].2,
                decreases options@.len() - i,
            {
                proof {
                    assert(os[i as int] == option_view(options@[i as int]));
                }
                if options[i].enabled && crate::strings::str_eq(options[i].id.as_str(), d.as_str()) {
                    found = true;
                }
                i = i + 1;
            }
            if !found {
                return Err(Diagnostic::new("E_CHOICE_DEFAULT", at.as_str(), "default not offered/enabled"));
            }
        },
        None => {},
    }
    let interaction = match next_id(&mut st.next_id, at.as_str()) {
        Ok(id) => id,
        Err(e) => {
            return Err(e);
        },
    };
    let deadline_us = match c.timeout_us {
        Some(t) => match st.tick_us.0.checked_add(t.0) {
            Some(v) => Some(Micros(v)),
            None => {
                return Err(Diagnostic::new("E_TIME", at.as_str(), "choice deadline overflow"));
            },
        },
        None => None,
    };
    st.choice = Some(OfferedChoice {
        id: choice.clone(),
        locale: st.locale.clone(),
        interaction,
        options,
        branches: copy_pairs(branches),
        deadline_us,
        default: copy_text(&c.default),
    });
    st.unsuspended_ops = 0;
    let ghost before = intent_views(st.intents@);
    st.intents.push(CoreIntent::Checkpoint);
    proof {
        assert(intent_views(st.intents@) =~= before.push(IntentView::Checkpoint));
    }
    Ok(())
}


/// A dialogue line, with its texts as views.
pub struct DialogueView {
    pub text_id: Seq<char>,
    pub revision: u32,
    pub locale: Seq<char>,
    pub speaker: Seq<char>,
    pub spans: Seq<(Seq<char>, Seq<char>, bool, bool)>,
    pub span: usize,
    pub cluster: usize,
    pub at_gate: bool,
    pub awaiting_advance: bool,
    pub last_reveal_us: Micros,
    pub interaction: u32,
}

/// The view of a dialogue line.
pub open spec fn dialogue_view(d: Dialogue) -> DialogueView {
    DialogueView {
        text_id: d.text_id@,
        revision: d.revision,
        locale: d.locale@,
        speaker: d.speaker@,
        spans: d.spans@.map_values(|f: FrozenSpan| span_view(f)),
        span: d.span,
        cluster: d.cluster,
        at_gate: d.at_gate,
        awaiting_advance: d.awaiting_advance,
        last_reveal_us: d.last_reveal_us,
        interaction: d.interaction,
    }
}

/// The lines that effects `0..k` of a cue start, each under its effect's
/// name, with the next free identity: a dialogue effect freezes its text in
/// the machine's locale at the text's meaning revision, labels its speaker
/// if it has one, starts unrevealed at the current tick, and takes the next
/// identity for its interaction.
pub open spec fn started(a: MachineState, p: Program, effs: Seq<EffectDef>, k: int) -> Result<(Seq<(Seq<char>, DialogueView)>, u32), crate::text::DiagText>
    decreases k,
{
    if k <= 0 {
        Ok((Seq::empty(), (a.next_id + 1) as u32))
    } else {
        match started(a, p, effs, k - 1) {
            Err(d) => Err(d),
            Ok((ds, n)) => match effs[k - 1].effect {
                Effect::Dialogue { text, speaker, .. } => {
                    let sp = if speaker@.len() == 0 {
                        Ok(Seq::<char>::empty())
                    } else {
                        label(a, p, speaker@)
                    };
                    match sp {
                        Err(d) => Err(d),
                        Ok(s) => match frozen(a, p, text@) {
                            Err(d) => Err(d),
                            Ok(fs) => if n == u32::MAX {
                                Err(("E_LIMIT"@, at_of(a), "instance counter overflow"@))
                            } else {
                                Ok((ds.push((effs[k - 1].id@, DialogueView {
                                    text_id: text@,
                                    revision: assoc(p.texts@, text@).unwrap().meaning_revision,
                                    locale: a.locale@,
                                    speaker: s,
                                    spans: fs,
                                    span: 0,
                                    cluster: 0,
                                    at_gate: false,
                                    awaiting_advance: false,
                                    last_reveal_us: a.tick_us,
                                    interaction: n,
                                })), (n + 1) as u32))
                            },
                        },
                    }
                },
                _ => Ok((ds, n)),
            },
        }
    }
}

proof fn lemma_started_stays(a: MachineState, p: Program, effs: Seq<EffectDef>, k: int, n: int)
    requires
        0 <= k <= n,
        started(a, p, effs, k) is Err,
    ensures
        started(a, p, effs, n) == started(a, p, effs, k),
    decreases n - k,
{
    if k < n {
        lemma_started_stays(a, p, effs, k, n - 1);
    }
}

/// Every dialogue effect of the cue names a declared text.
pub open spec fn texts_declared(p: Program, effs: Seq<EffectDef>) -> bool {
    forall|i: int| 0 <= i < effs.len() ==> match (#[trigger] effs[i]).effect {
        Effect::Dialogue { text, .. } => assoc(p.texts@, text@) is Some,
        _ => true,
    }
}

/// An activation: the cue takes the next identity, its dialogue lines are
/// started, and the machine waits for its media, asking the host to
/// prepare them.
pub open spec fn activate_step(p: Program, a: MachineState, b: MachineState, r: Result<(), Diagnostic>, cue: Seq<char>, next: String) -> bool {
    let effs = assoc(p.cues@, cue).unwrap().effects@;
    if a.next_id == u32::MAX {
        fails_with(r, "E_LIMIT"@, at_of(a), "instance counter overflow"@)
    } else {
        match started(a, p, effs, effs.len() as int) {
            Err(d) => fails(r, d),
            Ok((ds, n)) => {
                &&& r is Ok
                &&& b.pending matches Some(pc) && {
                    &&& pc.id == a.next_id && pc.cue@ == cue && pc.next == next && pc.effects@ == effs
                    &&& pc.dialogues@.map_values(|e: (String, Dialogue)| (e.0@, dialogue_view(e.1))) == ds
                }
                &&& intent_views(b.intents@) == intent_views(a.intents@).push(IntentView::Prepare(a.next_id, cue))
                &&& b == (MachineState { pending: b.pending, intents: b.intents, next_id: n, unsuspended_ops: 0, ..a })
            },
        }
    }
}

fn copy_defs(v: &Vec<EffectDef>) -> (r: Vec<EffectDef>)
    ensures
        r@ == v@,
{
    let mut r: Vec<EffectDef> = Vec::new();
    let mut i: usize = 0;
    while i < v.len()
        invariant
            i <= v@.len(),
            r@ == v@.subrange(0, i as int),
        decreases v@.len() - i,
    {
        r.push(EffectDef { id: v[i].id.clone(), scope: v[i].scope, effect: v[i].effect.clone() });
        proof {
            assert(r@ =~= v@.subrange(0, i + 1));
        }
        i = i + 1;
    }
    proof {
        assert(v@.subrange(0, v@.len() as int) =~= v@);
    }
    r
}

fn activate(st: &mut MachineState, p: &Program, cue: &String, next: &String) -> (r: Result<(), Diagnostic>)
    requires
        old(st).frames@.len() > 0,
        assoc(p.locales@, old(st).locale@) is Some,
        assoc(p.cues@, cue@) is Some,
        texts_declared(*p, assoc(p.cues@, cue@).unwrap().effects@),
    ensures
        activate_step(*p, *old(st), *final(st), r, cue@, *next),
{
    let at = location(&st.frames);
    let effects = copy_defs(&get_entry(&p.cues, cue.as_str()).unwrap().effects);
    let mut counter = st.next_id;
    let id = match next_id(&mut counter, at.as_str()) {
        Ok(id) => id,
        Err(e) => {
            return Err(e);
        },
    };
    let ghost effs = effects@;
    let mut dialogues: Vec<(String, Dialogue)> = Vec::new();
    let mut k: usize = 0;
    proof {
        assert(dialogues@.map_values(|e: (String, Dialogue)| (e.0@, dialogue_view(e.1))) =~= Seq::<(Seq<char>, DialogueView)>::empty());
    }
    while k < effects.len()
        invariant
            k <= effects@.len(),
            effs == effects@,
            effs == assoc(p.cues@, cue@).unwrap().effects@,
            *st == *old(st),
            old(st).next_id < u32::MAX,
            st.frames@.len() > 0,
            assoc(p.locales@, st.locale@) is Some,
            texts_declared(*p, effs),
            at@ == at_of(*st),
            started(*st, *p, effs, k as int) == Ok::<(Seq<(Seq<char>, DialogueView)>, u32), crate::text::DiagText>(
                (dialogues@.map_values(|e: (String, Dialogue)| (e.0@, dialogue_view(e.1))), counter)),
        decreases effects@.len() - k,
    {
        match &effects[k].effect {
            Effect::Dialogue { text, speaker, .. } => {
                let sp = if speaker.as_str().unicode_len() == 0 {
                    String::new()
                } else {
                    match text_of(st, p, speaker.as_str()) {
                        Ok(s) => s,
                        Err(e) => {
                            proof {
                                lemma_started_stays(*st, *p, effs, k as int + 1, effs.len() as int);
                            }
                            return Err(e);
                        },
                    }
                };
                let spans = match freeze_text(st, p, text.as_str()) {
                    Ok(v) => v,
                    Err(e) => {
                        proof {
                            lemma_started_stays(*st, *p, effs, k as int + 1, effs.len() as int);
                        }
                        return Err(e);
                    },
                };
                let interaction = match next_id(&mut counter, at.as_str()) {
                    Ok(i) => i,
                    Err(e) => {
                        proof {
                            lemma_started_stays(*st, *p, effs, k as int + 1, effs.len() as int);
                        }
                        return Err(e);
                    },
                };
                let revision = get_entry(&p.texts, text.as_str()).unwrap().meaning_revision;
                let ghost before = dialogues@;
                dialogues.push((effects[k].id.clone(), Dialogue {
                    text_id: text.clone(),
                    revision,
                    locale: st.locale.clone(),
                    speaker: sp,
                    spans,
                    span: 0,
                    cluster: 0,
                    at_gate: false,
                    awaiting_advance: false,
                    last_reveal_us: st.tick_us,
                    interaction,
                }));
                proof {
                    assert(dialogues@.map_values(|e: (String, Dialogue)| (e.0@, dialogue_view(e.1)))
                        =~= before.map_values(|e: (String, Dialogue)| (e.0@, dialogue_view(e.1))).push(
                        (dialogues@.last().0@, dialogue_view(dialogues@.last().1))));
                }
            },
            _ => {},
        }
        k = k + 1;
    }
    st.pending = Some(PendingCue { id, cue: cue.clone(), next: next.clone(), effects, dialogues });
    st.next_id = counter;
    st.unsuspended_ops = 0;
    let ghost before = intent_views(st.intents@);
    st.intents.push(CoreIntent::Prepare { activation: id, cue: cue.clone() });
    proof {
        assert(intent_views(st.intents@) =~= before.push(IntentView::Prepare(id, cue@)));
    }
    Ok(())
}


/// What a terminator needs to run: a frame; the machine's locale among the
/// program's; the callee, cue or choice it names declared, with the texts
/// of the cue's dialogue lines; and a caller for a frame that returns to
/// one.
pub open spec fn can_terminate(p: Program, a: MachineState, t: Terminator) -> bool {
    &&& a.frames@.len() > 0
    &&& assoc(p.locales@, a.locale@) is Some
    &&& match t {
        Terminator::Call { function, .. } => assoc(p.functions@, function@) is Some,
        Terminator::Return { .. } => top(a).return_to is Some ==> a.frames@.len() >= 2,
        Terminator::Activate { cue, .. } => assoc(p.cues@, cue@) is Some
            && texts_declared(p, assoc(p.cues@, cue@).unwrap().effects@),
        Terminator::Interact { choice, .. } => assoc(p.choices@, choice@) is Some,
        _ => true,
    }
}

/// The step that terminator `t` takes from state `a` to state `b` with
/// result `r`: a goto moves the frame; a branch, switch, call, return,
/// activation, wait, interaction or end as described for each; a fault is
/// its own error at the machine's location.
pub open spec fn terminated(p: Program, a: MachineState, t: Terminator, b: MachineState, r: Result<(), Diagnostic>) -> bool {
    match t {
        Terminator::Goto { target } => r is Ok && goes_to(p, a, b, target@),
        Terminator::Branch { condition, yes, no } => branch_step(p, a, b, r, condition, yes@, no@),
        Terminator::Switch { value, cases, default } => switch_step(p, a, b, r, value, cases@, default@),
        Terminator::Call { function, args, next, result } => call_step(p, a, b, r, function@, args@, next, result),
        Terminator::Return { value } => return_step(p, a, b, r, value),
        Terminator::Activate { cue, next } => activate_step(p, a, b, r, cue@, next),
        Terminator::Await { conditions, next, on_cancelled, on_failed } => await_step(a, b, r, conditions@, next, on_cancelled, on_failed),
        Terminator::Interact { choice, branches, on_empty } => interact_step(p, a, b, r, choice@, branches@, on_empty@),
        Terminator::End { outcome } => end_step(a, b, r, outcome),
        Terminator::Fault { code, message } => fails_with(r, code@, at_of(a), message@),
    }
}

/// Ends the innermost frame's block with terminator `t`.
pub fn terminate(st: &mut MachineState, p: &Program, t: &Terminator) -> (r: Result<(), Diagnostic>)
    requires
        can_terminate(*p, *old(st), *t),
    ensures
        terminated(*p, *old(st), *t, *final(st), r),
{
    match t {
        Terminator::Goto { target } => {
            jump(&mut st.frames, p, target.as_str());
            Ok(())
        },
        Terminator::Branch { condition, yes, no } => branch(st, p, condition, yes, no),
        Terminator::Switch { value, cases, default } => switch(st, p, value, cases, default),
        Terminator::Call { function, args, next, result } => call(st, p, function, args, next, result),
        Terminator::Return { value } => return_from(st, p, value),
        Terminator::Activate { cue, next } => activate(st, p, cue, next),
        Terminator::Await { conditions, next, on_cancelled, on_failed } => await_on(st, conditions, next, on_cancelled, on_failed),
        Terminator::Interact { choice, branches, on_empty } => interact(st, p, choice, branches, on_empty),
        Terminator::End { outcome } => end(st, outcome),
        Terminator::Fault { code, message } => {
            let at = location(&st.frames);
            Err(Diagnostic::new(code.as_str(), at.as_str(), message.as_str()))
        },
    }
}

/// A branch goes where its condition says: when the condition evaluates to
/// `true` the innermost frame moves to the first operation of the `yes`
/// block, when it evaluates to `false` to that of the `no` block; the outer
/// frames, the variables and the tasks stay, and the step succeeds. A
/// condition that is not a flag is a type fault.
pub proof fn branch_follows_condition(
    p: Program,
    a: MachineState,
    b: MachineState,
    r: Result<(), Diagnostic>,
    condition: Expr,
    yes: String,
    no: String,
)
    requires
        a.frames@.len() > 0,
        terminated(p, a, Terminator::Branch { condition, yes, no }, b, r),
    ensures
        evaluated(a, condition) == Ok::<ValueView, crate::text::DiagText>(ValueView::Bool(true)) ==> {
            &&& r is Ok
            &&& b.frames@.len() == a.frames@.len()
            &&& b.frames@.drop_last() == a.frames@.drop_last()
            &&& b.frames@.last().block@ == yes@
            &&& b.frames@.last().op == 0
        },
        evaluated(a, condition) == Ok::<ValueView, crate::text::DiagText>(ValueView::Bool(false)) ==> {
            &&& r is Ok
            &&& b.frames@.len() == a.frames@.len()
            &&& b.frames@.drop_last() == a.frames@.drop_last()
            &&& b.frames@.last().block@ == no@
            &&& b.frames@.last().op == 0
        },
        evaluated(a, condition) is Ok && !(evaluated(a, condition)->Ok_0 is Bool) ==> r is Err,
        evaluated(a, condition) matches Ok(ValueView::Bool(_)) ==> b.variables == a.variables && b.tasks == a.tasks,
{
}

/// A switch goes to the block of the first case whose key is the value (an
/// integer written in decimal, a string as it is), and to the default
/// block when no case has that key; the outer frames stay and the step
/// succeeds. A flag is a type fault.
pub proof fn switch_follows_value(
    p: Program,
    a: MachineState,
    b: MachineState,
    r: Result<(), Diagnostic>,
    value: Expr,
    cases: Vec<(String, String)>,
    default: String,
    n: i32,
    key: Seq<char>,
    i: int,
)
    requires
        a.frames@.len() > 0,
        terminated(p, a, Terminator::Switch { value, cases, default }, b, r),
    ensures
        evaluated(a, value) == Ok::<ValueView, crate::text::DiagText>(ValueView::Str(key))
            || (evaluated(a, value) == Ok::<ValueView, crate::text::DiagText>(ValueView::I32(n)) && key == i32_text(n)) ==> {
            &&& r is Ok
            &&& b.frames@.len() == a.frames@.len()
            &&& b.frames@.drop_last() == a.frames@.drop_last()
            &&& b.frames@.last().op == 0
            &&& (0 <= i < cases@.len() && cases@[i].0@ == key && forall|j: int| 0 <= j < i ==> (#[trigger] cases@[j]).0@ != key)
                ==> b.frames@.last().block@ == cases@[i].1@
            &&& (forall|j: int| 0 <= j < cases@.len() ==> (#[trigger] cases@[j]).0@ != key) ==> b.frames@.last().block@ == default@
        },
        evaluated(a, value) matches Ok(ValueView::Bool(_)) ==> r is Err,
{
    if 0 <= i < cases@.len() && cases@[i].0@ == key && forall|j: int| 0 <= j < i ==> (#[trigger] cases@[j]).0@ != key {
        lemma_assoc_first(cases@, key, i);
    }
    if forall|j: int| 0 <= j < cases@.len() ==> (#[trigger] cases@[j]).0@ != key {
        lemma_assoc_absent(cases@, key);
    }
}

/// A return comes back to where its call left off: when a call from state
/// `a0` succeeds into state `a1` and the callee returns at once from `a1`
/// into `a2`, the return succeeds once its value evaluates, the call stack
/// is as deep as before the call, the outer frames are those of `a0`, and
/// the calling frame, the same frame as before, stands at the start of the
/// block the call named to continue with; a value returned into a local of
/// the caller is found there.
pub proof fn return_comes_back_to_the_call(
    p: Program,
    a0: MachineState,
    a1: MachineState,
    a2: MachineState,
    r1: Result<(), Diagnostic>,
    r2: Result<(), Diagnostic>,
    function: String,
    args: Vec<(String, Expr)>,
    next: String,
    result: Option<String>,
    value: Option<Expr>,
    v: ValueView,
)
    requires
        a0.frames@.len() > 0,
        terminated(p, a0, Terminator::Call { function, args, next, result }, a1, r1),
        r1 is Ok,
        terminated(p, a1, Terminator::Return { value }, a2, r2),
        value matches Some(e) ==> evaluated(a1, e) == Ok::<ValueView, crate::text::DiagText>(v),
    ensures
        r2 is Ok,
        a2.frames@.len() == a0.frames@.len(),
        a2.frames@.drop_last() == a0.frames@.drop_last(),
        a2.frames@.last().id == a0.frames@.last().id,
        a2.frames@.last().function == a0.frames@.last().function,
        a2.frames@.last().block@ == next@,
        a2.frames@.last().op == 0,
        result matches Some(target) ==> (value is Some && lookup(a0.variables@, target@) is None
            ==> (lookup(a2.frames@.last().locals@, target@) matches Some(x) && x@ == v)),
{
    assert(a1.frames@.drop_last() == a0.frames@);
    assert(a1.frames@[a1.frames@.len() - 2] == a0.frames@.last());
    assert(a1.frames@.drop_last().drop_last() == a0.frames@.drop_last());
}

/// The end of the story leaves no task running: each running task is
/// cancelled, every other task stays as it was, the story records the
/// outcome it ended with, and the frames and variables stay.
pub proof fn end_leaves_no_task_running(p: Program, a: MachineState, b: MachineState, r: Result<(), Diagnostic>, outcome: String)
    requires
        terminated(p, a, Terminator::End { outcome }, b, r),
    ensures
        r is Ok,
        b.outcome == Some(outcome),
        b.tasks@.len() == a.tasks@.len(),
        forall|i: int| 0 <= i < b.tasks@.len() ==> (#[trigger] b.tasks@[i]).state != TaskState::Running,
        forall|i: int| 0 <= i < a.tasks@.len() && (#[trigger] a.tasks@[i]).state == TaskState::Running
            ==> b.tasks@[i] == (TaskSlot { state: TaskState::Cancelled, ..a.tasks@[i] }),
        forall|i: int| 0 <= i < a.tasks@.len() && (#[trigger] a.tasks@[i]).state != TaskState::Running
            ==> b.tasks@[i] == a.tasks@[i],
        b.frames == a.frames,
        b.variables == a.variables,
{
}

/// An interaction with no enabled option among those it shows moves on to
/// its `on_empty` block without offering anything; one that offers a choice
/// stays where it is and offers it under a fresh interaction number, the
/// next identity, which it then uses up.
pub proof fn interaction_offers_or_moves_on(
    p: Program,
    a: MachineState,
    b: MachineState,
    r: Result<(), Diagnostic>,
    choice: String,
    branches: Vec<(String, String)>,
    on_empty: String,
)
    requires
        a.frames@.len() > 0,
        terminated(p, a, Terminator::Interact { choice, branches, on_empty }, b, r),
    ensures
        ({
            let c = assoc(p.choices@, choice@).unwrap();
            offered(a, p, c.options@, c.options@.len() as int) matches Ok(os) && (forall|i: int| 0 <= i < os.len() ==> !(#[trigger] os[i]).2)
                ==> {
                &&& r is Ok
                &&& b.frames@.len() == a.frames@.len()
                &&& b.frames@.last().block@ == on_empty@
                &&& b.choice == a.choice
            }
        }),
        b.choice != a.choice && r is Ok ==> {
            &&& b.choice matches Some(oc) && oc.interaction == a.next_id && oc.id@ == choice@
            &&& b.next_id == a.next_id + 1
            &&& b.frames == a.frames
        },
{
}

} // verus!
