use nir::dialogue::{CoreIntent, Frame, TaskState};
use nir::format::{
    Block, Choice, ChoiceOption, Cue, Effect, EffectDef, Expr, Function, Micros, Milestone, Op, Operation, Scope, Span,
    Stage, Terminator, TextContract, TextDoc, Value, ValueType, WaitCondition,
};
use nir::locale::{LocaleConfig, LocaleFontPlan};
use nir::machine::{terminate, MachineState, TaskSlot};
use nir::source::Program;

fn block(op: Option<&str>) -> Block {
    Block {
        ops: op
            .map(|id| vec![Op { id: id.to_string(), operation: Operation::Assign { target: "n".to_string(), value: Expr::Const { value: Value::I32(1) } } }])
            .unwrap_or_default(),
        terminator: Terminator::End { outcome: "done".to_string() },
    }
}

fn function(entry: &str, blocks: Vec<(&str, Option<&str>)>) -> Function {
    Function {
        params: vec![],
        locals: vec![],
        returns: Some(ValueType::I32),
        entry: entry.to_string(),
        blocks: blocks.into_iter().map(|(b, op)| (b.to_string(), block(op))).collect(),
    }
}

fn contract() -> TextContract {
    TextContract { source_revision: 1, contract_revision: 1, meaning_revision: 4, contract_digest: String::new(), gates: vec![], params: vec![] }
}

fn doc(spans: Vec<Span>) -> TextDoc {
    TextDoc { source_revision: 1, contract_revision: 1, contract_digest: String::new(), spans }
}

fn program() -> Program {
    let plan = LocaleFontPlan { fonts: vec![], digest: String::new() };
    let option = |id: &str, enabled: Option<Expr>| ChoiceOption { id: id.to_string(), text: "yes".to_string(), visible: None, enabled };
    Program {
        format: 1,
        game_id: "demo".to_string(),
        revision: "1".to_string(),
        entry: "main".to_string(),
        requires: vec![],
        stage: Stage { width: 1280, height: 720 },
        variables: vec![("score".to_string(), Value::I32(0))],
        functions: vec![
            ("main".to_string(), function("start", vec![("start", Some("s0")), ("left", Some("l0")), ("right", None)])),
            ("helper".to_string(), function("body", vec![("body", Some("b0"))])),
        ],
        scenes: vec![],
        cues: vec![(
            "open".to_string(),
            Cue { effects: vec![EffectDef { id: "line".to_string(), scope: Scope::Scene, effect: Effect::Dialogue { text: "hello".to_string(), speaker: "ann".to_string(), reveal_us: Micros(0) } }] },
        )],
        choices: vec![
            ("ask".to_string(), Choice { options: vec![option("yes", None), option("no", Some(Expr::Const { value: Value::Bool(false) }))], timeout_us: Some(Micros(5)), default: Some("yes".to_string()) }),
            ("closed".to_string(), Choice { options: vec![option("no", Some(Expr::Const { value: Value::Bool(false) }))], timeout_us: None, default: None }),
        ],
        texts: vec![("hello".to_string(), contract()), ("ann".to_string(), contract()), ("yes".to_string(), contract())],
        locales: vec![(
            "en".to_string(),
            vec![
                ("hello".to_string(), doc(vec![Span::Text { id: "a".to_string(), text: "Hi ".to_string(), emphasis: false }, Span::Param { id: "b".to_string(), name: "score".to_string() }])),
                ("ann".to_string(), doc(vec![Span::Text { id: "a".to_string(), text: "Ann".to_string(), emphasis: false }])),
                ("yes".to_string(), doc(vec![Span::Text { id: "a".to_string(), text: "Yes".to_string(), emphasis: true }, Span::Break { id: "b".to_string() }])),
            ],
        )],
        locale_config: LocaleConfig { default_ui: "en".to_string(), default_text: "en".to_string(), ui: vec![("en".to_string(), plan.clone())], text: vec![("en".to_string(), plan)] },
        assets: vec![],
        default_locale: "en".to_string(),
        title_scene: None,
    }
}

fn frame(id: u32, function: &str, block: &str, op_id: &str, return_to: Option<&str>) -> Frame {
    Frame {
        id,
        function: function.to_string(),
        block: block.to_string(),
        op: 0,
        op_id: op_id.to_string(),
        locals: vec![],
        return_to: return_to.map(|s| s.to_string()),
        result: None,
    }
}

fn state() -> MachineState {
    MachineState {
        variables: vec![("score".to_string(), Value::I32(-12))],
        frames: vec![frame(1, "main", "start", "s0", None)],
        tasks: vec![
            TaskSlot { id: 2, frame: 1, scope: Scope::Frame, state: TaskState::Running, audio: true },
            TaskSlot { id: 3, frame: 9, scope: Scope::Session, state: TaskState::Finished, audio: false },
        ],
        handles: vec![("music".to_string(), 2)],
        pending: None,
        waiting: None,
        choice: None,
        locale: "en".to_string(),
        tick_us: Micros(100),
        next_id: 10,
        outcome: None,
        unsuspended_ops: 7,
        intents: vec![],
    }
}

fn trace_events(st: &MachineState) -> Vec<String> {
    st.intents
        .iter()
        .map(|i| match i {
            CoreIntent::Trace { event, .. } => event.clone(),
            CoreIntent::AudioStop { task } => format!("stop {task}"),
            CoreIntent::Prepare { activation, cue } => format!("prepare {activation} {cue}"),
            CoreIntent::Checkpoint => "checkpoint".to_string(),
            _ => "other".to_string(),
        })
        .collect()
}

#[test]
fn goto_moves_to_the_first_operation_of_the_block() {
    let p = program();
    let mut st = state();
    terminate(&mut st, &p, &Terminator::Goto { target: "right".to_string() }).unwrap();
    assert_eq!((st.frames[0].block.as_str(), st.frames[0].op, st.frames[0].op_id.as_str()), ("right", 0, "@terminator"));
}

#[test]
fn branch_traces_and_checks_its_condition() {
    let p = program();
    let mut st = state();
    let t = Terminator::Branch { condition: Expr::Const { value: Value::Bool(true) }, yes: "left".to_string(), no: "right".to_string() };
    terminate(&mut st, &p, &t).unwrap();
    assert_eq!((st.frames[0].block.as_str(), st.frames[0].op_id.as_str()), ("left", "l0"));
    assert_eq!(trace_events(&st), vec!["branch:true"]);
    let bad = Terminator::Branch { condition: Expr::Const { value: Value::I32(1) }, yes: "left".to_string(), no: "right".to_string() };
    let d = terminate(&mut state(), &p, &bad).unwrap_err();
    assert_eq!((d.code.as_str(), d.location.as_str(), d.message.as_str()), ("E_TYPE", "main/start/0", "branch"));
}

#[test]
fn switch_keys_negative_numbers_in_decimal() {
    let p = program();
    let mut st = state();
    let t = Terminator::Switch {
        value: Expr::Var { name: "score".to_string() },
        cases: vec![("-12".to_string(), "left".to_string())],
        default: "right".to_string(),
    };
    terminate(&mut st, &p, &t).unwrap();
    assert_eq!(st.frames[0].block, "left");
}

#[test]
fn call_then_return_stores_the_result() {
    let p = program();
    let mut st = state();
    let call = Terminator::Call { function: "helper".to_string(), args: vec![("x".to_string(), Expr::Const { value: Value::I32(5) })], next: "left".to_string(), result: Some("score".to_string()) };
    terminate(&mut st, &p, &call).unwrap();
    assert_eq!(st.frames.len(), 2);
    assert_eq!((st.frames[1].id, st.frames[1].block.as_str(), st.frames[1].op_id.as_str()), (10, "body", "b0"));
    assert_eq!(st.frames[1].locals.len(), 1);
    assert!(st.frames[1].locals[0].0 == "x" && matches!(st.frames[1].locals[0].1, Value::I32(5)));
    assert_eq!(st.next_id, 11);
    terminate(&mut st, &p, &Terminator::Return { value: Some(Expr::Var { name: "x".to_string() }) }).unwrap();
    assert_eq!(st.frames.len(), 1);
    assert_eq!(st.frames[0].block, "left");
    assert!(st.variables.len() == 1 && matches!(st.variables[0].1, Value::I32(5)));
}

#[test]
fn return_from_the_last_frame_ends_its_tasks() {
    let p = program();
    let mut st = state();
    terminate(&mut st, &p, &Terminator::Return { value: None }).unwrap();
    assert_eq!(st.outcome.as_deref(), Some("returned"));
    assert_eq!(st.tasks[0].state, TaskState::Cancelled);
    assert_eq!(st.tasks[1].state, TaskState::Finished);
    assert_eq!(trace_events(&st), vec!["stop 2", "task:2:Cancelled"]);
}

#[test]
fn end_cancels_running_tasks_and_records_the_outcome() {
    let p = program();
    let mut st = state();
    terminate(&mut st, &p, &Terminator::End { outcome: "complete".to_string() }).unwrap();
    assert_eq!(st.outcome.as_deref(), Some("complete"));
    assert_eq!(trace_events(&st), vec!["stop 2", "task:2:Cancelled", "end:complete"]);
}

#[test]
fn await_resolves_handles() {
    let p = program();
    let mut st = state();
    let t = Terminator::Await {
        conditions: vec![WaitCondition { task: "music".to_string(), milestone: Milestone::Finished }],
        next: "left".to_string(),
        on_cancelled: "right".to_string(),
        on_failed: "right".to_string(),
    };
    terminate(&mut st, &p, &t).unwrap();
    let w = st.waiting.as_ref().unwrap();
    assert_eq!(w.conditions.len(), 1);
    assert_eq!(w.conditions[0].0, 2);
    assert_eq!(st.unsuspended_ops, 0);
    let missing = Terminator::Await {
        conditions: vec![WaitCondition { task: "voice".to_string(), milestone: Milestone::Started }],
        next: "left".to_string(),
        on_cancelled: "right".to_string(),
        on_failed: "right".to_string(),
    };
    let d = terminate(&mut state(), &p, &missing).unwrap_err();
    assert_eq!((d.code.as_str(), d.message.as_str()), ("E_TASK", "voice"));
}

#[test]
fn fault_reports_at_the_location() {
    let p = program();
    let d = terminate(&mut state(), &p, &Terminator::Fault { code: "E_STORY".to_string(), message: "broken".to_string() }).unwrap_err();
    assert_eq!((d.code.as_str(), d.location.as_str(), d.message.as_str()), ("E_STORY", "main/start/0", "broken"));
}

#[test]
fn interaction_offers_visible_options_with_labels() {
    let p = program();
    let mut st = state();
    terminate(&mut st, &p, &Terminator::Interact { choice: "ask".to_string(), branches: vec![], on_empty: "right".to_string() }).unwrap();
    let c = st.choice.as_ref().unwrap();
    assert_eq!(c.options.len(), 2);
    assert_eq!((c.options[0].label.as_str(), c.options[0].enabled, c.options[1].enabled), ("Yes\n", true, false));
    assert_eq!((c.interaction, c.deadline_us), (10, Some(Micros(105))));
    assert_eq!(trace_events(&st), vec!["checkpoint"]);
    let mut st = state();
    terminate(&mut st, &p, &Terminator::Interact { choice: "closed".to_string(), branches: vec![], on_empty: "right".to_string() }).unwrap();
    assert!(st.choice.is_none());
    assert_eq!(st.frames[0].block, "right");
}

#[test]
fn activation_starts_dialogue_lines() {
    let p = program();
    let mut st = state();
    terminate(&mut st, &p, &Terminator::Activate { cue: "open".to_string(), next: "left".to_string() }).unwrap();
    let pc = st.pending.as_ref().unwrap();
    assert_eq!((pc.id, pc.dialogues.len()), (10, 1));
    let d = &pc.dialogues[0].1;
    assert_eq!((d.speaker.as_str(), d.revision, d.interaction), ("Ann", 4, 11));
    assert_eq!(d.spans[1].text, "\u{2068}-12\u{2069}");
    assert_eq!(st.next_id, 12);
    assert_eq!(trace_events(&st), vec!["prepare 10 open"]);
}
