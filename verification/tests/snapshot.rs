use nir::format::{
    Asset, AssetKind, AudioBus, Block, Choice, ChoiceOption, Cue, Effect, EffectDef, Expr, Function, Micros, Milestone, Node, Op,
    Operation, Scope, Stage, Terminator, Value, ValueType,
};
use nir::dialogue::{OfferedChoice, OfferedOption, TaskState};
use nir::locale::{LocaleConfig, LocaleFontPlan};
use nir::dialogue::Frame;
use nir::snapshot::{check_restore, check_restore_head, restore, SavedTask, Snapshot};
use nir::source::Program;
use nir::dialogue::Waiting;
use nir::waits::{resolve_wait, take_answer};
use nir::dialogue::CoreIntent;

fn program() -> Program {
    let plan = LocaleFontPlan { fonts: vec![], digest: String::new() };
    let block = Block {
        ops: vec![Op { id: "set".to_string(), operation: Operation::Assign { target: "flag".to_string(), value: Expr::Const { value: Value::Bool(true) } } }],
        terminator: Terminator::End { outcome: "done".to_string() },
    };
    let main = Function {
        params: vec![("who".to_string(), ValueType::String)],
        locals: vec![("n".to_string(), ValueType::I32)],
        returns: None,
        entry: "start".to_string(),
        blocks: vec![
            ("start".to_string(), block),
            ("ask".to_string(), Block { ops: vec![], terminator: Terminator::Interact { choice: "q".to_string(), branches: vec![], on_empty: "start".to_string() } }),
        ],
    };
    Program {
        format: 1,
        game_id: "demo".to_string(),
        revision: "7".to_string(),
        entry: "main".to_string(),
        requires: vec![],
        stage: Stage { width: 1280, height: 720 },
        variables: vec![("flag".to_string(), Value::Bool(false))],
        functions: vec![("main".to_string(), main)],
        scenes: vec![],
        cues: vec![("open".to_string(), Cue { effects: vec![music()] })],
        choices: vec![(
            "q".to_string(),
            Choice { options: vec![ChoiceOption { id: "yes".to_string(), text: "t".to_string(), visible: None, enabled: None }], timeout_us: None, default: None },
        )],
        texts: vec![],
        locales: vec![("en".to_string(), vec![])],
        locale_config: LocaleConfig {
            default_ui: "en".to_string(),
            default_text: "en".to_string(),
            ui: vec![("en".to_string(), plan.clone())],
            text: vec![("en".to_string(), plan)],
        },
        assets: vec![("bg".to_string(), Asset { kind: AssetKind::Image, object: String::new(), bytes: 1, width: 1, height: 1, duration_us: Micros(0), decoded_bytes: 4 })],
        default_locale: "en".to_string(),
        title_scene: None,
    }
}

fn frame(id: u32, op: usize, op_id: &str) -> Frame {
    Frame {
        id,
        function: "main".to_string(),
        block: "start".to_string(),
        op,
        op_id: op_id.to_string(),
        locals: vec![("n".to_string(), Value::I32(3)), ("who".to_string(), Value::String("Ann".to_string()))],
        return_to: None,
        result: None,
    }
}

fn head() -> Snapshot {
    Snapshot {
        format: 1,
        game_id: "demo".to_string(),
        revision: "7".to_string(),
        release: "r1".to_string(),
        locale: "en".to_string(),
        variables: vec![("flag".to_string(), Value::Bool(true))],
        frames: vec![frame(1, 0, "set")],
        scene: vec![],
        draft: vec![],
        tick_us: nir::format::Micros(0),
        tasks: vec![],
        handles: vec![],
        pending: None,
        waiting: None,
        choice: None,
        history_len: 0,
        next_id: 2,
        scene_generation: 0,
        last_input: 0,
        outcome: None,
        fault: None,
        unsuspended_ops: 0,
    }
}

fn message(p: &Program, s: &Snapshot, release: &str) -> String {
    let d = check_restore_head(p, s, release).unwrap_err();
    assert_eq!((d.code.as_str(), d.location.as_str()), ("E_SNAPSHOT", "restore"));
    d.message
}

#[test]
fn matching_state_passes() {
    assert!(check_restore_head(&program(), &head(), "r1").is_ok());
    let mut s = head();
    s.frames = vec![frame(1, 1, "@terminator")];
    assert!(check_restore_head(&program(), &s, "r1").is_ok());
}

#[test]
fn other_release_or_revision_is_incompatible() {
    assert_eq!(message(&program(), &head(), "r2"), "incompatible content/release");
    let mut s = head();
    s.revision = "8".to_string();
    assert_eq!(message(&program(), &s, "r1"), "incompatible content/release");
}

#[test]
fn unknown_locale_or_no_frame_breaks_limits() {
    let mut s = head();
    s.locale = "fr".to_string();
    assert_eq!(message(&program(), &s, "r1"), "state limits/locale");
    let mut s = head();
    s.frames.clear();
    assert_eq!(message(&program(), &s, "r1"), "state limits/locale");
}

#[test]
fn variables_must_keep_their_types() {
    let mut s = head();
    s.variables[0].1 = Value::I32(1);
    assert_eq!(message(&program(), &s, "r1"), "variable layout");
}

#[test]
fn frames_must_address_real_operations_with_fresh_ids() {
    let mut s = head();
    s.frames[0].function = "gone".to_string();
    assert_eq!(message(&program(), &s, "r1"), "missing function");
    let mut s = head();
    s.frames[0].block = "gone".to_string();
    assert_eq!(message(&program(), &s, "r1"), "missing block");
    let mut s = head();
    s.frames[0].op_id = "other".to_string();
    assert_eq!(message(&program(), &s, "r1"), "invalid frame address/identity");
    let mut s = head();
    s.frames.push(frame(1, 0, "set"));
    assert_eq!(message(&program(), &s, "r1"), "invalid frame address/identity");
    let mut s = head();
    s.frames[0].id = 2;
    assert_eq!(message(&program(), &s, "r1"), "invalid frame address/identity");
}

#[test]
fn locals_must_match_declared_slots() {
    let mut s = head();
    s.frames[0].locals.push(("n2".to_string(), Value::Bool(true)));
    assert_eq!(message(&program(), &s, "r1"), "local layout");
}

fn music() -> EffectDef {
    EffectDef { id: "music".to_string(), scope: Scope::Frame, effect: Effect::Audio { asset: "rain".to_string(), bus: AudioBus::Bgm, looped: true } }
}

fn node(id: &str, parent: Option<&str>, asset: Option<&str>) -> Node {
    Node {
        id: id.to_string(),
        parent: parent.map(|s| s.to_string()),
        asset: asset.map(|s| s.to_string()),
        x_bits: 0,
        y_bits: 0,
        width_bits: 0,
        height_bits: 0,
        scale_bits: 1.0f32.to_bits(),
        opacity_bits: 1.0f32.to_bits(),
        color_bits: [1.0f32.to_bits(); 4],
        order: 0,
        clip_bits: None,
    }
}

fn task(id: u32) -> SavedTask {
    let def = music();
    SavedTask {
        id,
        name: def.id,
        frame: 1,
        scene_generation: 0,
        scope: def.scope,
        effect: def.effect,
        state: TaskState::Running,
        started_us: Micros(10),
        elapsed_us: Micros(30),
        milestones: vec![Milestone::Started],
        captured_bits: 0,
        base_bits: 0,
        dialogue: None,
        source: vec![],
        target: vec![],
    }
}

fn full() -> Snapshot {
    let mut s = head();
    s.tick_us = Micros(40);
    s.next_id = 5;
    s.tasks = vec![(3, task(3))];
    s.handles = vec![("music".to_string(), 3)];
    s.scene = vec![node("bg", None, Some("bg")), node("fg", Some("bg"), None)];
    s
}

fn refusal(s: &Snapshot) -> String {
    let d = check_restore(&program(), s, "r1").unwrap_err();
    assert_eq!((d.code.as_str(), d.location.as_str()), ("E_SNAPSHOT", "restore"));
    d.message
}

#[test]
fn consistent_state_restores() {
    assert!(check_restore(&program(), &full(), "r1").is_ok());
}

#[test]
fn tasks_must_be_filed_fresh_and_declared() {
    let mut s = full();
    s.tasks[0].0 = 4;
    assert_eq!(refusal(&s), "task state");
    let mut s = full();
    s.tasks[0].1.id = 1;
    s.tasks[0].0 = 1;
    assert_eq!(refusal(&s), "task state");
    let mut s = full();
    s.tasks[0].1.name = "voice".to_string();
    assert_eq!(refusal(&s), "task does not match a declared effect");
    let mut s = full();
    s.tasks[0].1.frame = 9;
    assert_eq!(refusal(&s), "orphan frame task");
    let mut s = full();
    s.tasks[0].1.elapsed_us = Micros(29);
    assert_eq!(refusal(&s), "task progress mismatch");
    let mut s = full();
    s.tasks[0].1.state = TaskState::Finished;
    assert_eq!(refusal(&s), "task terminal milestone mismatch");
}

#[test]
fn handles_need_their_tasks() {
    let mut s = full();
    s.handles.push(("voice".to_string(), 8));
    assert_eq!(refusal(&s), "dangling task handle");
}

#[test]
fn return_addresses_are_checked() {
    let mut s = full();
    s.frames[0].return_to = Some("start".to_string());
    assert_eq!(refusal(&s), "root return address");
}

#[test]
fn choice_must_continue_an_interaction() {
    let offered = |interaction: u32| OfferedChoice {
        id: "q".to_string(),
        locale: "en".to_string(),
        interaction,
        options: vec![OfferedOption { id: "yes".to_string(), label: "Yes".to_string(), enabled: true }],
        branches: vec![],
        deadline_us: None,
        default: None,
    };
    let mut s = full();
    s.choice = Some(offered(4));
    assert_eq!(refusal(&s), "choice continuation mismatch");
    s.frames[0].block = "ask".to_string();
    s.frames[0].op_id = "@terminator".to_string();
    assert!(check_restore(&program(), &s, "r1").is_ok());
    let restored = restore(&program(), s, "r1").unwrap();
    assert_eq!((restored.choice.as_ref().unwrap().interaction, restored.next_id), (5, 6));
}

#[test]
fn saved_scenes_are_checked() {
    let mut s = full();
    s.scene.push(node("bg", None, None));
    assert_eq!(refusal(&s), "duplicate scene node");
    let mut s = full();
    s.scene[1].asset = Some("gone".to_string());
    assert_eq!(refusal(&s), "scene asset missing");
    let mut s = full();
    s.scene[0].parent = Some("fg".to_string());
    assert_eq!(refusal(&s), "scene cycle");
    let mut s = full();
    s.scene[1].parent = Some("gone".to_string());
    assert_eq!(refusal(&s), "scene parent missing");
    let mut s = full();
    s.draft = vec![node("x", None, None)];
    s.draft[0].opacity_bits = 2.0f32.to_bits();
    assert_eq!(refusal(&s), "invalid scene values");
}

#[test]
fn restore_rejects_mismatched_release() {
    assert!(check_restore(&program(), &full(), "another").is_err());
    assert!(restore(&program(), full(), "another").is_err());
}

#[test]
fn finished_state_restores_with_its_outcome() {
    let mut s = full();
    s.outcome = Some("home".to_string());
    s.scene_generation = 3;
    s.last_input = 9;
    let r = restore(&program(), s, "r1").unwrap();
    assert_eq!(r.outcome.as_deref(), Some("home"));
    assert_eq!((r.scene_generation, r.last_input), (3, 9));
}

fn waiting_on(conditions: Vec<(u32, Milestone)>, tasks: Vec<SavedTask>) -> Snapshot {
    let mut s = head();
    s.tasks = tasks.into_iter().map(|t| (t.id, t)).collect();
    s.waiting = Some(Waiting {
        conditions,
        next: "ask".to_string(),
        on_cancelled: "cancelled".to_string(),
        on_failed: "failed".to_string(),
    });
    s
}

fn task_in(id: u32, state: TaskState, milestones: Vec<Milestone>) -> SavedTask {
    let mut t = task(id);
    t.state = state;
    t.milestones = milestones;
    t
}

#[test]
fn wait_continues_once_every_milestone_is_reached() {
    let mut s = waiting_on(
        vec![(1, Milestone::Started), (2, Milestone::Marker("cliff".to_string()))],
        vec![
            task_in(1, TaskState::Running, vec![Milestone::Started]),
            task_in(2, TaskState::Running, vec![Milestone::Started, Milestone::Marker("cliff".to_string())]),
        ],
    );
    assert_eq!(resolve_wait(&program(), &mut s).unwrap(), true);
    assert!(s.waiting.is_none());
    assert_eq!((s.frames[0].block.as_str(), s.frames[0].op, s.frames[0].op_id.as_str()), ("ask", 0, "@terminator"));
}

#[test]
fn wait_goes_on_while_a_milestone_is_missing() {
    let mut s = waiting_on(
        vec![(1, Milestone::Started), (2, Milestone::Finished)],
        vec![task_in(1, TaskState::Running, vec![Milestone::Started]), task_in(2, TaskState::Running, vec![Milestone::Started])],
    );
    assert_eq!(resolve_wait(&program(), &mut s).unwrap(), false);
    assert!(s.waiting.is_some());
    assert_eq!(s.frames[0].block, "start");
}

#[test]
fn failed_task_wins_over_cancelled_and_reached() {
    let mut s = waiting_on(
        vec![(1, Milestone::Started), (2, Milestone::Started)],
        vec![task_in(1, TaskState::Cancelled, vec![Milestone::Started]), task_in(2, TaskState::Failed, vec![Milestone::Started])],
    );
    assert_eq!(resolve_wait(&program(), &mut s).unwrap(), true);
    assert_eq!(s.frames[0].block, "failed");
}

#[test]
fn cancelled_task_wins_over_reached() {
    let mut s = waiting_on(vec![(1, Milestone::Started)], vec![task_in(1, TaskState::Cancelled, vec![Milestone::Started])]);
    assert_eq!(resolve_wait(&program(), &mut s).unwrap(), true);
    assert_eq!(s.frames[0].block, "cancelled");
}

#[test]
fn wait_on_a_missing_task_is_a_fault() {
    let mut s = waiting_on(vec![(1, Milestone::Started), (9, Milestone::Started)], vec![task_in(1, TaskState::Running, vec![Milestone::Started])]);
    let e = resolve_wait(&program(), &mut s).unwrap_err();
    assert_eq!((e.code.as_str(), e.location.as_str(), e.message.as_str()), ("E_TASK", "main/start/0", "wait references missing task"));
    assert!(s.waiting.is_some());
}

fn offered(s: &mut Snapshot) {
    s.last_input = 3;
    s.choice = Some(OfferedChoice {
        id: "q".to_string(),
        locale: "en".to_string(),
        interaction: 4,
        options: vec![
            OfferedOption { id: "yes".to_string(), label: "Yes".to_string(), enabled: true },
            OfferedOption { id: "no".to_string(), label: "No".to_string(), enabled: false },
        ],
        branches: vec![("yes".to_string(), "ask".to_string()), ("no".to_string(), "start".to_string())],
        deadline_us: None,
        default: None,
    });
}

#[test]
fn answer_moves_to_its_branch_and_checkpoints() {
    let mut s = head();
    offered(&mut s);
    s.unsuspended_ops = 9;
    let mut intents = Vec::new();
    assert!(take_answer(&program(), &mut s, &mut intents, 4, "yes", 5));
    assert!(s.choice.is_none());
    assert_eq!((s.last_input, s.unsuspended_ops), (5, 0));
    assert_eq!((s.frames[0].block.as_str(), s.frames[0].op), ("ask", 0));
    assert_eq!(intents.len(), 2);
    match &intents[0] {
        CoreIntent::Trace { event, at } => assert_eq!((event.as_str(), at.as_str()), ("choose:yes", "main/start/0")),
        _ => panic!("expected a trace"),
    }
    assert!(matches!(intents[1], CoreIntent::Checkpoint));
}

#[test]
fn stale_disabled_or_foreign_answers_are_ignored() {
    for (interaction, option, sequence) in [(4, "yes", 3), (4, "no", 5), (5, "yes", 5), (4, "maybe", 5)] {
        let mut s = head();
        offered(&mut s);
        let mut intents = Vec::new();
        assert!(!take_answer(&program(), &mut s, &mut intents, interaction, option, sequence));
        assert!(s.choice.is_some());
        assert_eq!((s.last_input, s.frames[0].block.as_str()), (3, "start"));
        assert!(intents.is_empty());
    }
}

#[test]
fn repeated_answer_changes_nothing() {
    let mut s = head();
    offered(&mut s);
    let mut intents = Vec::new();
    assert!(take_answer(&program(), &mut s, &mut intents, 4, "yes", 5));
    let block = s.frames[0].block.clone();
    offered(&mut s);
    s.last_input = 5;
    assert!(!take_answer(&program(), &mut s, &mut intents, 4, "yes", 5));
    assert_eq!((s.frames[0].block.clone(), intents.len()), (block, 2));
}
