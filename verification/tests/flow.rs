use nir::flow::{parses_i32, task_definitions, validate_functions, validate_runtime_function, FunctionScope, Signature};
use nir::format::{
    AudioBus, Block, Choice, ChoiceOption, Cue, Diagnostic, Effect, EffectDef, Expr, Function, Micros, Milestone, Op,
    Operation, Property, Scope, Terminator, TextContract, Value, ValueType, WaitCondition,
};

fn var(n: &str) -> Expr {
    Expr::Var { name: n.to_string() }
}

fn num(v: i32) -> Expr {
    Expr::Const { value: Value::I32(v) }
}

fn assign(id: &str, target: &str, value: Expr) -> Op {
    Op { id: id.to_string(), operation: Operation::Assign { target: target.to_string(), value } }
}

fn goto(t: &str) -> Terminator {
    Terminator::Goto { target: t.to_string() }
}

fn end() -> Terminator {
    Terminator::End { outcome: "done".to_string() }
}

fn function(blocks: Vec<(&str, Vec<Op>, Terminator)>) -> Function {
    Function {
        params: vec![("n".to_string(), ValueType::I32)],
        locals: vec![("x".to_string(), ValueType::I32), ("s".to_string(), ValueType::String)],
        returns: None,
        entry: "start".to_string(),
        blocks: blocks.into_iter().map(|(k, ops, terminator)| (k.to_string(), Block { ops, terminator })).collect(),
    }
}

fn contract(gates: Vec<&str>) -> TextContract {
    TextContract {
        source_revision: 1,
        contract_revision: 1,
        meaning_revision: 1,
        contract_digest: String::new(),
        gates: gates.into_iter().map(String::from).collect(),
        params: vec![],
    }
}

struct Tables {
    cues: Vec<(String, Cue)>,
    choices: Vec<(String, Choice)>,
    texts: Vec<(String, TextContract)>,
}

fn tables() -> Tables {
    Tables {
        cues: vec![("intro".to_string(), Cue { effects: vec![] }), ("other".to_string(), Cue { effects: vec![] })],
        choices: vec![(
            "pick".to_string(),
            Choice {
                options: vec![
                    ChoiceOption { id: "yes".to_string(), text: "t1".to_string(), visible: None, enabled: None },
                    ChoiceOption { id: "no".to_string(), text: "t1".to_string(), visible: None, enabled: None },
                ],
                timeout_us: None,
                default: None,
            },
        )],
        texts: vec![("t1".to_string(), contract(vec!["beat"]))],
    }
}

fn scope(t: &Tables) -> FunctionScope<'_> {
    FunctionScope {
        runtime: true,
        variables: vec![("flag".to_string(), ValueType::Bool)],
        signatures: vec![(
            "helper".to_string(),
            Signature { params: vec![("a".to_string(), ValueType::I32)], returns: Some(ValueType::String) },
        )],
        module: Some("m".to_string()),
        cue_owners: vec![("intro".to_string(), "m".to_string()), ("other".to_string(), "z".to_string())],
        task_owners: vec![("music".to_string(), "m".to_string()), ("line".to_string(), "m".to_string())],
        choice_owners: vec![("pick".to_string(), "m".to_string())],
        cues: &t.cues,
        tasks: vec![
            ("music".to_string(), vec![Effect::Audio { asset: "bgm".to_string(), bus: AudioBus::Bgm, looped: true }]),
            (
                "line".to_string(),
                vec![Effect::Dialogue { text: "t1".to_string(), speaker: "a".to_string(), reveal_us: Micros(0) }],
            ),
        ],
        choices: &t.choices,
        texts: &t.texts,
    }
}

fn passes(f: &Function) -> bool {
    let t = tables();
    validate_runtime_function(&scope(&t), "main", f).is_ok()
}

fn parts(d: Diagnostic) -> (String, String, String) {
    (d.code, d.location, d.message)
}

fn fails(f: &Function) -> (String, String, String) {
    let t = tables();
    parts(validate_runtime_function(&scope(&t), "main", f).unwrap_err())
}

fn expect(f: &Function, code: &str, at: &str, message: &str) {
    assert_eq!(fails(f), (code.to_string(), at.to_string(), message.to_string()));
}

fn wait(task: &str, milestone: Milestone) -> Terminator {
    Terminator::Await {
        conditions: vec![WaitCondition { task: task.to_string(), milestone }],
        next: "done".to_string(),
        on_cancelled: "done".to_string(),
        on_failed: "done".to_string(),
    }
}

#[test]
fn a_well_formed_function_passes() {
    let f = function(vec![
        ("start", vec![assign("o1", "x", var("n"))], Terminator::Branch {
            condition: var("flag"),
            yes: "call".to_string(),
            no: "done".to_string(),
        }),
        ("call", vec![], Terminator::Call {
            function: "helper".to_string(),
            args: vec![("a".to_string(), var("x"))],
            next: "done".to_string(),
            result: Some("s".to_string()),
        }),
        ("done", vec![], end()),
    ]);
    assert!(passes(&f));
}

#[test]
fn entry_and_block_edges_must_exist() {
    let mut f = function(vec![("start", vec![], end())]);
    f.entry = "nowhere".to_string();
    expect(&f, "E_BLOCK", "main", "invalid entry/block limit");
    let f = function(vec![("start", vec![], goto("gone"))]);
    expect(&f, "E_BLOCK", "main/start", "gone");
}

#[test]
fn parameters_and_locals_are_new_names() {
    let mut f = function(vec![("start", vec![], end())]);
    f.locals.push(("flag".to_string(), ValueType::Bool));
    expect(&f, "E_DUPLICATE", "main", "flag");
    let mut f = function(vec![("start", vec![], end())]);
    f.locals.push(("n".to_string(), ValueType::I32));
    expect(&f, "E_DUPLICATE", "main", "n");
}

#[test]
fn operation_ids_are_unique_across_blocks() {
    let f = function(vec![
        ("start", vec![assign("o1", "x", num(1))], goto("next")),
        ("next", vec![assign("o1", "x", num(2))], end()),
    ]);
    expect(&f, "E_DUPLICATE", "main/next", "o1");
}

#[test]
fn operations_are_typed() {
    let f = function(vec![("start", vec![assign("o1", "x", var("flag"))], end())]);
    expect(&f, "E_TYPE", "o1", "x");
    let f = function(vec![("start", vec![assign("o1", "x", var("ghost"))], end())]);
    expect(&f, "E_VARIABLE", "o1", "ghost");
    let draw = Op { id: "r1".to_string(), operation: Operation::Random { target: "x".to_string(), min: 5, max: 1 } };
    expect(&function(vec![("start", vec![draw], end())]), "E_RANDOM", "r1", "invalid bounds/target");
    let patch = Op {
        id: "p1".to_string(),
        operation: Operation::DraftPatch { node: "bg".to_string(), property: Property::X, value_bits: f32::NAN.to_bits() },
    };
    expect(&function(vec![("start", vec![patch], end())]), "E_VISUAL", "p1", "non-finite patch");
    let patch = Op {
        id: "p1".to_string(),
        operation: Operation::DraftPatch { node: "bg".to_string(), property: Property::X, value_bits: 1.5f32.to_bits() },
    };
    assert!(passes(&function(vec![("start", vec![patch], end())])));
}

#[test]
fn branches_and_switches_are_typed() {
    let f = function(vec![
        ("start", vec![], Terminator::Branch { condition: var("n"), yes: "start".to_string(), no: "start".to_string() }),
    ]);
    expect(&f, "E_TYPE", "main/start", "branch requires Bool");
    let switch = |key: &str| {
        function(vec![
            ("start", vec![], Terminator::Switch {
                value: var("n"),
                cases: vec![(key.to_string(), "done".to_string())],
                default: "done".to_string(),
            }),
            ("done", vec![], end()),
        ])
    };
    assert!(passes(&switch("-2147483648")));
    assert!(passes(&switch("+7")));
    expect(&switch("2147483648"), "E_TYPE", "main/start", "switch requires I32 or String keys");
    expect(&switch("seven"), "E_TYPE", "main/start", "switch requires I32 or String keys");
}

#[test]
fn switch_keys_read_as_i32() {
    assert!(parses_i32("0"));
    assert!(parses_i32("-0042"));
    assert!(parses_i32("2147483647"));
    assert!(!parses_i32("2147483648"));
    assert!(parses_i32("-2147483648"));
    assert!(!parses_i32("-2147483649"));
    assert!(!parses_i32(""));
    assert!(!parses_i32("-"));
    assert!(!parses_i32("1_000"));
    assert!(!parses_i32(" 1"));
}

#[test]
fn calls_match_the_callee_signature() {
    let call = |function: &str, args: Vec<(&str, Expr)>, result: Option<&str>| {
        self::function(vec![
            ("start", vec![], Terminator::Call {
                function: function.to_string(),
                args: args.into_iter().map(|(k, e)| (k.to_string(), e)).collect(),
                next: "done".to_string(),
                result: result.map(String::from),
            }),
            ("done", vec![], end()),
        ])
    };
    expect(&call("missing", vec![], None), "E_FUNCTION", "main/start", "missing");
    expect(&call("helper", vec![], None), "E_CALL", "main/start", "argument count");
    expect(&call("helper", vec![("b", num(1))], None), "E_CALL", "main/start", "a");
    expect(&call("helper", vec![("a", var("flag"))], None), "E_TYPE", "main/start", "a");
    expect(&call("helper", vec![("a", num(1))], Some("x")), "E_TYPE", "main/start", "return target");
    assert!(passes(&call("helper", vec![("a", num(1))], None)));
}

#[test]
fn returns_match_the_function_type() {
    let f = function(vec![("start", vec![], Terminator::Return { value: Some(var("n")) })]);
    expect(&f, "E_TYPE", "main/start", "return type");
    let mut g = function(vec![("start", vec![], Terminator::Return { value: Some(var("n")) })]);
    g.returns = Some(ValueType::I32);
    assert!(passes(&g));
}

#[test]
fn cues_tasks_and_choices_belong_to_the_module() {
    let activate = |cue: &str| {
        function(vec![
            ("start", vec![], Terminator::Activate { cue: cue.to_string(), next: "done".to_string() }),
            ("done", vec![], end()),
        ])
    };
    assert!(passes(&activate("intro")));
    expect(&activate("other"), "E_CUE", "main/start", "other");
    expect(&activate("nothing"), "E_CUE", "main/start", "nothing");
    let f = function(vec![
        ("start", vec![], Terminator::Await {
            conditions: vec![],
            next: "done".to_string(),
            on_cancelled: "done".to_string(),
            on_failed: "done".to_string(),
        }),
        ("done", vec![], end()),
    ]);
    expect(&f, "E_TASK", "main/start", "unknown, unloaded or cross-module task wait");
    let f = function(vec![("start", vec![], wait("nobody", Milestone::Started)), ("done", vec![], end())]);
    expect(&f, "E_TASK", "main/start", "unknown, unloaded or cross-module task wait");
}

#[test]
fn waits_must_be_able_to_end() {
    let f = function(vec![("start", vec![], wait("music", Milestone::Finished)), ("done", vec![], end())]);
    expect(&f, "E_INFINITE_WAIT", "main/start", "music");
    let f = function(vec![("start", vec![], wait("line", Milestone::Marker("cliff".to_string()))), ("done", vec![], end())]);
    expect(&f, "E_MILESTONE", "main/start", "cliff");
    let f = function(vec![("start", vec![], wait("line", Milestone::Marker("beat".to_string()))), ("done", vec![], end())]);
    assert!(passes(&f));
}

#[test]
fn choices_cover_every_option() {
    let interact = |branches: Vec<&str>| {
        function(vec![
            ("start", vec![], Terminator::Interact {
                choice: "pick".to_string(),
                branches: branches.into_iter().map(|b| (b.to_string(), "done".to_string())).collect(),
                on_empty: "done".to_string(),
            }),
            ("done", vec![], end()),
        ])
    };
    assert!(passes(&interact(vec!["yes", "no"])));
    expect(&interact(vec!["yes"]), "E_CHOICE", "main/start", "branch coverage");
    expect(&interact(vec!["yes", "maybe"]), "E_CHOICE", "main/start", "branch coverage");
}

#[test]
fn reads_come_after_assignment() {
    let f = function(vec![("start", vec![assign("o1", "n", var("x"))], end())]);
    expect(&f, "E_UNINITIALIZED", "o1", "x");
}

fn source_scope(t: &Tables) -> FunctionScope<'_> {
    let mut s = scope(t);
    s.runtime = false;
    s.module = None;
    s.cue_owners = vec![];
    s.task_owners = vec![];
    s.choice_owners = vec![];
    s
}

#[test]
fn task_table_collects_effects_by_id_across_cues() {
    let def = |id: &str, effect: Effect| EffectDef { id: id.to_string(), scope: Scope::Session, effect };
    let cues = vec![
        ("a".to_string(), Cue {
            effects: vec![
                def("music", Effect::Audio { asset: "bgm".to_string(), bus: AudioBus::Bgm, looped: true }),
                def("pause", Effect::Delay { duration_us: Micros(5) }),
            ],
        }),
        ("b".to_string(), Cue {
            effects: vec![def("music", Effect::Audio { asset: "hit".to_string(), bus: AudioBus::Sfx, looped: false })],
        }),
    ];
    let table = task_definitions(&cues);
    assert_eq!(table.len(), 2);
    let music = &table.iter().find(|(k, _)| k == "music").unwrap().1;
    assert_eq!(music.len(), 2);
    assert!(matches!(&music[1], Effect::Audio { asset, looped: false, .. } if asset == "hit"));
    let pause = &table.iter().find(|(k, _)| k == "pause").unwrap().1;
    assert!(matches!(pause[0], Effect::Delay { duration_us: Micros(5) }));
}

#[test]
fn source_programs_check_waits_per_condition() {
    let t = tables();
    let s = source_scope(&t);
    let f = function(vec![
        ("start", vec![], Terminator::Await {
            conditions: vec![],
            next: "done".to_string(),
            on_cancelled: "done".to_string(),
            on_failed: "done".to_string(),
        }),
        ("done", vec![], end()),
    ]);
    let d = validate_functions(&s, &vec![("main".to_string(), f)]).unwrap_err();
    assert_eq!(parts(d), ("E_WAIT".to_string(), "main/start".to_string(), "empty All".to_string()));
    let f = function(vec![("start", vec![], wait("nobody", Milestone::Started)), ("done", vec![], end())]);
    let d = validate_functions(&s, &vec![("main".to_string(), f)]).unwrap_err();
    assert_eq!(parts(d), ("E_TASK".to_string(), "main/start".to_string(), "nobody".to_string()));
    let f = function(vec![
        ("start", vec![], Terminator::Activate { cue: "other".to_string(), next: "done".to_string() }),
        ("done", vec![], end()),
    ]);
    assert!(validate_functions(&s, &vec![("main".to_string(), f)]).is_ok());
}

#[test]
fn source_programs_keep_operation_ids_unique_across_functions() {
    let t = tables();
    let s = source_scope(&t);
    let a = function(vec![("start", vec![assign("o1", "x", num(1))], end())]);
    let b = function(vec![("start", vec![assign("o1", "x", num(2))], end())]);
    assert!(validate_runtime_function(&scope(&t), "b", &b).is_ok());
    let d = validate_functions(&s, &vec![("a".to_string(), a), ("b".to_string(), b)]).unwrap_err();
    assert_eq!(parts(d), ("E_DUPLICATE".to_string(), "b/start".to_string(), "o1".to_string()));
}

#[test]
fn runtime_code_rejects_unknown_task_and_invalid_dialogue_gate() {
    let t = tables();
    let mut s = scope(&t);
    s.task_owners.push(("m.work".to_string(), "m".to_string()));
    s.tasks.push(("m.work".to_string(), vec![Effect::Delay { duration_us: Micros(1) }]));
    let f = function(vec![("start", vec![], wait("m.work", Milestone::Marker("missing".to_string()))), ("done", vec![], end())]);
    assert_eq!(validate_runtime_function(&s, "m.main", &f).unwrap_err().code, "E_MILESTONE");
}

#[test]
fn runtime_code_rejects_interaction_branch_mismatch() {
    let mut t = tables();
    t.choices[0].1.options = vec![ChoiceOption { id: "yes".to_string(), text: "t1".to_string(), visible: None, enabled: None }];
    let s = scope(&t);
    let f = function(vec![
        ("start", vec![], Terminator::Interact {
            choice: "pick".to_string(),
            branches: vec![("no".to_string(), "done".to_string())],
            on_empty: "done".to_string(),
        }),
        ("done", vec![], end()),
    ]);
    assert_eq!(validate_runtime_function(&s, "m.main", &f).unwrap_err().code, "E_CHOICE");
}
