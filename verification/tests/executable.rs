use nir::executable::{compile, cue_assets, validate_executable, ProgramTables};
use nir::format::{
    Asset, AssetKind, AudioBus, Block, Cue, Effect, EffectDef, Expr, Function, Micros, Node, Op, Operation, Scope,
    Terminator, Value,
};

fn node(id: &str, asset: Option<&str>) -> Node {
    Node {
        id: id.to_string(),
        parent: None,
        asset: asset.map(|a| a.to_string()),
        x_bits: 0,
        y_bits: 0,
        width_bits: 0,
        height_bits: 0,
        scale_bits: 1.0f32.to_bits(),
        opacity_bits: 1.0f32.to_bits(),
        color_bits: [1.0f32.to_bits(); 4],
        order: 0,
        clip_bits: None,
    }
}

fn assign(id: &str) -> Op {
    Op { id: id.to_string(), operation: Operation::Assign { target: "x".to_string(), value: Expr::Const { value: Value::I32(1) } } }
}

fn block(ops: Vec<Op>, next: &str) -> Block {
    Block { ops, terminator: Terminator::Goto { target: next.to_string() } }
}

fn tables() -> ProgramTables {
    let main = Function {
        params: vec![],
        locals: vec![],
        returns: None,
        entry: "a".to_string(),
        blocks: vec![
            ("a".to_string(), block(vec![assign("op1"), assign("op2")], "b")),
            ("b".to_string(), Block { ops: vec![], terminator: Terminator::End { outcome: "done".to_string() } }),
        ],
    };
    let cue = Cue {
        effects: vec![
            EffectDef { id: "stage".to_string(), scope: Scope::Scene, effect: Effect::StagePresent { scene: "garden".to_string(), duration_us: Micros(0) } },
            EffectDef { id: "music".to_string(), scope: Scope::Session, effect: Effect::Audio { asset: "rain".to_string(), bus: AudioBus::Bgm, looped: true } },
        ],
    };
    let font = Asset { kind: AssetKind::Font, object: "f".to_string(), bytes: 1, width: 0, height: 0, duration_us: Micros(0), decoded_bytes: 0 };
    ProgramTables {
        functions: vec![("main".to_string(), main)],
        scenes: vec![("garden".to_string(), vec![node("bg", Some("garden.png")), node("frame", None), node("fg", Some("garden.png"))])],
        cues: vec![("open".to_string(), cue)],
        assets: vec![("ui-font".to_string(), font)],
    }
}

#[test]
fn compiled_index_has_one_address_per_op_and_terminator() {
    let e = compile(tables()).unwrap();
    let keys: Vec<String> = e.addresses.iter().map(|a| a.key()).collect();
    assert_eq!(keys, vec!["main/a/op1", "main/a/op2", "main/a/@terminator", "main/b/@terminator"]);
    assert_eq!(e.addresses[2].op, 2);
    assert_eq!(e.resume_map.len(), 4);
    assert_eq!(e.semantic_cost_map, vec![1, 1, 1, 1]);
    let mut recipe = e.activation_recipes[0].1.clone();
    recipe.sort();
    assert_eq!(recipe, vec!["garden.png".to_string(), "rain".to_string(), "ui-font".to_string()]);
    assert!(validate_executable(&e).is_ok());
}

#[test]
fn repeated_stable_ids_are_rejected() {
    let mut t = tables();
    t.functions[0].1.blocks[0].1.ops[1].id = "op1".to_string();
    let d = compile(t).unwrap_err();
    assert_eq!(d.code, "E_EXECUTABLE");
    assert_eq!(d.message, "invalid index, recovery map, cost or recipe");
}

#[test]
fn tampered_indexes_are_rejected() {
    let e = compile(tables()).unwrap();
    let mut bad = e.clone();
    bad.semantic_cost_map[1] = 2;
    assert!(validate_executable(&bad).is_err());
    let mut bad = e.clone();
    bad.resume_map[0].1 = 3;
    assert!(validate_executable(&bad).is_err());
    let mut bad = e.clone();
    bad.activation_recipes[0].1.pop();
    assert!(validate_executable(&bad).is_err());
    let mut bad = e.clone();
    bad.format = 2;
    assert!(validate_executable(&bad).is_err());
}

#[test]
fn unknown_cues_activate_only_fonts() {
    assert_eq!(cue_assets(&tables(), "missing"), vec!["ui-font".to_string()]);
}
