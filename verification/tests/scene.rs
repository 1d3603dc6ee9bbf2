use nir::format::{Asset, AssetKind, Micros, Node, MAX_NODES};
use nir::scene::validate_scene_nodes;

fn node(id: &str, parent: Option<&str>, asset: Option<&str>) -> Node {
    Node {
        id: id.to_string(),
        parent: parent.map(|p| p.to_string()),
        asset: asset.map(|a| a.to_string()),
        x_bits: 0,
        y_bits: 0,
        width_bits: 100.0f32.to_bits(),
        height_bits: 50.0f32.to_bits(),
        scale_bits: 1.0f32.to_bits(),
        opacity_bits: 1.0f32.to_bits(),
        color_bits: [1.0f32.to_bits(); 4],
        order: 0,
        clip_bits: None,
    }
}

fn assets() -> Vec<(String, Asset)> {
    let a = |kind| Asset { kind, object: "o".to_string(), bytes: 1, width: 1, height: 1, duration_us: Micros(0), decoded_bytes: 1 };
    vec![("bg".to_string(), a(AssetKind::Image)), ("song".to_string(), a(AssetKind::Audio))]
}

fn error(nodes: Vec<Node>) -> (String, String, String) {
    let d = validate_scene_nodes(&nodes, "garden", &assets()).unwrap_err();
    (d.code, d.location, d.message)
}

fn e(code: &str, message: &str) -> (String, String, String) {
    (code.to_string(), "garden".to_string(), message.to_string())
}

#[test]
fn a_tree_of_image_nodes_is_valid() {
    let nodes = vec![node("root", None, None), node("bg", Some("root"), Some("bg")), node("fg", Some("bg"), None)];
    assert!(validate_scene_nodes(&nodes, "garden", &assets()).is_ok());
}

#[test]
fn node_checks_come_in_order() {
    assert_eq!(error(vec![node("a", None, None), node("a", None, None)]), e("E_DUPLICATE", "a"));
    let mut wide = node("w", None, None);
    wide.width_bits = (-1.0f32).to_bits();
    assert_eq!(error(vec![wide]), e("E_VISUAL", "w"));
    let mut nan = node("n", None, None);
    nan.x_bits = f32::NAN.to_bits();
    assert_eq!(error(vec![nan]), e("E_VISUAL", "n"));
    let mut bright = node("o", None, None);
    bright.opacity_bits = 1.5f32.to_bits();
    assert_eq!(error(vec![bright]), e("E_VISUAL", "o"));
    let mut clipped = node("c", None, None);
    clipped.clip_bits = Some([0, 0, (-2.0f32).to_bits(), 0]);
    assert_eq!(error(vec![clipped]), e("E_VISUAL", "c"));
    assert_eq!(error(vec![node("s", None, Some("song"))]), e("E_ASSET_TYPE", "song"));
    assert_eq!(error(vec![node("s", None, Some("nothing"))]), e("E_ASSET_TYPE", "nothing"));
}

#[test]
fn negative_zero_size_and_opacity_are_accepted() {
    let mut n = node("z", None, None);
    n.width_bits = (-0.0f32).to_bits();
    n.opacity_bits = (-0.0f32).to_bits();
    assert!(validate_scene_nodes(&vec![n], "garden", &assets()).is_ok());
}

#[test]
fn parent_chains_must_end() {
    assert_eq!(error(vec![node("a", Some("a"), None)]), e("E_SCENE_CYCLE", "a"));
    assert_eq!(error(vec![node("a", Some("b"), None), node("b", Some("c"), None), node("c", Some("b"), None)]), e("E_SCENE_CYCLE", "b"));
    assert_eq!(error(vec![node("a", Some("ghost"), None)]), e("E_NODE", "ghost"));
}

#[test]
fn too_many_nodes_is_a_limit() {
    let nodes: Vec<Node> = (0..=MAX_NODES).map(|i| node(&format!("n{i}"), None, None)).collect();
    assert_eq!(error(nodes), e("E_LIMIT", "too many nodes"));
}
