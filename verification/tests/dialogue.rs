use nir::dialogue::{Dialogue, Frame, FrozenSpan};
use nir::eval::{location, next_id};
use nir::format::Micros;

fn span(id: &str, text: &str, gate: bool) -> FrozenSpan {
    FrozenSpan { id: id.to_string(), text: text.to_string(), emphasis: false, gate }
}

fn line() -> Dialogue {
    Dialogue {
        text_id: "intro".to_string(),
        revision: 1,
        locale: "en".to_string(),
        speaker: String::new(),
        spans: vec![span("a", "Hi", false), span("g", "", true), span("b", "e\u{301}!", false)],
        span: 0,
        cluster: 0,
        at_gate: false,
        awaiting_advance: false,
        last_reveal_us: Micros(0),
        interaction: 1,
    }
}

#[test]
fn reveal_goes_one_cluster_at_a_time_and_stops_at_gates() {
    let mut d = line();
    assert_eq!(d.advance_reveal(false, Micros(10)), None);
    assert_eq!(d.visible_text(), "H");
    assert_eq!(d.advance_reveal(false, Micros(20)), None);
    assert_eq!(d.visible_text(), "Hi");
    assert_eq!(d.advance_reveal(false, Micros(30)), Some("g".to_string()));
    assert!(d.at_gate);
    assert_eq!(d.last_reveal_us, Micros(30));
    assert_eq!(d.advance_reveal(false, Micros(40)), None);
    assert_eq!(d.last_reveal_us, Micros(30));
    d.at_gate = false;
    d.span = 2;
    d.cluster = 0;
    assert_eq!(d.advance_reveal(true, Micros(50)), None);
    assert!(d.awaiting_advance);
    assert_eq!(d.visible_text(), d.full_text());
    assert_eq!(d.full_text(), "Hie\u{301}!");
}

#[test]
fn reveal_until_gate_skips_to_the_gate() {
    let mut d = line();
    assert_eq!(d.advance_reveal(true, Micros(5)), Some("g".to_string()));
    assert_eq!((d.span, d.cluster), (1, 0));
    assert_eq!(d.visible_text(), "Hi");
}

#[test]
fn locations_and_instance_ids() {
    let f = Frame {
        id: 1,
        function: "main".to_string(),
        block: "entry".to_string(),
        op: 12,
        op_id: "op".to_string(),
        locals: vec![],
        return_to: None,
        result: None,
    };
    assert_eq!(location(&vec![]), "end");
    assert_eq!(location(&vec![f]), "main/entry/12");
    let mut counter = 7u32;
    assert_eq!(next_id(&mut counter, "at").unwrap(), 7);
    assert_eq!(counter, 8);
    let mut full = u32::MAX;
    let e = next_id(&mut full, "main/entry/0").unwrap_err();
    assert_eq!((e.code.as_str(), e.message.as_str()), ("E_LIMIT", "instance counter overflow"));
}
