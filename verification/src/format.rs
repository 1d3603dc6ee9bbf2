//! Versioned, platform-independent wire contracts.
use vstd::prelude::*;
use vstd::string::*;
use crate::strings::utf8_bytes;

verus! {

pub const FORMAT_VERSION: u32 = 1;
pub const SNAPSHOT_VERSION: u32 = 1;
pub const MAX_INPUT_BYTES: usize = 16777216;
pub const MAX_TASKS: usize = 256;
pub const MAX_FRAMES: usize = 64;
pub const MAX_NODES: usize = 1024;

/// A duration or instant in microseconds; on the wire it is a decimal string.
#[derive(Debug, Clone, Copy, PartialEq, Eq, Structural)]
pub struct Micros(pub u64);

/// True when `c` is an ASCII decimal digit.
pub open spec fn is_digit_byte(c: u8) -> bool {
    48 <= c && c <= 57
}

/// The number written by the ASCII decimal digits `b` (most significant first).
pub open spec fn decimal_value(b: Seq<u8>) -> nat
    decreases b.len(),
{
    if b.len() == 0 {
        0
    } else {
        decimal_value(b.drop_last()) * 10 + (b.last() - 48) as nat
    }
}

/// A well-formed wire duration: a nonempty string of ASCII digits.
pub open spec fn is_decimal_text(b: Seq<u8>) -> bool {
    b.len() > 0 && forall|i: int| 0 <= i < b.len() ==> is_digit_byte(#[trigger] b[i])
}

proof fn lemma_decimal_value_monotone(b: Seq<u8>)
    requires
        forall|i: int| 0 <= i < b.len() ==> is_digit_byte(#[trigger] b[i]),
        b.len() > 0,
    ensures
        decimal_value(b) >= decimal_value(b.drop_last()),
{
}

impl Micros {
    /// Parses the wire form: an unsigned decimal string that fits in `u64`.
    pub fn try_from(s: String) -> (r: Result<Micros, String>)
        ensures
            is_decimal_text(utf8_bytes(s@)) && decimal_value(utf8_bytes(s@))
                <= u64::MAX ==> r == Ok::<Micros, String>(
                Micros(decimal_value(utf8_bytes(s@)) as u64),
            ),
            !is_decimal_text(utf8_bytes(s@)) ==> r is Err && r->Err_0@
                == "E_TIME: expected unsigned decimal string"@,
            is_decimal_text(utf8_bytes(s@)) && decimal_value(utf8_bytes(s@))
                > u64::MAX ==> r is Err && r->Err_0@ == "E_TIME: u64 overflow"@,
    {
        let st = s.as_str();
        let b = st.as_bytes();
        assert(b@ == utf8_bytes(s@));
        let n = b.len();
        let mut i: usize = 0;
        while i < n
            invariant
                n == b@.len(),
                b@ == utf8_bytes(s@),
                i <= n,
                forall|j: int| 0 <= j < i ==> is_digit_byte(#[trigger] b@[j]),
            decreases n - i,
        {
            if !(b[i] >= 48 && b[i] <= 57) {
                proof {
                    reveal_strlit("E_TIME: expected unsigned decimal string");
                    reveal_strlit("E_TIME: u64 overflow");
                }
                return Err("E_TIME: expected unsigned decimal string".to_owned());
            }
            i = i + 1;
        }
        if n == 0 {
            proof {
                reveal_strlit("E_TIME: expected unsigned decimal string");
                reveal_strlit("E_TIME: u64 overflow");
            }
            return Err("E_TIME: expected unsigned decimal string".to_owned());
        }
        let mut v: u64 = 0;
        let mut k: usize = 0;
        while k < n
            invariant
                n == b@.len(),
                b@ == utf8_bytes(s@),
                k <= n,
                forall|j: int| 0 <= j < n ==> is_digit_byte(#[trigger] b@[j]),
                v as nat == decimal_value(b@.subrange(0, k as int)),
            decreases n - k,
        {
            proof {
                assert(b@.subrange(0, k + 1).drop_last() =~= b@.subrange(0, k as int));
            }
            let d = (b[k] - 48) as u64;
            match v.checked_mul(10) {
                Some(t) => match t.checked_add(d) {
                    Some(u) => {
                        v = u;
                    },
                    None => {
                        proof {
                            lemma_prefix_bound(b@, k as int + 1);
                            reveal_strlit("E_TIME: expected unsigned decimal string");
                            reveal_strlit("E_TIME: u64 overflow");
                        }
                        return Err("E_TIME: u64 overflow".to_owned());
                    },
                },
                None => {
                    proof {
                        lemma_prefix_bound(b@, k as int + 1);
                        reveal_strlit("E_TIME: expected unsigned decimal string");
                        reveal_strlit("E_TIME: u64 overflow");
                    }
                    return Err("E_TIME: u64 overflow".to_owned());
                },
            }
            k = k + 1;
        }
        proof {
            assert(b@.subrange(0, n as int) =~= b@);
        }
        Ok(Micros(v))
    }
}

/// Prefixes of a digit string never denote more than the whole string.
proof fn lemma_prefix_bound(b: Seq<u8>, k: int)
    requires
        0 <= k <= b.len(),
        forall|j: int| 0 <= j < b.len() ==> is_digit_byte(#[trigger] b[j]),
    ensures
        decimal_value(b.subrange(0, k)) <= decimal_value(b),
    decreases b.len() - k,
{
    if k < b.len() {
        lemma_prefix_bound(b, k + 1);
        assert(b.subrange(0, k + 1).drop_last() =~= b.subrange(0, k));
    } else {
        assert(b.subrange(0, k) =~= b);
    }
}


/// A structured failure report: a stable code, a logical location and a message.
#[derive(Debug, Clone)]
pub struct Diagnostic {
    pub code: String,
    pub location: String,
    pub message: String,
    pub details: Option<Box<DiagnosticDetails>>,
}

/// `d` carries exactly this code, location and message and no details.
pub open spec fn diag_is(d: Diagnostic, code: Seq<char>, location: Seq<char>, message: Seq<char>) -> bool {
    &&& d.code@ == code
    &&& d.location@ == location
    &&& d.message@ == message
    &&& d.details is None
}

/// `r` failed with exactly this code, location and message and no details.
pub open spec fn fails_with<T>(r: Result<T, Diagnostic>, code: Seq<char>, location: Seq<char>, message: Seq<char>) -> bool {
    match r {
        Ok(_) => false,
        Err(d) => diag_is(d, code, location, message),
    }
}

impl Diagnostic {
    /// A plain diagnostic without classification.
    pub fn new(code: &str, location: &str, message: &str) -> (d: Diagnostic)
        ensures
            diag_is(d, code@, location@, message@),
    {
        Diagnostic {
            code: code.to_owned(),
            location: location.to_owned(),
            message: message.to_owned(),
            details: None,
        }
    }

    /// Attaches domain, operation, stage and recovery choices; everything else
    /// in the details starts empty.
    pub fn classified(self, domain: ErrorDomain, operation: &str, stage: &str, recovery: Vec<Recovery>) -> (d: Diagnostic)
        ensures
            d.code == self.code,
            d.location == self.location,
            d.message == self.message,
            d.details matches Some(x) && {
                &&& x.domain == domain
                &&& x.operation@ == operation@
                &&& x.stage@ == stage@
                &&& x.source is None
                &&& x.references@.len() == 0
                &&& x.recovery == recovery
                &&& x.hint is None
                &&& x.release is None
                &&& x.session is None
                &&& x.device is None
                &&& x.request is None
                &&& x.task is None
            },
    {
        Diagnostic {
            code: self.code,
            location: self.location,
            message: self.message,
            details: Some(Box::new(DiagnosticDetails {
                domain,
                operation: operation.to_owned(),
                stage: stage.to_owned(),
                source: None,
                references: Vec::new(),
                recovery,
                hint: None,
                release: None,
                session: None,
                device: None,
                request: None,
                task: None,
            })),
        }
    }
}

/// Which part of the system reported a failure.
#[derive(Debug, Clone, Copy, PartialEq, Eq, Structural)]
pub enum ErrorDomain {
    Content,
    Core,
    Prepare,
    Render,
    Storage,
    Host,
}

/// What the player or author may do about a failure.
#[derive(Debug, Clone, Copy, PartialEq, Eq, Structural)]
pub enum Recovery {
    Retry,
    KeepCurrent,
    Reload,
    Exit,
    FixContent,
}

/// A position in an author source file.
#[derive(Debug)]
pub struct SourceRef {
    pub file: String,
    pub line: usize,
    /// One-based UTF-8 byte column.
    pub column: usize,
    pub pointer: String,
}

impl Clone for SourceRef {
    fn clone(&self) -> (r: Self)
        ensures
            r == *self,
    {
        SourceRef { file: self.file.clone(), line: self.line, column: self.column, pointer: self.pointer.clone() }
    }
}

/// Classification and context of a diagnostic.
#[derive(Debug, Clone)]
pub struct DiagnosticDetails {
    pub domain: ErrorDomain,
    pub operation: String,
    pub stage: String,
    pub source: Option<SourceRef>,
    pub references: Vec<String>,
    pub recovery: Vec<Recovery>,
    pub hint: Option<String>,
    pub release: Option<String>,
    pub session: Option<u32>,
    pub device: Option<u32>,
    pub request: Option<u32>,
    pub task: Option<u32>,
}

/// The type of a script value.
#[derive(Debug, Clone, Copy, PartialEq, Eq, Structural)]
pub enum ValueType {
    Bool,
    I32,
    String,
}

/// A script value.
#[derive(Debug)]
pub enum Value {
    Bool(bool),
    I32(i32),
    String(String),
}

/// The type of a value, as a function of its variant.
pub open spec fn value_type(v: Value) -> ValueType {
    match v {
        Value::Bool(_) => ValueType::Bool,
        Value::I32(_) => ValueType::I32,
        Value::String(_) => ValueType::String,
    }
}

impl Value {
    /// The type of this value.
    pub fn ty(&self) -> (t: ValueType)
        ensures
            t == value_type(*self),
    {
        match self {
            Value::Bool(_) => ValueType::Bool,
            Value::I32(_) => ValueType::I32,
            Value::String(_) => ValueType::String,
        }
    }
}

/// A side-effect-free script expression.
#[derive(Debug)]
pub enum Expr {
    Const { value: Value },
    Var { name: String },
    Binary { op: BinaryOp, left: Box<Expr>, right: Box<Expr> },
    Not { value: Box<Expr> },
}

impl Clone for Value {
    fn clone(&self) -> (r: Self)
        ensures
            r == *self,
    {
        match self {
            Value::Bool(b) => Value::Bool(*b),
            Value::I32(i) => Value::I32(*i),
            Value::String(s) => Value::String(s.clone()),
        }
    }
}

impl Clone for Expr {
    fn clone(&self) -> (r: Self)
        ensures
            r == *self,
        decreases self,
    {
        match self {
            Expr::Const { value } => Expr::Const { value: value.clone() },
            Expr::Var { name } => Expr::Var { name: name.clone() },
            Expr::Binary { op, left, right } => {
                let l = (**left).clone();
                let r = (**right).clone();
                Expr::Binary { op: *op, left: Box::new(l), right: Box::new(r) }
            },
            Expr::Not { value } => {
                let v = (**value).clone();
                Expr::Not { value: Box::new(v) }
            },
        }
    }
}

/// Binary operators of script expressions.
#[derive(Debug, Clone, Copy, PartialEq, Eq, Structural)]
pub enum BinaryOp {
    Add,
    Sub,
    Mul,
    Div,
    Rem,
    Eq,
    Ne,
    Lt,
    Le,
    Gt,
    Ge,
    And,
    Or,
    Concat,
}

/// Logical stage size.
#[derive(Debug, Clone, Copy, PartialEq, Eq, Structural)]
pub struct Stage {
    pub width: u32,
    pub height: u32,
}

/// What a task-control operation does to a task.
#[derive(Debug, Clone, Copy, PartialEq, Eq, Structural)]
pub enum TaskAction {
    Cancel,
    Finish,
}

/// A point in a task's life that a block may wait for.
#[derive(Debug, Clone)]
pub enum Milestone {
    Started,
    Finished,
    Marker(String),
}

/// One condition of an await terminator.
#[derive(Debug, Clone)]
pub struct WaitCondition {
    pub task: String,
    pub milestone: Milestone,
}

/// How a block ends. Keyed tables are lists of (key, value) pairs.
#[derive(Debug, Clone)]
pub enum Terminator {
    Goto { target: String },
    Branch { condition: Expr, yes: String, no: String },
    Switch { value: Expr, cases: Vec<(String, String)>, default: String },
    Call { function: String, args: Vec<(String, Expr)>, next: String, result: Option<String> },
    Return { value: Option<Expr> },
    Activate { cue: String, next: String },
    Await { conditions: Vec<WaitCondition>, next: String, on_cancelled: String, on_failed: String },
    Interact { choice: String, branches: Vec<(String, String)>, on_empty: String },
    End { outcome: String },
    Fault { code: String, message: String },
}

/// Lifetime scope of an effect.
#[derive(Debug, Clone, Copy, PartialEq, Eq, Structural)]
pub enum Scope {
    Session,
    Frame,
    Scene,
    Interaction,
}

/// Audio mixing bus.
#[derive(Debug, Clone, Copy, PartialEq, Eq, Structural)]
pub enum AudioBus {
    Bgm,
    Voice,
    Sfx,
}

/// Interpolation curve of a clip.
#[derive(Debug, Clone, Copy, PartialEq, Eq, Structural)]
pub enum Easing {
    Linear,
    Smooth,
}

/// What a finished clip leaves behind.
#[derive(Debug, Clone, Copy, PartialEq, Eq, Structural)]
pub enum FinishPolicy {
    CommitEnd,
    RemoveEffect,
}

/// What a cancelled clip leaves behind.
#[derive(Debug, Clone, Copy, PartialEq, Eq, Structural)]
pub enum CancelPolicy {
    CommitCurrent,
    SettleEnd,
    RestoreBase,
}

/// An animatable node property.
#[derive(Debug, Clone, Copy, PartialEq, Eq, Structural)]
pub enum Property {
    X,
    Y,
    Scale,
    Opacity,
}

/// A player choice offering several options.
#[derive(Debug, Clone)]
pub struct Choice {
    pub options: Vec<ChoiceOption>,
    pub timeout_us: Option<Micros>,
    pub default: Option<String>,
}

/// One option of a choice.
#[derive(Debug, Clone)]
pub struct ChoiceOption {
    pub id: String,
    pub text: String,
    pub visible: Option<Expr>,
    pub enabled: Option<Expr>,
}

/// The semantic contract of one text: revisions, gates and typed parameters.
#[derive(Debug, Clone)]
pub struct TextContract {
    pub source_revision: u32,
    pub contract_revision: u32,
    pub meaning_revision: u32,
    pub contract_digest: String,
    pub gates: Vec<String>,
    pub params: Vec<(String, ValueType)>,
}

/// One localized text.
#[derive(Debug, Clone)]
pub struct TextDoc {
    pub source_revision: u32,
    pub contract_revision: u32,
    pub contract_digest: String,
    pub spans: Vec<Span>,
}

/// A piece of structured text.
#[derive(Debug)]
pub enum Span {
    Text { id: String, text: String, emphasis: bool },
    Break { id: String },
    Param { id: String, name: String },
    Gate { id: String },
}

impl Clone for Span {
    fn clone(&self) -> (r: Self)
        ensures
            r == *self,
    {
        match self {
            Span::Text { id, text, emphasis } => Span::Text { id: id.clone(), text: text.clone(), emphasis: *emphasis },
            Span::Break { id } => Span::Break { id: id.clone() },
            Span::Param { id, name } => Span::Param { id: id.clone(), name: name.clone() },
            Span::Gate { id } => Span::Gate { id: id.clone() },
        }
    }
}

/// A copy of a list of spans.
pub fn clone_spans(v: &Vec<Span>) -> (r: Vec<Span>)
    ensures
        r@ == v@,
{
    let mut r: Vec<Span> = Vec::new();
    let mut i: usize = 0;
    while i < v.len()
        invariant
            i <= v@.len(),
            r@ == v@.subrange(0, i as int),
        decreases v@.len() - i,
    {
        r.push(v[i].clone());
        i = i + 1;
        assert(r@ =~= v@.subrange(0, i as int));
    }
    assert(v@.subrange(0, v@.len() as int) =~= v@);
    r
}

/// A media asset entry of a catalog.
#[derive(Debug, Clone)]
pub struct Asset {
    pub kind: AssetKind,
    pub object: String,
    pub bytes: u64,
    pub width: u32,
    pub height: u32,
    pub duration_us: Micros,
    pub decoded_bytes: u64,
}

/// Media kind of an asset.
#[derive(Debug, Clone, Copy, PartialEq, Eq, Structural)]
pub enum AssetKind {
    Image,
    Audio,
    Font,
}

/// Component bindings of a theme.
#[derive(Debug, Clone, Copy, PartialEq, Eq, Structural)]
pub struct ThemeSlots {
    pub dialogue: DialogueComponent,
    pub choice: ChoiceComponent,
}

/// Built-in dialogue components.
#[derive(Debug, Clone, Copy, PartialEq, Eq, Structural)]
pub enum DialogueComponent {
    Bottom,
    Top,
}

/// Built-in choice components.
#[derive(Debug, Clone, Copy, PartialEq, Eq, Structural)]
pub enum ChoiceComponent {
    Standard,
    Compact,
}

/// A resumable instruction address.
#[derive(Debug, Clone)]
pub struct Address {
    pub function: String,
    pub block: String,
    pub op: usize,
    pub stable_id: String,
}

/// The resume-map key of an address: `function/block/stable_id`.
pub open spec fn address_key(a: Address) -> Seq<char> {
    a.function@ + seq!['/'] + a.block@ + seq!['/'] + a.stable_id@
}

impl Address {
    /// The resume-map key of this address.
    pub fn key(&self) -> (k: String)
        ensures
            k@ == address_key(*self),
    {
        let mut k = self.function.clone();
        k.append("/");
        k.append(self.block.as_str());
        k.append("/");
        k.append(self.stable_id.as_str());
        proof {
            reveal_strlit("/");
            assert(k@ =~= address_key(*self));
        }
        k
    }
}

/// The published object index of a release.
#[derive(Debug, Clone)]
pub struct ReleaseManifest {
    pub format: u32,
    pub game_id: String,
    pub title: String,
    pub version: String,
    pub engine_build: String,
    pub program: String,
    pub objects: Vec<(String, Object)>,
    pub engine: EngineFiles,
    pub notices: Vec<String>,
}

/// Object identities of the engine files.
#[derive(Debug, Clone)]
pub struct EngineFiles {
    pub js: String,
    pub wasm: String,
    pub host: String,
}

/// One content-addressed release object.
#[derive(Debug, Clone)]
pub struct Object {
    pub path: String,
    pub bytes: u64,
    pub media_type: String,
}

/// Viewport navigation target.
#[derive(Debug, Clone, Copy, PartialEq, Eq, Structural)]
pub enum ScrollRegion {
    Dialogue,
    Choices,
    History,
}

/// A script function: typed parameters and locals, an optional return type,
/// its entry block and its blocks by name.
#[derive(Debug, Clone)]
pub struct Function {
    pub params: Vec<(String, ValueType)>,
    pub locals: Vec<(String, ValueType)>,
    pub returns: Option<ValueType>,
    pub entry: String,
    pub blocks: Vec<(String, Block)>,
}

/// A straight run of operations ended by a terminator.
#[derive(Debug, Clone)]
pub struct Block {
    pub ops: Vec<Op>,
    pub terminator: Terminator,
}

/// An operation with its stable identity.
#[derive(Debug, Clone)]
pub struct Op {
    pub id: String,
    pub operation: Operation,
}

/// What an operation does. A draft patch value is an `f32` given by its
/// IEEE-754 bit pattern.
#[derive(Debug, Clone)]
pub enum Operation {
    Assign { target: String, value: Expr },
    Random { target: String, min: i32, max: i32 },
    DraftPatch { node: String, property: Property, value_bits: u32 },
    TaskControl { task: String, action: TaskAction },
    DialogueContinue { task: String },
    ProfileMerge { key: String },
}

/// A cue: the effects it starts together.
#[derive(Debug, Clone)]
pub struct Cue {
    pub effects: Vec<EffectDef>,
}

/// One named effect of a cue.
#[derive(Debug, Clone)]
pub struct EffectDef {
    pub id: String,
    pub scope: Scope,
    pub effect: Effect,
}

/// A presentation effect. A clip target is an `f32` given by its bit pattern.
#[derive(Debug)]
pub enum Effect {
    StagePresent { scene: String, duration_us: Micros },
    Clip {
        node: String,
        property: Property,
        to_bits: u32,
        duration_us: Micros,
        replace: bool,
        easing: Easing,
        finish: FinishPolicy,
        cancel: CancelPolicy,
    },
    Dialogue { text: String, speaker: String, reveal_us: Micros },
    Audio { asset: String, bus: AudioBus, looped: bool },
    Delay { duration_us: Micros },
}

impl Clone for Effect {
    fn clone(&self) -> (r: Self)
        ensures
            r == *self,
    {
        match self {
            Effect::StagePresent { scene, duration_us } => Effect::StagePresent { scene: scene.clone(), duration_us: *duration_us },
            Effect::Clip { node, property, to_bits, duration_us, replace, easing, finish, cancel } => Effect::Clip {
                node: node.clone(),
                property: *property,
                to_bits: *to_bits,
                duration_us: *duration_us,
                replace: *replace,
                easing: *easing,
                finish: *finish,
                cancel: *cancel,
            },
            Effect::Dialogue { text, speaker, reveal_us } => Effect::Dialogue { text: text.clone(), speaker: speaker.clone(), reveal_us: *reveal_us },
            Effect::Audio { asset, bus, looped } => Effect::Audio { asset: asset.clone(), bus: *bus, looped: *looped },
            Effect::Delay { duration_us } => Effect::Delay { duration_us: *duration_us },
        }
    }
}

/// A scene node. Geometry, opacity and color are `f32` values given by their
/// bit patterns.
#[derive(Debug, Clone)]
pub struct Node {
    pub id: String,
    pub parent: Option<String>,
    pub asset: Option<String>,
    pub x_bits: u32,
    pub y_bits: u32,
    pub width_bits: u32,
    pub height_bits: u32,
    pub scale_bits: u32,
    pub opacity_bits: u32,
    pub color_bits: [u32; 4],
    pub order: i32,
    pub clip_bits: Option<[u32; 4]>,
}

} // verus!
