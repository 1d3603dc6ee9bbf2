//! Checks of a program's choices, cues and functions against the tables they
//! refer to.
use crate::assoc::{assoc, contains_name, get_entry};
use crate::expr::{expr_type, typing, typed_as};
use crate::format::{diag_is, fails_with, Asset, AssetKind, Choice, ChoiceOption, Cue, Diagnostic, Effect, EffectDef, ErrorDomain, Expr, Node, Property, Recovery, TextContract, ValueType, MAX_TASKS};
use crate::diagnostics::classified_as;
use crate::scene::{f32_finite, f32_negative, f32_unit};
use crate::table::names_in;
use crate::text::DiagText;
use vstd::prelude::*;
use vstd::string::*;

verus! {

/// The error of an optional predicate: its typing error, or a type other
/// than `Bool`.
pub open spec fn predicate_error(e: Option<Expr>, vars: Seq<(String, ValueType)>, at: Seq<char>) -> Option<DiagText> {
    match e {
        None => None,
        Some(x) => match typing(x, vars, at) {
            Err(d) => Some(d),
            Ok(t) => if t == ValueType::Bool { None } else { Some(("E_TYPE"@, at, "choice predicate must be Bool"@)) },
        },
    }
}

/// The error of option `k` of choice `id`: a name used by an earlier
/// option, a text without a contract, or a predicate that is not `Bool`
/// (the visibility first).
pub open spec fn option_error(id: Seq<char>, opts: Seq<ChoiceOption>, k: int, texts: Seq<(String, TextContract)>, vars: Seq<(String, ValueType)>) -> Option<DiagText> {
    let o = opts[k];
    if exists|j: int| 0 <= j < k && (#[trigger] opts[j]).id@ == o.id@ {
        Some(("E_DUPLICATE"@, id, o.id@))
    } else if assoc(texts, o.text@) is None {
        Some(("E_TEXT"@, id, o.text@))
    } else {
        match predicate_error(o.visible, vars, id) {
            Some(d) => Some(d),
            None => predicate_error(o.enabled, vars, id),
        }
    }
}

/// The first option error among the first `k` options.
pub open spec fn options_error(id: Seq<char>, opts: Seq<ChoiceOption>, k: int, texts: Seq<(String, TextContract)>, vars: Seq<(String, ValueType)>) -> Option<DiagText>
    decreases k,
{
    if k <= 0 {
        None
    } else {
        match options_error(id, opts, k - 1, texts, vars) {
            Some(d) => Some(d),
            None => option_error(id, opts, k - 1, texts, vars),
        }
    }
}

/// The error of choice `id`: an option error, or a timeout without a
/// default that names one of its options.
pub open spec fn choice_error(id: Seq<char>, c: Choice, texts: Seq<(String, TextContract)>, vars: Seq<(String, ValueType)>) -> Option<DiagText> {
    match options_error(id, c.options@, c.options@.len() as int, texts, vars) {
        Some(d) => Some(d),
        None => if c.timeout_us is Some && !(match c.default {
            Some(d) => exists|j: int| 0 <= j < c.options@.len() && (#[trigger] c.options@[j]).id@ == d@,
            None => false,
        }) {
            Some(("E_CHOICE_DEFAULT"@, id, "timeout requires a valid default"@))
        } else {
            None
        },
    }
}

/// The first error among the choices.
pub open spec fn choices_error(choices: Seq<(String, Choice)>, texts: Seq<(String, TextContract)>, vars: Seq<(String, ValueType)>) -> Option<DiagText>
    decreases choices.len(),
{
    if choices.len() == 0 {
        None
    } else {
        match choices_error(choices.drop_last(), texts, vars) {
            Some(d) => Some(d),
            None => choice_error(choices.last().0@, choices.last().1, texts, vars),
        }
    }
}

pub(crate) fn check_predicate(e: &Option<Expr>, vars: &Vec<(String, ValueType)>, at: &str) -> (r: Result<(), Diagnostic>)
    ensures
        match predicate_error(*e, vars@, at@) {
            Some(d) => fails_with(r, d.0, d.1, d.2),
            None => r is Ok,
        },
{
    match e {
        None => Ok(()),
        Some(x) => match expr_type(x, vars, at) {
            Err(d) => Err(d),
            Ok(ValueType::Bool) => Ok(()),
            Ok(_) => Err(Diagnostic::new("E_TYPE", at, "choice predicate must be Bool")),
        },
    }
}

proof fn lemma_options_error_stays(id: Seq<char>, opts: Seq<ChoiceOption>, k: int, m: int, texts: Seq<(String, TextContract)>, vars: Seq<(String, ValueType)>)
    requires
        0 <= k <= m,
        options_error(id, opts, k, texts, vars) is Some,
    ensures
        options_error(id, opts, m, texts, vars) == options_error(id, opts, k, texts, vars),
    decreases m - k,
{
    if k < m {
        lemma_options_error_stays(id, opts, k, m - 1, texts, vars);
    }
}

fn check_choice(id: &str, c: &Choice, texts: &Vec<(String, TextContract)>, vars: &Vec<(String, ValueType)>) -> (r: Result<(), Diagnostic>)
    ensures
        match choice_error(id@, *c, texts@, vars@) {
            Some(d) => fails_with(r, d.0, d.1, d.2),
            None => r is Ok,
        },
{
    let opts = &c.options;
    let mut ids: Vec<String> = Vec::new();
    let mut k: usize = 0;
    while k < opts.len()
        invariant
            k <= opts@.len(),
            opts == c.options,
            ids@.len() == k,
            forall|j: int| 0 <= j < k ==> (#[trigger] ids@[j])@ == opts@[j].id@,
            options_error(id@, opts@, k as int, texts@, vars@) is None,
        decreases opts@.len() - k,
    {
        let o = &opts[k];
        if contains_name(&ids, o.id.as_str()) {
            proof {
                let j = choose|j: int| 0 <= j < ids@.len() && (#[trigger] ids@[j])@ == o.id@;
                assert(opts@[j].id@ == o.id@);
                lemma_options_error_stays(id@, opts@, k as int + 1, opts@.len() as int, texts@, vars@);
            }
            return Err(Diagnostic::new("E_DUPLICATE", id, o.id.as_str()));
        }
        proof {
            assert forall|j: int| 0 <= j < k implies (#[trigger] opts@[j]).id@ != o.id@ by {
                assert(ids@[j]@ == opts@[j].id@);
                if opts@[j].id@ == o.id@ {
                    assert(names_in(ids@).contains(o.id@));
                }
            }
        }
        if get_entry(texts, o.text.as_str()).is_none() {
            proof {
                lemma_options_error_stays(id@, opts@, k as int + 1, opts@.len() as int, texts@, vars@);
            }
            return Err(Diagnostic::new("E_TEXT", id, o.text.as_str()));
        }
        match check_predicate(&o.visible, vars, id) {
            Ok(()) => {},
            Err(d) => {
                proof {
                    lemma_options_error_stays(id@, opts@, k as int + 1, opts@.len() as int, texts@, vars@);
                }
                return Err(d);
            },
        }
        match check_predicate(&o.enabled, vars, id) {
            Ok(()) => {},
            Err(d) => {
                proof {
                    lemma_options_error_stays(id@, opts@, k as int + 1, opts@.len() as int, texts@, vars@);
                }
                return Err(d);
            },
        }
        ids.push(o.id.clone());
        k = k + 1;
    }
    if c.timeout_us.is_some() {
        let valid = match &c.default {
            Some(d) => contains_name(&ids, d.as_str()),
            None => false,
        };
        proof {
            match c.default {
                Some(ref d) => {
                    if valid {
                        let j = choose|j: int| 0 <= j < ids@.len() && (#[trigger] ids@[j])@ == d@;
                        assert(c.options@[j].id@ == d@);
                    } else {
                        assert forall|j: int| 0 <= j < c.options@.len() implies (#[trigger] c.options@[j]).id@ != d@ by {
                            assert(ids@[j]@ == c.options@[j].id@);
                            if c.options@[j].id@ == d@ {
                                assert(names_in(ids@).contains(d@));
                            }
                        }
                    }
                },
                None => {},
            }
        }
        if !valid {
            return Err(Diagnostic::new("E_CHOICE_DEFAULT", id, "timeout requires a valid default"));
        }
    }
    Ok(())
}

proof fn lemma_choices_error_prefix(choices: Seq<(String, Choice)>, texts: Seq<(String, TextContract)>, vars: Seq<(String, ValueType)>, n: int)
    requires
        0 <= n <= choices.len(),
        choices_error(choices.subrange(0, n), texts, vars) is Some,
    ensures
        choices_error(choices, texts, vars) == choices_error(choices.subrange(0, n), texts, vars),
    decreases choices.len(),
{
    if n < choices.len() {
        assert(choices.drop_last().subrange(0, n) =~= choices.subrange(0, n));
        lemma_choices_error_prefix(choices.drop_last(), texts, vars, n);
    } else {
        assert(choices.subrange(0, n) =~= choices);
    }
}

/// Checks every choice: option names are unique, option texts have
/// contracts, visibility and enabling predicates are `Bool` under the
/// program's variables, and a timeout comes with a default that names an
/// option. The first failing check, in order, is the error.
pub fn validate_choices(choices: &Vec<(String, Choice)>, texts: &Vec<(String, TextContract)>, vars: &Vec<(String, ValueType)>) -> (r: Result<(), Diagnostic>)
    ensures
        match choices_error(choices@, texts@, vars@) {
            Some(d) => fails_with(r, d.0, d.1, d.2),
            None => r is Ok,
        },
{
    let mut i: usize = 0;
    proof {
        assert(choices@.subrange(0, 0) =~= Seq::<(String, Choice)>::empty());
    }
    while i < choices.len()
        invariant
            i <= choices@.len(),
            choices_error(choices@.subrange(0, i as int), texts@, vars@) is None,
        decreases choices@.len() - i,
    {
        proof {
            assert(choices@.subrange(0, i + 1).drop_last() =~= choices@.subrange(0, i as int));
            assert(choices@.subrange(0, i + 1).last() == choices@[i as int]);
        }
        match check_choice(choices[i].0.as_str(), &choices[i].1, texts, vars) {
            Ok(()) => {},
            Err(d) => {
                proof {
                    lemma_choices_error_prefix(choices@, texts@, vars@, i as int + 1);
                }
                return Err(d);
            },
        }
        i = i + 1;
    }
    proof {
        assert(choices@.subrange(0, choices@.len() as int) =~= choices@);
    }
    Ok(())
}

/// A content diagnostic of the cue check.
pub open spec fn cue_failed<T>(r: Result<T, Diagnostic>, d: DiagText) -> bool {
    match r {
        Ok(_) => false,
        Err(x) => x.code@ == d.0 && x.location@ == d.1 && x.message@ == d.2
            && classified_as(x, ErrorDomain::Content, "cues"@, "validate"@, seq![Recovery::FixContent]),
    }
}

/// The error of effect `k` of cue `id`: a task name used by an earlier
/// effect; a stage of an unknown scene; a dialogue whose text or speaker has
/// no contract; audio that is not an audio asset; a clip to a non-finite
/// value, an opacity outside `0.0..=1.0` or a scale below zero; or a clip of
/// a node property that an earlier clip already writes.
pub open spec fn effect_error(
    id: Seq<char>,
    effs: Seq<EffectDef>,
    k: int,
    scenes: Seq<(String, Vec<Node>)>,
    texts: Seq<(String, TextContract)>,
    assets: Seq<(String, Asset)>,
) -> Option<DiagText> {
    let d = effs[k];
    if exists|j: int| 0 <= j < k && (#[trigger] effs[j]).id@ == d.id@ {
        Some(("E_DUPLICATE"@, id, d.id@))
    } else {
        match d.effect {
            Effect::StagePresent { scene, .. } => if assoc(scenes, scene@) is None { Some(("E_SCENE"@, id, scene@)) } else { None },
            Effect::Dialogue { text, speaker, .. } => if assoc(texts, text@) is None || (speaker@.len() > 0 && assoc(texts, speaker@) is None) {
                Some(("E_TEXT"@, id, text@))
            } else {
                None
            },
            Effect::Audio { asset, .. } => match assoc(assets, asset@) {
                Some(a) => if a.kind == AssetKind::Audio { None } else { Some(("E_ASSET_TYPE"@, id, asset@)) },
                None => Some(("E_ASSET_TYPE"@, id, asset@)),
            },
            Effect::Clip { node, property, to_bits, .. } => if !f32_finite(to_bits) || (property == Property::Opacity && !f32_unit(to_bits))
                || (property == Property::Scale && f32_negative(to_bits)) {
                Some(("E_VISUAL"@, id, node@))
            } else if exists|j: int| 0 <= j < k && #[trigger] writes(effs[j].effect, node@, property) {
                Some(("E_OWNERSHIP"@, id, node@))
            } else {
                None
            },
            _ => None,
        }
    }
}

/// Effect `e` is a clip of `property` of `node`.
pub open spec fn writes(e: Effect, node: Seq<char>, property: Property) -> bool {
    match e {
        Effect::Clip { node: n, property: p, .. } => n@ == node && p == property,
        _ => false,
    }
}

/// An effect before `k` is a clip of the node property `w`.
pub open spec fn written_before(effs: Seq<EffectDef>, k: int, w: (String, Property)) -> bool {
    exists|q: int| 0 <= q < k && #[trigger] writes(effs[q].effect, w.0@, w.1)
}

/// The first effect error among the first `k` effects.
pub open spec fn effects_error(id: Seq<char>, effs: Seq<EffectDef>, k: int, scenes: Seq<(String, Vec<Node>)>, texts: Seq<(String, TextContract)>, assets: Seq<(String, Asset)>) -> Option<DiagText>
    decreases k,
{
    if k <= 0 {
        None
    } else {
        match effects_error(id, effs, k - 1, scenes, texts, assets) {
            Some(d) => Some(d),
            None => effect_error(id, effs, k - 1, scenes, texts, assets),
        }
    }
}

/// How many of the first `k` effects are stage presentations.
pub open spec fn stage_count(effs: Seq<EffectDef>, k: int) -> nat
    decreases k,
{
    if k <= 0 { 0 } else { stage_count(effs, k - 1) + if effs[k - 1].effect is StagePresent { 1nat } else { 0nat } }
}

/// How many of the first `k` effects are dialogues.
pub open spec fn dialogue_count(effs: Seq<EffectDef>, k: int) -> nat
    decreases k,
{
    if k <= 0 { 0 } else { dialogue_count(effs, k - 1) + if effs[k - 1].effect is Dialogue { 1nat } else { 0nat } }
}

/// The error of cue `id`: no effects or more than `MAX_TASKS`; an effect
/// error; or more than one stage or dialogue.
pub open spec fn cue_error(id: Seq<char>, cue: Cue, scenes: Seq<(String, Vec<Node>)>, texts: Seq<(String, TextContract)>, assets: Seq<(String, Asset)>) -> Option<DiagText> {
    let effs = cue.effects@;
    if effs.len() == 0 || effs.len() > MAX_TASKS {
        Some(("E_LIMIT"@, id, "invalid cue size"@))
    } else {
        match effects_error(id, effs, effs.len() as int, scenes, texts, assets) {
            Some(d) => Some(d),
            None => if stage_count(effs, effs.len() as int) > 1 || dialogue_count(effs, effs.len() as int) > 1 {
                Some(("E_CUE"@, id, "at most one stage and dialogue per cue"@))
            } else {
                None
            },
        }
    }
}

/// The first error among the cues.
pub open spec fn cues_error(cues: Seq<(String, Cue)>, scenes: Seq<(String, Vec<Node>)>, texts: Seq<(String, TextContract)>, assets: Seq<(String, Asset)>) -> Option<DiagText>
    decreases cues.len(),
{
    if cues.len() == 0 {
        None
    } else {
        match cues_error(cues.drop_last(), scenes, texts, assets) {
            Some(d) => Some(d),
            None => cue_error(cues.last().0@, cues.last().1, scenes, texts, assets),
        }
    }
}

fn cue_err(code: &str, at: &str, message: &str) -> (d: Diagnostic)
    ensures
        d.code@ == code@ && d.location@ == at@ && d.message@ == message@,
        classified_as(d, ErrorDomain::Content, "cues"@, "validate"@, seq![Recovery::FixContent]),
{
    let d = Diagnostic::new(code, at, message).classified(ErrorDomain::Content, "cues", "validate", vec![Recovery::FixContent]);
    proof {
        assert(d.details.unwrap().recovery@ =~= seq![Recovery::FixContent]);
    }
    d
}

proof fn lemma_effects_error_stays(id: Seq<char>, effs: Seq<EffectDef>, k: int, m: int, scenes: Seq<(String, Vec<Node>)>, texts: Seq<(String, TextContract)>, assets: Seq<(String, Asset)>)
    requires
        0 <= k <= m,
        effects_error(id, effs, k, scenes, texts, assets) is Some,
    ensures
        effects_error(id, effs, m, scenes, texts, assets) == effects_error(id, effs, k, scenes, texts, assets),
    decreases m - k,
{
    if k < m {
        lemma_effects_error_stays(id, effs, k, m - 1, scenes, texts, assets);
    }
}

fn same_property(a: Property, b: Property) -> (r: bool)
    ensures
        r == (a == b),
{
    match (a, b) {
        (Property::X, Property::X) | (Property::Y, Property::Y) | (Property::Scale, Property::Scale) | (Property::Opacity, Property::Opacity) => true,
        _ => false,
    }
}

fn check_cue(id: &str, cue: &Cue, scenes: &Vec<(String, Vec<Node>)>, texts: &Vec<(String, TextContract)>, assets: &Vec<(String, Asset)>) -> (r: Result<(), Diagnostic>)
    ensures
        match cue_error(id@, *cue, scenes@, texts@, assets@) {
            Some(d) => cue_failed(r, d),
            None => r is Ok,
        },
{
    let effs = &cue.effects;
    if effs.len() == 0 || effs.len() > MAX_TASKS {
        return Err(cue_err("E_LIMIT", id, "invalid cue size"));
    }
    let mut names: Vec<String> = Vec::new();
    let mut writers: Vec<(String, Property)> = Vec::new();
    let mut stages: usize = 0;
    let mut dialogues: usize = 0;
    let mut k: usize = 0;
    while k < effs.len()
        invariant
            k <= effs@.len(),
            effs == cue.effects,
            effs@.len() <= MAX_TASKS,
            names@.len() == k,
            forall|j: int| 0 <= j < k ==> (#[trigger] names@[j])@ == effs@[j].id@,
            forall|j: int| 0 <= j < writers@.len() ==> #[trigger] written_before(effs@, k as int, writers@[j]),
            forall|q: int, n: Seq<char>, p: Property| 0 <= q < k && #[trigger] writes(effs@[q].effect, n, p)
                ==> exists|j: int| 0 <= j < writers@.len() && (#[trigger] writers@[j]).0@ == n && writers@[j].1 == p,
            stages == stage_count(effs@, k as int),
            dialogues == dialogue_count(effs@, k as int),
            stages <= k,
            dialogues <= k,
            effects_error(id@, effs@, k as int, scenes@, texts@, assets@) is None,
        decreases effs@.len() - k,
    {
        let e = &effs[k];
        proof {
            assert(effs@[k as int] == *e);
        }
        if contains_name(&names, e.id.as_str()) {
            proof {
                let j = choose|j: int| 0 <= j < names@.len() && (#[trigger] names@[j])@ == e.id@;
                assert(effs@[j].id@ == e.id@);
                lemma_effects_error_stays(id@, effs@, k as int + 1, effs@.len() as int, scenes@, texts@, assets@);
            }
            return Err(cue_err("E_DUPLICATE", id, e.id.as_str()));
        }
        proof {
            assert forall|j: int| 0 <= j < k implies (#[trigger] effs@[j]).id@ != e.id@ by {
                assert(names@[j]@ == effs@[j].id@);
                if effs@[j].id@ == e.id@ {
                    assert(names_in(names@).contains(e.id@));
                }
            }
        }
        match &e.effect {
            Effect::StagePresent { scene, .. } => {
                stages = stages + 1;
                if get_entry(scenes, scene.as_str()).is_none() {
                    proof {
                        lemma_effects_error_stays(id@, effs@, k as int + 1, effs@.len() as int, scenes@, texts@, assets@);
                    }
                    return Err(cue_err("E_SCENE", id, scene.as_str()));
                }
            },
            Effect::Dialogue { text, speaker, .. } => {
                dialogues = dialogues + 1;
                if get_entry(texts, text.as_str()).is_none() || (speaker.as_str().unicode_len() > 0 && get_entry(texts, speaker.as_str()).is_none()) {
                    proof {
                        lemma_effects_error_stays(id@, effs@, k as int + 1, effs@.len() as int, scenes@, texts@, assets@);
                    }
                    return Err(cue_err("E_TEXT", id, text.as_str()));
                }
            },
            Effect::Audio { asset, .. } => {
                let audio = match get_entry(assets, asset.as_str()) {
                    Some(a) => match a.kind {
                        AssetKind::Audio => true,
                        _ => false,
                    },
                    None => false,
                };
                if !audio {
                    proof {
                        lemma_effects_error_stays(id@, effs@, k as int + 1, effs@.len() as int, scenes@, texts@, assets@);
                    }
                    return Err(cue_err("E_ASSET_TYPE", id, asset.as_str()));
                }
            },
            Effect::Clip { node, property, to_bits, .. } => {
                let b = *to_bits;
                let finite = b < 0x7f80_0000u32 || (0x8000_0000u32 <= b && b < 0xff80_0000u32);
                let unit = b <= 0x3f80_0000u32 || b == 0x8000_0000u32;
                let negative = 0x8000_0000u32 < b && b <= 0xff80_0000u32;
                let opacity = same_property(*property, Property::Opacity);
                let scale = same_property(*property, Property::Scale);
                if !finite || (opacity && !unit) || (scale && negative) {
                    proof {
                        lemma_effects_error_stays(id@, effs@, k as int + 1, effs@.len() as int, scenes@, texts@, assets@);
                    }
                    return Err(cue_err("E_VISUAL", id, node.as_str()));
                }
                let mut w: usize = 0;
                let mut taken = false;
                while w < writers.len()
                    invariant
                        w <= writers@.len(),
                        !taken ==> forall|j: int| 0 <= j < w ==> !((#[trigger] writers@[j]).0@ == node@ && writers@[j].1 == *property),
                        taken ==> exists|j: int| 0 <= j < writers@.len() && (#[trigger] writers@[j]).0@ == node@ && writers@[j].1 == *property,
                    decreases writers@.len() - w,
                {
                    if crate::strings::str_eq(writers[w].0.as_str(), node.as_str()) && same_property(writers[w].1, *property) {
                        taken = true;
                    }
                    w = w + 1;
                }
                if taken {
                    proof {
                        let j = choose|j: int| 0 <= j < writers@.len() && (#[trigger] writers@[j]).0@ == node@ && writers@[j].1 == *property;
                        assert(written_before(effs@, k as int, writers@[j]));
                        let q = choose|q: int| 0 <= q < k && #[trigger] writes(effs@[q].effect, writers@[j].0@, writers@[j].1);
                        assert(writes(effs@[q].effect, node@, *property));
                        lemma_effects_error_stays(id@, effs@, k as int + 1, effs@.len() as int, scenes@, texts@, assets@);
                    }
                    return Err(cue_err("E_OWNERSHIP", id, node.as_str()));
                }
                proof {
                    assert forall|q: int| 0 <= q < k implies !#[trigger] writes(effs@[q].effect, node@, *property) by {
                        if writes(effs@[q].effect, node@, *property) {
                            let j = choose|j: int| 0 <= j < writers@.len() && (#[trigger] writers@[j]).0@ == node@ && writers@[j].1 == *property;
                        }
                    }
                }
                let ghost wb = writers@;
                writers.push((node.clone(), *property));
                proof {
                    assert forall|j: int| 0 <= j < writers@.len() implies #[trigger] written_before(effs@, k + 1, writers@[j]) by {
                        if j < wb.len() {
                            assert(writers@[j] == wb[j]);
                            assert(written_before(effs@, k as int, wb[j]));
                            let q = choose|q: int| 0 <= q < k && #[trigger] writes(effs@[q].effect, wb[j].0@, wb[j].1);
                        } else {
                            assert(writes(effs@[k as int].effect, writers@[j].0@, writers@[j].1));
                        }
                    }
                    assert forall|q: int, n: Seq<char>, p: Property| 0 <= q < k + 1 && #[trigger] writes(effs@[q].effect, n, p)
                        implies exists|j: int| 0 <= j < writers@.len() && (#[trigger] writers@[j]).0@ == n && writers@[j].1 == p by {
                        if q < k {
                            let j = choose|j: int| 0 <= j < wb.len() && (#[trigger] wb[j]).0@ == n && wb[j].1 == p;
                            assert(writers@[j] == wb[j]);
                        } else {
                            assert(writers@[wb.len() as int].0@ == n && writers@[wb.len() as int].1 == p);
                        }
                    }
                }
            },
            _ => {},
        }
        proof {
            assert forall|j: int| 0 <= j < writers@.len() implies #[trigger] written_before(effs@, k + 1, writers@[j]) by {
                if !(e.effect is Clip) {
                    assert(written_before(effs@, k as int, writers@[j]));
                    let q = choose|q: int| 0 <= q < k && #[trigger] writes(effs@[q].effect, writers@[j].0@, writers@[j].1);
                }
            }
        }
        names.push(e.id.clone());
        proof {
            assert(effects_error(id@, effs@, k as int + 1, scenes@, texts@, assets@) is None);
        }
        k = k + 1;
    }
    if stages > 1 || dialogues > 1 {
        return Err(cue_err("E_CUE", id, "at most one stage and dialogue per cue"));
    }
    Ok(())
}

proof fn lemma_cues_error_prefix(cues: Seq<(String, Cue)>, scenes: Seq<(String, Vec<Node>)>, texts: Seq<(String, TextContract)>, assets: Seq<(String, Asset)>, n: int)
    requires
        0 <= n <= cues.len(),
        cues_error(cues.subrange(0, n), scenes, texts, assets) is Some,
    ensures
        cues_error(cues, scenes, texts, assets) == cues_error(cues.subrange(0, n), scenes, texts, assets),
    decreases cues.len(),
{
    if n < cues.len() {
        assert(cues.drop_last().subrange(0, n) =~= cues.subrange(0, n));
        lemma_cues_error_prefix(cues.drop_last(), scenes, texts, assets, n);
    } else {
        assert(cues.subrange(0, n) =~= cues);
    }
}

/// Checks every cue: it has between one and `MAX_TASKS` effects, each
/// effect passes its check (see `effect_error`), and it starts at most one
/// stage and one dialogue. The first failing check, in order, is the error,
/// classified as a content error of cue validation.
pub fn validate_cues(cues: &Vec<(String, Cue)>, scenes: &Vec<(String, Vec<Node>)>, texts: &Vec<(String, TextContract)>, assets: &Vec<(String, Asset)>) -> (r: Result<(), Diagnostic>)
    ensures
        match cues_error(cues@, scenes@, texts@, assets@) {
            Some(d) => cue_failed(r, d),
            None => r is Ok,
        },
{
    let mut i: usize = 0;
    proof {
        assert(cues@.subrange(0, 0) =~= Seq::<(String, Cue)>::empty());
    }
    while i < cues.len()
        invariant
            i <= cues@.len(),
            cues_error(cues@.subrange(0, i as int), scenes@, texts@, assets@) is None,
        decreases cues@.len() - i,
    {
        proof {
            assert(cues@.subrange(0, i + 1).drop_last() =~= cues@.subrange(0, i as int));
            assert(cues@.subrange(0, i + 1).last() == cues@[i as int]);
        }
        match check_cue(cues[i].0.as_str(), &cues[i].1, scenes, texts, assets) {
            Ok(()) => {},
            Err(d) => {
                proof {
                    lemma_cues_error_prefix(cues@, scenes@, texts@, assets@, i as int + 1);
                }
                return Err(d);
            },
        }
        i = i + 1;
    }
    proof {
        assert(cues@.subrange(0, cues@.len() as int) =~= cues@);
    }
    Ok(())
}

} // verus!
