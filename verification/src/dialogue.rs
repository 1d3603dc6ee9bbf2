//! Story-machine records: frames, tasks, offered choices, history, inputs and
//! intents, and the reveal state of a dialogue line.
use crate::format::{AudioBus, Micros, Milestone, Value};
use unicode_segmentation::UnicodeSegmentation;
use vstd::prelude::*;
use vstd::string::*;

verus! {

/// One activation record of the story machine.
#[derive(Debug, Clone)]
pub struct Frame {
    pub id: u32,
    pub function: String,
    pub block: String,
    pub op: usize,
    pub op_id: String,
    pub locals: Vec<(String, Value)>,
    pub return_to: Option<String>,
    pub result: Option<String>,
}

/// Life state of a presentation task.
#[derive(Debug, Clone, Copy, PartialEq, Eq, Structural)]
pub enum TaskState {
    Running,
    Finished,
    Cancelled,
    Failed,
}

/// A span of dialogue text frozen when the line was started.
#[derive(Debug, Clone)]
pub struct FrozenSpan {
    pub id: String,
    pub text: String,
    pub emphasis: bool,
    pub gate: bool,
}

/// A dialogue line being revealed: `span` and `cluster` say how far.
#[derive(Debug, Clone)]
pub struct Dialogue {
    pub text_id: String,
    pub revision: u32,
    pub locale: String,
    pub speaker: String,
    pub spans: Vec<FrozenSpan>,
    pub span: usize,
    pub cluster: usize,
    pub at_gate: bool,
    pub awaiting_advance: bool,
    pub last_reveal_us: Micros,
    pub interaction: u32,
}

/// One option as offered to the player.
#[derive(Debug, Clone)]
pub struct OfferedOption {
    pub id: String,
    pub label: String,
    pub enabled: bool,
}

/// A choice as offered to the player.
#[derive(Debug, Clone)]
pub struct OfferedChoice {
    pub id: String,
    pub locale: String,
    pub interaction: u32,
    pub options: Vec<OfferedOption>,
    pub branches: Vec<(String, String)>,
    pub deadline_us: Option<Micros>,
    pub default: Option<String>,
}

/// An await in progress.
#[derive(Debug, Clone)]
pub struct Waiting {
    pub conditions: Vec<(u32, Milestone)>,
    pub next: String,
    pub on_cancelled: String,
    pub on_failed: String,
}

/// One line of the reading history.
#[derive(Debug, Clone)]
pub struct HistoryEntry {
    pub text_id: String,
    pub revision: u32,
    pub locale: String,
    pub speaker: String,
    pub text: String,
}

/// Events the host feeds to the story machine.
#[derive(Debug, Clone)]
pub enum CoreInput {
    Nothing,
    Advance { interaction: u32, sequence: u32 },
    Choose { interaction: u32, option: String, sequence: u32 },
    Time { delta_us: u64 },
    Prepared { activation: u32 },
    PreparationFailed { activation: u32, message: String },
    AudioEnded { task: u32 },
    TaskFailed { task: u32, message: String },
}

/// Work the story machine asks the host to perform.
#[derive(Debug, Clone)]
pub enum CoreIntent {
    Prepare { activation: u32, cue: String },
    AudioStart { task: u32, asset: String, bus: AudioBus, looped: bool, position_us: Micros },
    AudioStop { task: u32 },
    ProfileMerge { key: String },
    Checkpoint,
    Trace { event: String, at: String },
}

/// The outcome of one machine step.
#[derive(Debug, Clone)]
pub struct CoreStep {
    pub intents: Vec<CoreIntent>,
    pub waiting: bool,
    pub location: String,
    pub changed: bool,
}

/// The extended grapheme clusters of `text`, as segmented by `unicode-segmentation`.
pub uninterp spec fn graphemes(text: Seq<char>) -> Seq<Seq<char>>;

/// The concatenation of a list of character sequences.
pub open spec fn flatten(parts: Seq<Seq<char>>) -> Seq<char>
    decreases parts.len(),
{
    if parts.len() == 0 {
        Seq::empty()
    } else {
        flatten(parts.drop_last()) + parts.last()
    }
}

/// Calls `UnicodeSegmentation::graphemes(text, true)`. Its source yields
/// consecutive nonempty slices from the start to the end of `text`, so the
/// clusters concatenate back to `text`. Where the boundaries fall is left to
/// the name `graphemes`.
#[verifier::external_body]
pub(crate) fn grapheme_clusters(text: &str) -> (r: Vec<String>)
    ensures
        r@.map_values(|s: String| s@) == graphemes(text@),
        flatten(r@.map_values(|s: String| s@)) == text@,
        forall|i: int| 0 <= i < r@.len() ==> (#[trigger] r@[i])@.len() > 0,
{
    text.graphemes(true).map(|g| g.to_string()).collect()
}

/// The texts of a list of spans, concatenated.
pub open spec fn spans_text(spans: Seq<FrozenSpan>) -> Seq<char>
    decreases spans.len(),
{
    if spans.len() == 0 {
        Seq::empty()
    } else {
        spans_text(spans.drop_last()) + spans.last().text@
    }
}

/// What the reader sees of `spans` with the cursor at span `span`, cluster
/// `cluster`: every span before `span`, then the first `cluster` grapheme
/// clusters of span `span` (all of them, if it has fewer).
pub open spec fn shown(spans: Seq<FrozenSpan>, span: int, cluster: int) -> Seq<char> {
    if 0 <= span < spans.len() {
        spans_text(spans.subrange(0, span)) + flatten(
            graphemes(spans[span].text@).take(
                if cluster <= graphemes(spans[span].text@).len() {
                    cluster
                } else {
                    graphemes(spans[span].text@).len() as int
                },
            ),
        )
    } else {
        spans_text(spans)
    }
}

/// The part of a dialogue the reader can see: every span before `span`, then
/// the first `cluster` grapheme clusters of span `span`.
pub open spec fn revealed_text(d: Dialogue) -> Seq<char> {
    shown(d.spans@, d.span as int, d.cluster as int)
}

impl Dialogue {
    /// The whole line.
    pub fn full_text(&self) -> (s: String)
        ensures
            s@ == spans_text(self.spans@),
    {
        let mut s = String::new();
        let mut i: usize = 0;
        while i < self.spans.len()
            invariant
                i <= self.spans@.len(),
                s@ == spans_text(self.spans@.subrange(0, i as int)),
            decreases self.spans@.len() - i,
        {
            s.append(self.spans[i].text.as_str());
            proof {
                assert(self.spans@.subrange(0, i + 1).drop_last() =~= self.spans@.subrange(0, i as int));
            }
            i = i + 1;
        }
        assert(self.spans@.subrange(0, self.spans@.len() as int) =~= self.spans@);
        s
    }

    /// The part of the line revealed so far.
    pub fn visible_text(&self) -> (s: String)
        ensures
            s@ == revealed_text(*self),
    {
        let mut s = String::new();
        let mut i: usize = 0;
        while i < self.spans.len()
            invariant
                i <= self.spans@.len(),
                i <= self.span,
                s@ == spans_text(self.spans@.subrange(0, i as int)),
            decreases self.spans@.len() - i,
        {
            if i < self.span {
                s.append(self.spans[i].text.as_str());
                proof {
                    assert(self.spans@.subrange(0, i + 1).drop_last() =~= self.spans@.subrange(0, i as int));
                }
            } else {
                let clusters = grapheme_clusters(self.spans[i].text.as_str());
                let ghost parts = clusters@.map_values(|g: String| g@);
                let mut c: usize = 0;
                while c < clusters.len() && c < self.cluster
                    invariant
                        c <= clusters@.len(),
                        c <= self.cluster,
                        i < self.spans@.len(),
                        i == self.span,
                        parts == graphemes(self.spans@[i as int].text@),
                        parts == clusters@.map_values(|g: String| g@),
                        s@ == spans_text(self.spans@.subrange(0, i as int)) + flatten(parts.take(c as int)),
                    decreases clusters@.len() - c,
                {
                    s.append(clusters[c].as_str());
                    proof {
                        assert(parts.take(c + 1).drop_last() =~= parts.take(c as int));
                    }
                    c = c + 1;
                }
                proof {
                    assert(parts.len() == clusters@.len());
                }
                return s;
            }
            i = i + 1;
        }
        assert(self.spans@.subrange(0, self.spans@.len() as int) =~= self.spans@);
        s
    }

    /// Reveals more of the line at time `now`: one grapheme cluster, or
    /// with `until_gate` everything up to the next gate span or the end.
    /// Exhausted spans are passed over; reaching a gate stops there and
    /// returns its identity (the marker the dialogue task reaches); reaching
    /// the end waits for the reader to advance. A line that is at a gate or
    /// waiting is left as it is.
    pub fn advance_reveal(&mut self, until_gate: bool, now: Micros) -> (gate: Option<String>)
        ensures
            old(self).at_gate || old(self).awaiting_advance ==> *final(self) == *old(self) && gate is None,
            !(old(self).at_gate || old(self).awaiting_advance) ==> {
                let r = reveal_from(old(self).spans@, old(self).span as int, old(self).cluster as int, until_gate);
                &&& final(self).span == r.0 && final(self).cluster == r.1
                &&& final(self).at_gate == r.2 && final(self).awaiting_advance == r.3
                &&& match r.4 {
                    Some(g) => gate matches Some(x) && x@ == g,
                    None => gate is None,
                }
                &&& final(self).last_reveal_us == now
                &&& final(self).spans == old(self).spans && final(self).text_id == old(self).text_id
                &&& final(self).revision == old(self).revision && final(self).locale == old(self).locale
                &&& final(self).speaker == old(self).speaker && final(self).interaction == old(self).interaction
            },
            !until_gate && !(old(self).at_gate || old(self).awaiting_advance) && !final(self).at_gate && !final(self).awaiting_advance ==> {
                &&& final(self).span < final(self).spans@.len()
                &&& 1 <= final(self).cluster
                &&& revealed_text(*final(self)) == revealed_text(*old(self))
                    + graphemes(final(self).spans@[final(self).span as int].text@)[final(self).cluster - 1]
            },
            until_gate && !(old(self).at_gate || old(self).awaiting_advance) ==> {
                &&& final(self).at_gate || final(self).awaiting_advance
                &&& final(self).awaiting_advance ==> revealed_text(*final(self)) == spans_text(final(self).spans@)
                &&& final(self).at_gate && final(self).span > old(self).span
                    ==> revealed_text(*final(self)) == spans_text(final(self).spans@.subrange(0, final(self).span as int))
            },
    {
        if self.at_gate || self.awaiting_advance {
            return None;
        }
        let ghost r = reveal_from(self.spans@, self.span as int, self.cluster as int, until_gate);
        let ghost start = *self;
        let mut gate: Option<String> = None;
        loop
            invariant_except_break
                !self.at_gate,
                !self.awaiting_advance,
                gate is None,
                self.spans == start.spans,
                reveal_from(self.spans@, self.span as int, self.cluster as int, until_gate) == r,
            invariant
                start.span <= self.span,
                forall|i: int| start.span <= i < self.span
                    ==> flatten(graphemes((#[trigger] self.spans@[i]).text@)) == self.spans@[i].text@,
                self.spans == start.spans && self.text_id == start.text_id && self.revision == start.revision
                    && self.locale == start.locale && self.speaker == start.speaker && self.interaction == start.interaction
                    && self.last_reveal_us == start.last_reveal_us,
            ensures
                self.span == r.0 && self.cluster == r.1 && self.at_gate == r.2 && self.awaiting_advance == r.3,
                match r.4 {
                    Some(g) => gate matches Some(x) && x@ == g,
                    None => gate is None,
                },
            decreases self.spans@.len() - self.span, if self.span < self.spans@.len() {
                graphemes(self.spans@[self.span as int].text@).len() - self.cluster
            } else {
                0
            },
        {
            if self.span >= self.spans.len() {
                self.awaiting_advance = true;
                break;
            }
            if self.spans[self.span].gate {
                self.at_gate = true;
                gate = Some(self.spans[self.span].id.clone());
                break;
            }
            let clusters = grapheme_clusters(self.spans[self.span].text.as_str());
            let count = clusters.len();
            if self.cluster < count {
                self.cluster = self.cluster + 1;
                if !until_gate {
                    break;
                }
            } else {
                self.span = self.span + 1;
                self.cluster = 0;
            }
        }
        self.last_reveal_us = now;
        proof {
            if !until_gate && !self.at_gate && !self.awaiting_advance {
                single_reveal_shows_one_cluster(start, *self);
            }
            if until_gate {
                reveal_until_gate_stops_at_first_gate(start, *self);
            }
        }
        gate
    }
}

/// Where revealing stops, from span `span` and cluster `cluster`: as
/// (span, cluster, stopped at a gate span, waiting at the end, that span's identity).
pub open spec fn reveal_from(spans: Seq<FrozenSpan>, span: int, cluster: int, until_gate: bool) -> (int, int, bool, bool, Option<Seq<char>>)
    decreases spans.len() - span, if 0 <= span < spans.len() { graphemes(spans[span].text@).len() - cluster } else { 0 },
{
    if span < 0 || span >= spans.len() {
        (span, cluster, false, true, None)
    } else if spans[span].gate {
        (span, cluster, true, false, Some(spans[span].id@))
    } else if cluster < graphemes(spans[span].text@).len() {
        if !until_gate {
            (span, cluster + 1, false, false, None)
        } else {
            reveal_from(spans, span, cluster + 1, true)
        }
    } else {
        reveal_from(spans, span + 1, 0, until_gate)
    }
}

proof fn lemma_reveal_one(spans: Seq<FrozenSpan>, span: int, cluster: int)
    requires
        0 <= span,
        0 <= cluster,
        !reveal_from(spans, span, cluster, false).2,
        !reveal_from(spans, span, cluster, false).3,
        forall|i: int| span <= i < reveal_from(spans, span, cluster, false).0
            ==> flatten(graphemes((#[trigger] spans[i]).text@)) == spans[i].text@,
    ensures
        ({
            let r = reveal_from(spans, span, cluster, false);
            &&& span <= r.0 < spans.len()
            &&& 1 <= r.1 <= graphemes(spans[r.0].text@).len()
            &&& shown(spans, r.0, r.1) == shown(spans, span, cluster) + graphemes(spans[r.0].text@)[r.1 - 1]
        }),
    decreases spans.len() - span, if 0 <= span < spans.len() { graphemes(spans[span].text@).len() - cluster } else { 0 },
{
    if span < spans.len() && !spans[span].gate {
        let g = graphemes(spans[span].text@);
        if cluster < g.len() {
            assert(g.take(cluster + 1).drop_last() =~= g.take(cluster));
        } else {
            lemma_reveal_one(spans, span + 1, 0);
            assert(g.take(g.len() as int) =~= g);
            assert(spans.subrange(0, span + 1).drop_last() =~= spans.subrange(0, span));
            assert(graphemes(spans[span + 1].text@).take(0) =~= Seq::<Seq<char>>::empty());
            assert(shown(spans, span + 1, 0) == shown(spans, span, cluster));
        }
    }
}

/// A single-step reveal shows exactly one more grapheme cluster: when the
/// cursor of `after` is where a reveal of one cluster from the cursor of
/// `before` stops, neither at a gate nor at the end, the text visible in
/// `after` is that of `before` followed by one cluster, the one the cursor
/// of `after` stands behind. The spans the reveal passes over are taken to
/// be split into clusters that join back to their text, as the segmentation
/// of `grapheme_clusters` splits every text.
pub proof fn single_reveal_shows_one_cluster(before: Dialogue, after: Dialogue)
    requires
        reveal_from(before.spans@, before.span as int, before.cluster as int, false).0 == after.span,
        reveal_from(before.spans@, before.span as int, before.cluster as int, false).1 == after.cluster,
        !reveal_from(before.spans@, before.span as int, before.cluster as int, false).2,
        !reveal_from(before.spans@, before.span as int, before.cluster as int, false).3,
        after.spans == before.spans,
        forall|i: int| before.span <= i < after.span
            ==> flatten(graphemes((#[trigger] before.spans@[i]).text@)) == before.spans@[i].text@,
    ensures
        after.span < after.spans@.len(),
        1 <= after.cluster <= graphemes(after.spans@[after.span as int].text@).len(),
        revealed_text(after) == revealed_text(before) + graphemes(after.spans@[after.span as int].text@)[after.cluster - 1],
{
    lemma_reveal_one(before.spans@, before.span as int, before.cluster as int);
}

proof fn lemma_reveal_all(spans: Seq<FrozenSpan>, span: int, cluster: int)
    requires
        0 <= span,
    ensures
        ({
            let r = reveal_from(spans, span, cluster, true);
            &&& r.2 || r.3
            &&& span <= r.0
            &&& forall|i: int| span <= i < r.0 && i < spans.len() ==> !(#[trigger] spans[i]).gate
            &&& r.2 ==> r.0 < spans.len() && spans[r.0].gate && (r.0 > span ==> r.1 == 0)
            &&& r.3 ==> r.0 >= spans.len()
        }),
    decreases spans.len() - span, if 0 <= span < spans.len() { graphemes(spans[span].text@).len() - cluster } else { 0 },
{
    if span < spans.len() && !spans[span].gate {
        if cluster < graphemes(spans[span].text@).len() {
            lemma_reveal_all(spans, span, cluster + 1);
        } else {
            lemma_reveal_all(spans, span + 1, 0);
        }
    }
}

/// Revealing up to a gate stops at the first gate at or after the cursor,
/// showing everything before it, or, with no gate ahead, shows the whole
/// line and waits at its end: it never stops in the middle of the text.
pub proof fn reveal_until_gate_stops_at_first_gate(before: Dialogue, after: Dialogue)
    requires
        reveal_from(before.spans@, before.span as int, before.cluster as int, true).0 == after.span,
        reveal_from(before.spans@, before.span as int, before.cluster as int, true).1 == after.cluster,
        reveal_from(before.spans@, before.span as int, before.cluster as int, true).2 == after.at_gate,
        reveal_from(before.spans@, before.span as int, before.cluster as int, true).3 == after.awaiting_advance,
        after.spans == before.spans,
    ensures
        after.at_gate || after.awaiting_advance,
        forall|i: int| before.span <= i < after.span && i < after.spans@.len() ==> !(#[trigger] after.spans@[i]).gate,
        after.at_gate ==> after.span < after.spans@.len() && after.spans@[after.span as int].gate,
        after.at_gate && after.span > before.span ==> revealed_text(after) == spans_text(after.spans@.subrange(0, after.span as int)),
        after.awaiting_advance ==> revealed_text(after) == spans_text(after.spans@),
{
    lemma_reveal_all(before.spans@, before.span as int, before.cluster as int);
    if after.at_gate && after.span > before.span {
        assert(graphemes(after.spans@[after.span as int].text@).take(0) =~= Seq::<Seq<char>>::empty());
    }
}

} // verus!
