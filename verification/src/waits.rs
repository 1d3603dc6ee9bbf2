//! How the story machine leaves a suspension: a wait is resolved by the
//! states and milestones of the tasks it waits on, a choice by the
//! player's answer.
use crate::assoc::{assoc, get_entry};
use crate::dialogue::{CoreIntent, OfferedChoice, TaskState, Waiting};
use crate::eval::{location, location_of};
use crate::format::{diag_is, Diagnostic, Milestone};
use crate::machine::{intent_views, jump, jumped, IntentView};
use crate::strings::{concat, str_eq};
use crate::snapshot::{milestone_same, same_milestone, SavedTask, Snapshot};
use crate::source::Program;
use vstd::prelude::*;
use vstd::string::*;

verus! {

/// The task filed under `id`: the first entry with that identity.
pub open spec fn task_of(tasks: Seq<(u32, SavedTask)>, id: u32) -> Option<SavedTask>
    decreases tasks.len(),
{
    if tasks.len() == 0 {
        None
    } else if tasks[0].0 == id {
        Some(tasks[0].1)
    } else {
        task_of(tasks.drop_first(), id)
    }
}

/// Task `t` reached milestone `m`.
pub open spec fn reached(t: SavedTask, m: Milestone) -> bool {
    exists|k: int| 0 <= k < t.milestones@.len() && same_milestone(#[trigger] t.milestones@[k], m)
}

/// Some condition of `w` names a task that is not filed.
pub open spec fn wait_broken(w: Waiting, tasks: Seq<(u32, SavedTask)>) -> bool {
    exists|i: int| 0 <= i < w.conditions@.len() && task_of(tasks, (#[trigger] w.conditions@[i]).0) is None
}

/// Some condition's task ended in state `s`.
pub open spec fn some_task_in(w: Waiting, tasks: Seq<(u32, SavedTask)>, s: TaskState) -> bool {
    exists|i: int| 0 <= i < w.conditions@.len() && (task_of(tasks, (#[trigger] w.conditions@[i]).0) matches Some(t) && t.state == s)
}

/// Every condition's task reached its milestone.
pub open spec fn all_reached(w: Waiting, tasks: Seq<(u32, SavedTask)>) -> bool {
    forall|i: int| 0 <= i < w.conditions@.len() ==> (task_of(tasks, (#[trigger] w.conditions@[i]).0) matches Some(t) && reached(t, w.conditions@[i].1))
}

/// Where a wait continues: to its failure block when a task failed, else to
/// its cancellation block when a task was cancelled, else to its next block
/// when every task reached its milestone; otherwise it goes on waiting.
pub open spec fn wait_target(w: Waiting, tasks: Seq<(u32, SavedTask)>) -> Option<Seq<char>> {
    if some_task_in(w, tasks, TaskState::Failed) {
        Some(w.on_failed@)
    } else if some_task_in(w, tasks, TaskState::Cancelled) {
        Some(w.on_cancelled@)
    } else if all_reached(w, tasks) {
        Some(w.next@)
    } else {
        None
    }
}

fn find_task(tasks: &Vec<(u32, SavedTask)>, id: u32) -> (r: Option<usize>)
    ensures
        match r {
            Some(k) => k < tasks@.len() && task_of(tasks@, id) == Some(tasks@[k as int].1),
            None => task_of(tasks@, id) is None,
        },
{
    let mut k: usize = 0;
    proof {
        assert(tasks@.subrange(0, tasks@.len() as int) =~= tasks@);
    }
    while k < tasks.len()
        invariant
            k <= tasks@.len(),
            task_of(tasks@, id) == task_of(tasks@.subrange(k as int, tasks@.len() as int), id),
        decreases tasks@.len() - k,
    {
        proof {
            assert(tasks@.subrange(k as int, tasks@.len() as int).drop_first() =~= tasks@.subrange(k + 1, tasks@.len() as int));
        }
        if tasks[k].0 == id {
            return Some(k);
        }
        k = k + 1;
    }
    proof {
        assert(tasks@.subrange(k as int, tasks@.len() as int).len() == 0);
    }
    None
}

fn has_milestone(t: &SavedTask, m: &Milestone) -> (r: bool)
    ensures
        r == reached(*t, *m),
{
    let mut k: usize = 0;
    while k < t.milestones.len()
        invariant
            k <= t.milestones@.len(),
            forall|q: int| 0 <= q < k ==> !same_milestone(#[trigger] t.milestones@[q], *m),
        decreases t.milestones@.len() - k,
    {
        if milestone_same(&t.milestones[k], m) {
            return true;
        }
        k = k + 1;
    }
    false
}

/// Where the wait `w` continues among `tasks`: `None` when a condition
/// names a task that is not filed, else `Some` of the block, or of `None`
/// while it goes on waiting.
fn wait_outcome(w: &Waiting, tasks: &Vec<(u32, SavedTask)>) -> (r: Option<Option<String>>)
    ensures
        wait_broken(*w, tasks@) <==> r is None,
        r matches Some(o) ==> match wait_target(*w, tasks@) {
            Some(b) => o matches Some(x) && x@ == b,
            None => o is None,
        },
{
    let mut failed = false;
    let mut cancelled = false;
    let mut all = true;
    let mut i: usize = 0;
    while i < w.conditions.len()
        invariant
            i <= w.conditions@.len(),
            failed == exists|j: int| 0 <= j < i && (task_of(tasks@, (#[trigger] w.conditions@[j]).0) matches Some(t) && t.state == TaskState::Failed),
            cancelled == exists|j: int| 0 <= j < i && (task_of(tasks@, (#[trigger] w.conditions@[j]).0) matches Some(t) && t.state == TaskState::Cancelled),
            all == forall|j: int| 0 <= j < i ==> (task_of(tasks@, (#[trigger] w.conditions@[j]).0) matches Some(t) && reached(t, w.conditions@[j].1)),
            forall|j: int| 0 <= j < i ==> task_of(tasks@, (#[trigger] w.conditions@[j]).0) is Some,
        decreases w.conditions@.len() - i,
    {
        let (id, m) = (w.conditions[i].0, &w.conditions[i].1);
        match find_task(tasks, id) {
            None => {
                proof {
                    assert(wait_broken(*w, tasks@));
                }
                return None;
            },
            Some(k) => {
                let t = &tasks[k].1;
                let f = t.state == TaskState::Failed;
                let c = t.state == TaskState::Cancelled;
                let h = has_milestone(t, m);
                proof {
                    if f {
                        assert(task_of(tasks@, w.conditions@[i as int].0) matches Some(x) && x.state == TaskState::Failed);
                    }
                    if c {
                        assert(task_of(tasks@, w.conditions@[i as int].0) matches Some(x) && x.state == TaskState::Cancelled);
                    }
                }
                failed = failed || f;
                cancelled = cancelled || c;
                all = all && h;
            },
        }
        i = i + 1;
    }
    proof {
        assert(!wait_broken(*w, tasks@));
    }
    if failed {
        Some(Some(w.on_failed.clone()))
    } else if cancelled {
        Some(Some(w.on_cancelled.clone()))
    } else if all {
        Some(Some(w.next.clone()))
    } else {
        Some(None)
    }
}

/// Resolves the wait the machine is suspended on. A condition on a task
/// that is not filed is a fault at the machine's location, with the state
/// unchanged. When the wait ends, it is cleared, the innermost frame moves
/// to the block it continues to and the result is `true`; while it goes
/// on, nothing changes and the result is `false`.
pub fn resolve_wait(p: &Program, st: &mut Snapshot) -> (r: Result<bool, Diagnostic>)
    requires
        old(st).waiting is Some,
        wait_target(old(st).waiting->0, old(st).tasks@) is Some ==> old(st).frames@.len() > 0,
    ensures
        ({
            let w = old(st).waiting->0;
            let a = *old(st);
            let b = *final(st);
            if wait_broken(w, a.tasks@) {
                &&& r matches Err(d) && diag_is(d, "E_TASK"@, location_of(a.frames@), "wait references missing task"@)
                &&& b == a
            } else {
                match wait_target(w, a.tasks@) {
                    Some(t) => {
                        &&& r == Ok::<bool, Diagnostic>(true)
                        &&& jumped(*p, a.frames@, b.frames@, t)
                        &&& b == (Snapshot { waiting: None, frames: b.frames, ..a })
                    },
                    None => r == Ok::<bool, Diagnostic>(false) && b == a,
                }
            }
        }),
{
    let o = match &st.waiting {
        Some(w) => wait_outcome(w, &st.tasks),
        None => {
            return Ok(false);
        },
    };
    match o {
        None => {
            let at = location(&st.frames);
            Err(Diagnostic::new("E_TASK", at.as_str(), "wait references missing task"))
        },
        Some(None) => Ok(false),
        Some(Some(dest)) => {
            st.waiting = None;
            jump(&mut st.frames, p, dest.as_str());
            Ok(true)
        },
    }
}

/// Option `option` of choice `c` is offered and enabled.
pub open spec fn option_open(c: OfferedChoice, option: Seq<char>) -> bool {
    exists|k: int| 0 <= k < c.options@.len() && (#[trigger] c.options@[k]).id@ == option && c.options@[k].enabled
}

/// The answer (`interaction`, `option`, `sequence`) is taken in state `a`:
/// it is newer than the last input taken and picks an enabled option of the
/// choice on offer in that interaction.
pub open spec fn answer_taken(a: Snapshot, interaction: u32, option: Seq<char>, sequence: u32) -> bool {
    &&& sequence > a.last_input
    &&& a.choice matches Some(c)
    &&& c.interaction == interaction
    &&& option_open(c, option)
}

fn option_enabled(c: &OfferedChoice, option: &str) -> (r: bool)
    ensures
        r == option_open(*c, option@),
{
    let mut k: usize = 0;
    while k < c.options.len()
        invariant
            k <= c.options@.len(),
            forall|q: int| 0 <= q < k ==> !((#[trigger] c.options@[q]).id@ == option@ && c.options@[q].enabled),
        decreases c.options@.len() - k,
    {
        if c.options[k].enabled && str_eq(c.options[k].id.as_str(), option) {
            return true;
        }
        k = k + 1;
    }
    false
}

/// Takes the player's answer to the choice on offer. An answer that is not
/// newer than the last input taken, or that does not pick an enabled option
/// of the choice on offer in `interaction`, changes nothing and gives
/// `false`. Otherwise the answer's sequence becomes the last input, the
/// choice is withdrawn, the innermost frame moves to the option's branch,
/// the count of operations since the last suspension restarts, a trace of
/// the answer at the machine's location and a checkpoint are queued, and
/// the result is `true`.
pub fn take_answer(
    p: &Program,
    st: &mut Snapshot,
    intents: &mut Vec<CoreIntent>,
    interaction: u32,
    option: &str,
    sequence: u32,
) -> (r: bool)
    requires
        answer_taken(*old(st), interaction, option@, sequence) ==> {
            &&& old(st).frames@.len() > 0
            &&& assoc(old(st).choice->0.branches@, option@) is Some
        },
    ensures
        ({
            let a = *old(st);
            let b = *final(st);
            if answer_taken(a, interaction, option@, sequence) {
                &&& r
                &&& jumped(*p, a.frames@, b.frames@, assoc(a.choice->0.branches@, option@)->0@)
                &&& b == (Snapshot { last_input: sequence, choice: None, frames: b.frames, unsuspended_ops: 0, ..a })
                &&& intent_views(final(intents)@) == intent_views(old(intents)@)
                    + seq![IntentView::Trace("choose:"@ + option@, location_of(a.frames@)), IntentView::Checkpoint]
            } else {
                &&& !r
                &&& b == a
                &&& final(intents)@ == old(intents)@
            }
        }),
{
    if sequence <= st.last_input {
        return false;
    }
    let dest = match &st.choice {
        Some(c) => {
            if c.interaction != interaction || !option_enabled(c, option) {
                return false;
            }
            match get_entry(&c.branches, option) {
                Some(d) => d.clone(),
                None => {
                    return false;
                },
            }
        },
        None => {
            return false;
        },
    };
    st.last_input = sequence;
    let at = location(&st.frames);
    let event = concat("choose:", option);
    proof {
        reveal_strlit("choose:");
    }
    let ghost before = intent_views(intents@);
    intents.push(CoreIntent::Trace { event, at });
    st.choice = None;
    jump(&mut st.frames, p, dest.as_str());
    st.unsuspended_ops = 0;
    intents.push(CoreIntent::Checkpoint);
    proof {
        assert(intent_views(intents@) =~= before + seq![IntentView::Trace("choose:"@ + option@, location_of(old(st).frames@)), IntentView::Checkpoint]);
    }
    true
}

/// Once an answer is taken, no other answer is taken, a repeat of the same
/// sequence or a newer one alike, until a choice is offered again: the
/// state that taking it leaves has no choice on offer and records its
/// sequence as the last input. Were the same choice offered again, no
/// answer whose sequence is not newer would be taken either.
pub proof fn taken_answer_is_not_repeated(
    a: Snapshot,
    b: Snapshot,
    interaction: u32,
    option: Seq<char>,
    sequence: u32,
    later_interaction: u32,
    later_option: Seq<char>,
    later_sequence: u32,
)
    requires
        answer_taken(a, interaction, option, sequence),
        b == (Snapshot { last_input: sequence, choice: None, frames: b.frames, unsuspended_ops: 0, ..a }),
    ensures
        !answer_taken(b, later_interaction, later_option, later_sequence),
        later_sequence <= sequence ==> !answer_taken(
            Snapshot { choice: a.choice, ..b },
            later_interaction,
            later_option,
            later_sequence,
        ),
{
}

/// How a wait resolves: once a task it waits on has failed it continues to
/// its failure block, whatever the other tasks did; otherwise once one has
/// been cancelled, to its cancellation block; otherwise once every task has
/// reached the milestone it is waited for, to its next block; and while a
/// task is still short of its milestone, it goes on waiting.
pub proof fn wait_resolution_order(w: Waiting, tasks: Seq<(u32, SavedTask)>, i: int)
    requires
        !wait_broken(w, tasks),
        0 <= i < w.conditions@.len(),
    ensures
        ({
            let t = task_of(tasks, w.conditions@[i].0)->0;
            let failed = exists|k: int| 0 <= k < w.conditions@.len()
                && (task_of(tasks, (#[trigger] w.conditions@[k]).0)->0).state == TaskState::Failed;
            let cancelled = exists|k: int| 0 <= k < w.conditions@.len()
                && (task_of(tasks, (#[trigger] w.conditions@[k]).0)->0).state == TaskState::Cancelled;
            &&& t.state == TaskState::Failed ==> wait_target(w, tasks) == Some(w.on_failed@)
            &&& (t.state == TaskState::Cancelled && !failed) ==> wait_target(w, tasks) == Some(w.on_cancelled@)
            &&& (!failed && !cancelled && (forall|k: int| 0 <= k < w.conditions@.len() ==> exists|m: int|
                0 <= m < (task_of(tasks, (#[trigger] w.conditions@[k]).0)->0).milestones@.len()
                && same_milestone((task_of(tasks, w.conditions@[k].0)->0).milestones@[m], w.conditions@[k].1)))
                ==> wait_target(w, tasks) == Some(w.next@)
            &&& (!failed && !cancelled && (forall|m: int| 0 <= m < t.milestones@.len()
                ==> !same_milestone(#[trigger] t.milestones@[m], w.conditions@[i].1)))
                ==> wait_target(w, tasks) is None
        }),
{
    assert(task_of(tasks, w.conditions@[i].0) is Some);
}

/// Only an enabled option of the choice on offer, picked in that choice's
/// interaction by an input newer than the last one taken, is ever taken.
pub proof fn only_newer_answers_to_enabled_options_are_taken(a: Snapshot, interaction: u32, option: Seq<char>, sequence: u32)
    requires
        answer_taken(a, interaction, option, sequence),
    ensures
        sequence > a.last_input,
        a.choice matches Some(c) && c.interaction == interaction
            && exists|k: int| 0 <= k < c.options@.len() && (#[trigger] c.options@[k]).id@ == option && c.options@[k].enabled,
{
}

} // verus!
