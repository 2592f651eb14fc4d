//! The plugin lifecycle. The engine's plugins become ready some frames after the
//! start, since the graphics device is set up asynchronously. Nothing but the frame
//! loop moves the engine on, so each frame asks how far its plugins are and does the
//! next thing that is due.
use vstd::prelude::*;

verus! {

/// How far the engine's plugins are.
#[derive(Clone, Copy, PartialEq, Eq, Structural, Debug)]
pub enum PluginsState {
    /// Some plugin is not ready.
    Adding,
    /// All plugins are ready.
    Ready,
    /// All plugins have been finished.
    Finished,
    /// All plugins have been cleaned up.
    Cleaned,
}

/// What is due in a frame.
#[derive(Clone, Copy, PartialEq, Eq, Structural, Debug)]
pub enum Step {
    /// Wait for the plugins.
    Wait,
    /// Finish the plugins and clean them up.
    FinishAndCleanup,
    /// Run the schedule.
    Tick,
}

/// What is due in a frame that asks for the plugins' state and finds `state`, and, asking
/// once more, `again`.
pub open spec fn due(state: PluginsState, again: PluginsState) -> Step {
    if state == PluginsState::Cleaned {
        Step::Tick
    } else if again == PluginsState::Ready {
        Step::FinishAndCleanup
    } else {
        Step::Wait
    }
}

/// What is due in a frame that asks for the plugins' state and finds `state`, and, asking
/// once more, `again`.
pub fn next_step(state: PluginsState, again: PluginsState) -> (r: Step)
    ensures
        r == due(state, again),
        r == Step::Tick <==> state == PluginsState::Cleaned,
        r == Step::FinishAndCleanup <==> state != PluginsState::Cleaned && again
            == PluginsState::Ready,
{
    if state != PluginsState::Cleaned {
        if again == PluginsState::Ready {
            Step::FinishAndCleanup
        } else {
            Step::Wait
        }
    } else {
        Step::Tick
    }
}

/// The schedule runs in exactly the frames that find the plugins cleaned up. In the others the
/// plugins are finished and cleaned up if they are ready when asked once more, and nothing is
/// done if they are not.
pub proof fn law_each_answer_has_its_step(state: PluginsState, again: PluginsState)
    ensures
        due(state, again) == Step::Tick <==> state == PluginsState::Cleaned,
        due(state, again) == Step::FinishAndCleanup <==> state != PluginsState::Cleaned && again
            == PluginsState::Ready,
        due(state, again) == Step::Wait <==> state != PluginsState::Cleaned && again
            != PluginsState::Ready,
{
}

/// What is due in frame `i`, given the two answers of each frame.
pub open spec fn step_at(answers: Seq<(PluginsState, PluginsState)>, i: int) -> Step {
    due(answers[i].0, answers[i].1)
}

/// The plugins were finished and cleaned up before frame `i`.
pub open spec fn cleaned_before(answers: Seq<(PluginsState, PluginsState)>, i: int) -> bool {
    exists|j: int| 0 <= j < i && #[trigger] step_at(answers, j) == Step::FinishAndCleanup
}

/// The answers are those of an engine whose plugins are cleaned from the frame on that
/// follows the one that cleans them up, and not before.
pub open spec fn of_engine(answers: Seq<(PluginsState, PluginsState)>) -> bool {
    forall|i: int|
        0 <= i < answers.len() ==> {
            &&& cleaned_before(answers, i) <==> (#[trigger] answers[i]).0 == PluginsState::Cleaned
            &&& cleaned_before(answers, i) <==> answers[i].1 == PluginsState::Cleaned
        }
}

/// The plugins are finished and cleaned up once at most.
pub proof fn law_cleanup_runs_once(answers: Seq<(PluginsState, PluginsState)>, i: int, j: int)
    requires
        of_engine(answers),
        0 <= i < answers.len(),
        0 <= j < answers.len(),
        step_at(answers, i) == Step::FinishAndCleanup,
        step_at(answers, j) == Step::FinishAndCleanup,
    ensures
        i == j,
{
    if i < j {
        assert(cleaned_before(answers, j));
        assert(answers[j].0 == PluginsState::Cleaned);
    } else if j < i {
        assert(cleaned_before(answers, i));
        assert(answers[i].0 == PluginsState::Cleaned);
    }
}

/// The schedule runs in exactly the frames after the one that finished the plugins and
/// cleaned them up.
pub proof fn law_ticks_follow_cleanup(answers: Seq<(PluginsState, PluginsState)>, i: int)
    requires
        of_engine(answers),
        0 <= i < answers.len(),
    ensures
        step_at(answers, i) == Step::Tick <==> cleaned_before(answers, i),
{
    assert(cleaned_before(answers, i) <==> answers[i].0 == PluginsState::Cleaned);
}

/// Until the plugins have been cleaned up, a frame cleans them up as soon as it finds
/// them ready and waits otherwise.
pub proof fn law_cleanup_waits_for_ready(answers: Seq<(PluginsState, PluginsState)>, i: int)
    requires
        of_engine(answers),
        0 <= i < answers.len(),
        !cleaned_before(answers, i),
    ensures
        answers[i].1 == PluginsState::Ready ==> step_at(answers, i) == Step::FinishAndCleanup,
        answers[i].1 != PluginsState::Ready ==> step_at(answers, i) == Step::Wait,
{
    assert(cleaned_before(answers, i) <==> answers[i].0 == PluginsState::Cleaned);
}

/// The plugins are finished and cleaned up before the schedule first runs.
pub proof fn law_cleanup_comes_before_ticks(
    answers: Seq<(PluginsState, PluginsState)>,
    i: int,
    j: int,
)
    requires
        of_engine(answers),
        0 <= i < answers.len(),
        0 <= j < answers.len(),
        step_at(answers, i) == Step::FinishAndCleanup,
        step_at(answers, j) == Step::Tick,
    ensures
        i < j,
{
    law_ticks_follow_cleanup(answers, j);
    let k = choose|k: int| 0 <= k < j && #[trigger] step_at(answers, k) == Step::FinishAndCleanup;
    law_cleanup_runs_once(answers, i, k);
}

/// Plugins that are cleaned up stay so.
pub proof fn law_cleaned_stays_cleaned(
    answers: Seq<(PluginsState, PluginsState)>,
    i: int,
    j: int,
)
    requires
        of_engine(answers),
        0 <= i <= j < answers.len(),
        answers[i].0 == PluginsState::Cleaned,
    ensures
        answers[j].0 == PluginsState::Cleaned,
{
    assert(cleaned_before(answers, i));
    let k = choose|k: int| 0 <= k < i && #[trigger] step_at(answers, k) == Step::FinishAndCleanup;
    assert(0 <= k < j && step_at(answers, k) == Step::FinishAndCleanup);
    assert(cleaned_before(answers, j) <==> answers[j].0 == PluginsState::Cleaned);
}

/// The number of frames that find the plugins cleaned up.
pub open spec fn cleaned_frames(answers: Seq<(PluginsState, PluginsState)>) -> nat
    decreases answers.len(),
{
    if answers.len() == 0 {
        0
    } else {
        cleaned_frames(answers.drop_last()) + if answers.last().0 == PluginsState::Cleaned {
            1nat
        } else {
            0
        }
    }
}

} // verus!
