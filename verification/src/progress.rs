//! What a run promises: no job is left free, nothing starts too early, and the report is true.

use crate::executor::just_words;
use crate::executor::launches;
use crate::executor::reports_end;
use crate::executor::Duration;
use crate::executor::ExecutorEvent;
use crate::executor::Launch;
use crate::executor::TaskState;
use crate::schedule::end_state;
use crate::schedule::everything_is_accounted_for;
use crate::schedule::has_ended;
use crate::schedule::lemma_ready_among;
use crate::schedule::lemma_tally_bounds;
use crate::schedule::lemma_tally_parts;
use crate::schedule::lemma_with_running;
use crate::schedule::only_ready_recipes_start;
use crate::schedule::skip_reason_has_failed;
use crate::schedule::tally;
use crate::schedule::Board;
use crate::sequences::lemma_filter_first;
use crate::text::views;
use vstd::prelude::*;

verus! {

/// The positions whose state is of a kind.
pub open spec fn places(states: Seq<TaskState>, kind: spec_fn(TaskState) -> bool) -> Set<int> {
    Set::new(|i: int| 0 <= i < states.len() && kind(states[i]))
}

/// The positions of the recipes that run.
pub open spec fn running_places(b: Board) -> Set<int> {
    places(b.states, |s: TaskState| s is Running)
}

/// The positions of the recipes that wait.
pub open spec fn waiting_places(b: Board) -> Set<int> {
    places(b.states, |s: TaskState| s is Waiting)
}

/// The positions of the recipes that completed with success.
pub open spec fn completed_places(b: Board) -> Set<int> {
    places(b.states, |s: TaskState| s is Completed)
}

/// The positions of the recipes that failed.
pub open spec fn failed_places(b: Board) -> Set<int> {
    places(b.states, |s: TaskState| s is Failed)
}

/// A count of states is the number of positions with such a state.
proof fn lemma_places(states: Seq<TaskState>, kind: spec_fn(TaskState) -> bool)
    ensures
        places(states, kind).finite(),
        places(states, kind).len() == tally(states, kind),
    decreases states.len(),
{
    let all = places(states, kind);
    if states.len() == 0 {
        assert(all =~= Set::<int>::empty());
    } else {
        let t = states.drop_last();
        let before = places(t, kind);
        let last = states.len() - 1;
        lemma_places(t, kind);
        if kind(states.last()) {
            assert(all =~= before.insert(last));
            assert(!before.contains(last));
        } else {
            assert(all =~= before);
        }
    }
}

/// What has ended has completed or failed.
proof fn lemma_tally_ended(states: Seq<TaskState>)
    ensures
        tally(states, |s: TaskState| has_ended(s)) == tally(states, |s: TaskState| s is Completed)
            + tally(states, |s: TaskState| s is Failed),
    decreases states.len(),
{
    if states.len() > 0 {
        lemma_tally_ended(states.drop_last());
    }
}

/// The counts are those of the recipes that run, wait, failed, and completed or failed.
pub proof fn counts_are_of_recipes(b: Board)
    ensures
        running_places(b).finite() && b.running() == running_places(b).len(),
        waiting_places(b).finite() && b.waiting() == waiting_places(b).len(),
        failed_places(b).finite() && b.failed() == failed_places(b).len(),
        completed_places(b).finite() && b.ended() == completed_places(b).len() + failed_places(
            b,
        ).len(),
{
    lemma_places(b.states, |s: TaskState| s is Running);
    lemma_places(b.states, |s: TaskState| s is Waiting);
    lemma_places(b.states, |s: TaskState| s is Failed);
    lemma_places(b.states, |s: TaskState| s is Completed);
    lemma_tally_ended(b.states);
}

/// What starts is what changes: exactly the recipes to start go from waiting to running, each is
/// to be started once, and no other state changes, nor anything else.
pub proof fn started_recipes_are_launched(b: Board)
    requires
        b.wf(),
    ensures
        b.to_start().no_duplicates(),
        forall|k: int|
            0 <= k < b.to_start().len() ==> 0 <= #[trigger] b.to_start()[k] < b.order.len()
                && b.states[b.to_start()[k]] is Waiting
                && b.started().states[b.to_start()[k]] is Running,
        forall|i: int|
            0 <= i < b.order.len() && !b.to_start().contains(i) ==> #[trigger] b.started().states[i]
                == b.states[i],
        b.started().states.len() == b.states.len(),
        b.started().order == b.order,
        b.started().deps == b.deps,
        b.started().target == b.target,
        b.started().settings == b.settings,
{
    only_ready_recipes_start(b);
    assert forall|k: int| 0 <= k < b.to_start().len() implies 0 <= #[trigger] b.to_start()[k]
        < b.order.len() && b.states[b.to_start()[k]] is Waiting
        && b.started().states[b.to_start()[k]] is Running by {
        assert(b.is_ready(b.to_start()[k]));
        assert(b.to_start().contains(b.to_start()[k]));
    }
}

/// Some dependency of a recipe has neither completed nor failed.
pub open spec fn is_held_back(b: Board, i: int) -> bool {
    exists|j: int|
        0 <= j < b.order.len() && b.deps[i].contains(#[trigger] b.order[j]) && !(b.states[j] is
            Completed) && !(b.states[j] is Failed)
}

proof fn lemma_ready(b: Board, i: int)
    requires
        b.wf(),
        0 <= i < b.order.len(),
    ensures
        b.is_ready(i) <==> b.states[i] is Waiting && !is_held_back(b, i),
{
    if b.is_ready(i) && is_held_back(b, i) {
        let j = choose|j: int|
            0 <= j < b.order.len() && b.deps[i].contains(#[trigger] b.order[j]) && !(b.states[j]
                is Completed) && !(b.states[j] is Failed);
        assert(b.is_ended(b.order[j]));
    }
    if b.states[i] is Waiting && !is_held_back(b, i) {
        assert forall|d: Seq<char>| #[trigger] b.deps[i].contains(d) implies b.is_ended(d) by {
            let j = choose|j: int| 0 <= j < i && #[trigger] b.order[j] == d;
            assert(b.order[j] == d && has_ended(b.states[j]));
        }
    }
}

proof fn lemma_none_failed(b: Board)
    requires
        failed_places(b) =~= Set::<int>::empty(),
    ensures
        b.failed() == 0,
{
    counts_are_of_recipes(b);
}

/// No job is left free while a recipe could run: where nothing has failed, as many recipes run
/// after a start as may run, or every recipe that still waits is held back by a dependency. The
/// number of recipes that run never exceeds the limit.
pub proof fn no_job_is_left_free(b: Board)
    requires
        b.wf(),
        forall|i: int| 0 <= i < b.order.len() ==> !(#[trigger] b.states[i] is Failed),
        running_places(b).len() <= b.settings.max_jobs,
    ensures
        running_places(b.started()).len() <= b.settings.max_jobs,
        running_places(b.started()).len() == b.settings.max_jobs || forall|i: int|
            0 <= i < b.order.len() && #[trigger] b.started().states[i] is Waiting ==> is_held_back(
                b,
                i,
            ),
{
    let n = b.order.len() as int;
    let ready = b.ready_among(n);
    assert(failed_places(b) =~= Set::<int>::empty());
    lemma_none_failed(b);
    counts_are_of_recipes(b);
    counts_are_of_recipes(b.started());
    only_ready_recipes_start(b);
    lemma_with_running(b, b.to_start());
    lemma_ready_among(b, n);
    if running_places(b.started()).len() != b.settings.max_jobs {
        assert(b.to_start() =~= ready);
        assert forall|i: int|
            0 <= i < n && #[trigger] b.started().states[i] is Waiting implies is_held_back(
            b,
            i,
        ) by {
            lemma_ready(b, i);
            if b.is_ready(i) {
                assert(ready.contains(i));
            }
        }
    }
}

/// Recipes start in turn: a recipe that waits and is not held back starts before any that stands
/// behind it in the order.
pub proof fn recipes_start_in_turn(b: Board, i: int, j: int)
    requires
        b.wf(),
        0 <= i < j < b.order.len(),
        b.states[i] is Waiting,
        !is_held_back(b, i),
        b.states[j] is Waiting,
        b.started().states[j] is Running,
    ensures
        b.started().states[i] is Running,
{
    let n = b.order.len() as int;
    let ready = b.ready_among(n);
    lemma_ready(b, i);
    lemma_ready_among(b, n);
    assert(ready.contains(i));
    let p = choose|p: int| 0 <= p < ready.len() && ready[p] == i;
    let q = choose|q: int| 0 <= q < b.to_start().len() && b.to_start()[q] == j;
    assert(b.to_start()[q] == ready[q]);
    if p >= q {
        assert(ready[q] <= ready[p]);
    }
    assert(b.to_start()[p] == i);
    assert(b.to_start().contains(i));
}

/// Only recipes that are not held back start.
pub proof fn held_back_recipes_wait(b: Board, i: int)
    requires
        b.wf(),
        0 <= i < b.order.len(),
        b.states[i] is Waiting,
        is_held_back(b, i),
    ensures
        b.started().states[i] is Waiting,
{
    only_ready_recipes_start(b);
    lemma_ready(b, i);
    if b.to_start().contains(i) {
        let k = choose|k: int| 0 <= k < b.to_start().len() && b.to_start()[k] == i;
        assert(b.is_ready(b.to_start()[k]));
    }
}

/// After a failure nothing starts.
pub proof fn failure_stops_all_starts(b: Board, i: int)
    requires
        b.wf(),
        0 <= i < b.order.len(),
        b.states[i] is Failed,
    ensures
        b.started().states == b.states,
        b.to_start().len() == 0,
{
    let kind = |s: TaskState| s is Failed;
    lemma_tally_bounds(b.states, kind);
    assert(kind(b.states[i]));
    only_ready_recipes_start(b);
    assert(b.started().states =~= b.states);
}

/// A run is over exactly when every recipe has completed or failed, or one failed and none runs.
pub proof fn run_is_over_when_nothing_is_left(b: Board)
    requires
        b.wf(),
    ensures
        b.is_over() <==> (forall|i: int|
            0 <= i < b.order.len() ==> #[trigger] b.states[i] is Completed || b.states[i] is Failed)
            || ((exists|i: int| 0 <= i < b.order.len() && #[trigger] b.states[i] is Failed)
            && forall|i: int| 0 <= i < b.order.len() ==> !(#[trigger] b.states[i] is Running)),
{
    let ended = |s: TaskState| has_ended(s);
    let failed = |s: TaskState| s is Failed;
    let running = |s: TaskState| s is Running;
    lemma_tally_bounds(b.states, ended);
    lemma_tally_bounds(b.states, failed);
    lemma_tally_bounds(b.states, running);
    assert(b.ended() == b.order.len() <==> forall|i: int|
        0 <= i < b.order.len() ==> #[trigger] b.states[i] is Completed || b.states[i] is Failed)
        by {
        if b.ended() == b.order.len() {
            assert forall|i: int| 0 <= i < b.order.len() implies #[trigger] b.states[i] is Completed
                || b.states[i] is Failed by {
                assert(ended(b.states[i]));
            }
        } else {
            let i = choose|i: int| 0 <= i < b.states.len() && !ended(#[trigger] b.states[i]);
            assert(!(b.states[i] is Completed || b.states[i] is Failed));
        }
    }
    assert(b.failed() > 0 <==> exists|i: int|
        0 <= i < b.order.len() && #[trigger] b.states[i] is Failed) by {
        if b.failed() > 0 {
            let i = choose|i: int| 0 <= i < b.states.len() && failed(#[trigger] b.states[i]);
            assert(b.states[i] is Failed);
        } else {
            assert forall|i: int| 0 <= i < b.order.len() implies !(#[trigger] b.states[i] is Failed)
                by {
                assert(!failed(b.states[i]));
            }
        }
    }
    assert(b.running() == 0 <==> forall|i: int|
        0 <= i < b.order.len() ==> !(#[trigger] b.states[i] is Running)) by {
        if b.running() == 0 {
            assert forall|i: int| 0 <= i < b.order.len() implies !(#[trigger] b.states[i] is
                Running) by {
                assert(!running(b.states[i]));
            }
        } else {
            let i = choose|i: int| 0 <= i < b.states.len() && running(#[trigger] b.states[i]);
            assert(b.states[i] is Running);
        }
    }
}

/// A recipe is noted as failed exactly where it did not succeed, and as completed exactly where
/// it did, whatever its dependencies and times. The time that it took is noted either way. The
/// total time is noted exactly where it succeeded, has dependencies, and the total is longer by
/// more than a tenth of a second.
pub proof fn failure_is_noted_as_failure(
    succeeded: bool,
    has_deps: bool,
    duration: Duration,
    total: Duration,
)
    ensures
        end_state(succeeded, has_deps, duration, total) is Failed <==> !succeeded,
        end_state(succeeded, has_deps, duration, total) is Completed <==> succeeded,
        end_state(succeeded, has_deps, duration, total) matches TaskState::Failed { duration: d }
            ==> d == duration,
        end_state(succeeded, has_deps, duration, total) matches TaskState::Completed {
            duration: d,
            total_duration: t,
        } ==> d == duration && (t == Some(total) || t is None) && (t is Some <==> has_deps
            && total.nanos > duration.nanos + 100_000_000),
{
}

/// The end of a recipe changes the state of that recipe and nothing else.
pub proof fn end_changes_one_state(b: Board, name: Seq<char>, state: TaskState)
    requires
        b.wf(),
        b.is_running(name),
    ensures
        0 <= b.position(name) < b.order.len(),
        b.order[b.position(name)] == name,
        b.states[b.position(name)] is Running,
        b.with_state(b.position(name), state).states[b.position(name)] == state,
        forall|i: int|
            0 <= i < b.order.len() && b.order[i] != name ==> #[trigger] b.with_state(
                b.position(name),
                state,
            ).states[i] == b.states[i],
        b.with_state(b.position(name), state).order == b.order,
        b.with_state(b.position(name), state).deps == b.deps,
        b.with_state(b.position(name), state).target == b.target,
        b.with_state(b.position(name), state).settings == b.settings,
{
    crate::sequences::lemma_first_index(b.order, name);
}

/// A recipe runs under its name exactly where a state of that position is running.
pub proof fn running_is_by_name(b: Board, i: int)
    requires
        b.wf(),
        0 <= i < b.order.len(),
    ensures
        b.is_running(b.order[i]) <==> b.states[i] is Running,
{
    crate::sequences::lemma_first_index(b.order, b.order[i]);
    assert(b.order.contains(b.order[i]));
}

/// The command ends with the recipe's name and all arguments in order, whether or not a justfile
/// is named. Before them stands `--no-deps`, and before that, exactly where a path is given, the
/// option for the justfile and the path.
pub proof fn command_passes_all_arguments(
    justfile: Option<Seq<char>>,
    recipe: Seq<char>,
    args: Seq<Seq<char>>,
)
    ensures
        ({
            let w = just_words(justfile, recipe, args);
            let front = w.len() - args.len() - 1;
            &&& front >= 1
            &&& w.skip(front + 1) == args
            &&& w[front] == recipe
            &&& w[front - 1] == "--no-deps"@
            &&& match justfile {
                Some(path) => front == 3 && w[0] == "--justfile"@ && w[1] == path,
                None => front == 1,
            }
        }),
{
    let w = just_words(justfile, recipe, args);
    assert(w.skip(w.len() - args.len()) =~= args);
}

/// A launch reports the recipe as running, with its dependencies and no output, and runs that
/// recipe in the directory that was set. The command of the target passes on all arguments, that
/// of any other recipe none.
pub proof fn launch_runs_its_recipe(launch: Launch, b: Board, i: int)
    requires
        launches(launch, b, i),
    ensures
        launch.status.recipe@ == b.order[i],
        launch.status.state is Running,
        launch.status.output_preview@.len() == 0,
        views(launch.status.dependencies@) == b.deps[i],
        match (launch.working_dir, b.settings.working_dir) {
            (Some(dir), Some(set)) => dir@ == set,
            (None, None) => true,
            _ => false,
        },
        ({
            let w = views(launch.command@);
            let count = if b.order[i] == b.target {
                b.settings.args.len()
            } else {
                0
            };
            let front = w.len() - count - 1;
            &&& front >= 1
            &&& w[front - 1] == "--no-deps"@
            &&& w[front] == b.order[i]
            &&& b.order[i] == b.target ==> w.skip(front + 1) == b.settings.args
            &&& match b.settings.justfile {
                Some(path) => front == 3 && w[0] == "--justfile"@ && w[1] == path,
                None => front == 1,
            }
        }),
{
    let args = if b.order[i] == b.target {
        b.settings.args
    } else {
        Seq::empty()
    };
    command_passes_all_arguments(b.settings.justfile, b.order[i], args);
}

proof fn lemma_waiting_list(b: Board, n: int)
    requires
        0 <= n <= b.states.len(),
    ensures
        forall|k: int|
            0 <= k < b.waiting_among(n).len() ==> 0 <= #[trigger] b.waiting_among(n)[k] < n
                && b.states[b.waiting_among(n)[k]] is Waiting,
        forall|k: int, m: int|
            0 <= k < m < b.waiting_among(n).len() ==> #[trigger] b.waiting_among(n)[k]
                < #[trigger] b.waiting_among(n)[m],
        forall|i: int|
            0 <= i < n && b.states[i] is Waiting ==> #[trigger] b.waiting_among(n).contains(i),
    decreases n,
{
    if n > 0 {
        lemma_waiting_list(b, n - 1);
        let before = b.waiting_among(n - 1);
        let all = b.waiting_among(n);
        assert forall|i: int| 0 <= i < n && b.states[i] is Waiting implies #[trigger] all.contains(
            i,
        ) by {
            if i < n - 1 {
                assert(before.contains(i));
                let k = choose|k: int| 0 <= k < before.len() && before[k] == i;
                assert(all[k] == i);
            } else {
                assert(all[before.len() as int] == i);
            }
        }
    }
}

/// An event tells that the recipe at a position, which waits, is skipped, and names a recipe that
/// failed: the first such dependency of its own, where one failed.
pub open spec fn tells_of_skip(event: ExecutorEvent, b: Board, i: int) -> bool {
    &&& 0 <= i < b.order.len()
    &&& b.states[i] is Waiting
    &&& event matches ExecutorEvent::TaskUpdated(status)
    &&& status.recipe@ == b.order[i]
    &&& views(status.dependencies@) == b.deps[i]
    &&& status.output_preview@.len() == 0
    &&& status.state matches TaskState::Skipped { failed_dep }
    &&& exists|j: int|
        0 <= j < b.order.len() && b.states[j] is Failed && #[trigger] b.order[j] == failed_dep@
    &&& (exists|j: int|
        0 <= j < b.order.len() && b.states[j] is Failed && b.deps[i].contains(
            #[trigger] b.order[j],
        )) ==> is_first_failed(b, b.deps[i], failed_dep@)
}

/// A name is the first of a list that names a recipe which failed.
pub open spec fn is_first_failed(b: Board, list: Seq<Seq<char>>, name: Seq<char>) -> bool {
    exists|p: int|
        0 <= p < list.len() && #[trigger] list[p] == name && forall|q: int, j: int|
            0 <= q < p && 0 <= j < b.order.len() && #[trigger] list[q] == #[trigger] b.order[j]
                ==> !(b.states[j] is Failed)
}

/// Two events tell of skipped recipes, the first of one that stands before the other.
pub open spec fn tell_in_order(first: ExecutorEvent, second: ExecutorEvent, b: Board) -> bool {
    exists|i: int, j: int|
        i < j && #[trigger] tells_of_skip(first, b, i) && #[trigger] tells_of_skip(second, b, j)
}

/// An event tells that some recipe that waits is skipped.
pub open spec fn tells_of_any_skip(event: ExecutorEvent, b: Board) -> bool {
    exists|i: int| #[trigger] tells_of_skip(event, b, i)
}

/// The report at the end is true: it tells of every recipe that still waits, and of no other,
/// that it is skipped, in the order of the run. Then come the number of recipes that completed,
/// the number of those that failed, and the time.
pub proof fn report_is_true(events: Seq<ExecutorEvent>, b: Board, elapsed: Duration)
    requires
        b.wf(),
        b.is_over(),
        reports_end(events, b, elapsed),
    ensures
        events.len() == waiting_places(b).len() + 1,
        events.last() matches ExecutorEvent::AllDone { success, failed, total_duration }
            && success == completed_places(b).len() && failed == failed_places(b).len()
            && total_duration == elapsed,
        completed_places(b).len() + failed_places(b).len() + waiting_places(b).len()
            == b.order.len(),
        forall|i: int|
            0 <= i < b.order.len() && #[trigger] b.states[i] is Waiting ==> exists|k: int|
                0 <= k < events.len() - 1 && tells_of_skip(#[trigger] events[k], b, i),
        forall|k: int| 0 <= k < events.len() - 1 ==> tells_of_any_skip(#[trigger] events[k], b),
        forall|k: int, m: int|
            0 <= k < m < events.len() - 1 ==> tell_in_order(
                #[trigger] events[k],
                #[trigger] events[m],
                b,
            ),
{
    let n = b.order.len() as int;
    let skipped = b.waiting_among(n);
    everything_is_accounted_for(b);
    counts_are_of_recipes(b);
    lemma_waiting_list(b, n);
    lemma_tally_parts(b.states);
    assert forall|k: int| 0 <= k < skipped.len() implies tells_of_skip(
        #[trigger] events[k],
        b,
        skipped[k],
    ) by {
        let i = skipped[k];
        assert(b.states[i] is Waiting);
        assert(b.ended() < n);
        assert(b.failed() > 0);
        skip_reason_has_failed(b, i);
        let reason = b.skip_reason(i);
        let j = choose|j: int|
            0 <= j < b.order.len() && #[trigger] b.order[j] == reason && b.states[j] is Failed;
        assert(b.states[j] is Failed && b.order[j] == reason);
        if exists|j: int|
            0 <= j < b.order.len() && b.states[j] is Failed && b.deps[i].contains(
                #[trigger] b.order[j],
            ) {
            let m = choose|m: int|
                0 <= m < b.order.len() && b.states[m] is Failed && b.deps[i].contains(
                    #[trigger] b.order[m],
                );
            let deps = b.deps[i];
            let pred = |x: Seq<char>| b.is_failed(x);
            let p = choose|p: int| 0 <= p < deps.len() && deps[p] == b.order[m];
            assert(b.is_failed(b.order[m]));
            let f = lemma_first_where(deps, pred, p);
            lemma_filter_first(deps, pred, f);
            assert(reason == deps[f]);
            assert forall|q: int, j: int|
                0 <= q < f && 0 <= j < b.order.len() && #[trigger] deps[q]
                    == #[trigger] b.order[j] implies !(b.states[j] is Failed) by {
                assert(!pred(deps[q]));
            }
            assert(is_first_failed(b, deps, reason));
        }
    }
    assert forall|i: int| 0 <= i < n && #[trigger] b.states[i] is Waiting implies exists|k: int|
        0 <= k < events.len() - 1 && tells_of_skip(#[trigger] events[k], b, i) by {
        assert(skipped.contains(i));
        let k = choose|k: int| 0 <= k < skipped.len() && skipped[k] == i;
        assert(tells_of_skip(events[k], b, skipped[k]));
    }
    assert forall|k: int| 0 <= k < events.len() - 1 implies tells_of_any_skip(
        #[trigger] events[k],
        b,
    ) by {
        assert(tells_of_skip(events[k], b, skipped[k]));
    }
    assert forall|k: int, m: int| 0 <= k < m < events.len() - 1 implies tell_in_order(
        #[trigger] events[k],
        #[trigger] events[m],
        b,
    ) by {
        assert(tells_of_skip(events[k], b, skipped[k]));
        assert(tells_of_skip(events[m], b, skipped[m]));
    }
}

/// The first position that meets a condition which a position meets.
proof fn lemma_first_where(
    list: Seq<Seq<char>>,
    pred: spec_fn(Seq<char>) -> bool,
    p: int,
) -> (f: int)
    requires
        0 <= p < list.len(),
        pred(list[p]),
    ensures
        0 <= f <= p,
        pred(list[f]),
        forall|q: int| 0 <= q < f ==> !pred(#[trigger] list[q]),
    decreases p,
{
    if exists|q: int| 0 <= q < p && pred(#[trigger] list[q]) {
        let q = choose|q: int| 0 <= q < p && pred(#[trigger] list[q]);
        lemma_first_where(list, pred, q)
    } else {
        p
    }
}

/// A recipe has ended, completed or failed by its name exactly where its state says so.
pub proof fn names_tell_states(b: Board, i: int)
    requires
        b.wf(),
        0 <= i < b.order.len(),
    ensures
        b.is_completed(b.order[i]) <==> b.states[i] is Completed,
        b.is_failed(b.order[i]) <==> b.states[i] is Failed,
        b.is_ended(b.order[i]) <==> b.states[i] is Completed || b.states[i] is Failed,
{
}

} // verus!
