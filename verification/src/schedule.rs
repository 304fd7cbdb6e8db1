//! When recipes may start, and what holds of them while they run.

use crate::executor::Duration;
use crate::executor::TaskState;
use crate::sequences::first_index;
use crate::sequences::lemma_filter_elements;
use crate::sequences::lemma_filter_keeps;
use vstd::prelude::*;

verus! {

/// The settings of an executor.
pub struct Settings {
    /// The number of recipes that may run at one time
    pub max_jobs: nat,
    /// The path of the justfile
    pub justfile: Option<Seq<char>>,
    /// The arguments of the target recipe
    pub args: Seq<Seq<char>>,
    /// The directory in which recipes run
    pub working_dir: Option<Seq<char>>,
}

/// Where an execution stands.
pub struct Board {
    /// The recipes in execution order
    pub order: Seq<Seq<char>>,
    /// The dependencies of each recipe
    pub deps: Seq<Seq<Seq<char>>>,
    /// The state of each recipe
    pub states: Seq<TaskState>,
    /// The recipe that was asked for
    pub target: Seq<char>,
    /// The settings of the executor
    pub settings: Settings,
}

/// Whether a recipe has ended, with success or not.
pub open spec fn has_ended(state: TaskState) -> bool {
    state is Completed || state is Failed
}

/// The number of states of a kind.
pub open spec fn tally(states: Seq<TaskState>, kind: spec_fn(TaskState) -> bool) -> nat
    decreases states.len(),
{
    if states.len() == 0 {
        0
    } else {
        tally(states.drop_last(), kind) + if kind(states.last()) {
            1nat
        } else {
            0nat
        }
    }
}

impl Board {
    /// Every recipe has its dependencies and its state, no recipe is listed twice, dependencies
    /// stand before the recipes that depend on them, and no recipe is skipped as yet.
    pub open spec fn wf(self) -> bool {
        &&& self.deps.len() == self.order.len()
        &&& self.states.len() == self.order.len()
        &&& self.order.no_duplicates()
        &&& forall|i: int, d: Seq<char>|
            0 <= i < self.order.len() && #[trigger] self.deps[i].contains(d) ==> exists|j: int|
                0 <= j < i && #[trigger] self.order[j] == d
        &&& forall|i: int| 0 <= i < self.states.len() ==> !(#[trigger] self.states[i] is Skipped)
    }

    /// The number of recipes that wait.
    pub open spec fn waiting(self) -> nat {
        tally(self.states, |s: TaskState| s is Waiting)
    }

    /// The number of recipes that run.
    pub open spec fn running(self) -> nat {
        tally(self.states, |s: TaskState| s is Running)
    }

    /// The number of recipes that have ended.
    pub open spec fn ended(self) -> nat {
        tally(self.states, |s: TaskState| has_ended(s))
    }

    /// The number of recipes that failed.
    pub open spec fn failed(self) -> nat {
        tally(self.states, |s: TaskState| s is Failed)
    }

    /// Whether a recipe of that name has ended.
    pub open spec fn is_ended(self, name: Seq<char>) -> bool {
        exists|i: int|
            0 <= i < self.order.len() && #[trigger] self.order[i] == name && has_ended(
                self.states[i],
            )
    }

    /// Whether a recipe of that name completed with success.
    pub open spec fn is_completed(self, name: Seq<char>) -> bool {
        exists|i: int|
            0 <= i < self.order.len() && #[trigger] self.order[i] == name && self.states[i] is
                Completed
    }

    /// Whether a recipe of that name failed.
    pub open spec fn is_failed(self, name: Seq<char>) -> bool {
        exists|i: int|
            0 <= i < self.order.len() && #[trigger] self.order[i] == name && self.states[i] is
                Failed
    }

    /// Nothing is left to do: all recipes have ended, or one failed and none runs.
    pub open spec fn is_over(self) -> bool {
        self.ended() == self.order.len() || self.failed() > 0 && self.running() == 0
    }

    /// Whether a recipe waits for nothing but its turn.
    pub open spec fn is_ready(self, i: int) -> bool {
        &&& self.states[i] is Waiting
        &&& forall|d: Seq<char>| #[trigger] self.deps[i].contains(d) ==> self.is_ended(d)
    }

    /// The recipes among the first `n` that are ready, in order.
    pub open spec fn ready_among(self, n: int) -> Seq<int>
        decreases n,
    {
        if n <= 0 {
            Seq::empty()
        } else if self.is_ready(n - 1) {
            self.ready_among(n - 1).push(n - 1)
        } else {
            self.ready_among(n - 1)
        }
    }

    /// The number of recipes that may start before the limit is reached.
    pub open spec fn free_slots(self) -> nat {
        if self.running() <= self.settings.max_jobs {
            (self.settings.max_jobs - self.running()) as nat
        } else {
            0
        }
    }

    /// The recipes to start next: none after a failure, else the first ready ones, up to the
    /// limit.
    pub open spec fn to_start(self) -> Seq<int> {
        let ready = self.ready_among(self.order.len() as int);
        if self.failed() > 0 {
            Seq::empty()
        } else if ready.len() <= self.free_slots() {
            ready
        } else {
            ready.take(self.free_slots() as int)
        }
    }

    /// The board after some recipes were started.
    pub open spec fn with_running(self, picks: Seq<int>) -> Board {
        Board {
            states: Seq::new(
                self.states.len(),
                |i: int|
                    if picks.contains(i) {
                        TaskState::Running
                    } else {
                        self.states[i]
                    },
            ),
            ..self
        }
    }

    /// The board after the recipes to start were started.
    pub open spec fn started(self) -> Board {
        self.with_running(self.to_start())
    }

    /// The board after a recipe came to a state.
    pub open spec fn with_state(self, i: int, state: TaskState) -> Board {
        Board { states: self.states.update(i, state), ..self }
    }

    /// The position of a recipe.
    pub open spec fn position(self, name: Seq<char>) -> int {
        first_index(self.order, name)
    }

    /// Whether a recipe of that name runs.
    pub open spec fn is_running(self, name: Seq<char>) -> bool {
        self.order.contains(name) && self.states[self.position(name)] is Running
    }

    /// Those of some recipes that failed.
    pub open spec fn failed_among(self, names: Seq<Seq<char>>) -> Seq<Seq<char>> {
        names.filter(|n: Seq<char>| self.is_failed(n))
    }

    /// What a skipped recipe names as the reason: the first of its dependencies that failed, or
    /// else the first recipe that failed.
    pub open spec fn skip_reason(self, i: int) -> Seq<char> {
        let own = self.failed_among(self.deps[i]);
        if own.len() > 0 {
            own[0]
        } else {
            self.failed_among(self.order)[0]
        }
    }

    /// The recipes among the first `n` that still wait, in order.
    pub open spec fn waiting_among(self, n: int) -> Seq<int>
        decreases n,
    {
        if n <= 0 {
            Seq::empty()
        } else if self.states[n - 1] is Waiting {
            self.waiting_among(n - 1).push(n - 1)
        } else {
            self.waiting_among(n - 1)
        }
    }

    /// A bound on the number of starts and ends to come.
    pub open spec fn steps_left(self) -> nat {
        2 * self.waiting() + self.running()
    }

    /// No recipe has started before its dependencies completed with success.
    pub open spec fn respects_deps(self) -> bool {
        forall|i: int, d: Seq<char>|
            0 <= i < self.order.len() && !(self.states[i] is Waiting)
                && #[trigger] self.deps[i].contains(d) ==> self.is_completed(d)
    }

    /// The limit on recipes that run at one time is kept.
    pub open spec fn respects_limit(self) -> bool {
        self.running() <= self.settings.max_jobs
    }
}

/// The state of a recipe that has ended. The total time is told only of a recipe with
/// dependencies, and where it is more than a tenth of a second longer than the recipe itself took.
pub open spec fn end_state(
    succeeded: bool,
    has_deps: bool,
    duration: Duration,
    total: Duration,
) -> TaskState {
    if !succeeded {
        TaskState::Failed { duration }
    } else if has_deps && total.nanos - duration.nanos > 100_000_000 {
        TaskState::Completed { duration, total_duration: Some(total) }
    } else {
        TaskState::Completed { duration, total_duration: None }
    }
}

/// A changed state counts as the kind that it has become.
pub proof fn lemma_tally_update(
    states: Seq<TaskState>,
    i: int,
    state: TaskState,
    kind: spec_fn(TaskState) -> bool,
)
    requires
        0 <= i < states.len(),
    ensures
        tally(states.update(i, state), kind) + (if kind(states[i]) {
            1int
        } else {
            0int
        }) == tally(states, kind) + (if kind(state) {
            1int
        } else {
            0int
        }),
    decreases states.len(),
{
    let changed = states.update(i, state);
    if i == states.len() - 1 {
        assert(changed.drop_last() =~= states.drop_last());
    } else {
        assert(changed.drop_last() =~= states.drop_last().update(i, state));
        lemma_tally_update(states.drop_last(), i, state, kind);
    }
}

/// None is counted where none is of the kind, and all where all are.
pub proof fn lemma_tally_bounds(states: Seq<TaskState>, kind: spec_fn(TaskState) -> bool)
    ensures
        tally(states, kind) <= states.len(),
        tally(states, kind) == 0 <==> forall|i: int|
            0 <= i < states.len() ==> !kind(#[trigger] states[i]),
        tally(states, kind) == states.len() <==> forall|i: int|
            0 <= i < states.len() ==> kind(#[trigger] states[i]),
    decreases states.len(),
{
    if states.len() > 0 {
        let t = states.drop_last();
        lemma_tally_bounds(t, kind);
        let n = states.len();
        assert(states[n - 1] == states.last());
        assert forall|i: int| 0 <= i < t.len() implies t[i] == #[trigger] states[i] by {}
        if tally(states, kind) == 0 {
            assert forall|i: int| 0 <= i < n implies !kind(#[trigger] states[i]) by {
                if i < n - 1 {
                    assert(!kind(t[i]));
                }
            }
        } else if forall|i: int| 0 <= i < n ==> !kind(#[trigger] states[i]) {
            assert forall|i: int| 0 <= i < t.len() implies !kind(#[trigger] t[i]) by {
                assert(!kind(states[i]));
            }
        }
        if tally(states, kind) == n {
            assert forall|i: int| 0 <= i < n implies kind(#[trigger] states[i]) by {
                if i < n - 1 {
                    assert(kind(t[i]));
                }
            }
        } else if forall|i: int| 0 <= i < n ==> kind(#[trigger] states[i]) {
            assert forall|i: int| 0 <= i < t.len() implies kind(#[trigger] t[i]) by {
                assert(kind(states[i]));
            }
        }
    }
}

/// A recipe that is not skipped waits, runs or has ended, and failed recipes have ended.
pub proof fn lemma_tally_parts(states: Seq<TaskState>)
    requires
        forall|i: int| 0 <= i < states.len() ==> !(#[trigger] states[i] is Skipped),
    ensures
        tally(states, |s: TaskState| s is Waiting) + tally(states, |s: TaskState| s is Running)
            + tally(states, |s: TaskState| has_ended(s)) == states.len(),
        tally(states, |s: TaskState| s is Failed) <= tally(states, |s: TaskState| has_ended(s)),
    decreases states.len(),
{
    if states.len() > 0 {
        let t = states.drop_last();
        assert forall|i: int| 0 <= i < t.len() implies !(#[trigger] t[i] is Skipped) by {
            assert(!(states[i] is Skipped));
        }
        assert(!(states[states.len() - 1] is Skipped));
        lemma_tally_parts(t);
    }
}

/// What is listed as ready is ready, and listed in order.
pub proof fn lemma_ready_among(b: Board, n: int)
    requires
        0 <= n,
    ensures
        b.ready_among(n).len() <= n,
        forall|k: int|
            0 <= k < b.ready_among(n).len() ==> 0 <= #[trigger] b.ready_among(n)[k] < n
                && b.is_ready(b.ready_among(n)[k]),
        forall|k: int, m: int|
            0 <= k < m < b.ready_among(n).len() ==> #[trigger] b.ready_among(n)[k]
                < #[trigger] b.ready_among(n)[m],
        forall|i: int| 0 <= i < n && b.is_ready(i) ==> #[trigger] b.ready_among(n).contains(i),
    decreases n,
{
    if n > 0 {
        lemma_ready_among(b, n - 1);
        let before = b.ready_among(n - 1);
        let all = b.ready_among(n);
        assert forall|i: int| 0 <= i < n && b.is_ready(i) implies #[trigger] all.contains(i) by {
            if i < n - 1 {
                assert(before.contains(i));
                let k = choose|k: int| 0 <= k < before.len() && before[k] == i;
                assert(all[k] == i);
            } else {
                assert(all[before.len() as int] == i);
            }
        }
    }
}

/// Recipes to start are ready and differ, there are no more of them than may start, and there
/// is none after a failure.
pub proof fn only_ready_recipes_start(b: Board)
    ensures
        forall|k: int|
            0 <= k < b.to_start().len() ==> 0 <= #[trigger] b.to_start()[k] < b.order.len()
                && b.is_ready(b.to_start()[k]),
        b.to_start().no_duplicates(),
        b.to_start().len() <= b.free_slots(),
        b.failed() > 0 ==> b.to_start().len() == 0,
{
    lemma_ready_among(b, b.order.len() as int);
}

/// Starting recipes that wait moves as many from those that wait to those that run.
pub proof fn lemma_with_running(b: Board, picks: Seq<int>)
    requires
        picks.no_duplicates(),
        forall|k: int|
            0 <= k < picks.len() ==> 0 <= #[trigger] picks[k] < b.states.len()
                && b.states[picks[k]] is Waiting,
    ensures
        b.with_running(picks).running() == b.running() + picks.len(),
        b.with_running(picks).waiting() + picks.len() == b.waiting(),
        b.with_running(picks).ended() == b.ended(),
        b.with_running(picks).failed() == b.failed(),
    decreases picks.len(),
{
    if picks.len() == 0 {
        assert(b.with_running(picks).states =~= b.states);
    } else {
        let fewer = picks.drop_last();
        let last = picks.last();
        let mid = b.with_running(fewer);
        assert(picks[picks.len() - 1] == last);
        assert forall|k: int| 0 <= k < fewer.len() implies 0 <= #[trigger] fewer[k]
            < b.states.len() && b.states[fewer[k]] is Waiting by {
            assert(fewer[k] == picks[k]);
        }
        assert(!fewer.contains(last));
        assert forall|i: int| #[trigger] picks.contains(i) <==> fewer.contains(i) || i == last by {
            if fewer.contains(i) {
                let k = choose|k: int| 0 <= k < fewer.len() && fewer[k] == i;
                assert(picks[k] == i);
            }
            if picks.contains(i) && i != last {
                let k = choose|k: int| 0 <= k < picks.len() && picks[k] == i;
                assert(fewer[k] == i);
            }
        }
        lemma_with_running(b, fewer);
        assert(b.with_running(picks).states =~= mid.states.update(last, TaskState::Running));
        lemma_tally_update(mid.states, last, TaskState::Running, |s: TaskState| s is Waiting);
        lemma_tally_update(mid.states, last, TaskState::Running, |s: TaskState| s is Running);
        lemma_tally_update(mid.states, last, TaskState::Running, |s: TaskState| has_ended(s));
        lemma_tally_update(mid.states, last, TaskState::Running, |s: TaskState| s is Failed);
    }
}

/// Starting recipes starts each of them for the first time, keeps the limit, and starts none
/// before its dependencies completed with success.
pub proof fn starting_keeps_the_rules(b: Board)
    requires
        b.wf(),
        b.respects_deps(),
        b.respects_limit(),
    ensures
        b.started().wf(),
        b.started().respects_deps(),
        b.started().respects_limit(),
        b.started().steps_left() + b.to_start().len() == b.steps_left(),
        forall|i: int|
            0 <= i < b.order.len() && #[trigger] b.started().states[i] != b.states[i]
                ==> b.states[i] is Waiting && b.started().states[i] is Running && forall|
                d: Seq<char>,
            | #[trigger]
                b.deps[i].contains(d) ==> b.is_completed(d),
{
    let after = b.started();
    let picks = b.to_start();
    only_ready_recipes_start(b);
    lemma_with_running(b, picks);
    if picks.len() > 0 {
        lemma_tally_bounds(b.states, |s: TaskState| s is Failed);
    }
    assert forall|i: int, d: Seq<char>|
        0 <= i < b.order.len() && !(after.states[i] is Waiting)
            && #[trigger] b.deps[i].contains(d) implies b.is_completed(d) by {
        if b.states[i] is Waiting {
            let k = choose|k: int| 0 <= k < picks.len() && picks[k] == i;
            assert(b.is_ready(picks[k]));
            assert(b.is_ended(d));
            let j = choose|j: int|
                0 <= j < b.order.len() && #[trigger] b.order[j] == d && has_ended(b.states[j]);
            assert(!(b.states[j] is Failed));
            assert(b.order[j] == d && b.states[j] is Completed);
        }
    }
    assert forall|i: int, d: Seq<char>|
        0 <= i < after.order.len() && !(after.states[i] is Waiting)
            && #[trigger] after.deps[i].contains(d) implies after.is_completed(d) by {
        assert(b.is_completed(d));
        let j = choose|j: int|
            0 <= j < b.order.len() && #[trigger] b.order[j] == d && b.states[j] is Completed;
        if picks.contains(j) {
            let k = choose|k: int| 0 <= k < picks.len() && picks[k] == j;
            assert(b.is_ready(picks[k]));
        }
        assert(after.order[j] == d && after.states[j] is Completed);
    }
}

/// The end of a recipe keeps the limit and the order of dependencies.
pub proof fn ending_keeps_the_rules(b: Board, i: int, state: TaskState)
    requires
        b.wf(),
        b.respects_deps(),
        b.respects_limit(),
        0 <= i < b.order.len(),
        b.states[i] is Running,
        has_ended(state),
    ensures
        b.with_state(i, state).wf(),
        b.with_state(i, state).respects_deps(),
        b.with_state(i, state).respects_limit(),
        b.with_state(i, state).steps_left() + 1 == b.steps_left(),
{
    let after = b.with_state(i, state);
    lemma_tally_update(b.states, i, state, |s: TaskState| s is Waiting);
    lemma_tally_update(b.states, i, state, |s: TaskState| s is Running);
    assert forall|k: int, d: Seq<char>|
        0 <= k < after.order.len() && !(after.states[k] is Waiting)
            && #[trigger] after.deps[k].contains(d) implies after.is_completed(d) by {
        assert(!(b.states[k] is Waiting));
        assert(b.deps[k].contains(d));
        assert(b.is_completed(d));
        let j = choose|j: int|
            0 <= j < b.order.len() && #[trigger] b.order[j] == d && b.states[j] is Completed;
        assert(after.order[j] == d && after.states[j] is Completed);
    }
}

/// A recipe waits that stands before all others that wait.
proof fn lemma_first_waiting(b: Board, n: int) -> (i: int)
    requires
        0 <= n <= b.states.len(),
        exists|k: int| 0 <= k < n && #[trigger] b.states[k] is Waiting,
    ensures
        0 <= i < n,
        b.states[i] is Waiting,
        forall|k: int| 0 <= k < i ==> !(#[trigger] b.states[k] is Waiting),
    decreases n,
{
    if exists|k: int| 0 <= k < n - 1 && #[trigger] b.states[k] is Waiting {
        lemma_first_waiting(b, n - 1)
    } else {
        n - 1
    }
}

/// An execution that is not over and in which nothing runs starts a recipe, unless no recipe may
/// run at all.
pub proof fn execution_goes_on(b: Board)
    requires
        b.wf(),
        !b.is_over(),
        b.running() == 0,
        b.settings.max_jobs > 0,
    ensures
        b.to_start().len() > 0,
{
    let n = b.order.len() as int;
    lemma_tally_parts(b.states);
    lemma_tally_bounds(b.states, |s: TaskState| s is Waiting);
    lemma_tally_bounds(b.states, |s: TaskState| s is Running);
    let kind = |s: TaskState| s is Waiting;
    assert(exists|k: int| 0 <= k < n && #[trigger] b.states[k] is Waiting) by {
        if forall|k: int| 0 <= k < n ==> !(#[trigger] b.states[k] is Waiting) {
            assert forall|k: int| 0 <= k < n implies !kind(#[trigger] b.states[k]) by {}
        }
    }
    let i = lemma_first_waiting(b, n);
    assert forall|d: Seq<char>| #[trigger] b.deps[i].contains(d) implies b.is_ended(d) by {
        let j = choose|j: int| 0 <= j < i && #[trigger] b.order[j] == d;
        assert(!(b.states[j] is Waiting));
        let runs = |s: TaskState| s is Running;
        assert(!runs(b.states[j]));
        assert(!(b.states[j] is Skipped));
        assert(b.order[j] == d && has_ended(b.states[j]));
    }
    assert(b.is_ready(i));
    lemma_ready_among(b, n);
    assert(b.ready_among(n).contains(i));
}

/// The recipes that still wait are as many as are counted.
proof fn lemma_waiting_among(b: Board, n: int)
    requires
        0 <= n <= b.states.len(),
    ensures
        b.waiting_among(n).len() == tally(b.states.take(n), |s: TaskState| s is Waiting),
        forall|k: int|
            0 <= k < b.waiting_among(n).len() ==> 0 <= #[trigger] b.waiting_among(n)[k] < n
                && b.states[b.waiting_among(n)[k]] is Waiting,
    decreases n,
{
    if n > 0 {
        lemma_waiting_among(b, n - 1);
        assert(b.states.take(n).drop_last() =~= b.states.take(n - 1));
    }
}

/// At the end of an execution every recipe has completed, failed or is skipped, and where none
/// failed all have completed.
pub proof fn everything_is_accounted_for(b: Board)
    requires
        b.wf(),
        b.is_over(),
    ensures
        b.failed() <= b.ended(),
        b.ended() + b.waiting_among(b.order.len() as int).len() == b.order.len(),
        b.failed() == 0 ==> forall|i: int|
            0 <= i < b.order.len() ==> #[trigger] b.states[i] is Completed,
{
    let n = b.order.len() as int;
    lemma_tally_parts(b.states);
    lemma_waiting_among(b, n);
    assert(b.states.take(n) =~= b.states);
    lemma_tally_bounds(b.states, |s: TaskState| has_ended(s));
    lemma_tally_bounds(b.states, |s: TaskState| s is Failed);
    if b.failed() == 0 {
        let ended = |s: TaskState| has_ended(s);
        let failed = |s: TaskState| s is Failed;
        assert forall|i: int| 0 <= i < n implies #[trigger] b.states[i] is Completed by {
            assert(ended(b.states[i]));
            assert(!failed(b.states[i]));
        }
    }
}

/// After a failure there is a failed recipe to name, and what a skipped recipe names as the
/// reason has failed.
pub proof fn skip_reason_has_failed(b: Board, i: int)
    requires
        b.wf(),
        b.failed() > 0,
    ensures
        b.failed_among(b.order).len() > 0,
        b.is_failed(b.skip_reason(i)),
{
    let failed = |n: Seq<char>| b.is_failed(n);
    lemma_filter_elements(b.deps[i], failed);
    lemma_filter_elements(b.order, failed);
    let kind = |s: TaskState| s is Failed;
    lemma_tally_bounds(b.states, kind);
    let j = choose|j: int| 0 <= j < b.states.len() && kind(#[trigger] b.states[j]);
    assert(b.order[j] == b.order[j] && b.states[j] is Failed);
    assert(b.is_failed(b.order[j]));
    lemma_filter_keeps(b.order, failed, j);
}

/// A recipe starts at most once: once it has started it never waits again.
pub proof fn recipe_never_waits_again(b: Board, i: int, j: int, state: TaskState)
    requires
        b.wf(),
        0 <= i < b.order.len(),
        !(b.states[i] is Waiting),
        0 <= j < b.order.len(),
        has_ended(state),
    ensures
        b.started().states[i] == b.states[i],
        !(b.with_state(j, state).states[i] is Waiting),
{
    only_ready_recipes_start(b);
    if b.to_start().contains(i) {
        let k = choose|k: int| 0 <= k < b.to_start().len() && b.to_start()[k] == i;
        assert(b.is_ready(b.to_start()[k]));
    }
}

/// All transitive dependencies of a recipe that has started have completed with success. The
/// recipe at each position of `walk` depends on that at the next one.
pub proof fn transitive_deps_are_completed(b: Board, walk: Seq<int>, k: int)
    requires
        b.wf(),
        b.respects_deps(),
        forall|m: int| 0 <= m < walk.len() ==> 0 <= #[trigger] walk[m] < b.order.len(),
        forall|m: int|
            0 <= m < walk.len() - 1 ==> b.deps[#[trigger] walk[m]].contains(b.order[walk[m + 1]]),
        0 < k < walk.len(),
        !(b.states[walk[0]] is Waiting),
    ensures
        b.states[walk[k]] is Completed,
    decreases k,
{
    if k > 1 {
        transitive_deps_are_completed(b, walk, k - 1);
    }
    let name = b.order[walk[k]];
    assert(b.deps[walk[k - 1]].contains(name));
    assert(b.is_completed(name));
    let j = choose|j: int|
        0 <= j < b.order.len() && #[trigger] b.order[j] == name && b.states[j] is Completed;
}

} // verus!
