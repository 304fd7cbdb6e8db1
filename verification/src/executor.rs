//! Running the recipes of a dependency graph in parallel.

use crate::graph::GraphError;
use crate::graph::RecipeGraph;
use crate::justfile::JustDump;
use crate::output::last_visible;
use crate::output::shortened;
use crate::output::stripped_lines;
use crate::output::OutputCollector;
use crate::output::MAX_PREVIEW_CHARS;
use crate::schedule::end_state;
use crate::schedule::ending_keeps_the_rules;
use crate::schedule::everything_is_accounted_for;
use crate::schedule::has_ended;
use crate::schedule::lemma_tally_bounds;
use crate::schedule::only_ready_recipes_start;
use crate::schedule::skip_reason_has_failed;
use crate::schedule::starting_keeps_the_rules;
use crate::schedule::tally;
use crate::schedule::Board;
use crate::schedule::Settings;
use crate::sequences::lemma_filter_elements;
use crate::sequences::lemma_filter_first;
use crate::sequences::lemma_first_index_is;
use crate::text::same_text;
use crate::text::views;
use vstd::prelude::*;

verus! {

/// A length of time
#[derive(Debug, Clone, Copy, PartialEq, Eq, Structural)]
pub struct Duration {
    /// The length in nanoseconds
    pub nanos: u128,
}

/// State of a task
#[derive(Debug, Clone, PartialEq, Eq)]
pub enum TaskState {
    /// Waiting for dependencies to complete
    Waiting,
    /// Currently running
    Running,
    /// Completed successfully
    Completed {
        /// Time that the task took
        duration: Duration,
        /// Total time including dependencies (only set if has deps)
        total_duration: Option<Duration>,
    },
    /// Failed with an error
    Failed {
        /// Time that the task took
        duration: Duration,
    },
    /// Skipped because a dependency failed
    Skipped {
        /// A recipe that failed
        failed_dep: String,
    },
}

/// Information about a task's current state
#[derive(Debug, Clone)]
pub struct TaskStatus {
    /// Name of the recipe
    pub recipe: String,
    /// State of the recipe
    pub state: TaskState,
    /// Latest line of output
    pub output_preview: String,
    /// Recipes that the recipe depends on
    pub dependencies: Vec<String>,
}

/// Events sent from the executor to the UI
#[derive(Debug)]
pub enum ExecutorEvent {
    /// A task's state changed
    TaskUpdated(TaskStatus),
    /// A task has new output
    TaskOutput {
        /// Name of the recipe
        recipe: String,
        /// Latest line of output
        preview: String,
    },
    /// All tasks completed (success/failure count, total duration)
    AllDone {
        /// Number of recipes that completed
        success: usize,
        /// Number of recipes that failed
        failed: usize,
        /// Time since the start of the execution
        total_duration: Duration,
    },
}

/// Executor that runs recipes in parallel
pub struct Executor {
    /// Maximum concurrent jobs
    max_jobs: usize,
    /// Path to justfile (if specified)
    justfile_path: Option<String>,
    /// Arguments to pass to the target recipe
    recipe_args: Vec<String>,
    /// Working directory for just commands
    working_dir: Option<String>,
}

/// The characters of an optional string.
pub open spec fn opt_view(s: Option<String>) -> Option<Seq<char>> {
    match s {
        Some(s) => Some(s@),
        None => None,
    }
}

impl View for Executor {
    type V = Settings;

    closed spec fn view(&self) -> Settings {
        Settings {
            max_jobs: self.max_jobs as nat,
            justfile: opt_view(self.justfile_path),
            args: views(self.recipe_args@),
            working_dir: opt_view(self.working_dir),
        }
    }
}

impl Executor {
    /// Create a new executor
    pub fn new(max_jobs: usize) -> (r: Self)
        ensures
            r@ == (Settings {
                max_jobs: max_jobs as nat,
                justfile: None,
                args: Seq::empty(),
                working_dir: None,
            }),
    {
        let r: Executor = Executor {
            max_jobs,
            justfile_path: None,
            recipe_args: Vec::new(),
            working_dir: None,
        };
        assert(r@.args =~= Seq::<Seq<char>>::empty());
        r
    }

    /// Set the justfile path
    pub fn justfile(self, path: Option<String>) -> (r: Self)
        ensures
            r@ == (Settings { justfile: opt_view(path), ..self@ }),
    {
        Executor { justfile_path: path, ..self }
    }

    /// Set recipe arguments
    pub fn args(self, args: Vec<String>) -> (r: Self)
        ensures
            r@ == (Settings { args: views(args@), ..self@ }),
    {
        Executor { recipe_args: args, ..self }
    }
}

/// What an execution asks for next
#[derive(Debug)]
pub enum Step {
    /// Start recipes (none where all have to wait)
    Start(Vec<Launch>),
    /// Report events, and stop
    Finish {
        /// The events to report, in order
        events: Vec<ExecutorEvent>,
        /// Whether no recipe failed
        succeeded: bool,
    },
}

/// A recipe to be started
#[derive(Debug)]
pub struct Launch {
    /// The status to report
    pub status: TaskStatus,
    /// The arguments of `just`
    pub command: Vec<String>,
    /// The directory to run in
    pub working_dir: Option<String>,
}

/// An execution of the recipes of a graph
pub struct Execution {
    /// The recipes in execution order
    recipes: Vec<String>,
    /// The dependencies of each recipe
    deps: Vec<Vec<String>>,
    /// The state of each recipe
    states: Vec<TaskState>,
    /// The recipe that was asked for
    target: String,
    /// Maximum concurrent jobs and what to pass on
    executor: Executor,
}

impl View for Execution {
    type V = Board;

    closed spec fn view(&self) -> Board {
        Board {
            order: views(self.recipes@),
            deps: self.deps@.map_values(|d: Vec<String>| views(d@)),
            states: self.states@,
            target: self.target@,
            settings: self.executor@,
        }
    }
}

/// The arguments of `just` that run a recipe without its dependencies.
pub open spec fn just_words(
    justfile: Option<Seq<char>>,
    recipe: Seq<char>,
    args: Seq<Seq<char>>,
) -> Seq<Seq<char>> {
    (match justfile {
        Some(path) => seq!["--justfile"@, path],
        None => Seq::empty(),
    }) + seq!["--no-deps"@, recipe] + args
}

/// A status tells of a recipe its state and its dependencies, and shows no output.
pub open spec fn tells(
    status: TaskStatus,
    recipe: Seq<char>,
    state: TaskState,
    deps: Seq<Seq<char>>,
) -> bool {
    &&& status.recipe@ == recipe
    &&& status.state == state
    &&& status.output_preview@ == Seq::<char>::empty()
    &&& views(status.dependencies@) == deps
}

/// A status tells of a recipe that it is skipped, and why.
pub open spec fn tells_skipped(
    status: TaskStatus,
    recipe: Seq<char>,
    reason: Seq<char>,
    deps: Seq<Seq<char>>,
) -> bool {
    &&& status.state matches TaskState::Skipped { failed_dep } && failed_dep@ == reason
    &&& tells(status, recipe, status.state, deps)
}

/// A launch starts the recipe at a position of the board. The arguments are those of the target
/// only.
pub open spec fn launches(launch: Launch, b: Board, i: int) -> bool {
    let args = if b.order[i] == b.target {
        b.settings.args
    } else {
        Seq::empty()
    };
    &&& tells(launch.status, b.order[i], TaskState::Running, b.deps[i])
    &&& views(launch.command@) == just_words(b.settings.justfile, b.order[i], args)
    &&& opt_view(launch.working_dir) == b.settings.working_dir
}

/// Events report the end of an execution: which recipes are skipped, and how many have completed
/// and failed.
pub open spec fn reports_end(events: Seq<ExecutorEvent>, b: Board, elapsed: Duration) -> bool {
    let skipped = b.waiting_among(b.order.len() as int);
    &&& events.len() == skipped.len() + 1
    &&& forall|k: int|
        0 <= k < skipped.len() ==> (#[trigger] events[k] matches ExecutorEvent::TaskUpdated(status)
            && tells_skipped(
            status,
            b.order[skipped[k]],
            b.skip_reason(skipped[k]),
            b.deps[skipped[k]],
        ))
    &&& events.last() matches ExecutorEvent::AllDone { success, failed, total_duration }
        && success == b.ended() - b.failed() && failed == b.failed() && total_duration == elapsed
}

/// A copy of a list of strings
fn copy_texts(v: &Vec<String>) -> (r: Vec<String>)
    ensures
        views(r@) == views(v@),
{
    let mut r: Vec<String> = Vec::new();
    for i in 0..v.len()
        invariant
            r@.len() == i,
            forall|j: int| 0 <= j < i ==> (#[trigger] r@[j])@ == v@[j]@,
    {
        r.push(v[i].clone());
    }
    assert(views(r@) =~= views(v@));
    r
}

/// A copy of an optional string
fn copy_option(s: &Option<String>) -> (r: Option<String>)
    ensures
        opt_view(r) == opt_view(*s),
{
    match s {
        Some(s) => Some(s.clone()),
        None => None,
    }
}

/// The arguments of `just` that run a recipe without its dependencies
pub fn recipe_command(justfile_path: &Option<String>, recipe: &str, args: &Vec<String>) -> (r: Vec<
    String,
>)
    ensures
        views(r@) == just_words(opt_view(*justfile_path), recipe@, views(args@)),
{
    let mut r: Vec<String> = Vec::new();
    if let Some(path) = justfile_path {
        r.push("--justfile".to_owned());
        r.push(path.clone());
    }
    r.push("--no-deps".to_owned());
    r.push(recipe.to_owned());
    let mut more: Vec<String> = copy_texts(args);
    let ghost start = views(r@);
    let ghost rest = views(more@);
    r.append(&mut more);
    assert(views(r@) =~= start + rest);
    assert(start =~= just_words(opt_view(*justfile_path), recipe@, Seq::empty()));
    assert(views(r@) =~= just_words(opt_view(*justfile_path), recipe@, views(args@)));
    r
}

/// A status without output
fn new_status(recipe: &str, state: TaskState, deps: &Vec<String>) -> (r: TaskStatus)
    ensures
        tells(r, recipe@, state, views(deps@)),
{
    let output_preview: String = String::new();
    assert(output_preview@ =~= Seq::<char>::empty());
    TaskStatus { recipe: recipe.to_owned(), state, output_preview, dependencies: copy_texts(deps) }
}

/// The state of a recipe that has ended
fn ended_state(succeeded: bool, has_deps: bool, duration: Duration, total: Duration) -> (r:
    TaskState)
    requires
        has_deps ==> duration.nanos <= total.nanos,
    ensures
        r == end_state(succeeded, has_deps, duration, total),
{
    if !succeeded {
        TaskState::Failed { duration }
    } else if has_deps && total.nanos - duration.nanos > 100_000_000 {
        TaskState::Completed { duration, total_duration: Some(total) }
    } else {
        TaskState::Completed { duration, total_duration: None }
    }
}

/// Add a piece of output of a recipe to what was collected, and return the event that reports
/// the latest line, if there is one
pub fn collect_output(collector: &mut OutputCollector, data: &[u8]) -> (r: Option<ExecutorEvent>)
    ensures
        final(collector).buffered() == old(collector).buffered() + data@,
        final(collector).latest() == match last_visible(stripped_lines(data@)) {
            Some(line) => line,
            None => old(collector).latest(),
        },
        final(collector).recipe() == old(collector).recipe(),
        ({
            let shown = shortened(final(collector).latest(), MAX_PREVIEW_CHARS as nat);
            match r {
                Some(ExecutorEvent::TaskOutput { recipe, preview }) => shown.len() > 0 && preview@
                    == shown && recipe@ == old(collector).recipe(),
                Some(_) => false,
                None => shown.len() == 0,
            }
        }),
{
    collector.append(data);
    let preview: String = collector.latest_preview();
    if !preview.as_str().is_empty() {
        Some(ExecutorEvent::TaskOutput { recipe: collector.recipe_name().to_owned(), preview })
    } else {
        None
    }
}

impl Executor {
    /// A copy of the executor
    fn copy(&self) -> (r: Self)
        ensures
            r@ == self@,
    {
        Executor {
            max_jobs: self.max_jobs,
            justfile_path: copy_option(&self.justfile_path),
            recipe_args: copy_texts(&self.recipe_args),
            working_dir: copy_option(&self.working_dir),
        }
    }

    /// Begin to execute the recipe graph, with the events that report the initial states
    pub fn execute(&self, graph: &RecipeGraph, target: &str) -> (r: Result<
        (Execution, Vec<ExecutorEvent>),
        GraphError,
    >)
        ensures
            match r {
                Ok((execution, events)) => {
                    let b = execution@;
                    &&& graph.is_order(b.order)
                    &&& b.deps == b.order.map_values(|n: Seq<char>| graph.deps_of(n))
                    &&& b.states == b.order.map_values(|n: Seq<char>| TaskState::Waiting)
                    &&& b.target == target@
                    &&& b.settings == self@
                    &&& b.wf()
                    &&& b.respects_deps()
                    &&& b.respects_limit()
                    &&& events@.len() == b.order.len()
                    &&& forall|i: int|
                        0 <= i < events@.len() ==> (
                        #[trigger] events@[i] matches ExecutorEvent::TaskUpdated(status) && tells(
                            status,
                            b.order[i],
                            TaskState::Waiting,
                            b.deps[i],
                        ))
                },
                Err(_) => false,
            },
    {
        let recipes: Vec<String> = match graph.execution_order() {
            Ok(recipes) => recipes,
            Err(e) => {
                return Err(e);
            },
        };
        let ghost order = views(recipes@);
        let mut deps: Vec<Vec<String>> = Vec::new();
        let mut states: Vec<TaskState> = Vec::new();
        let mut events: Vec<ExecutorEvent> = Vec::new();
        for i in 0..recipes.len()
            invariant
                order == views(recipes@),
                deps@.len() == i,
                states@.len() == i,
                events@.len() == i,
                forall|j: int|
                    0 <= j < i ==> views((#[trigger] deps@[j])@) == graph.deps_of(order[j]),
                forall|j: int| 0 <= j < i ==> #[trigger] states@[j] is Waiting,
                forall|j: int|
                    0 <= j < i ==> (
                    #[trigger] events@[j] matches ExecutorEvent::TaskUpdated(status) && tells(
                        status,
                        order[j],
                        TaskState::Waiting,
                        graph.deps_of(order[j]),
                    )),
        {
            assert(order[i as int] == recipes@[i as int]@);
            let own: Vec<String> = graph.dependencies_of(recipes[i].as_str());
            events.push(
                ExecutorEvent::TaskUpdated(
                    new_status(recipes[i].as_str(), TaskState::Waiting, &own),
                ),
            );
            deps.push(own);
            states.push(TaskState::Waiting);
        }
        let ghost b = Board {
            order,
            deps: deps@.map_values(|d: Vec<String>| views(d@)),
            states: states@,
            target: target@,
            settings: self@,
        };
        proof {
            assert(b.deps =~= order.map_values(|n: Seq<char>| graph.deps_of(n)));
            assert(b.states =~= order.map_values(|n: Seq<char>| TaskState::Waiting));
            assert forall|i: int, d: Seq<char>|
                0 <= i < order.len() && #[trigger] b.deps[i].contains(d) implies exists|j: int|
                0 <= j < i && #[trigger] order[j] == d by {
                assert(graph.deps_of(order[i]).contains(d));
                assert(order.contains(d));
                let j = choose|j: int| 0 <= j < order.len() && order[j] == d;
                assert(graph.deps_of(order[i]).contains(order[j]));
                assert(j < i && order[j] == d);
            }
            lemma_tally_bounds(b.states, |s: TaskState| s is Running);
        }
        let execution: Execution = Execution {
            recipes,
            deps,
            states,
            target: target.to_owned(),
            executor: self.copy(),
        };
        Ok((execution, events))
    }
}

impl Execution {
    /// No recipe starts before its dependencies completed, and the limit is kept.
    #[verifier::type_invariant]
    spec fn inv(self) -> bool {
        &&& self@.wf()
        &&& self@.respects_deps()
        &&& self@.respects_limit()
    }

    /// The number of recipes that have ended, failed and run
    fn counts(&self) -> (r: (usize, usize, usize))
        ensures
            r.0 == self@.ended(),
            r.1 == self@.failed(),
            r.2 == self@.running(),
    {
        let ghost all = self@.states;
        let mut ended: usize = 0;
        let mut failed: usize = 0;
        let mut running: usize = 0;
        assert(all.take(0) =~= Seq::<TaskState>::empty());
        for i in 0..self.states.len()
            invariant
                all == self.states@,
                ended == tally(all.take(i as int), |s: TaskState| has_ended(s)),
                failed == tally(all.take(i as int), |s: TaskState| s is Failed),
                running == tally(all.take(i as int), |s: TaskState| s is Running),
                ended <= i,
                failed <= i,
                running <= i,
        {
            assert(all.take(i + 1).drop_last() =~= all.take(i as int));
            match &self.states[i] {
                TaskState::Completed { .. } => {
                    ended = ended + 1;
                },
                TaskState::Failed { .. } => {
                    ended = ended + 1;
                    failed = failed + 1;
                },
                TaskState::Running => {
                    running = running + 1;
                },
                _ => {},
            }
        }
        assert(all.take(all.len() as int) =~= all);
        (ended, failed, running)
    }

    /// The position of a recipe
    fn find(&self, name: &str) -> (r: Option<usize>)
        ensures
            match r {
                Some(i) => i < self@.order.len() && i == self@.position(name@) && self@.order[i as int]
                    == name@,
                None => !self@.order.contains(name@),
            },
    {
        for i in 0..self.recipes.len()
            invariant
                forall|j: int| 0 <= j < i ==> self@.order[j] != name@,
        {
            assert(self@.order[i as int] == self.recipes@[i as int]@);
            if same_text(self.recipes[i].as_str(), name) {
                proof {
                    lemma_first_index_is(self@.order, name@, i as int);
                }
                return Some(i);
            }
        }
        None
    }

    /// Whether a recipe has ended
    fn is_ended(&self, name: &str) -> (r: bool)
        ensures
            r == self@.is_ended(name@),
    {
        proof {
            use_type_invariant(self);
        }
        match self.find(name) {
            Some(i) => matches!(
                self.states[i],
                TaskState::Completed { .. } | TaskState::Failed { .. }
            ),
            None => false,
        }
    }

    /// Whether a recipe failed
    fn is_failed(&self, name: &str) -> (r: bool)
        ensures
            r == self@.is_failed(name@),
    {
        proof {
            use_type_invariant(self);
        }
        match self.find(name) {
            Some(i) => matches!(self.states[i], TaskState::Failed { .. }),
            None => false,
        }
    }

    /// Whether a recipe waits for nothing but its turn
    fn is_ready(&self, i: usize) -> (r: bool)
        requires
            i < self@.order.len(),
        ensures
            r == self@.is_ready(i as int),
    {
        proof {
            use_type_invariant(self);
        }
        if !matches!(self.states[i], TaskState::Waiting) {
            return false;
        }
        let own: &Vec<String> = &self.deps[i];
        let ghost deps = self@.deps[i as int];
        assert(deps == views(own@));
        for k in 0..own.len()
            invariant
                i < self@.order.len(),
                deps == self@.deps[i as int],
                deps == views(own@),
                forall|j: int| 0 <= j < k ==> self@.is_ended(#[trigger] deps[j]),
        {
            assert(deps[k as int] == own@[k as int]@);
            if !self.is_ended(own[k].as_str()) {
                assert(deps.contains(deps[k as int]));
                return false;
            }
        }
        true
    }

    /// The recipes to start next
    fn pick(&self, failed: usize, running: usize) -> (r: Vec<usize>)
        requires
            failed == self@.failed(),
            running == self@.running(),
        ensures
            r@.map_values(|i: usize| i as int) == self@.to_start(),
    {
        proof {
            use_type_invariant(self);
        }
        let mut picks: Vec<usize> = Vec::new();
        // If any task failed, don't start new tasks
        if failed > 0 {
            assert(picks@.map_values(|i: usize| i as int) =~= self@.to_start());
            return picks;
        }
        let n: usize = self.recipes.len();
        let slots: usize = self.executor.max_jobs - running;
        for i in 0..n
            invariant
                n == self@.order.len(),
                picks@.len() <= slots,
                self@.ready_among(i as int).len() <= slots ==> picks@.map_values(|i: usize| i as int)
                    == self@.ready_among(i as int),
                self@.ready_among(i as int).len() > slots ==> picks@.map_values(|i: usize| i as int)
                    == self@.ready_among(i as int).take(slots as int),
        {
            let ghost before = picks@.map_values(|i: usize| i as int);
            assert(before.len() == picks@.len());
            if picks.len() < slots {
                if self.is_ready(i) {
                    picks.push(i);
                    assert(picks@.map_values(|i: usize| i as int) =~= before.push(i as int));
                }
            } else {
                assert(self@.ready_among(i + 1).take(slots as int) =~= before);
            }
        }
        picks
    }

    /// The launch of a recipe
    fn launch(&self, i: usize) -> (r: Launch)
        requires
            i < self@.order.len(),
        ensures
            launches(r, self@, i as int),
    {
        proof {
            use_type_invariant(self);
        }
        let recipe: &String = &self.recipes[i];
        assert(self@.order[i as int] == recipe@);
        assert(self@.deps[i as int] == views(self.deps@[i as int]@));
        let none: Vec<String> = Vec::new();
        assert(views(none@) =~= Seq::<Seq<char>>::empty());
        let command: Vec<String> = if same_text(recipe.as_str(), self.target.as_str()) {
            recipe_command(
                &self.executor.justfile_path,
                recipe.as_str(),
                &self.executor.recipe_args,
            )
        } else {
            recipe_command(&self.executor.justfile_path, recipe.as_str(), &none)
        };
        Launch {
            status: new_status(recipe.as_str(), TaskState::Running, &self.deps[i]),
            command,
            working_dir: copy_option(&self.executor.working_dir),
        }
    }

    /// The first recipe of a list that failed
    fn first_failed(&self, names: &Vec<String>) -> (r: Option<String>)
        ensures
            ({
                let failed = self@.failed_among(views(names@));
                match r {
                    Some(name) => failed.len() > 0 && name@ == failed[0],
                    None => failed.len() == 0,
                }
            }),
    {
        let ghost all = views(names@);
        let ghost pred = |n: Seq<char>| self@.is_failed(n);
        for i in 0..names.len()
            invariant
                all == views(names@),
                pred == (|n: Seq<char>| self@.is_failed(n)),
                forall|j: int| 0 <= j < i ==> !pred(#[trigger] all[j]),
        {
            assert(all[i as int] == names@[i as int]@);
            if self.is_failed(names[i].as_str()) {
                proof {
                    lemma_filter_first(all, pred, i as int);
                }
                return Some(names[i].clone());
            }
        }
        proof {
            lemma_filter_elements(all, pred);
            if all.filter(pred).len() > 0 {
                assert(all.contains(all.filter(pred)[0]));
            }
        }
        None
    }

    /// The status of a skipped recipe
    fn skipped(&self, i: usize) -> (r: TaskStatus)
        requires
            i < self@.order.len(),
            self@.failed() > 0,
        ensures
            tells_skipped(
                r,
                self@.order[i as int],
                self@.skip_reason(i as int),
                self@.deps[i as int],
            ),
    {
        proof {
            use_type_invariant(self);
            skip_reason_has_failed(self@, i as int);
        }
        assert(self@.order[i as int] == self.recipes@[i as int]@);
        assert(self@.deps[i as int] == views(self.deps@[i as int]@));
        // Find which of this recipe's dependencies failed
        let failed_dep: String = match self.first_failed(&self.deps[i]) {
            Some(name) => name,
            None => match self.first_failed(&self.recipes) {
                Some(name) => name,
                None => String::new(),
            },
        };
        new_status(self.recipes[i].as_str(), TaskState::Skipped { failed_dep }, &self.deps[i])
    }

    /// The events that report the end of the execution
    fn end_events(&self, elapsed: Duration) -> (r: Vec<ExecutorEvent>)
        requires
            self@.is_over(),
        ensures
            reports_end(r@, self@, elapsed),
    {
        proof {
            use_type_invariant(self);
            everything_is_accounted_for(self@);
        }
        let (ended, failed, running) = self.counts();
        let mut events: Vec<ExecutorEvent> = Vec::new();
        // Mark any remaining waiting tasks as skipped
        if failed > 0 && running == 0 {
            for i in 0..self.recipes.len()
                invariant
                    self@.states.len() == self.recipes@.len(),
                    self@.order.len() == self.recipes@.len(),
                    self@.failed() > 0,
                    events@.len() == self@.waiting_among(i as int).len(),
                    forall|k: int|
                        0 <= k < events@.len() ==> (
                        #[trigger] events@[k] matches ExecutorEvent::TaskUpdated(status)
                            && tells_skipped(
                            status,
                            self@.order[self@.waiting_among(i as int)[k]],
                            self@.skip_reason(self@.waiting_among(i as int)[k]),
                            self@.deps[self@.waiting_among(i as int)[k]],
                        )),
            {
                let ghost before = events@;
                if matches!(self.states[i], TaskState::Waiting) {
                    events.push(ExecutorEvent::TaskUpdated(self.skipped(i)));
                }
                assert forall|k: int| 0 <= k < events@.len() implies (
                #[trigger] events@[k] matches ExecutorEvent::TaskUpdated(status) && tells_skipped(
                    status,
                    self@.order[self@.waiting_among(i + 1)[k]],
                    self@.skip_reason(self@.waiting_among(i + 1)[k]),
                    self@.deps[self@.waiting_among(i + 1)[k]],
                )) by {
                    if k < before.len() {
                        assert(events@[k] == before[k]);
                    }
                }
            }
        }
        events.push(
            ExecutorEvent::AllDone { success: ended - failed, failed, total_duration: elapsed },
        );
        events
    }

    /// Say what to do next. `elapsed` is the time since the start of the execution.
    pub fn advance(self, elapsed: Duration) -> (r: (Execution, Step))
        ensures
            self@.wf(),
            match r.1 {
                Step::Finish { events, succeeded } => {
                    &&& self@.is_over()
                    &&& r.0@ == self@
                    &&& reports_end(events@, self@, elapsed)
                    &&& succeeded == (self@.failed() == 0)
                },
                Step::Start(start) => {
                    &&& !self@.is_over()
                    &&& r.0@ == self@.started()
                    &&& start@.len() == self@.to_start().len()
                    &&& forall|k: int|
                        0 <= k < start@.len() ==> launches(
                            #[trigger] start@[k],
                            self@,
                            self@.to_start()[k],
                        )
                },
            },
            r.0@.wf(),
            r.0@.respects_deps(),
            r.0@.respects_limit(),
    {
        proof {
            use_type_invariant(&self);
        }
        let ghost b = self@;
        let (ended, failed, running) = self.counts();

        // Done if all recipes finished, or if we have failures and nothing is running
        if ended == self.recipes.len() || (failed > 0 && running == 0) {
            let events: Vec<ExecutorEvent> = self.end_events(elapsed);
            return (self, Step::Finish { events, succeeded: failed == 0 });
        }
        // Find tasks that can start

        let picks: Vec<usize> = self.pick(failed, running);
        let ghost chosen = b.to_start();
        proof {
            only_ready_recipes_start(b);
            starting_keeps_the_rules(b);
            assert forall|k: int| 0 <= k < picks@.len() implies #[trigger] picks@[k] == chosen[k]
                by {
                assert(picks@.map_values(|i: usize| i as int)[k] == picks@[k]);
            }
            assert(picks@.map_values(|i: usize| i as int).len() == picks@.len());
        }
        let mut start: Vec<Launch> = Vec::new();
        for k in 0..picks.len()
            invariant
                b == self@,
                chosen == b.to_start(),
                picks@.len() == chosen.len(),
                forall|m: int| 0 <= m < picks@.len() ==> #[trigger] picks@[m] == chosen[m],
                forall|m: int| 0 <= m < chosen.len() ==> 0 <= #[trigger] chosen[m] < b.order.len(),
                start@.len() == k,
                forall|m: int| 0 <= m < k ==> launches(#[trigger] start@[m], b, chosen[m]),
        {
            assert(0 <= chosen[k as int] < b.order.len());
            start.push(self.launch(picks[k]));
        }
        let Execution { recipes, deps, states, target, executor } = self;
        let mut states: Vec<TaskState> = states;
        assert(b.with_running(chosen.take(0)).states =~= states@);
        for k in 0..picks.len()
            invariant
                picks@.len() == chosen.len(),
                forall|m: int| 0 <= m < picks@.len() ==> #[trigger] picks@[m] == chosen[m],
                forall|m: int| 0 <= m < chosen.len() ==> 0 <= #[trigger] chosen[m] < b.order.len(),
                states@.len() == b.order.len(),
                b.states.len() == b.order.len(),
                states@ == b.with_running(chosen.take(k as int)).states,
        {
            assert(0 <= chosen[k as int] < b.order.len());
            states[picks[k]] = TaskState::Running;
            assert forall|i: int| #[trigger] chosen.take(k + 1).contains(i) <==> chosen.take(
                k as int,
            ).contains(i) || i == chosen[k as int] by {
                assert(chosen.take(k + 1) =~= chosen.take(k as int).push(chosen[k as int]));
                assert(chosen.take(k + 1)[k as int] == chosen[k as int]);
                if chosen.take(k as int).contains(i) {
                    let m = choose|m: int|
                        0 <= m < k && chosen.take(k as int)[m] == i;
                    assert(chosen.take(k + 1)[m] == i);
                }
            }
            assert(states@ =~= b.with_running(chosen.take(k + 1)).states);
        }
        assert(chosen.take(chosen.len() as int) =~= chosen);
        let execution: Execution = Execution { recipes, deps, states, target, executor };
        assert(execution@ == b.started());
        (execution, Step::Start(start))
    }

    /// Note that a recipe has ended, and return its status. `duration` is the time that the
    /// recipe took, and `total` that since the start of the execution. Nothing is noted of a
    /// recipe that does not run.
    pub fn task_ended(
        self,
        recipe: &str,
        succeeded: bool,
        duration: Duration,
        total: Duration,
    ) -> (r: (Execution, Option<TaskStatus>))
        requires
            self@.is_running(recipe@) && self@.deps[self@.position(recipe@)].len() > 0
                ==> duration.nanos <= total.nanos,
        ensures
            self@.wf(),
            match r.1 {
                Some(status) => {
                    let i = self@.position(recipe@);
                    let state = end_state(
                        succeeded,
                        self@.deps[i].len() > 0,
                        duration,
                        total,
                    );
                    &&& self@.is_running(recipe@)
                    &&& tells(status, recipe@, state, self@.deps[i])
                    &&& r.0@ == self@.with_state(i, state)
                },
                None => !self@.is_running(recipe@) && r.0@ == self@,
            },
            r.0@.wf(),
            r.0@.respects_deps(),
            r.0@.respects_limit(),
    {
        proof {
            use_type_invariant(&self);
        }
        let ghost b = self@;
        let i: usize = match self.find(recipe) {
            Some(i) => i,
            None => {
                return (self, None);
            },
        };
        if !matches!(self.states[i], TaskState::Running) {
            return (self, None);
        }
        assert(b.order.contains(b.order[i as int]));
        assert(b.deps[i as int] == views(self.deps@[i as int]@));
        let has_deps: bool = self.deps[i].len() > 0;
        assert(b.deps[i as int].len() == self.deps@[i as int]@.len());
        let state: TaskState = ended_state(succeeded, has_deps, duration, total);
        let kept: TaskState = ended_state(succeeded, has_deps, duration, total);
        let status: TaskStatus = new_status(recipe, state, &self.deps[i]);
        proof {
            ending_keeps_the_rules(b, i as int, kept);
        }
        let Execution { recipes, deps, states, target, executor } = self;
        let mut states: Vec<TaskState> = states;
        states[i] = kept;
        let execution: Execution = Execution { recipes, deps, states, target, executor };
        assert(execution@ == b.with_state(i as int, kept));
        (execution, Some(status))
    }
}

/// The board of an execution of the graph that was built for a target.
pub open spec fn is_board_of(b: Board, g: RecipeGraph, dump: JustDump, target: Seq<char>) -> bool {
    &&& g.is_graph_of(dump, target)
    &&& g.is_order(b.order)
    &&& b.deps == b.order.map_values(|n: Seq<char>| g.deps_of(n))
    &&& b.wf()
    &&& b.respects_deps()
}

/// Recipes further along a walk over dependencies have completed.
proof fn lemma_walk_completed(
    b: Board,
    g: RecipeGraph,
    dump: JustDump,
    target: Seq<char>,
    walk: Seq<Seq<char>>,
    i: int,
    k: int,
)
    requires
        is_board_of(b, g, dump, target),
        dump.is_dep_walk(walk),
        0 <= i < b.order.len(),
        !(b.states[i] is Waiting),
        0 < k < walk.len(),
        walk[0] == b.order[i],
    ensures
        b.is_completed(walk[k]),
    decreases k,
{
    let name = walk[k - 1];
    let p = if k == 1 {
        i
    } else {
        lemma_walk_completed(b, g, dump, target, walk, i, k - 1);
        choose|p: int|
            0 <= p < b.order.len() && #[trigger] b.order[p] == name && b.states[p] is Completed
    };
    let deps = dump.deps_of(name);
    assert(deps.contains(walk[k]));
    assert(b.order.contains(b.order[p]));
    assert(g.names().contains(name));
    let m = choose|m: int| 0 <= m < deps.len() && deps[m] == walk[k];
    assert(g.deps_of(name)[deps.len() - 1 - m] == walk[k]);
    assert(b.deps[p].contains(walk[k]));
}

/// A recipe has started only when all that it needs, directly or through others, have completed
/// with success.
pub proof fn needed_recipes_completed_first(
    b: Board,
    g: RecipeGraph,
    dump: JustDump,
    target: Seq<char>,
    i: int,
    name: Seq<char>,
)
    requires
        is_board_of(b, g, dump, target),
        0 <= i < b.order.len(),
        !(b.states[i] is Waiting),
        dump.needs(b.order[i], name),
        name != b.order[i],
    ensures
        b.is_completed(name),
{
    let walk = choose|walk: Seq<Seq<char>>| #[trigger]
        dump.is_dep_walk(walk) && walk.len() > 0 && walk.first() == b.order[i] && walk.last()
            == name;
    lemma_walk_completed(b, g, dump, target, walk, i, walk.len() - 1);
}

/// An execution that ends without a failure has completed the target and all that it needs.
pub proof fn success_completes_the_target(
    b: Board,
    g: RecipeGraph,
    dump: JustDump,
    target: Seq<char>,
    name: Seq<char>,
)
    requires
        is_board_of(b, g, dump, target),
        b.is_over(),
        b.failed() == 0,
        dump.needs(target, name),
    ensures
        b.is_completed(name),
{
    everything_is_accounted_for(b);
    assert(g.names().contains(name));
    assert(b.order.contains(name));
    let i = choose|i: int| 0 <= i < b.order.len() && b.order[i] == name;
    assert(b.states[i] is Completed);
    assert(b.order[i] == name);
}

/// An optional string stands for its text.
pub proof fn optional_string_is_its_text(s: String)
    ensures
        opt_view(Some(s)) == Some(s@),
        opt_view(None) is None,
{
}

/// A status that tells of a recipe holds its name, its state and its dependencies, and no
/// output.
pub proof fn status_tells_of_its_recipe(
    status: TaskStatus,
    recipe: Seq<char>,
    state: TaskState,
    deps: Seq<Seq<char>>,
)
    requires
        tells(status, recipe, state, deps),
    ensures
        status.recipe@ == recipe,
        status.state == state,
        status.output_preview@.len() == 0,
        status.dependencies@.len() == deps.len(),
        forall|i: int|
            0 <= i < deps.len() ==> (#[trigger] status.dependencies@[i])@ == deps[i],
{
    assert(views(status.dependencies@).len() == status.dependencies@.len());
    assert forall|i: int| 0 <= i < deps.len() implies (#[trigger] status.dependencies@[i])@
        == deps[i] by {
        assert(views(status.dependencies@)[i] == status.dependencies@[i]@);
    }
}

} // verus!
