//! What the display shows of a run.

use crate::executor::Duration;
use crate::executor::ExecutorEvent;
use crate::executor::TaskState;
use crate::executor::TaskStatus;
use crate::output::LOG_DIR;
use crate::text::decimal;
use crate::text::join;
use crate::text::joined;
use crate::text::same_text;
use crate::text::to_decimal;
use crate::text::views;
use vstd::prelude::*;
use vstd::utf8::*;

verus! {

/// A part of a message
#[derive(Debug)]
pub enum Part {
    /// Text to show as it is
    Text(String),
    /// A time to show in seconds, with one decimal place
    Seconds(Duration),
}

/// What a part of a message says.
pub enum Said {
    /// Text
    Text(Seq<char>),
    /// A time in seconds
    Seconds(Duration),
}

impl View for Part {
    type V = Said;

    open spec fn view(&self) -> Said {
        match self {
            Part::Text(text) => Said::Text(text@),
            Part::Seconds(duration) => Said::Seconds(*duration),
        }
    }
}

/// What a message says.
pub open spec fn said(parts: Seq<Part>) -> Seq<Said> {
    parts.map_values(|p: Part| p@)
}

/// Whether a spinner moves
#[derive(Debug, Clone, Copy, PartialEq, Eq, Structural)]
pub enum Tick {
    /// The spinner goes on as before
    Keep,
    /// The spinner moves on its own
    Start,
    /// The spinner stands still
    Stop,
}

/// A change of the line that shows a recipe
#[derive(Debug)]
pub struct LineUpdate {
    /// The style template, where it changes
    pub template: Option<String>,
    /// The message
    pub message: Vec<Part>,
    /// Whether the spinner moves
    pub tick: Tick,
}

/// What the display does with an event
#[derive(Debug)]
pub enum Reaction {
    /// Nothing changes
    Ignore,
    /// The line at an index changes
    Draw {
        /// The index of the line
        line: usize,
        /// The change
        update: LineUpdate,
    },
    /// The display is complete
    Stop {
        /// Number of recipes that completed
        success: usize,
        /// Number of recipes that failed
        failed: usize,
        /// Time since the start of the execution
        total_duration: Duration,
    },
}

/// The length of the longest of some names, in bytes.
pub open spec fn longest(names: Seq<Seq<char>>) -> nat
    decreases names.len(),
{
    if names.len() == 0 {
        0
    } else {
        let rest = longest(names.drop_last());
        let last = encode_utf8(names.last()).len();
        if last > rest {
            last
        } else {
            rest
        }
    }
}

/// The width of the column of names.
pub open spec fn name_width(names: Seq<Seq<char>>) -> nat {
    if names.len() == 0 {
        20
    } else if longest(names) > 15 {
        longest(names)
    } else {
        15
    }
}

/// What follows the name of a recipe in its line.
pub open spec fn style_of(state: TaskState) -> Seq<char> {
    match state {
        TaskState::Waiting => "}  ◦  {msg}"@,
        TaskState::Running => "}  {spinner:.cyan}  {msg}"@,
        TaskState::Completed { .. } => "}  ✓  {msg:.green}"@,
        TaskState::Failed { .. } => "}  ✗  {msg:.red}"@,
        TaskState::Skipped { .. } => "}  ⊘  {msg:.yellow}"@,
    }
}

/// The style template of the line of a recipe.
pub open spec fn template_of(state: TaskState, width: nat) -> Seq<char> {
    "{prefix:<"@ + decimal(width) + style_of(state)
}

/// The message on a recipe.
pub open spec fn message_of(status: TaskStatus) -> Seq<Said> {
    match status.state {
        TaskState::Waiting => if status.dependencies@.len() == 0 {
            seq![Said::Text("waiting"@)]
        } else {
            seq![
                Said::Text(
                    "waiting (depends on: "@ + joined(views(status.dependencies@), ", "@) + ")"@,
                ),
            ]
        },
        TaskState::Running => if status.output_preview@.len() == 0 {
            seq![Said::Text("running..."@)]
        } else {
            seq![Said::Text("running...  "@ + status.output_preview@)]
        },
        TaskState::Completed { duration, total_duration } => match total_duration {
            Some(total) => seq![
                Said::Text("completed in "@),
                Said::Seconds(duration),
                Said::Text("s ("@),
                Said::Seconds(total),
                Said::Text("s total)"@),
            ],
            None => seq![
                Said::Text("completed in "@),
                Said::Seconds(duration),
                Said::Text("s"@),
            ],
        },
        TaskState::Failed { duration } => seq![
            Said::Text("FAILED in "@),
            Said::Seconds(duration),
            Said::Text("s (see "@ + LOG_DIR@ + "/"@ + status.recipe@ + ".log)"@),
        ],
        TaskState::Skipped { failed_dep } => seq![
            Said::Text("skipped ("@ + failed_dep@ + " failed)"@),
        ],
    }
}

/// Whether the spinner of a recipe moves.
pub open spec fn tick_of(state: TaskState) -> Tick {
    match state {
        TaskState::Waiting => Tick::Keep,
        TaskState::Running => Tick::Start,
        _ => Tick::Stop,
    }
}

/// A change shows a status.
pub open spec fn shows_status(update: LineUpdate, status: TaskStatus, width: nat) -> bool {
    &&& update.template matches Some(template) && template@ == template_of(status.state, width)
    &&& said(update.message@) == message_of(status)
    &&& update.tick == tick_of(status.state)
}

/// A change shows a line of output.
pub open spec fn shows_output(update: LineUpdate, preview: Seq<char>) -> bool {
    &&& update.template is None
    &&& said(update.message@) == seq![Said::Text("running...  "@ + preview)]
    &&& update.tick == Tick::Keep
}

/// A message of one text
fn text_message(text: String) -> (r: Vec<Part>)
    ensures
        said(r@) == seq![Said::Text(text@)],
{
    let mut r: Vec<Part> = Vec::new();
    r.push(Part::Text(text));
    assert(said(r@) =~= seq![Said::Text(text@)]);
    r
}

/// Three strings, one after the other
fn concat(a: &str, b: &str, c: &str) -> (r: String)
    ensures
        r@ == a@ + b@ + c@,
{
    let mut r: String = a.to_owned();
    r.append(b);
    r.append(c);
    r
}

/// The style template of the line of a recipe
pub fn template(state: &TaskState, name_len: usize) -> (r: String)
    ensures
        r@ == template_of(*state, name_len as nat),
{
    let style: &str = match state {
        TaskState::Waiting => "}  ◦  {msg}",
        TaskState::Running => "}  {spinner:.cyan}  {msg}",
        TaskState::Completed { .. } => "}  ✓  {msg:.green}",
        TaskState::Failed { .. } => "}  ✗  {msg:.red}",
        TaskState::Skipped { .. } => "}  ⊘  {msg:.yellow}",
    };
    concat("{prefix:<", to_decimal(name_len).as_str(), style)
}

/// The message on a recipe
pub fn message(status: &TaskStatus) -> (r: Vec<Part>)
    ensures
        said(r@) == message_of(*status),
{
    match &status.state {
        TaskState::Waiting => if status.dependencies.len() == 0 {
            text_message("waiting".to_owned())
        } else {
            let deps: String = join(&status.dependencies, ", ");
            text_message(concat("waiting (depends on: ", deps.as_str(), ")"))
        },
        TaskState::Running => if status.output_preview.as_str().is_empty() {
            text_message("running...".to_owned())
        } else {
            output_message(status.output_preview.as_str())
        },
        TaskState::Completed { duration, total_duration } => {
            let mut r: Vec<Part> = Vec::new();
            r.push(Part::Text("completed in ".to_owned()));
            r.push(Part::Seconds(*duration));
            match total_duration {
                Some(total) => {
                    r.push(Part::Text("s (".to_owned()));
                    r.push(Part::Seconds(*total));
                    r.push(Part::Text("s total)".to_owned()));
                },
                None => {
                    r.push(Part::Text("s".to_owned()));
                },
            }
            assert(said(r@) =~= message_of(*status));
            r
        },
        TaskState::Failed { duration } => {
            let mut see: String = concat("s (see ", LOG_DIR, "/");
            see.append(status.recipe.as_str());
            see.append(".log)");
            let mut r: Vec<Part> = Vec::new();
            r.push(Part::Text("FAILED in ".to_owned()));
            r.push(Part::Seconds(*duration));
            r.push(Part::Text(see));
            assert(said(r@) =~= message_of(*status));
            r
        },
        TaskState::Skipped { failed_dep } => {
            text_message(concat("skipped (", failed_dep.as_str(), " failed)"))
        },
    }
}

/// The message on a recipe that runs and has written output
fn output_message(preview: &str) -> (r: Vec<Part>)
    ensures
        said(r@) == seq![Said::Text("running...  "@ + preview@)],
{
    let mut text: String = "running...  ".to_owned();
    text.append(preview);
    text_message(text)
}

/// A line of the display
struct Line {
    /// The recipe that the line shows
    recipe: String,
    /// Whether the recipe is running
    running: bool,
}

/// UI manager: the lines of a display, one for each recipe
pub struct UI {
    /// The lines, in order
    lines: Vec<Line>,
    /// Maximum recipe name length (for alignment)
    max_name_len: usize,
}

impl UI {
    /// The names of the recipes, in order.
    pub closed spec fn names(&self) -> Seq<Seq<char>> {
        self.lines@.map_values(|l: Line| l.recipe@)
    }

    /// Whether the recipe of each line is running.
    pub closed spec fn running(&self) -> Seq<bool> {
        self.lines@.map_values(|l: Line| l.running)
    }

    /// The width of the column of names.
    pub closed spec fn width(&self) -> nat {
        self.max_name_len as nat
    }

    /// The line that shows a recipe. Of several lines for one recipe it is the last.
    pub open spec fn is_line_of(&self, line: int, recipe: Seq<char>) -> bool {
        &&& 0 <= line < self.names().len()
        &&& self.names()[line] == recipe
        &&& forall|j: int| line < j < self.names().len() ==> #[trigger] self.names()[j] != recipe
    }

    /// Whether a line shows the recipe and the recipe is running.
    pub open spec fn runs_in(&self, line: int, recipe: Seq<char>) -> bool {
        self.is_line_of(line, recipe) && self.running()[line]
    }

    /// The display after a status was shown in the line of a recipe: what changes is whether
    /// the recipe runs.
    pub open spec fn notes(
        &self,
        before: UI,
        line: int,
        recipe: Seq<char>,
        state: TaskState,
    ) -> bool {
        &&& self.names() == before.names()
        &&& self.width() == before.width()
        &&& self.running() == before.running().update(line, state is Running)
        &&& forall|l: int| #[trigger]
            self.runs_in(l, recipe) <==> l == line && state is Running
    }

    /// The display is unchanged.
    pub open spec fn is_same(&self, before: UI) -> bool {
        &&& self.names() == before.names()
        &&& self.width() == before.width()
        &&& self.running() == before.running()
    }

    /// A recipe is shown in one line.
    proof fn lemma_one_line(&self, line: int, recipe: Seq<char>)
        requires
            self.is_line_of(line, recipe),
        ensures
            forall|l: int| #[trigger] self.is_line_of(l, recipe) ==> l == line,
    {
        assert forall|l: int| #[trigger] self.is_line_of(l, recipe) implies l == line by {
            if l < line {
                assert(self.names()[line] != recipe);
            } else if l > line {
                assert(self.names()[l] != recipe);
            }
        }
    }

    /// Create a new UI with the given recipe names
    pub fn new(recipes: &[String]) -> (r: Self)
        ensures
            r.names() == views(recipes@),
            r.width() == name_width(views(recipes@)),
            r.running() == views(recipes@).map_values(|n: Seq<char>| false),
    {
        let ghost all = views(recipes@);
        let mut lines: Vec<Line> = Vec::new();
        let mut max: usize = 0;
        for i in 0..recipes.len()
            invariant
                all == views(recipes@),
                max == longest(all.take(i as int)),
                lines@.len() == i,
                forall|j: int|
                    0 <= j < i ==> (#[trigger] lines@[j]).recipe@ == all[j] && !lines@[j].running,
        {
            assert(all[i as int] == recipes@[i as int]@);
            assert(all.take(i + 1).drop_last() =~= all.take(i as int));
            assert(all.take(i + 1).last() == all[i as int]);
            let len: usize = recipes[i].as_str().as_bytes().len();
            if len > max {
                max = len;
            }
            lines.push(Line { recipe: recipes[i].clone(), running: false });
        }
        assert(all.take(all.len() as int) =~= all);
        let max_name_len: usize = if recipes.len() == 0 {
            20
        } else if max > 15 {
            max
        } else {
            15
        };
        let ui: UI = UI { lines, max_name_len };
        assert(ui.names() =~= all);
        assert(ui.running() =~= all.map_values(|n: Seq<char>| false));
        ui
    }

    /// What every line shows at first
    pub fn first_update(&self) -> (r: LineUpdate)
        ensures
            r.template matches Some(template) && template@ == template_of(
                TaskState::Waiting,
                self.width(),
            ),
            said(r.message@) == seq![Said::Text("waiting"@)],
            r.tick == Tick::Keep,
    {
        LineUpdate {
            template: Some(template(&TaskState::Waiting, self.max_name_len)),
            message: text_message("waiting".to_owned()),
            tick: Tick::Keep,
        }
    }

    /// The line of a recipe
    fn find(&self, recipe: &str) -> (r: Option<usize>)
        ensures
            match r {
                Some(line) => self.is_line_of(line as int, recipe@),
                None => !self.names().contains(recipe@),
            },
    {
        let mut n: usize = self.lines.len();
        while n > 0
            invariant
                n <= self.lines.len(),
                forall|j: int|
                    n <= j < self.names().len() ==> #[trigger] self.names()[j] != recipe@,
            decreases n,
        {
            assert(self.names()[n - 1] == self.lines@[n - 1].recipe@);
            if same_text(self.lines[n - 1].recipe.as_str(), recipe) {
                return Some(n - 1);
            }
            n = n - 1;
        }
        None
    }

    /// Update a task's display based on its status
    pub fn update_task(&mut self, status: &TaskStatus) -> (r: Option<(usize, LineUpdate)>)
        ensures
            match r {
                Some((line, update)) => {
                    &&& old(self).is_line_of(line as int, status.recipe@)
                    &&& shows_status(update, *status, old(self).width())
                    &&& final(self).notes(
                        *old(self),
                        line as int,
                        status.recipe@,
                        status.state,
                    )
                },
                None => {
                    &&& !old(self).names().contains(status.recipe@)
                    &&& final(self).is_same(*old(self))
                },
            },
    {
        match self.find(status.recipe.as_str()) {
            Some(line) => {
                let (tick, running): (Tick, bool) = match &status.state {
                    TaskState::Waiting => (Tick::Keep, false),
                    TaskState::Running => (Tick::Start, true),
                    _ => (Tick::Stop, false),
                };
                self.lines[line].running = running;
                assert(self.names() =~= old(self).names());
                assert(self.running() =~= old(self).running().update(line as int, running));
                proof {
                    self.lemma_one_line(line as int, status.recipe@);
                }
                let update: LineUpdate = LineUpdate {
                    template: Some(template(&status.state, self.max_name_len)),
                    message: message(status),
                    tick,
                };
                Some((line, update))
            },
            None => None,
        }
    }

    /// Update a task's output preview, if the task is still running
    pub fn update_output(&self, recipe: &str, preview: &str) -> (r: Option<(usize, LineUpdate)>)
        ensures
            match r {
                Some((line, update)) => {
                    &&& self.runs_in(line as int, recipe@)
                    &&& shows_output(update, preview@)
                },
                None => forall|line: int| !#[trigger] self.runs_in(line, recipe@),
            },
    {
        match self.find(recipe) {
            Some(line) => {
                assert(self.running()[line as int] == self.lines@[line as int].running);
                if self.lines[line].running {
                    let update: LineUpdate = LineUpdate {
                        template: None,
                        message: output_message(preview),
                        tick: Tick::Keep,
                    };
                    Some((line, update))
                } else {
                    None
                }
            },
            None => None,
        }
    }

    /// Process an event from the executor
    pub fn react(&mut self, event: &ExecutorEvent) -> (r: Reaction)
        ensures
            match (*event, r) {
                (ExecutorEvent::TaskUpdated(status), Reaction::Draw { line, update }) => {
                    &&& old(self).is_line_of(line as int, status.recipe@)
                    &&& shows_status(update, status, old(self).width())
                    &&& final(self).notes(
                        *old(self),
                        line as int,
                        status.recipe@,
                        status.state,
                    )
                },
                (ExecutorEvent::TaskUpdated(status), Reaction::Ignore) => {
                    &&& !old(self).names().contains(status.recipe@)
                    &&& final(self).is_same(*old(self))
                },
                (ExecutorEvent::TaskOutput { recipe, preview }, Reaction::Draw { line, update }) => {
                    &&& old(self).runs_in(line as int, recipe@)
                    &&& shows_output(update, preview@)
                    &&& final(self).is_same(*old(self))
                },
                (ExecutorEvent::TaskOutput { recipe, preview }, Reaction::Ignore) => {
                    &&& forall|line: int| !#[trigger] old(self).runs_in(line, recipe@)
                    &&& final(self).is_same(*old(self))
                },
                (
                    ExecutorEvent::AllDone { success, failed, total_duration },
                    Reaction::Stop { success: s, failed: f, total_duration: d },
                ) => {
                    &&& s == success
                    &&& f == failed
                    &&& d == total_duration
                    &&& final(self).is_same(*old(self))
                },
                _ => false,
            },
    {
        match event {
            ExecutorEvent::TaskUpdated(status) => match self.update_task(status) {
                Some((line, update)) => Reaction::Draw { line, update },
                None => Reaction::Ignore,
            },
            ExecutorEvent::TaskOutput { recipe, preview } => {
                match self.update_output(recipe.as_str(), preview.as_str()) {
                    Some((line, update)) => Reaction::Draw { line, update },
                    None => Reaction::Ignore,
                }
            },
            ExecutorEvent::AllDone { success, failed, total_duration } => Reaction::Stop {
                success: *success,
                failed: *failed,
                total_duration: *total_duration,
            },
        }
    }
}

/// The column of names has room for every name.
pub proof fn names_fit(names: Seq<Seq<char>>, i: int)
    requires
        0 <= i < names.len(),
    ensures
        encode_utf8(names[i]).len() <= name_width(names),
{
    lemma_longest(names, i);
}

proof fn lemma_longest(names: Seq<Seq<char>>, i: int)
    requires
        0 <= i < names.len(),
    ensures
        encode_utf8(names[i]).len() <= longest(names),
    decreases names.len(),
{
    if i < names.len() - 1 {
        lemma_longest(names.drop_last(), i);
    }
}

/// A display that is the same shows the same recipes, in the same width, and the same ones run.
pub proof fn same_display_has_the_same_lines(before: UI, after: UI, line: int, recipe: Seq<char>)
    requires
        after.is_same(before),
    ensures
        after.names() == before.names(),
        after.width() == before.width(),
        after.runs_in(line, recipe) <==> before.runs_in(line, recipe),
{
}

/// The column of names is no wider than the widest name, fifteen characters, or twenty where
/// there are no names.
pub proof fn column_is_no_wider_than_needed(names: Seq<Seq<char>>)
    ensures
        names.len() == 0 ==> name_width(names) == 20,
        names.len() > 0 ==> name_width(names) >= 15 && (name_width(names) == 15 || exists|i: int|
            0 <= i < names.len() && encode_utf8(#[trigger] names[i]).len() == name_width(names)),
{
    if names.len() > 0 && longest(names) > 15 {
        let i = lemma_longest_is_one(names);
        assert(encode_utf8(names[i]).len() == name_width(names));
    }
}

proof fn lemma_longest_is_one(names: Seq<Seq<char>>) -> (i: int)
    requires
        longest(names) > 0,
    ensures
        0 <= i < names.len(),
        encode_utf8(names[i]).len() == longest(names),
    decreases names.len(),
{
    if encode_utf8(names.last()).len() > longest(names.drop_last()) {
        names.len() - 1
    } else {
        let i = lemma_longest_is_one(names.drop_last());
        assert(names.drop_last()[i] == names[i]);
        i
    }
}

/// A template puts the name in a column of the given width, then a sign for the state, then the
/// message, in the colour of the state.
pub proof fn templates_show_the_state(state: TaskState, width: nat)
    ensures
        ({
            let column = "{prefix:<"@ + decimal(width);
            template_of(state, width) == match state {
                TaskState::Waiting => column + "}  ◦  {msg}"@,
                TaskState::Running => column + "}  {spinner:.cyan}  {msg}"@,
                TaskState::Completed { .. } => column + "}  ✓  {msg:.green}"@,
                TaskState::Failed { .. } => column + "}  ✗  {msg:.red}"@,
                TaskState::Skipped { .. } => column + "}  ⊘  {msg:.yellow}"@,
            }
        }),
        tick_of(state) == Tick::Keep <==> state is Waiting,
        tick_of(state) == Tick::Start <==> state is Running,
{
}

/// A waiting recipe's message names all its dependencies, and a running one's its output.
pub proof fn messages_tell_dependencies_and_output(status: TaskStatus)
    requires
        status.state is Waiting || status.state is Running,
    ensures
        message_of(status).len() == 1,
        message_of(status)[0] is Text,
        ({
            let text = message_of(status)[0]->Text_0;
            if status.state is Waiting {
                if status.dependencies@.len() == 0 {
                    text == "waiting"@
                } else {
                    text == "waiting (depends on: "@ + joined(
                        views(status.dependencies@),
                        ", "@,
                    ) + ")"@
                }
            } else if status.output_preview@.len() == 0 {
                text == "running..."@
            } else {
                text == "running...  "@ + status.output_preview@
            }
        }),
{
}

/// A completed recipe's message tells the time that it took, and the total time exactly where
/// that is known. A failed one's tells the time and the log file, a skipped one's the reason.
pub proof fn messages_tell_how_it_ended(status: TaskStatus)
    ensures
        status.state matches TaskState::Completed { duration, total_duration } ==> {
            let m = message_of(status);
            &&& m.len() >= 3
            &&& m[0] == Said::Text("completed in "@)
            &&& m[1] == Said::Seconds(duration)
            &&& match total_duration {
                Some(total) => m.len() == 5 && m[2] == Said::Text("s ("@) && m[3]
                    == Said::Seconds(total) && m[4] == Said::Text("s total)"@),
                None => m.len() == 3 && m[2] == Said::Text("s"@),
            }
        },
        status.state matches TaskState::Failed { duration } ==> {
            let m = message_of(status);
            &&& m.len() == 3
            &&& m[0] == Said::Text("FAILED in "@)
            &&& m[1] == Said::Seconds(duration)
            &&& m[2] == Said::Text("s (see "@ + LOG_DIR@ + "/"@ + status.recipe@ + ".log)"@)
        },
        status.state matches TaskState::Skipped { failed_dep } ==> message_of(status) == seq![
            Said::Text("skipped ("@ + failed_dep@ + " failed)"@),
        ],
{
}

/// A change for a status sets the template of its state, its message, and the spinner. A change
/// for output sets the message alone.
pub proof fn changes_show_what_they_are_for(
    update: LineUpdate,
    status: TaskStatus,
    width: nat,
    preview: Seq<char>,
)
    ensures
        shows_status(update, status, width) ==> {
            &&& update.template matches Some(t) && t@ == template_of(status.state, width)
            &&& update.message@.len() == message_of(status).len()
            &&& forall|i: int|
                0 <= i < update.message@.len() ==> (#[trigger] update.message@[i])@ == message_of(
                    status,
                )[i]
            &&& update.tick == tick_of(status.state)
        },
        shows_output(update, preview) ==> {
            &&& update.template is None
            &&& update.message@.len() == 1
            &&& update.message@[0]@ == Said::Text("running...  "@ + preview)
            &&& update.tick == Tick::Keep
        },
{
    assert(said(update.message@).len() == update.message@.len());
    assert forall|i: int| 0 <= i < update.message@.len() implies #[trigger] said(
        update.message@,
    )[i] == update.message@[i]@ by {}
    if shows_status(update, status, width) {
        assert forall|i: int| 0 <= i < update.message@.len() implies (
        #[trigger] update.message@[i])@ == message_of(status)[i] by {
            assert(said(update.message@)[i] == update.message@[i]@);
        }
    }
    if shows_output(update, preview) {
        assert(said(update.message@)[0] == update.message@[0]@);
    }
}

/// Showing a status notes whether the recipe of the line runs, and changes nothing of other
/// lines.
pub proof fn status_is_noted_in_its_line(
    before: UI,
    after: UI,
    line: int,
    recipe: Seq<char>,
    state: TaskState,
)
    requires
        before.is_line_of(line, recipe),
        after.notes(before, line, recipe, state),
    ensures
        after.names() == before.names(),
        after.width() == before.width(),
        after.runs_in(line, recipe) <==> state is Running,
        forall|other: int, name: Seq<char>|
            name != recipe ==> (#[trigger] after.runs_in(other, name) <==> before.runs_in(
                other,
                name,
            )),
{
    assert forall|other: int, name: Seq<char>| name != recipe implies (#[trigger] after.runs_in(
        other,
        name,
    ) <==> before.runs_in(other, name)) by {
        assert(after.is_line_of(other, name) == before.is_line_of(other, name)) by {
            if before.is_line_of(other, name) {
                assert(after.is_line_of(other, name));
            }
            if after.is_line_of(other, name) {
                assert(before.is_line_of(other, name));
            }
        }
        if before.is_line_of(other, name) {
            assert(other != line);
        }
    }
}

} // verus!
