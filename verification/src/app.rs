//! The state of one selection session: the query, the tasks it leaves, and
//! the task that is marked.

use crate::config::{task_views, Task, TaskView};
use crate::search::{filtered, recompute_filter};
use vstd::prelude::*;

verus! {

/// The mathematical value of an [`App`].
pub ghost struct AppView {
    /// Every task, as loaded.
    pub tasks: Seq<TaskView>,
    /// What has been typed.
    pub query: Seq<char>,
    /// The tasks shown.
    pub filtered: Seq<TaskView>,
    /// The place of the marked task among those shown.
    pub selected: int,
    /// Whether a task has been chosen and the session is to end.
    pub should_quit: bool,
    /// The command of the chosen task.
    pub command: Option<Seq<char>>,
}

/// What holds of every session: the tasks shown are those the query leaves,
/// the mark is on one of them (or at 0 where none is shown), and the session
/// is to end exactly when a command has been chosen.
pub open spec fn well_formed(v: AppView) -> bool {
    &&& v.filtered == filtered(v.tasks, v.query)
    &&& 0 <= v.selected
    &&& v.filtered.len() > 0 ==> v.selected < v.filtered.len()
    &&& v.filtered.len() == 0 ==> v.selected == 0
    &&& v.should_quit <==> v.command is Some
}

/// A fresh session over `tasks`.
pub open spec fn started(tasks: Seq<TaskView>) -> AppView {
    AppView {
        tasks,
        query: Seq::empty(),
        filtered: tasks,
        selected: 0,
        should_quit: false,
        command: None,
    }
}

/// The session with its query set to `query`: the tasks shown are computed
/// anew and the mark goes back to the first.
pub open spec fn asked(v: AppView, query: Seq<char>) -> AppView {
    AppView { query, filtered: filtered(v.tasks, query), selected: 0, ..v }
}

/// The session after `c` was typed.
pub open spec fn typed(v: AppView, c: char) -> AppView {
    asked(v, v.query.push(c))
}

/// The session after the last character of the query was taken back.
pub open spec fn erased(v: AppView) -> AppView {
    asked(
        v,
        if v.query.len() > 0 {
            v.query.drop_last()
        } else {
            v.query
        },
    )
}

/// The session with the mark moved down by one, from the last task to the
/// first.
pub open spec fn moved_next(v: AppView) -> AppView {
    if v.filtered.len() > 0 {
        AppView { selected: (v.selected + 1) % (v.filtered.len() as int), ..v }
    } else {
        v
    }
}

/// The session with the mark moved up by one, from the first task to the
/// last.
pub open spec fn moved_previous(v: AppView) -> AppView {
    if v.filtered.len() > 0 {
        AppView {
            selected: if v.selected > 0 {
                v.selected - 1
            } else {
                v.filtered.len() - 1
            },
            ..v
        }
    } else {
        v
    }
}

/// The session after the marked task was confirmed: its command is chosen
/// and the session is to end. Nothing changes where no task is marked.
pub open spec fn confirmed(v: AppView) -> AppView {
    if 0 <= v.selected < v.filtered.len() {
        AppView { should_quit: true, command: Some(v.filtered[v.selected].command), ..v }
    } else {
        v
    }
}

/// The session made ready for another choice: nothing chosen, not to end.
pub open spec fn resumed(v: AppView) -> AppView {
    AppView { should_quit: false, command: None, ..v }
}

/// A key press, as far as a session tells keys apart.
#[derive(Debug, Clone, Copy, PartialEq, Eq, Structural)]
pub enum Key {
    Escape,
    Enter,
    Up,
    Down,
    Backspace,
    Char(char),
    Other,
}

/// The session after `key` was pressed.
pub open spec fn after_key(v: AppView, key: Key) -> AppView {
    match key {
        Key::Escape => v,
        Key::Enter => confirmed(v),
        Key::Up => moved_previous(v),
        Key::Down => moved_next(v),
        Key::Backspace => erased(v),
        Key::Char(c) => typed(v, c),
        Key::Other => v,
    }
}

/// Whether the session ends with `key`: it does on escape, and as soon as a
/// task has been chosen.
pub open spec fn ends_with(v: AppView, key: Key) -> bool {
    key == Key::Escape || after_key(v, key).should_quit
}

/// The session after the mark was moved down `n` times.
pub open spec fn moved_next_times(v: AppView, n: nat) -> AppView
    decreases n,
{
    if n == 0 {
        v
    } else {
        moved_next(moved_next_times(v, (n - 1) as nat))
    }
}

/// Whatever key is pressed, the session stays well formed: the tasks shown
/// follow the query at once, and the mark stays on one of them.
pub proof fn lemma_key_keeps_well_formed(v: AppView, key: Key)
    requires
        well_formed(v),
    ensures
        well_formed(after_key(v, key)),
{
}

/// After the query has changed, by a character typed or taken back, the mark
/// is on the first task.
pub proof fn lemma_query_change_resets_mark(v: AppView, c: char)
    ensures
        typed(v, c).selected == 0,
        erased(v).selected == 0,
        typed(v, c).filtered == filtered(v.tasks, typed(v, c).query),
        erased(v).filtered == filtered(v.tasks, erased(v).query),
{
}

/// Moving the mark down `n` times from the first task puts it on task `n`,
/// as long as there is one.
proof fn lemma_moved_next_counts(v: AppView, n: nat)
    requires
        v.selected == 0,
        n < v.filtered.len(),
    ensures
        moved_next_times(v, n) == (AppView { selected: n as int, ..v }),
    decreases n,
{
    if n > 0 {
        lemma_moved_next_counts(v, (n - 1) as nat);
        let shown = v.filtered.len() as int;
        assert((n as int) % shown == n) by (nonlinear_arith)
            requires
                0 <= n < shown,
        ;
    }
}

/// With `n` tasks shown, `n` at least 1, moving the mark down `n` times from
/// the first task brings it back there, and moving it up once from the
/// first task puts it on the last.
pub proof fn lemma_mark_wraps(v: AppView)
    requires
        v.filtered.len() >= 1,
        v.selected == 0,
    ensures
        moved_next_times(v, v.filtered.len()) == v,
        moved_previous(v).selected == v.filtered.len() - 1,
{
    let n = v.filtered.len();
    lemma_moved_next_counts(v, (n - 1) as nat);
    assert((n as int) % (n as int) == 0) by (nonlinear_arith)
        requires
            n >= 1,
    ;
}

/// With no task shown, moving the mark and confirming change nothing: the
/// mark stays at 0 and no command is chosen.
pub proof fn lemma_empty_list_is_inert(v: AppView)
    requires
        well_formed(v),
        v.filtered.len() == 0,
    ensures
        moved_next(v) == v,
        moved_previous(v) == v,
        confirmed(v) == v,
        v.selected == 0,
{
}

/// The state of one selection session.
pub struct App {
    tasks: Vec<Task>,
    filtered_tasks: Vec<Task>,
    search_query: String,
    selected_index: usize,
    should_quit: bool,
    selected_command: Option<String>,
}

impl View for App {
    type V = AppView;

    closed spec fn view(&self) -> AppView {
        AppView {
            tasks: task_views(self.tasks@),
            query: self.search_query@,
            filtered: task_views(self.filtered_tasks@),
            selected: self.selected_index as int,
            should_quit: self.should_quit,
            command: match self.selected_command {
                Some(c) => Some(c@),
                None => None,
            },
        }
    }
}

impl App {
    /// A fresh session: the empty query, every task shown, the first marked.
    pub fn new(tasks: Vec<Task>) -> (app: App)
        ensures
            app@ == started(task_views(tasks@)),
            well_formed(app@),
    {
        let filtered_tasks = recompute_filter(&tasks, "");
        proof {
            reveal_strlit("");
        }
        App {
            tasks,
            filtered_tasks,
            search_query: String::new(),
            selected_index: 0,
            should_quit: false,
            selected_command: None,
        }
    }

    /// Every task, as loaded.
    pub fn tasks(&self) -> (tasks: &Vec<Task>)
        ensures
            task_views(tasks@) == self@.tasks,
    {
        &self.tasks
    }

    /// The tasks shown for the query, in the order shown.
    pub fn filtered_tasks(&self) -> (shown: &Vec<Task>)
        ensures
            task_views(shown@) == self@.filtered,
    {
        &self.filtered_tasks
    }

    /// What has been typed.
    pub fn search_query(&self) -> (query: &str)
        ensures
            query@ == self@.query,
    {
        self.search_query.as_str()
    }

    /// The place of the marked task among those shown; 0 where none is shown.
    pub fn selected_index(&self) -> (index: usize)
        ensures
            index == self@.selected,
    {
        self.selected_index
    }

    /// Whether a task has been chosen and the session is to end.
    pub fn should_quit(&self) -> (quit: bool)
        ensures
            quit == self@.should_quit,
    {
        self.should_quit
    }

    /// The command of the chosen task, if one has been chosen.
    pub fn selected_command(&self) -> (command: Option<&String>)
        ensures
            match command {
                Some(c) => self@.command == Some(c@),
                None => self@.command is None,
            },
    {
        match &self.selected_command {
            Some(c) => Some(c),
            None => None,
        }
    }

    /// Types `c` at the end of the query.
    pub fn on_key(&mut self, c: char)
        requires
            well_formed(old(self)@),
        ensures
            final(self)@ == typed(old(self)@, c),
            well_formed(final(self)@),
    {
        self.search_query.push(c);
        self.refilter();
    }

    /// Takes the last character of the query back, if it has one.
    pub fn on_backspace(&mut self)
        requires
            well_formed(old(self)@),
        ensures
            final(self)@ == erased(old(self)@),
            well_formed(final(self)@),
    {
        self.search_query.pop();
        self.refilter();
    }

    /// Computes the tasks shown anew and marks the first.
    pub fn update_filtered_tasks(&mut self)
        requires
            well_formed(old(self)@),
        ensures
            final(self)@ == asked(old(self)@, old(self)@.query),
            well_formed(final(self)@),
    {
        self.refilter();
    }

    /// Brings the tasks shown in line with the query, and marks the first.
    fn refilter(&mut self)
        ensures
            final(self)@ == asked(old(self)@, old(self)@.query),
    {
        self.filtered_tasks = recompute_filter(&self.tasks, self.search_query.as_str());
        self.selected_index = 0;
    }

    /// Moves the mark down by one, from the last task to the first.
    pub fn select_next(&mut self)
        requires
            well_formed(old(self)@),
        ensures
            final(self)@ == moved_next(old(self)@),
            well_formed(final(self)@),
    {
        let n = self.filtered_tasks.len();
        if n > 0 {
            self.selected_index = (self.selected_index + 1) % n;
        }
    }

    /// Moves the mark up by one, from the first task to the last.
    pub fn select_previous(&mut self)
        requires
            well_formed(old(self)@),
        ensures
            final(self)@ == moved_previous(old(self)@),
            well_formed(final(self)@),
    {
        let n = self.filtered_tasks.len();
        if n > 0 {
            if self.selected_index > 0 {
                self.selected_index -= 1;
            } else {
                self.selected_index = n - 1;
            }
        }
    }

    /// Confirms the marked task: its command is chosen and the session is to
    /// end. Does nothing where no task is shown.
    pub fn execute_selected(&mut self)
        requires
            well_formed(old(self)@),
        ensures
            final(self)@ == confirmed(old(self)@),
            well_formed(final(self)@),
    {
        if self.selected_index < self.filtered_tasks.len() {
            self.selected_command = Some(self.filtered_tasks[self.selected_index].command.clone());
            self.should_quit = true;
        }
    }

    /// Takes one key press and says whether the session ends with it.
    ///
    /// Escape ends the session and changes nothing. Enter confirms the marked
    /// task, up and down move the mark, backspace and a character edit the
    /// query; after each of these the session ends if a task has been chosen.
    pub fn on_input(&mut self, key: Key) -> (done: bool)
        requires
            well_formed(old(self)@),
        ensures
            final(self)@ == after_key(old(self)@, key),
            done == ends_with(old(self)@, key),
            well_formed(final(self)@),
    {
        match key {
            Key::Escape => {
                return true;
            },
            Key::Enter => self.execute_selected(),
            Key::Up => self.select_previous(),
            Key::Down => self.select_next(),
            Key::Backspace => self.on_backspace(),
            Key::Char(c) => self.on_key(c),
            Key::Other => {},
        }
        self.should_quit
    }

    /// Makes the session ready for another choice.
    pub fn resume(&mut self)
        requires
            well_formed(old(self)@),
        ensures
            final(self)@ == resumed(old(self)@),
            well_formed(final(self)@),
    {
        self.should_quit = false;
        self.selected_command = None;
    }
}

} // verus!
