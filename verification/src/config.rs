//! Turning a YAML document into the sorted list of runnable tasks.
//!
//! A document names its tasks either under a top-level `tasks` key or directly
//! at its root. Each task is a name bound to a definition. A definition of the
//! wrong shape fails the whole load; a definition without a usable command is
//! left out.

use crate::definition::{definition_of, read_definition, task_from_definition, task_of};
use crate::document::{
    entry_trees, fields_of, lemma_mapping_tree, parse_document, text_of, untag, untagged,
    yaml_document, YamlNode, YamlTree,
};
use crate::sorted::{
    ascending, drop_name, lemma_with_task_ascending, lemma_with_task_members,
    lemma_without_name_ascending, lemma_without_name_members, put_task, with_task, without_name,
};
use vstd::prelude::*;

verus! {

/// A named shell command with its description.
#[derive(Debug, PartialEq, Eq)]
pub struct Task {
    pub name: String,
    pub command: String,
    pub description: String,
}

impl Clone for Task {
    fn clone(&self) -> (copy: Self)
        ensures
            copy == *self,
    {
        Task {
            name: self.name.clone(),
            command: self.command.clone(),
            description: self.description.clone(),
        }
    }
}

/// The mathematical value of a [`Task`].
pub ghost struct TaskView {
    pub name: Seq<char>,
    pub command: Seq<char>,
    pub description: Seq<char>,
}

impl View for Task {
    type V = TaskView;

    open spec fn view(&self) -> TaskView {
        TaskView { name: self.name@, command: self.command@, description: self.description@ }
    }
}

/// The views of a sequence of tasks.
pub open spec fn task_views(tasks: Seq<Task>) -> Seq<TaskView> {
    tasks.map_values(|t: Task| t@)
}

/// The tasks of one document, ascending by name.
#[derive(Debug)]
pub struct Config {
    pub tasks: Vec<Task>,
}

/// Why a document that parsed is not a task list.
#[derive(Debug, Clone, Copy, PartialEq, Eq, Structural)]
pub enum ShapeError {
    /// The task map is neither a mapping nor empty.
    TaskMapNotMapping,
    /// A key of the task map is not a string.
    TaskNameNotString,
    /// A task's definition is neither a mapping nor empty.
    DefinitionNotMapping,
    /// A key inside a definition is not a string.
    FieldNameNotString,
    /// A definition gives `desc` or `cmds` twice.
    DuplicateField,
    /// `desc` is given and is not a string.
    DescNotString,
    /// `cmds` is given and is not a sequence.
    CmdsNotSequence,
}

/// The sentence that says `reason` to an operator.
pub open spec fn reason_text(reason: ShapeError) -> Seq<char> {
    match reason {
        ShapeError::TaskMapNotMapping => "the task list is not a mapping"@,
        ShapeError::TaskNameNotString => "a task name is not a string"@,
        ShapeError::DefinitionNotMapping => "a task definition is not a mapping"@,
        ShapeError::FieldNameNotString => "a field name in a task definition is not a string"@,
        ShapeError::DuplicateField => "a task definition gives desc or cmds twice"@,
        ShapeError::DescNotString => "desc is not a string"@,
        ShapeError::CmdsNotSequence => "cmds is not a sequence"@,
    }
}

impl ShapeError {
    /// The sentence that says this reason to an operator.
    pub fn reason(&self) -> (text: &'static str)
        ensures
            text@ == reason_text(*self),
    {
        match self {
            ShapeError::TaskMapNotMapping => "the task list is not a mapping",
            ShapeError::TaskNameNotString => "a task name is not a string",
            ShapeError::DefinitionNotMapping => "a task definition is not a mapping",
            ShapeError::FieldNameNotString => "a field name in a task definition is not a string",
            ShapeError::DuplicateField => "a task definition gives desc or cmds twice",
            ShapeError::DescNotString => "desc is not a string",
            ShapeError::CmdsNotSequence => "cmds is not a sequence",
        }
    }
}

/// Why a load failed.
#[derive(Debug, PartialEq, Eq)]
pub enum ConfigError {
    /// The text is not YAML; the parser's message, with the position.
    Syntax(String),
    /// The text is YAML of the wrong shape.
    Shape(ShapeError),
}

impl ConfigError {
    /// What to tell the operator: the parser's message for a text that is
    /// not YAML, and the reason for a document of the wrong shape.
    pub fn message(&self) -> (text: String)
        ensures
            text@ == match self {
                ConfigError::Syntax(m) => m@,
                ConfigError::Shape(reason) => reason_text(*reason),
            },
    {
        match self {
            ConfigError::Syntax(m) => m.clone(),
            ConfigError::Shape(reason) => String::from_str(reason.reason()),
        }
    }
}

/// The value of the first entry whose key is the plain string `tasks`.
pub open spec fn tasks_entry(entries: Seq<(YamlTree, YamlTree)>) -> Option<YamlTree>
    decreases entries.len(),
{
    if entries.len() == 0 {
        None
    } else if entries[0].0 == YamlTree::Text("tasks"@) {
        Some(entries[0].1)
    } else {
        tasks_entry(entries.skip(1))
    }
}

/// What the root's `tasks` key holds, where the root is a mapping with that key.
pub open spec fn explicit_tasks(root: YamlTree) -> Option<YamlTree> {
    match untagged(root) {
        YamlTree::Mapping(entries) => tasks_entry(entries),
        _ => None,
    }
}

/// The node that holds the task map: the value of the root's `tasks` key
/// where there is one, and the root itself where there is none.
pub open spec fn task_map(root: YamlTree) -> YamlTree {
    match explicit_tasks(root) {
        Some(tasks) => tasks,
        None => root,
    }
}

/// The task list after one more entry of the task map: the entry's task takes
/// its place by name, and an entry that makes no task only clears its name.
pub open spec fn place(tasks: Seq<TaskView>, name: Seq<char>, task: Option<TaskView>) -> Seq<
    TaskView,
> {
    match task {
        Some(t) => with_task(tasks, t),
        None => without_name(tasks, name),
    }
}

/// Reading the entries of the task map in document order, up to the first
/// error. Where a name occurs more than once, its last entry decides.
pub open spec fn tasks_of_entries(entries: Seq<(YamlTree, YamlTree)>) -> Result<
    Seq<TaskView>,
    ShapeError,
>
    decreases entries.len(),
{
    if entries.len() == 0 {
        Ok(Seq::empty())
    } else {
        match tasks_of_entries(entries.drop_last()) {
            Err(e) => Err(e),
            Ok(tasks) => match text_of(entries.last().0) {
                None => Err(ShapeError::TaskNameNotString),
                Some(name) => match definition_of(entries.last().1) {
                    Err(e) => Err(e),
                    Ok(definition) => Ok(place(tasks, name, task_of(name, definition))),
                },
            },
        }
    }
}

/// The tasks that the document `root` defines, or why it defines none.
pub open spec fn tasks_of_document(root: YamlTree) -> Result<Seq<TaskView>, ShapeError> {
    match fields_of(task_map(root)) {
        None => Err(ShapeError::TaskMapNotMapping),
        Some(entries) => tasks_of_entries(entries),
    }
}

/// A task list reads the same whether it stands under the root's `tasks` key
/// or is the root itself, as long as it names no task `tasks`.
pub proof fn lemma_explicit_equals_simplified(explicit: YamlTree, simplified: YamlTree)
    requires
        explicit_tasks(explicit) == Some(simplified),
        explicit_tasks(simplified) is None,
    ensures
        tasks_of_document(explicit) == tasks_of_document(simplified),
{
}

/// Whatever the document, the tasks it defines are strictly ascending by
/// name: no two of them share a name, and each sorts before the next.
pub proof fn lemma_tasks_of_entries_ascending(entries: Seq<(YamlTree, YamlTree)>)
    ensures
        tasks_of_entries(entries) matches Ok(tasks) ==> ascending(tasks),
    decreases entries.len(),
{
    if entries.len() > 0 {
        lemma_tasks_of_entries_ascending(entries.drop_last());
        if let Ok(tasks) = tasks_of_entries(entries.drop_last()) {
            if let Some(name) = text_of(entries.last().0) {
                if let Ok(definition) = definition_of(entries.last().1) {
                    match task_of(name, definition) {
                        Some(t) => lemma_with_task_ascending(tasks, t),
                        None => lemma_without_name_ascending(tasks, name),
                    }
                }
            }
        }
    }
}

/// A task map is read in full exactly when each of its keys is a string and
/// each of its values a definition: one entry at fault fails them all.
pub proof fn lemma_entries_read_iff_all_sound(entries: Seq<(YamlTree, YamlTree)>)
    ensures
        tasks_of_entries(entries) is Ok <==> forall|i: int|
            0 <= i < entries.len() ==> text_of((#[trigger] entries[i]).0) is Some && definition_of(
                entries[i].1,
            ) is Ok,
    decreases entries.len(),
{
    if entries.len() > 0 {
        let front = entries.drop_last();
        lemma_entries_read_iff_all_sound(front);
        assert(entries.last() == entries[entries.len() - 1]);
        if tasks_of_entries(entries) is Ok {
            assert forall|i: int| 0 <= i < entries.len() implies text_of(
                (#[trigger] entries[i]).0,
            ) is Some && definition_of(entries[i].1) is Ok by {
                if i < front.len() {
                    assert(front[i] == entries[i]);
                }
            }
        } else if tasks_of_entries(front) is Err {
            let i = choose|i: int|
                0 <= i < front.len() && !(text_of((#[trigger] front[i]).0) is Some
                    && definition_of(front[i].1) is Ok);
            assert(front[i] == entries[i]);
        }
    }
}

/// The task that a sound entry of the task map makes, if it makes one.
pub open spec fn entry_task(entry: (YamlTree, YamlTree)) -> Option<TaskView> {
    task_of(text_of(entry.0)->0, definition_of(entry.1)->Ok_0)
}

/// The last entry under a name decides: where it makes a task, that task is
/// loaded; where it makes none, no task of that name is loaded.
pub proof fn lemma_last_entry_decides(entries: Seq<(YamlTree, YamlTree)>, i: int)
    requires
        tasks_of_entries(entries) is Ok,
        0 <= i < entries.len(),
        forall|j: int| i < j < entries.len() ==> text_of((#[trigger] entries[j]).0) != text_of(
            entries[i].0,
        ),
    ensures
        entry_task(entries[i]) matches Some(task) ==> tasks_of_entries(entries)->Ok_0.contains(task),
        entry_task(entries[i]) is None ==> forall|k: int|
            0 <= k < tasks_of_entries(entries)->Ok_0.len() ==> (#[trigger] tasks_of_entries(
                entries,
            )->Ok_0[k]).name != text_of(entries[i].0)->0,
    decreases entries.len(),
{
    let front = entries.drop_last();
    let last = entries.last();
    let before = tasks_of_entries(front)->Ok_0;
    let tasks = tasks_of_entries(entries)->Ok_0;
    let last_name = text_of(last.0)->0;
    let last_task = task_of(last_name, definition_of(last.1)->Ok_0);
    let name = text_of(entries[i].0)->0;
    lemma_tasks_of_entries_ascending(front);
    lemma_entries_read_iff_all_sound(entries);
    if i == entries.len() - 1 {
        match last_task {
            Some(task) => {
                lemma_with_task_members(before, task, task);
            },
            None => {
                assert forall|k: int| 0 <= k < tasks.len() implies (#[trigger] tasks[k]).name
                    != name by {
                    lemma_without_name_members(before, name, tasks[k]);
                }
            },
        }
    } else {
        assert(front[i] == entries[i]);
        assert forall|j: int| i < j < front.len() implies text_of((#[trigger] front[j]).0)
            != text_of(front[i].0) by {
            assert(front[j] == entries[j]);
        }
        lemma_last_entry_decides(front, i);
        assert(entries[entries.len() - 1] == last);
        assert(last_name != name);
        match task_of(name, definition_of(entries[i].1)->Ok_0) {
            Some(task) => {
                match last_task {
                    Some(t) => lemma_with_task_members(before, t, task),
                    None => lemma_without_name_members(before, last_name, task),
                }
            },
            None => {
                assert forall|k: int| 0 <= k < tasks.len() implies (#[trigger] tasks[k]).name
                    != name by {
                    match last_task {
                        Some(t) => lemma_with_task_members(before, t, tasks[k]),
                        None => lemma_without_name_members(before, last_name, tasks[k]),
                    }
                    if before.contains(tasks[k]) {
                        let m = choose|m: int| 0 <= m < before.len() && before[m] == tasks[k];
                        assert(before[m].name != name);
                    }
                }
            },
        }
    }
}

/// Every loaded task is the task that some entry of the task map makes.
pub proof fn lemma_loaded_task_has_entry(entries: Seq<(YamlTree, YamlTree)>, task: TaskView) -> (i:
    int)
    requires
        tasks_of_entries(entries) matches Ok(tasks) && tasks.contains(task),
    ensures
        0 <= i < entries.len(),
        text_of(entries[i].0) == Some(task.name),
        definition_of(entries[i].1) matches Ok(definition) && task_of(task.name, definition)
            == Some(task),
    decreases entries.len(),
{
    let front = entries.drop_last();
    let last = entries.last();
    let before = tasks_of_entries(front)->Ok_0;
    if entries.len() == 0 {
        let tasks = tasks_of_entries(entries)->Ok_0;
        let k = choose|k: int| 0 <= k < tasks.len() && tasks[k] == task;
        0
    } else {
        let last_name = text_of(last.0)->0;
        let last_task = task_of(last_name, definition_of(last.1)->Ok_0);
        lemma_tasks_of_entries_ascending(front);
        match last_task {
            Some(t) => lemma_with_task_members(before, t, task),
            None => lemma_without_name_members(before, last_name, task),
        }
        if last_task == Some(task) {
            entries.len() - 1
        } else {
            let i = lemma_loaded_task_has_entry(front, task);
            assert(front[i] == entries[i]);
            i
        }
    }
}

/// Once reading the task map has failed, further entries change nothing.
proof fn lemma_tasks_of_entries_stops(entries: Seq<(YamlTree, YamlTree)>, k: int)
    requires
        0 <= k <= entries.len(),
        tasks_of_entries(entries.take(k)) is Err,
    ensures
        tasks_of_entries(entries) == tasks_of_entries(entries.take(k)),
    decreases entries.len() - k,
{
    if k == entries.len() {
        assert(entries.take(k) =~= entries);
    } else {
        assert(entries.take(k + 1).drop_last() =~= entries.take(k));
        lemma_tasks_of_entries_stops(entries, k + 1);
    }
}

/// The value of the first entry whose key is the plain string `tasks`.
fn find_tasks(entries: &Vec<(YamlNode, YamlNode)>) -> (r: Option<&YamlNode>)
    ensures
        match r {
            Some(node) => tasks_entry(entry_trees(entries@)) == Some(node@),
            None => tasks_entry(entry_trees(entries@)) is None,
        },
{
    let key = String::from_str("tasks");
    let ghost trees = entry_trees(entries@);
    let mut i: usize = 0;
    proof {
        assert(trees.skip(0) =~= trees);
    }
    while i < entries.len()
        invariant
            i <= entries.len(),
            key@ == "tasks"@,
            trees == entry_trees(entries@),
            tasks_entry(trees) == tasks_entry(trees.skip(i as int)),
        decreases entries.len() - i,
    {
        let found = match &entries[i].0 {
            YamlNode::Text(s) => *s == key,
            _ => false,
        };
        proof {
            assert(trees.skip(i as int)[0] == trees[i as int]);
            assert(trees.skip(i as int).skip(1) =~= trees.skip(i + 1));
        }
        if found {
            return Some(&entries[i].1);
        }
        i += 1;
    }
    None
}

/// The node that holds the task map.
fn task_map_node(root: &YamlNode) -> (node: &YamlNode)
    ensures
        node@ == task_map(root@),
{
    match untag(root) {
        YamlNode::Mapping(entries) => {
            proof {
                lemma_mapping_tree(*entries);
            }
            match find_tasks(entries) {
                Some(tasks) => tasks,
                None => root,
            }
        },
        _ => root,
    }
}

/// Reads the entries of the task map in document order.
fn read_entries(entries: &Vec<(YamlNode, YamlNode)>) -> (r: Result<Vec<Task>, ShapeError>)
    ensures
        match r {
            Ok(tasks) => tasks_of_entries(entry_trees(entries@)) == Ok::<_, ShapeError>(
                task_views(tasks@),
            ),
            Err(e) => tasks_of_entries(entry_trees(entries@)) == Err::<Seq<TaskView>, _>(e),
        },
{
    let mut tasks: Vec<Task> = Vec::new();
    let ghost trees = entry_trees(entries@);
    let mut i: usize = 0;
    proof {
        assert(task_views(tasks@) =~= Seq::empty());
    }
    while i < entries.len()
        invariant
            i <= entries.len(),
            trees == entry_trees(entries@),
            tasks_of_entries(trees.take(i as int)) == Ok::<_, ShapeError>(task_views(tasks@)),
        decreases entries.len() - i,
    {
        proof {
            assert(trees.take(i + 1).drop_last() =~= trees.take(i as int));
            assert(trees.take(i + 1).last() == trees[i as int]);
            lemma_tasks_of_entries_ascending(trees.take(i as int));
        }
        match untag(&entries[i].0) {
            YamlNode::Text(name) => match read_definition(&entries[i].1) {
                Ok(definition) => match task_from_definition(name.as_str(), &definition) {
                    Some(task) => put_task(&mut tasks, task),
                    None => drop_name(&mut tasks, name),
                },
                Err(e) => {
                    proof {
                        lemma_tasks_of_entries_stops(trees, i + 1);
                    }
                    return Err(e);
                },
            },
            _ => {
                proof {
                    lemma_tasks_of_entries_stops(trees, i + 1);
                }
                return Err(ShapeError::TaskNameNotString);
            },
        }
        i += 1;
    }
    proof {
        assert(trees.take(entries.len() as int) =~= trees);
    }
    Ok(tasks)
}

impl Config {
    /// Reads the task list from a parsed document.
    ///
    /// The task map is what the root's `tasks` key holds, or the root itself
    /// where it has no such key. The result is exactly
    /// [`tasks_of_document`]: the tasks ascending by name, or the reason why
    /// the document is of the wrong shape.
    pub fn from_document(root: &YamlNode) -> (r: Result<Config, ConfigError>)
        ensures
            match r {
                Ok(config) => tasks_of_document(root@) == Ok::<_, ShapeError>(
                    task_views(config.tasks@),
                ) && ascending(task_views(config.tasks@)),
                Err(e) => e matches ConfigError::Shape(reason) && tasks_of_document(root@) == Err::<
                    Seq<TaskView>,
                    _,
                >(reason),
            },
    {
        match untag(task_map_node(root)) {
            YamlNode::Mapping(entries) => {
                proof {
                    lemma_mapping_tree(*entries);
                    lemma_tasks_of_entries_ascending(entry_trees(entries@));
                }
                match read_entries(entries) {
                    Ok(tasks) => Ok(Config { tasks }),
                    Err(e) => Err(ConfigError::Shape(e)),
                }
            },
            YamlNode::Null => {
                let tasks: Vec<Task> = Vec::new();
                assert(task_views(tasks@) =~= Seq::empty());
                Ok(Config { tasks })
            },
            _ => Err(ConfigError::Shape(ShapeError::TaskMapNotMapping)),
        }
    }

    /// Loads the task list from the text of a YAML document.
    ///
    /// A text that is not YAML gives [`ConfigError::Syntax`]. Any other text
    /// gives what [`Config::from_document`] makes of the document read.
    pub fn load(source: &str) -> (r: Result<Config, ConfigError>)
        ensures
            match yaml_document(source@) {
                None => r matches Err(ConfigError::Syntax(_)),
                Some(root) => match tasks_of_document(root) {
                    Ok(tasks) => r matches Ok(config) && task_views(config.tasks@) == tasks
                        && ascending(tasks),
                    Err(reason) => r == Err::<Config, _>(ConfigError::Shape(reason)),
                },
            },
    {
        match parse_document(source) {
            Ok(root) => Config::from_document(&root),
            Err(message) => Err(ConfigError::Syntax(message)),
        }
    }
}

} // verus!
