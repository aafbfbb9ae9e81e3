//! Reading one task's definition from its node, and making the task of it.
//!
//! A definition is a mapping with an optional `desc` and an optional list
//! `cmds`. Reading is strict about that shape and lenient about what the
//! list holds: entries that are no plain strings are passed over.

use crate::config::{ShapeError, Task, TaskView};
use crate::document::{
    entry_trees, fields_of, lemma_mapping_tree, text_of, untag, untagged, YamlNode, YamlTree,
};
use crate::text::{join_commands, joined, texts};
use vstd::prelude::*;

verus! {

/// One entry of a definition's `cmds` list.
#[derive(Debug, PartialEq, Eq)]
pub enum CommandEntry {
    /// A plain string: a command to run.
    Plain(String),
    /// Anything else; such entries are passed over.
    Structured,
}

impl View for CommandEntry {
    type V = Option<Seq<char>>;

    open spec fn view(&self) -> Option<Seq<char>> {
        match self {
            CommandEntry::Plain(s) => Some(s@),
            CommandEntry::Structured => None,
        }
    }
}

/// A task's definition as the document gives it.
#[derive(Debug, PartialEq, Eq)]
pub struct TaskDefinition {
    pub desc: Option<String>,
    pub cmds: Option<Vec<CommandEntry>>,
}

/// The mathematical value of a [`TaskDefinition`]: a command entry is its
/// string where it is a plain one, and `None` where it is not.
pub ghost struct DefinitionView {
    pub desc: Option<Seq<char>>,
    pub cmds: Option<Seq<Option<Seq<char>>>>,
}

impl View for TaskDefinition {
    type V = DefinitionView;

    open spec fn view(&self) -> DefinitionView {
        DefinitionView {
            desc: match self.desc {
                Some(d) => Some(d@),
                None => None,
            },
            cmds: match self.cmds {
                Some(entries) => Some(entries@.map_values(|e: CommandEntry| e@)),
                None => None,
            },
        }
    }
}

/// The command that a `cmds` entry gives: its string where the entry is a
/// plain string, untagged; nothing for any other entry.
pub open spec fn plain_command(t: YamlTree) -> Option<Seq<char>> {
    match t {
        YamlTree::Text(s) => Some(s),
        _ => None,
    }
}

/// What a `desc` value says: nothing where it is empty, its string where it is
/// one, and an error for anything else.
pub open spec fn optional_text(t: YamlTree) -> Result<Option<Seq<char>>, ShapeError> {
    if t is Null {
        Ok(None)
    } else {
        match text_of(t) {
            Some(s) => Ok(Some(s)),
            None => Err(ShapeError::DescNotString),
        }
    }
}

/// What a `cmds` value says: nothing where it is empty, its entries where it
/// is a sequence (a tagged empty node counts as an empty sequence), and an
/// error for anything else.
pub open spec fn optional_commands(t: YamlTree) -> Result<
    Option<Seq<Option<Seq<char>>>>,
    ShapeError,
> {
    if t is Null {
        Ok(None)
    } else {
        match untagged(t) {
            YamlTree::Sequence(items) => Ok(Some(items.map_values(|e: YamlTree| plain_command(e)))),
            YamlTree::Null => Ok(Some(Seq::empty())),
            _ => Err(ShapeError::CmdsNotSequence),
        }
    }
}

/// How far a definition has been read: which of its two fields were met, and
/// what they said.
pub ghost struct FieldsView {
    pub desc_seen: bool,
    pub cmds_seen: bool,
    pub definition: DefinitionView,
}

/// Reading one field of a definition. Fields other than `desc` and `cmds`
/// are passed over, whatever they hold.
pub open spec fn read_field(state: FieldsView, key: YamlTree, value: YamlTree) -> Result<
    FieldsView,
    ShapeError,
> {
    match text_of(key) {
        None => Err(ShapeError::FieldNameNotString),
        Some(name) => if name == "desc"@ {
            if state.desc_seen {
                Err(ShapeError::DuplicateField)
            } else {
                match optional_text(value) {
                    Err(e) => Err(e),
                    Ok(desc) => Ok(
                        FieldsView {
                            desc_seen: true,
                            definition: DefinitionView { desc, ..state.definition },
                            ..state
                        },
                    ),
                }
            }
        } else if name == "cmds"@ {
            if state.cmds_seen {
                Err(ShapeError::DuplicateField)
            } else {
                match optional_commands(value) {
                    Err(e) => Err(e),
                    Ok(cmds) => Ok(
                        FieldsView {
                            cmds_seen: true,
                            definition: DefinitionView { cmds, ..state.definition },
                            ..state
                        },
                    ),
                }
            }
        } else {
            Ok(state)
        },
    }
}

/// Reading the fields of a definition in document order, up to the first
/// error.
pub open spec fn read_fields(fields: Seq<(YamlTree, YamlTree)>) -> Result<FieldsView, ShapeError>
    decreases fields.len(),
{
    if fields.len() == 0 {
        Ok(
            FieldsView {
                desc_seen: false,
                cmds_seen: false,
                definition: DefinitionView { desc: None, cmds: None },
            },
        )
    } else {
        match read_fields(fields.drop_last()) {
            Err(e) => Err(e),
            Ok(state) => read_field(state, fields.last().0, fields.last().1),
        }
    }
}

/// The definition that the node `t` gives, or why it gives none.
pub open spec fn definition_of(t: YamlTree) -> Result<DefinitionView, ShapeError> {
    match fields_of(t) {
        None => Err(ShapeError::DefinitionNotMapping),
        Some(fields) => match read_fields(fields) {
            Err(e) => Err(e),
            Ok(state) => Ok(state.definition),
        },
    }
}

/// The plain strings among `entries`, in order.
pub open spec fn plain_strings(entries: Seq<Option<Seq<char>>>) -> Seq<Seq<char>> {
    entries.filter_map(|e: Option<Seq<char>>| e)
}

/// The task that a definition makes under `name`: none where it has no plain
/// command; else its plain commands joined, and its description or the empty
/// string.
pub open spec fn task_of(name: Seq<char>, definition: DefinitionView) -> Option<TaskView> {
    match definition.cmds {
        None => None,
        Some(entries) => if plain_strings(entries).len() == 0 {
            None
        } else {
            Some(
                TaskView {
                    name,
                    command: joined(plain_strings(entries)),
                    description: match definition.desc {
                        Some(d) => d,
                        None => Seq::empty(),
                    },
                },
            )
        },
    }
}

/// There is a plain string among `entries` exactly where some entry is one.
pub proof fn lemma_plain_strings_some(entries: Seq<Option<Seq<char>>>)
    ensures
        plain_strings(entries).len() > 0 <==> exists|i: int|
            0 <= i < entries.len() && (#[trigger] entries[i]) is Some,
    decreases entries.len(),
{
    if entries.len() > 0 {
        let front = entries.drop_last();
        lemma_plain_strings_some(front);
        assert(entries[entries.len() - 1] == entries.last());
        if plain_strings(front).len() > 0 {
            let i = choose|i: int| 0 <= i < front.len() && (#[trigger] front[i]) is Some;
            assert(entries[i] == front[i]);
        }
        if exists|i: int| 0 <= i < entries.len() && (#[trigger] entries[i]) is Some {
            let i = choose|i: int| 0 <= i < entries.len() && (#[trigger] entries[i]) is Some;
            if i < front.len() {
                assert(front[i] == entries[i]);
            }
        }
    }
}

/// A definition makes a task exactly where its `cmds` hold a plain string:
/// without `cmds`, with an empty list, or with a list of other things only,
/// it makes none.
pub proof fn lemma_task_iff_plain_command(name: Seq<char>, definition: DefinitionView)
    ensures
        task_of(name, definition) is Some <==> definition.cmds is Some && exists|i: int|
            0 <= i < definition.cmds->0.len() && (#[trigger] definition.cmds->0[i]) is Some,
{
    if let Some(entries) = definition.cmds {
        lemma_plain_strings_some(entries);
    }
}

/// Once reading the fields has failed, further fields change nothing.
proof fn lemma_read_fields_stops(fields: Seq<(YamlTree, YamlTree)>, k: int)
    requires
        0 <= k <= fields.len(),
        read_fields(fields.take(k)) is Err,
    ensures
        read_fields(fields) == read_fields(fields.take(k)),
    decreases fields.len() - k,
{
    if k == fields.len() {
        assert(fields.take(k) =~= fields);
    } else {
        assert(fields.take(k + 1).drop_last() =~= fields.take(k));
        lemma_read_fields_stops(fields, k + 1);
    }
}

/// The entries of a `cmds` sequence: each plain string as a command, every
/// other item as a structured entry.
fn read_commands(items: &Vec<YamlNode>) -> (out: Vec<CommandEntry>)
    ensures
        out@.len() == items@.len(),
        forall|i: int| 0 <= i < items@.len() ==> (#[trigger] out@[i])@ == plain_command(items@[i]@),
{
    let mut out: Vec<CommandEntry> = Vec::new();
    let mut i: usize = 0;
    while i < items.len()
        invariant
            i <= items.len(),
            out@.len() == i,
            forall|j: int| 0 <= j < i ==> (#[trigger] out@[j])@ == plain_command(items@[j]@),
        decreases items.len() - i,
    {
        let entry = match &items[i] {
            YamlNode::Text(s) => CommandEntry::Plain(s.clone()),
            _ => CommandEntry::Structured,
        };
        out.push(entry);
        i += 1;
    }
    out
}

/// Reads a `desc` value.
fn read_optional_text(value: &YamlNode) -> (r: Result<Option<String>, ShapeError>)
    ensures
        match r {
            Ok(Some(s)) => optional_text(value@) == Ok::<_, ShapeError>(Some(s@)),
            Ok(None) => optional_text(value@) == Ok::<Option<Seq<char>>, ShapeError>(None),
            Err(e) => optional_text(value@) == Err::<Option<Seq<char>>, _>(e),
        },
{
    match value {
        YamlNode::Null => Ok(None),
        _ => match untag(value) {
            YamlNode::Text(s) => Ok(Some(s.clone())),
            _ => Err(ShapeError::DescNotString),
        },
    }
}

/// Reads a `cmds` value.
fn read_optional_commands(value: &YamlNode) -> (r: Result<Option<Vec<CommandEntry>>, ShapeError>)
    ensures
        match r {
            Ok(Some(entries)) => optional_commands(value@) == Ok::<_, ShapeError>(
                Some(entries@.map_values(|e: CommandEntry| e@)),
            ),
            Ok(None) => optional_commands(value@) == Ok::<
                Option<Seq<Option<Seq<char>>>>,
                ShapeError,
            >(None),
            Err(e) => optional_commands(value@) == Err::<Option<Seq<Option<Seq<char>>>>, _>(e),
        },
{
    match value {
        YamlNode::Null => Ok(None),
        _ => match untag(value) {
            YamlNode::Sequence(items) => {
                let entries = read_commands(items);
                proof {
                    let trees = untagged(value@)->Sequence_0;
                    assert(entries@.map_values(|e: CommandEntry| e@) =~= trees.map_values(
                        |e: YamlTree| plain_command(e),
                    ));
                }
                Ok(Some(entries))
            },
            YamlNode::Null => {
                let entries: Vec<CommandEntry> = Vec::new();
                assert(entries@.map_values(|e: CommandEntry| e@) =~= Seq::empty());
                Ok(Some(entries))
            },
            _ => Err(ShapeError::CmdsNotSequence),
        },
    }
}

/// Reads the fields of a definition in document order.
fn read_definition_fields(fields: &Vec<(YamlNode, YamlNode)>) -> (r: Result<
    TaskDefinition,
    ShapeError,
>)
    ensures
        match r {
            Ok(d) => read_fields(entry_trees(fields@)) matches Ok(state) && state.definition == d@,
            Err(e) => read_fields(entry_trees(fields@)) == Err::<FieldsView, _>(e),
        },
{
    let desc_key = String::from_str("desc");
    let cmds_key = String::from_str("cmds");
    let mut definition = TaskDefinition { desc: None, cmds: None };
    let mut desc_seen = false;
    let mut cmds_seen = false;
    let ghost trees = entry_trees(fields@);
    let mut i: usize = 0;
    while i < fields.len()
        invariant
            i <= fields.len(),
            trees == entry_trees(fields@),
            desc_key@ == "desc"@,
            cmds_key@ == "cmds"@,
            read_fields(trees.take(i as int)) == Ok::<_, ShapeError>(
                FieldsView { desc_seen, cmds_seen, definition: definition@ },
            ),
        decreases fields.len() - i,
    {
        proof {
            assert(trees.take(i + 1).drop_last() =~= trees.take(i as int));
            assert(trees.take(i + 1).last() == trees[i as int]);
        }
        let ghost before = FieldsView { desc_seen, cmds_seen, definition: definition@ };
        let ghost step = read_field(before, trees[i as int].0, trees[i as int].1);
        assert(read_fields(trees.take(i + 1)) == step);
        let value = &fields[i].1;
        match untag(&fields[i].0) {
            YamlNode::Text(name) => {
                if *name == desc_key {
                    if desc_seen {
                        proof {
                            lemma_read_fields_stops(trees, i + 1);
                        }
                        return Err(ShapeError::DuplicateField);
                    }
                    match read_optional_text(value) {
                        Ok(desc) => {
                            definition.desc = desc;
                            desc_seen = true;
                        },
                        Err(e) => {
                            proof {
                                lemma_read_fields_stops(trees, i + 1);
                            }
                            return Err(e);
                        },
                    }
                } else if *name == cmds_key {
                    if cmds_seen {
                        proof {
                            lemma_read_fields_stops(trees, i + 1);
                        }
                        return Err(ShapeError::DuplicateField);
                    }
                    match read_optional_commands(value) {
                        Ok(cmds) => {
                            definition.cmds = cmds;
                            cmds_seen = true;
                        },
                        Err(e) => {
                            proof {
                                lemma_read_fields_stops(trees, i + 1);
                            }
                            return Err(e);
                        },
                    }
                }
            },
            _ => {
                proof {
                    lemma_read_fields_stops(trees, i + 1);
                }
                return Err(ShapeError::FieldNameNotString);
            },
        }
        i += 1;
    }
    proof {
        assert(trees.take(fields.len() as int) =~= trees);
    }
    Ok(definition)
}

/// Reads a task's definition from its node.
///
/// The node must be a mapping, or empty; its `desc` a string, or empty; its
/// `cmds` a sequence, or empty; and neither may be given twice. Other fields
/// are passed over. On any other node the reason comes back, that of the
/// first field in document order which is at fault.
pub fn read_definition(node: &YamlNode) -> (r: Result<TaskDefinition, ShapeError>)
    ensures
        match r {
            Ok(d) => definition_of(node@) == Ok::<_, ShapeError>(d@),
            Err(e) => definition_of(node@) == Err::<DefinitionView, _>(e),
        },
{
    match untag(node) {
        YamlNode::Mapping(fields) => {
            proof {
                lemma_mapping_tree(*fields);
            }
            match read_definition_fields(fields) {
                Ok(d) => Ok(d),
                Err(e) => Err(e),
            }
        },
        YamlNode::Null => Ok(TaskDefinition { desc: None, cmds: None }),
        _ => Err(ShapeError::DefinitionNotMapping),
    }
}

/// Makes the task that `definition` gives under `name`.
///
/// There is none where the definition has no `cmds`, or no plain string among
/// them. Otherwise the task's command is the plain strings joined by
/// `" && "` in their order, and its description the definition's `desc`, or
/// empty.
pub fn task_from_definition(name: &str, definition: &TaskDefinition) -> (r: Option<Task>)
    ensures
        match r {
            Some(t) => task_of(name@, definition@) == Some(t@),
            None => task_of(name@, definition@) is None,
        },
{
    match &definition.cmds {
        None => None,
        Some(entries) => {
            let ghost views = entries@.map_values(|e: CommandEntry| e@);
            let mut plain: Vec<String> = Vec::new();
            let mut i: usize = 0;
            while i < entries.len()
                invariant
                    i <= entries.len(),
                    views == entries@.map_values(|e: CommandEntry| e@),
                    texts(plain@) == plain_strings(views.take(i as int)),
                decreases entries.len() - i,
            {
                proof {
                    assert(views.take(i + 1).drop_last() =~= views.take(i as int));
                    assert(views.take(i + 1).last() == entries@[i as int]@);
                }
                let ghost before = plain@;
                match &entries[i] {
                    CommandEntry::Plain(s) => {
                        plain.push(s.clone());
                        assert(texts(plain@) =~= texts(before).push(s@));
                    },
                    CommandEntry::Structured => {},
                }
                i += 1;
            }
            proof {
                assert(views.take(entries.len() as int) =~= views);
            }
            if plain.len() == 0 {
                None
            } else {
                let description = match &definition.desc {
                    Some(d) => d.clone(),
                    None => String::new(),
                };
                Some(Task { name: name.to_owned(), command: join_commands(&plain), description })
            }
        },
    }
}

} // verus!
