//! A terminal over the entities of an ECS world: a virtual file system whose
//! directories and files are entities, a small shell with built-in commands,
//! and the state of the terminal widget.
use vstd::prelude::*;

pub mod command;
pub mod file_system;
pub mod style_sheet;
pub mod text;

use crate::command::{not_found_message, result_lines, CommandResult};
use crate::file_system::{CommandRegistry, DynamicFilter, EntityId};
use crate::style_sheet::{
    background_color, prompt_text_color, selection_color, spec_background_color,
    spec_prompt_text_color, spec_selection_color, spec_text_color, text_color, Color32, TextStyle,
};
use crate::text::{
    append_str, is_blank, join, join_strings, split_whitespace, str_is_blank, string_of,
    strings_of_all, texts, views, words,
};

verus! {

broadcast use vstd::seq_lib::group_seq_properties;

/// The colours and text style of the terminal.
#[derive(Debug, Clone, PartialEq)]
pub struct TerminalStyle {
    pub background_color: Color32,
    pub prompt_text_color: Color32,
    pub selection_color: Color32,
    pub text_color: Color32,
    pub text_style: TextStyle,
}

impl TerminalStyle {
    /// The default style.
    pub open spec fn spec_default() -> TerminalStyle {
        TerminalStyle {
            background_color: spec_background_color(),
            prompt_text_color: spec_prompt_text_color(),
            selection_color: spec_selection_color(),
            text_color: spec_text_color(),
            text_style: TextStyle::Monospace,
        }
    }
}

impl Default for TerminalStyle {
    fn default() -> (r: Self)
        ensures
            r == TerminalStyle::spec_default(),
    {
        TerminalStyle {
            background_color: background_color(),
            prompt_text_color: prompt_text_color(),
            selection_color: selection_color(),
            text_color: text_color(),
            text_style: TextStyle::Monospace,
        }
    }
}

/// The state of the terminal: what it has printed, the commands entered
/// (and the position in them while browsing), the line being typed, the
/// commands waiting to run, the current directory and the root of the file system.
#[derive(Debug, Clone, PartialEq)]
pub struct Terminal {
    pub history: Vec<String>,
    pub command_history: Vec<String>,
    pub history_index: usize,
    pub input: String,
    pub pending_commands: Vec<String>,
    pub current_directory: Vec<String>,
    pub style: TerminalStyle,
    pub root_entity: EntityId,
}

/// Whether two terminals agree on everything but their history.
pub open spec fn same_but_history(a: Terminal, b: Terminal) -> bool {
    &&& a.command_history == b.command_history
    &&& a.history_index == b.history_index
    &&& a.input == b.input
    &&& a.pending_commands == b.pending_commands
    &&& a.current_directory == b.current_directory
    &&& a.style == b.style
    &&& a.root_entity == b.root_entity
}

/// Whether two terminals agree on all but the line being typed and the
/// position in the entered commands.
pub open spec fn same_but_input(a: Terminal, b: Terminal) -> bool {
    &&& a.history == b.history
    &&& a.command_history == b.command_history
    &&& a.pending_commands == b.pending_commands
    &&& a.current_directory == b.current_directory
    &&& a.style == b.style
    &&& a.root_entity == b.root_entity
}

/// What the up arrow does (see `Terminal::history_up`): with an entered
/// command before the position, the position moves back to it and it becomes
/// the input; else nothing changes.
pub open spec fn stepped_up(before: Terminal, after: Terminal, moved: bool) -> bool {
    &&& same_but_input(after, before)
    &&& after.history_index <= after.command_history@.len()
    &&& moved == (before.history_index > 0)
    &&& moved ==> after.history_index == before.history_index - 1 && after.input@
        == before.command_history@[after.history_index as int]@
    &&& !moved ==> after.history_index == before.history_index && after.input == before.input
}

/// What the down arrow does (see `Terminal::history_down`): before the end of
/// the entered commands the position moves on; the command there becomes the
/// input, or, at the end, the input is cleared. At the end nothing changes.
pub open spec fn stepped_down(before: Terminal, after: Terminal, moved: bool) -> bool {
    &&& same_but_input(after, before)
    &&& before.history_index < before.command_history@.len() ==> after.history_index
        == before.history_index + 1
    &&& before.history_index >= before.command_history@.len() ==> after.history_index
        == before.history_index && after.input == before.input
    &&& moved == (before.history_index + 1 < before.command_history@.len())
    &&& moved ==> after.input@ == before.command_history@[after.history_index as int]@
    &&& before.history_index + 1 == before.command_history@.len() ==> after.input@.len() == 0
}

/// What the enter key does (see `Terminal::submit_input`): the input is
/// cleared; unless it was blank it is added to the entered commands and
/// queued; the position goes past the last entered command.
pub open spec fn submitted(before: Terminal, after: Terminal) -> bool {
    &&& after.input@.len() == 0
    &&& is_blank(before.input@) ==> after.command_history == before.command_history
        && after.pending_commands == before.pending_commands
    &&& !is_blank(before.input@) ==> views(after.command_history@) == views(
        before.command_history@,
    ).push(before.input@) && views(after.pending_commands@) == views(
        before.pending_commands@,
    ).push(before.input@)
    &&& after.history_index == after.command_history@.len()
    &&& after.history == before.history
    &&& after.current_directory == before.current_directory
    &&& after.style == before.style
    &&& after.root_entity == before.root_entity
}

/// The line that echoes a command: the current directory, `$ ` and the command.
pub open spec fn echo_line(cwd: Seq<Seq<char>>, raw: Seq<char>) -> Seq<char> {
    join(cwd, "/"@) + "$ "@ + raw
}

/// Whether the components hold the component with the id, if there is one.
pub open spec fn has_component(id: Option<usize>, components: Seq<usize>) -> bool {
    match id {
        Some(i) => components.contains(i),
        None => false,
    }
}

/// The filter for a component: `Has` its id, or `Never` where the world has none.
pub open spec fn component_filter(id: Option<usize>) -> DynamicFilter {
    match id {
        Some(i) => DynamicFilter::Has(i),
        None => DynamicFilter::Never,
    }
}

/// Whether `f` is `name | registry | terminal` over the filters of the three
/// components (the first two joined first).
pub open spec fn is_vfs_filter(
    f: DynamicFilter,
    name_id: Option<usize>,
    registry_id: Option<usize>,
    terminal_id: Option<usize>,
) -> bool {
    &&& f matches DynamicFilter::Or(fs)
    &&& fs@.len() == 2
    &&& fs@[0] matches DynamicFilter::Or(gs)
    &&& gs@ == seq![component_filter(name_id), component_filter(registry_id)]
    &&& fs@[1] == component_filter(terminal_id)
}

/// The directories that the root of the file system lists, with the filters
/// that give their children: `.entities` holds every entity (`!Never`),
/// `.vfs_entities` those with a name, the command registry or the terminal
/// (`name | registry | terminal`), `.app_entities` all others (the negation of
/// that). The ids are those that the world gives the three component types,
/// where it has registered them.
pub fn query_directories(
    name_id: Option<usize>,
    registry_id: Option<usize>,
    terminal_id: Option<usize>,
) -> (r: Vec<(String, DynamicFilter)>)
    ensures
        r@.len() == 3,
        r@[0].0@ == ".entities"@,
        r@[1].0@ == ".vfs_entities"@,
        r@[2].0@ == ".app_entities"@,
        r@[0].1 == DynamicFilter::Never.negation(),
        is_vfs_filter(r@[1].1, name_id, registry_id, terminal_id),
        r@[2].1 matches DynamicFilter::Not(inner) && is_vfs_filter(
            *inner,
            name_id,
            registry_id,
            terminal_id,
        ),
        forall|c: Seq<usize>| #[trigger] r@[0].1.accepts(c),
        forall|c: Seq<usize>|
            #[trigger] r@[1].1.accepts(c) == (has_component(name_id, c) || has_component(
                registry_id,
                c,
            ) || has_component(terminal_id, c)),
        forall|c: Seq<usize>| #[trigger] r@[2].1.accepts(c) == !r@[1].1.accepts(c),
{
    let vfs = DynamicFilter::for_component(name_id).or(DynamicFilter::for_component(registry_id)).or(
        DynamicFilter::for_component(terminal_id),
    );
    let app = DynamicFilter::for_component(name_id).or(DynamicFilter::for_component(registry_id)).or(
        DynamicFilter::for_component(terminal_id),
    ).negate();
    let mut r: Vec<(String, DynamicFilter)> = Vec::new();
    r.push((".entities".to_string(), DynamicFilter::Never.negate()));
    r.push((".vfs_entities".to_string(), vfs));
    r.push((".app_entities".to_string(), app));
    r
}

impl Terminal {
    /// A terminal with nothing printed or entered, at the root `root_entity`.
    pub fn new(root_entity: EntityId) -> (t: Self)
        ensures
            t.history@.len() == 0,
            t.command_history@.len() == 0,
            t.history_index == 0,
            t.input@.len() == 0,
            t.pending_commands@.len() == 0,
            t.current_directory@.len() == 0,
            t.style == TerminalStyle::spec_default(),
            t.root_entity == root_entity,
    {
        Terminal {
            history: Vec::new(),
            command_history: Vec::new(),
            history_index: 0,
            input: String::new(),
            pending_commands: Vec::new(),
            current_directory: Vec::new(),
            style: TerminalStyle::default(),
            root_entity,
        }
    }

    /// Prints what a command handed back: its output, or that it was not found.
    pub fn push_command_result(&mut self, command_result: &CommandResult)
        ensures
            views(final(self).history@) == views(old(self).history@) + result_lines(*command_result),
            same_but_history(*final(self), *old(self)),
    {
        let ghost before = views(self.history@);
        match command_result {
            CommandResult::Handled(Some(output)) => {
                self.history.push(output.clone());
            },
            CommandResult::Handled(None) => {},
            CommandResult::Unhandled(cmd, _) => {
                self.history.push(not_found_message(cmd.as_str()));
            },
        }
        assert(views(self.history@) =~= before + result_lines(*command_result));
    }

    /// The prompt before the input line: the current directory and `$`.
    pub fn prompt(&self) -> (r: String)
        ensures
            r@ == join(views(self.current_directory@), "/"@) + "$"@,
    {
        let mut t = join_strings(&self.current_directory, "/");
        append_str(&mut t, "$");
        string_of(&t)
    }

    /// The up arrow: the previous entered command, if any, becomes the input.
    /// Returns whether the input changed to an entered command.
    pub fn history_up(&mut self) -> (moved: bool)
        requires
            old(self).history_index <= old(self).command_history@.len(),
        ensures
            stepped_up(*old(self), *final(self), moved),
    {
        if self.history_index > 0 {
            self.history_index = self.history_index - 1;
            self.input = self.command_history[self.history_index].clone();
            true
        } else {
            false
        }
    }

    /// The down arrow: the next entered command becomes the input, or, past the
    /// last one, the input is cleared. Returns whether the input changed to an
    /// entered command.
    pub fn history_down(&mut self) -> (moved: bool)
        ensures
            stepped_down(*old(self), *final(self), moved),
    {
        if self.history_index < self.command_history.len() {
            self.history_index = self.history_index + 1;
            if self.history_index < self.command_history.len() {
                self.input = self.command_history[self.history_index].clone();
                true
            } else {
                self.input = String::new();
                false
            }
        } else {
            false
        }
    }

    /// The enter key: the input is cleared; unless it is blank it is entered
    /// (added to the command history) and queued to run; browsing starts again
    /// after the last entered command.
    pub fn submit_input(&mut self)
        ensures
            submitted(*old(self), *final(self)),
    {
        let command = self.input.clone();
        self.input = String::new();
        if !str_is_blank(command.as_str()) {
            let ghost ch = views(self.command_history@);
            let ghost pc = views(self.pending_commands@);
            self.command_history.push(command.clone());
            self.pending_commands.push(command);
            assert(views(self.command_history@) =~= ch.push(old(self).input@));
            assert(views(self.pending_commands@) =~= pc.push(old(self).input@));
        }
        self.history_index = self.command_history.len();
    }

    /// Takes the queued commands, leaving none.
    pub fn take_pending_commands(&mut self) -> (r: Vec<String>)
        ensures
            r == old(self).pending_commands,
            final(self).pending_commands@.len() == 0,
            final(self).history == old(self).history,
            final(self).command_history == old(self).command_history,
            final(self).history_index == old(self).history_index,
            final(self).input == old(self).input,
            final(self).current_directory == old(self).current_directory,
            final(self).style == old(self).style,
            final(self).root_entity == old(self).root_entity,
    {
        let mut taken: Vec<String> = Vec::new();
        std::mem::swap(&mut taken, &mut self.pending_commands);
        taken
    }

    /// Starts running a raw command line: echoes it, splits it into words, and
    /// looks the first word up in the registry. Returns the command found with
    /// the other words as its arguments; `None` for a blank line, and for an
    /// unknown command, which is reported as not found.
    pub fn dispatch<V: Copy>(&mut self, registry: &CommandRegistry<V>, raw: &str) -> (r: Option<
        (V, Vec<String>),
    >)
        ensures
            same_but_history(*final(self), *old(self)),
            ({
                let echo = echo_line(views(old(self).current_directory@), raw@);
                let ws = words(raw@);
                if ws.len() == 0 {
                    r is None && views(final(self).history@) == views(old(self).history@).push(echo)
                } else if registry.entries().contains_key(ws[0]) {
                    r matches Some((v, args)) && v == registry.entries()[ws[0]] && views(args@)
                        == ws.drop_first() && views(final(self).history@) == views(
                        old(self).history@,
                    ).push(echo)
                } else {
                    r is None && views(final(self).history@) == views(old(self).history@).push(
                        echo,
                    ).push("command not found: "@ + ws[0])
                }
            }),
    {
        let mut echo = join_strings(&self.current_directory, "/");
        append_str(&mut echo, "$ ");
        append_str(&mut echo, raw);
        self.history.push(string_of(&echo));
        let parts = split_whitespace(raw);
        if parts.len() == 0 {
            return None;
        }
        let name = string_of(&parts[0]);
        let mut rest: Vec<Vec<char>> = Vec::new();
        let mut i: usize = 1;
        while i < parts.len()
            invariant
                1 <= i <= parts.len(),
                texts(rest@) =~= texts(parts@).subrange(1, i as int),
            decreases parts.len() - i,
        {
            rest.push(crate::text::copy_text(&parts[i]));
            assert(texts(parts@).subrange(1, i + 1) =~= texts(parts@).subrange(1, i as int).push(
                parts@[i as int]@,
            ));
            i += 1;
        }
        let args = strings_of_all(&rest);
        match registry.get(name.as_str()) {
            Some(v) => Some((*v, args)),
            None => {
                let ghost h = views(self.history@);
                self.history.push(not_found_message(name.as_str()));
                assert(views(self.history@) =~= h.push("command not found: "@ + name@));
                None
            },
        }
    }
}

impl Default for Terminal {
    fn default() -> (t: Self)
        ensures
            t.history@.len() == 0,
            t.command_history@.len() == 0,
            t.history_index == 0,
            t.input@.len() == 0,
            t.pending_commands@.len() == 0,
            t.current_directory@.len() == 0,
            t.style == TerminalStyle::spec_default(),
            t.root_entity == (EntityId { index: 0xFFFF_FFFE, generation: 0 }),
    {
        Terminal::new(EntityId::placeholder())
    }
}

/// After a command is entered, the up arrow brings it back as the input.
pub proof fn law_submit_then_up(t0: Terminal, t1: Terminal, t2: Terminal, moved: bool)
    requires
        !is_blank(t0.input@),
        submitted(t0, t1),
        stepped_up(t1, t2, moved),
    ensures
        moved,
        t2.input@ == t0.input@,
        t2.history_index + 1 == t2.command_history@.len(),
{
    assert(views(t1.command_history@).len() == t1.command_history@.len());
    let i = t2.history_index as int;
    assert(views(t1.command_history@)[i] == t1.command_history@[i]@);
}

/// The down arrow after a move up returns to the former position, showing the
/// entered command there, or an empty input past the last one.
pub proof fn law_up_then_down(t0: Terminal, t1: Terminal, t2: Terminal, moved: bool)
    requires
        t0.history_index <= t0.command_history@.len(),
        stepped_up(t0, t1, true),
        stepped_down(t1, t2, moved),
    ensures
        t2.history_index == t0.history_index,
        t2.command_history == t0.command_history,
        moved == (t0.history_index < t0.command_history@.len()),
        moved ==> t2.input@ == t0.command_history@[t0.history_index as int]@,
        !moved ==> t2.input@.len() == 0,
{
}

} // verus!
