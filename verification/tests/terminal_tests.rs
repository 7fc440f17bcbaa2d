use rook_terminal::command::CommandResult;
use rook_terminal::file_system::{ArchetypeRecord, CommandRegistry, DynamicFilter, EntityId};
use rook_terminal::style_sheet::{Color32, TextStyle};
use rook_terminal::{Terminal, TerminalStyle};

fn terminal() -> Terminal {
    Terminal::new(EntityId { index: 3, generation: 1 })
}

fn strings(a: &[&str]) -> Vec<String> {
    a.iter().map(|s| s.to_string()).collect()
}

#[test]
fn new_terminal_is_empty() {
    let t = terminal();
    assert!(t.history.is_empty());
    assert!(t.command_history.is_empty());
    assert_eq!(t.history_index, 0);
    assert!(t.input.is_empty());
    assert!(t.pending_commands.is_empty());
    assert!(t.current_directory.is_empty());
    assert_eq!(t.root_entity, EntityId { index: 3, generation: 1 });
    assert_eq!(t.style, TerminalStyle::default());
}

#[test]
fn default_terminal_has_placeholder_root() {
    let t = Terminal::default();
    assert_eq!(t.root_entity, EntityId { index: 0xFFFF_FFFE, generation: 0 });
}

#[test]
fn default_style() {
    let s = TerminalStyle::default();
    assert_eq!(s.background_color, Color32 { r: 27, g: 27, b: 27, a: 255 });
    assert_eq!(s.prompt_text_color, Color32 { r: 80, g: 250, b: 120, a: 255 });
    assert_eq!(s.selection_color, Color32 { r: 100, g: 100, b: 100, a: 100 });
    assert_eq!(s.text_color, Color32 { r: 200, g: 200, b: 200, a: 255 });
    assert_eq!(s.text_style, TextStyle::Monospace);
}

#[test]
fn push_command_result_variants() {
    let mut t = terminal();
    t.push_command_result(&CommandResult::Handled(Some("out".to_string())));
    t.push_command_result(&CommandResult::Handled(None));
    t.push_command_result(&CommandResult::Unhandled("foo".to_string(), strings(&["a"])));
    assert_eq!(t.history, strings(&["out", "command not found: foo"]));
}

#[test]
fn prompt_shows_directory() {
    let mut t = terminal();
    assert_eq!(t.prompt(), "$");
    t.current_directory = strings(&["a", "b"]);
    assert_eq!(t.prompt(), "a/b$");
}

#[test]
fn submit_records_non_blank_input() {
    let mut t = terminal();
    t.input = "ls -l".to_string();
    t.submit_input();
    assert!(t.input.is_empty());
    assert_eq!(t.command_history, strings(&["ls -l"]));
    assert_eq!(t.pending_commands, strings(&["ls -l"]));
    assert_eq!(t.history_index, 1);
    t.input = " \t ".to_string();
    t.submit_input();
    assert!(t.input.is_empty());
    assert_eq!(t.command_history, strings(&["ls -l"]));
    assert_eq!(t.pending_commands, strings(&["ls -l"]));
    assert_eq!(t.history_index, 1);
}

#[test]
fn submit_then_up_brings_the_command_back() {
    let mut t = terminal();
    t.input = "pwd".to_string();
    t.submit_input();
    t.input = "cd test".to_string();
    t.submit_input();
    assert!(t.history_up());
    assert_eq!(t.input, "cd test");
    assert!(t.history_up());
    assert_eq!(t.input, "pwd");
    assert!(!t.history_up());
    assert_eq!(t.input, "pwd");
    assert_eq!(t.history_index, 0);
}

#[test]
fn up_then_down_returns() {
    let mut t = terminal();
    t.command_history = strings(&["a", "b", "c"]);
    t.history_index = 3;
    assert!(t.history_up());
    assert!(t.history_up());
    assert_eq!(t.input, "b");
    assert!(t.history_down());
    assert_eq!(t.input, "c");
    assert_eq!(t.history_index, 2);
    // past the last one the input is cleared
    assert!(!t.history_down());
    assert!(t.input.is_empty());
    assert_eq!(t.history_index, 3);
    // at the end nothing changes
    t.input = "typing".to_string();
    assert!(!t.history_down());
    assert_eq!(t.input, "typing");
    assert_eq!(t.history_index, 3);
}

#[test]
fn take_pending_commands_empties_the_queue() {
    let mut t = terminal();
    t.pending_commands = strings(&["a", "b"]);
    let taken = t.take_pending_commands();
    assert_eq!(taken, strings(&["a", "b"]));
    assert!(t.pending_commands.is_empty());
}

#[test]
fn dispatch_finds_registered_commands() {
    let mut r: CommandRegistry<u32> = CommandRegistry::new();
    r.register("ls", 1);
    r.register("help", 2);
    let mut t = terminal();
    t.current_directory = strings(&["test"]);
    let found = t.dispatch(&r, "  ls -l\tx ");
    assert_eq!(found, Some((1, strings(&["-l", "x"]))));
    assert_eq!(t.history, strings(&["test$   ls -l\tx "]));
}

#[test]
fn dispatch_reports_unknown_commands() {
    let r: CommandRegistry<u32> = CommandRegistry::new();
    let mut t = terminal();
    assert_eq!(t.dispatch(&r, "foo bar"), None);
    assert_eq!(t.history, strings(&["$ foo bar", "command not found: foo"]));
}

#[test]
fn dispatch_of_blank_line_only_echoes() {
    let r: CommandRegistry<u32> = CommandRegistry::new();
    let mut t = terminal();
    assert_eq!(t.dispatch(&r, "   "), None);
    assert_eq!(t.history, strings(&["$    "]));
}

#[test]
fn query_directories_split_the_world() {
    let dirs = rook_terminal::query_directories(Some(1), Some(2), None);
    let names: Vec<&str> = dirs.iter().map(|(n, _)| n.as_str()).collect();
    assert_eq!(names, vec![".entities", ".vfs_entities", ".app_entities"]);
    let arch = |c: Vec<usize>| ArchetypeRecord { components: c, entities: vec![] };
    for (components, vfs) in [(vec![], false), (vec![1], true), (vec![5, 2], true), (vec![3, 4], false)] {
        let a = arch(components);
        assert!(dirs[0].1.matches_archetype(&a));
        assert_eq!(dirs[1].1.matches_archetype(&a), vfs);
        assert_eq!(dirs[2].1.matches_archetype(&a), !vfs);
    }
}

#[test]
fn query_directories_build_the_filters() {
    use_filters(rook_terminal::query_directories(Some(1), None, Some(3)));
}

fn use_filters(dirs: Vec<(String, DynamicFilter)>) {
    assert!(matches!(&dirs[0].1, DynamicFilter::Not(b) if matches!(**b, DynamicFilter::Never)));
    let is_vfs = |f: &DynamicFilter| match f {
        DynamicFilter::Or(fs) => {
            fs.len() == 2
                && matches!(&fs[0], DynamicFilter::Or(gs)
                    if gs.len() == 2
                        && matches!(gs[0], DynamicFilter::Has(1))
                        && matches!(gs[1], DynamicFilter::Never))
                && matches!(fs[1], DynamicFilter::Has(3))
        }
        _ => false,
    };
    assert!(is_vfs(&dirs[1].1));
    assert!(matches!(&dirs[2].1, DynamicFilter::Not(b) if is_vfs(b)));
}

#[test]
fn down_past_the_end_changes_nothing() {
    let mut t = terminal();
    t.command_history = strings(&["a"]);
    t.history_index = 5;
    t.input = "typing".to_string();
    assert!(!t.history_down());
    assert_eq!(t.history_index, 5);
    assert_eq!(t.input, "typing");
}
