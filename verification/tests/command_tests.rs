use rook_terminal::command::{
    not_found_message, CatCommand, CatFlags, CdCommand, ClearCommand, CommandResult, HelpCommand,
    LsCommand, LsFlags, PwdCommand, RookCommand,
};
use rook_terminal::file_system::{
    ArchetypeRecord, Binary, CommandRegistry, ComponentInfo, ECSFileSystem, EntityId, EntityRecord,
    Text, VFSChildren, VFSName, VFSParent,
};
use rook_terminal::style_sheet::ICON;
use rook_terminal::Terminal;

fn id(index: u32) -> EntityId {
    EntityId { index, generation: 0 }
}

fn record(entity: EntityId, name: Option<&str>, archetype: Option<usize>) -> EntityRecord {
    EntityRecord {
        entity,
        name: name.map(|n| VFSName { name: n.to_string() }),
        parent: None,
        children: None,
        query_children: None,
        text: None,
        binary: None,
        archetype,
    }
}

fn info(id: usize, name: &str) -> ComponentInfo {
    ComponentInfo { id, name: name.to_string(), size: 24 }
}

/// root(0) -> [test(1) -> [readme(2), bin(3)], empty(4), .hidden(5)]
fn sample() -> ECSFileSystem {
    let mut root = record(id(0), Some("root"), Some(0));
    root.children = Some(VFSChildren { children: vec![id(1), id(4), id(5)] });
    let mut dir = record(id(1), Some("test"), Some(0));
    dir.children = Some(VFSChildren { children: vec![id(2), id(3)] });
    dir.parent = Some(VFSParent { parent: id(0) });
    let mut readme = record(id(2), Some("test_readme.txt"), Some(1));
    readme.text = Some(Text { text: "this is some testing informations".to_string() });
    readme.parent = Some(VFSParent { parent: id(1) });
    let mut bin = record(id(3), Some("test_binary.bin"), Some(2));
    bin.binary = Some(Binary { binary: vec![123, 124, 21, 21, 42, 135, 25, 45, 24, 124] });
    let empty = record(id(4), Some("empty"), Some(3));
    let hidden = record(id(5), Some(".hidden"), Some(3));
    ECSFileSystem {
        records: vec![root, dir, readme, bin, empty, hidden],
        archetypes: vec![
            ArchetypeRecord { components: vec![0, 1], entities: vec![id(0), id(1)] },
            ArchetypeRecord { components: vec![0, 2], entities: vec![id(2)] },
            ArchetypeRecord { components: vec![0, 3], entities: vec![id(3)] },
            ArchetypeRecord { components: vec![0], entities: vec![id(4), id(5)] },
        ],
        components: vec![
            info(0, "rook_terminal::file_system::VFSName"),
            info(1, "rook_terminal::file_system::VFSChildren"),
            info(2, "rook_terminal::file_system::Text"),
            info(3, "rook_terminal::file_system::Binary"),
        ],
    }
}

fn args(a: &[&str]) -> Vec<String> {
    a.iter().map(|s| s.to_string()).collect()
}

fn terminal() -> Terminal {
    Terminal::new(id(0))
}

fn last(t: &Terminal) -> String {
    t.history.last().cloned().unwrap()
}

fn ls(a: &[&str]) -> Terminal {
    let mut t = terminal();
    LsCommand::execute(args(a), &mut t, &sample());
    t
}

fn cat(cwd: &[&str], a: &[&str]) -> String {
    let mut t = terminal();
    t.current_directory = args(cwd);
    CatCommand::execute(args(a), &mut t, &sample());
    last(&t)
}

#[test]
fn command_names() {
    assert_eq!(ClearCommand::name(), "clear");
    assert_eq!(PwdCommand::name(), "pwd");
    assert_eq!(LsCommand::name(), "ls");
    assert_eq!(CdCommand::name(), "cd");
    assert_eq!(CatCommand::name(), "cat");
    assert_eq!(HelpCommand::name(), "help");
    assert_eq!(RookCommand::name(), "rook");
}

#[test]
fn not_found_message_names_the_command() {
    assert_eq!(not_found_message("foo"), "command not found: foo");
}

#[test]
fn clear_empties_the_history() {
    let mut t = terminal();
    t.history = args(&["a", "b"]);
    t.input = "typed".to_string();
    ClearCommand::execute(vec![], &mut t);
    assert!(t.history.is_empty());
    assert_eq!(t.input, "typed");
}

#[test]
fn pwd_prints_the_current_directory() {
    let mut t = terminal();
    PwdCommand::execute(vec![], &mut t);
    assert_eq!(last(&t), "/");
    t.current_directory = args(&["test", "sub"]);
    PwdCommand::execute(vec![], &mut t);
    assert_eq!(last(&t), "/test/sub");
}

#[test]
fn rook_prints_the_icon_in_cyan() {
    let mut t = terminal();
    RookCommand::execute(vec![], &mut t);
    assert_eq!(last(&t), format!("\x1b[96m{}\x1b[0m", ICON));
}

#[test]
fn help_lists_sorted_names() {
    let mut r: CommandRegistry<u8> = CommandRegistry::new();
    for (i, n) in ["rook", "cd", "ls", "help"].iter().enumerate() {
        r.register(n, i as u8);
    }
    let mut t = terminal();
    HelpCommand::execute(vec![], &mut t, &r);
    assert_eq!(last(&t), "Available built-in commands: cd, help, ls, rook");
    let empty: CommandRegistry<u8> = CommandRegistry::new();
    HelpCommand::execute(vec![], &mut t, &empty);
    assert_eq!(last(&t), "Available built-in commands: ");
}

#[test]
fn cd_target_and_new_path() {
    assert_eq!(CdCommand::parse_target_path(&args(&["-x", "a", "b"])), Some("a".to_string()));
    assert_eq!(CdCommand::parse_target_path(&args(&["-x"])), None);
    assert_eq!(CdCommand::parse_target_path(&args(&["", "a"])), Some("".to_string()));
    let cwd = args(&["a", "b"]);
    assert_eq!(CdCommand::compute_new_path(&cwd, ".."), args(&["a"]));
    assert_eq!(CdCommand::compute_new_path(&cwd, "/"), args(&[]));
    assert_eq!(CdCommand::compute_new_path(&cwd, "c/./d"), args(&["a", "b", "c", "d"]));
    assert_eq!(CdCommand::compute_new_path(&cwd, "/x//y/"), args(&["x", "y"]));
    assert_eq!(CdCommand::compute_new_path(&args(&[]), "../.."), args(&[]));
    assert_eq!(CdCommand::compute_new_path(&cwd, "."), cwd);
}

#[test]
fn cd_into_directory() {
    let fs = sample();
    let mut t = terminal();
    CdCommand::execute(args(&["test"]), &mut t, &fs);
    assert_eq!(t.current_directory, args(&["test"]));
    assert!(t.history.is_empty());
    CdCommand::execute(args(&[]), &mut t, &fs);
    assert_eq!(t.current_directory, args(&[]));
    CdCommand::execute(args(&["-P", "/test/../test"]), &mut t, &fs);
    assert_eq!(t.current_directory, args(&["test"]));
}

#[test]
fn cd_errors() {
    let fs = sample();
    let mut t = terminal();
    t.current_directory = args(&["test"]);
    CdCommand::execute(args(&["test_readme.txt"]), &mut t, &fs);
    assert_eq!(last(&t), "cd: test_readme.txt: Not a directory");
    assert_eq!(t.current_directory, args(&["test"]));
    CdCommand::execute(args(&["missing"]), &mut t, &fs);
    assert_eq!(last(&t), "cd: missing: No such file or directory");
    assert_eq!(t.current_directory, args(&["test"]));
}

#[test]
fn cd_back_to_pwd() {
    let fs = sample();
    let mut t = terminal();
    t.current_directory = args(&["test"]);
    PwdCommand::execute(vec![], &mut t);
    let p = last(&t);
    t.current_directory = args(&[]);
    CdCommand::execute(vec![p], &mut t, &fs);
    assert_eq!(t.current_directory, args(&["test"]));
}

#[test]
fn cat_flags_from_char() {
    assert_eq!(CatFlags::from_char(&'n'), Ok(CatFlags::NumberLines));
    assert_eq!(CatFlags::from_char(&'E'), Ok(CatFlags::ShowEnds));
    assert_eq!(CatFlags::from_char(&'x'), Err("Invalid flag for cat"));
}

#[test]
fn cat_parse_flags_and_paths() {
    let f = CatCommand::parse_flags(&args(&["-nx", "a", "-E", "-n"]));
    assert_eq!(f.len(), 2);
    assert!(f.contains(&CatFlags::NumberLines));
    assert!(f.contains(&CatFlags::ShowEnds));
    assert!(CatCommand::parse_flags(&args(&["a", "-"])).is_empty());
    assert_eq!(CatCommand::parse_paths(&args(&["-n", "a", "", "b"])), args(&["a", "", "b"]));
}

#[test]
fn cat_format_content() {
    assert_eq!(CatCommand::format_content("a\nb\n", &vec![]), "a\nb\n");
    assert_eq!(CatCommand::format_content("a\nb", &vec![CatFlags::NumberLines]), "     1  a\n     2  b");
    assert_eq!(CatCommand::format_content("a\r\nb\n", &vec![CatFlags::ShowEnds]), "a$\nb$");
    assert_eq!(
        CatCommand::format_content("x\n\ny", &vec![CatFlags::ShowEnds, CatFlags::NumberLines]),
        "     1  x$\n     2  $\n     3  y$"
    );
    assert_eq!(CatCommand::format_content("", &vec![CatFlags::NumberLines]), "");
}

#[test]
fn cat_numbers_past_six_digits() {
    let content = "l\n".repeat(10);
    let out = CatCommand::format_content(&content, &vec![CatFlags::NumberLines]);
    assert!(out.ends_with("    10  l"));
}

#[test]
fn cat_build_absolute_path() {
    assert_eq!(CatCommand::build_absolute_path(&args(&["home"]), "../etc/./x"), "etc/x");
    assert_eq!(CatCommand::build_absolute_path(&args(&["home"]), "/a/b"), "a/b");
    assert_eq!(CatCommand::build_absolute_path(&args(&["home"]), "f"), "home/f");
}

#[test]
fn cat_prints_files() {
    assert_eq!(cat(&[], &["test/test_readme.txt"]), "this is some testing informations");
    assert_eq!(cat(&["test"], &["-n", "test_readme.txt"]), "     1  this is some testing informations");
    assert_eq!(cat(&["test"], &["-E", "./test_readme.txt"]), "this is some testing informations$");
}

#[test]
fn cat_errors() {
    assert_eq!(cat(&[], &[]), "cat: missing operand");
    assert_eq!(cat(&[], &["-n"]), "cat: missing operand");
    assert_eq!(cat(&["test"], &["test_binary.bin"]), "cat: test_binary.bin: cannot display binary file");
    assert_eq!(cat(&[], &["test"]), "cat: test: Is a directory");
    assert_eq!(cat(&[], &["empty"]), "cat: empty: No text data");
    assert_eq!(cat(&[], &["nope"]), "cat: nope: No such file or directory");
}

#[test]
fn cat_joins_several_files() {
    assert_eq!(
        cat(&["test"], &["test_readme.txt", "nope", "test_readme.txt"]),
        "this is some testing informations\ncat: nope: No such file or directory\nthis is some testing informations"
    );
}

#[test]
fn ls_flags_from_char() {
    let pairs = [
        ('a', LsFlags::ShowAll),
        ('l', LsFlags::LongList),
        ('R', LsFlags::Recursive),
        ('s', LsFlags::ByteSize),
        ('F', LsFlags::Classify),
        ('i', LsFlags::EntityId),
        ('c', LsFlags::ComponentView),
        ('1', LsFlags::OnePerLine),
        ('d', LsFlags::Directory),
        ('r', LsFlags::Reverse),
        ('h', LsFlags::HumanReadable),
    ];
    for (c, f) in pairs {
        assert_eq!(LsFlags::from_char(&c), Ok(f));
    }
    assert_eq!(LsFlags::from_char(&'L'), Err("Invalid flag for ls"));
}

#[test]
fn ls_parse_flags_and_paths() {
    let f = LsCommand::parse_flags(&args(&["-la", "x", "-zl", ""]));
    assert_eq!(f.len(), 2);
    assert!(f.contains(&LsFlags::ShowAll));
    assert!(f.contains(&LsFlags::LongList));
    assert_eq!(LsCommand::parse_paths(&args(&[])), args(&["."]));
    assert_eq!(LsCommand::parse_paths(&args(&["-l", ""])), args(&["."]));
    assert_eq!(LsCommand::parse_paths(&args(&["-l", "a", "", "b"])), args(&["a", "b"]));
}

#[test]
fn ls_format_size() {
    assert_eq!(LsCommand::format_size(1280, false), "1280");
    assert_eq!(LsCommand::format_size(0, true), "0B");
    assert_eq!(LsCommand::format_size(1023, true), "1023B");
    assert_eq!(LsCommand::format_size(1024, true), "1.0K");
    assert_eq!(LsCommand::format_size(1280, true), "1.2K");
    assert_eq!(LsCommand::format_size(1331, true), "1.3K");
    assert_eq!(LsCommand::format_size(1536, true), "1.5K");
    assert_eq!(LsCommand::format_size(1048575, true), "1024.0K");
    assert_eq!(LsCommand::format_size(1048576, true), "1.0M");
    assert_eq!(LsCommand::format_size(1073741824, true), "1.0G");
    assert_eq!(LsCommand::format_size(5 * 1073741824 / 2, true), "2.5G");
}

#[test]
fn ls_lists_the_current_root() {
    assert_eq!(last(&ls(&[])), "empty  test");
    assert_eq!(last(&ls(&["-a"])), ".  ..  .hidden  empty  test");
    assert_eq!(last(&ls(&["-F"])), "empty  test/");
    assert_eq!(last(&ls(&["-1"])), "empty\ntest");
    assert_eq!(last(&ls(&["-r"])), "test  empty");
    assert_eq!(last(&ls(&["-d"])), ".");
    assert_eq!(last(&ls(&["-d", "test"])), "test");
}

#[test]
fn ls_sizes_and_long_list() {
    assert_eq!(last(&ls(&["-s"])), "   24 empty     96 test");
    assert_eq!(last(&ls(&["-l"])), "-    24 empty\nd    96 test");
    assert_eq!(last(&ls(&["-lh", "test"])), "-   48B test_binary.bin\n-   48B test_readme.txt");
    assert_eq!(
        last(&ls(&["-la", "test"])),
        "-    48 test_binary.bin\n-    48 test_readme.txt\nd    96 .\nd   144 .."
    );
}

#[test]
fn ls_ids_and_components() {
    assert_eq!(last(&ls(&["-i", "test"])), "    2v0  test_readme.txt      3v0  test_binary.bin");
    assert_eq!(
        last(&ls(&["-c", "test"])),
        "[Binary, VFSName] test_binary.bin  [Text, VFSName] test_readme.txt"
    );
}

#[test]
fn ls_recursive() {
    assert_eq!(last(&ls(&["-R"])), ".:\nempty  test\n\ntest:\ntest_binary.bin  test_readme.txt");
}

#[test]
fn ls_several_paths_and_errors() {
    assert_eq!(last(&ls(&["missing"])), "ls: cannot access 'missing': No such file or directory");
    assert_eq!(
        last(&ls(&["test", "missing"])),
        "ls: cannot access 'missing': No such file or directory\ntest:\ntest_binary.bin  test_readme.txt"
    );
    assert_eq!(last(&ls(&["empty", "test"])), "empty:\n\n\ntest:\ntest_binary.bin  test_readme.txt");
    assert_eq!(last(&ls(&["test", "test"])), "test:\ntest_binary.bin  test_readme.txt");
}

#[test]
fn ls_of_a_file_prints_nothing() {
    let t = ls(&["empty"]);
    assert!(t.history.is_empty());
}

#[test]
fn command_results_compare() {
    assert_eq!(CommandResult::Handled(None), CommandResult::Handled(None));
    assert_ne!(
        CommandResult::Handled(Some("a".to_string())),
        CommandResult::Unhandled("a".to_string(), vec![])
    );
}

/// The size formatting as the floating-point computation does it.
fn float_format_size(size: usize, human_readable: bool) -> String {
    if !human_readable {
        return format!("{size}");
    }
    let units: [&str; 4] = ["B", "K", "M", "G"];
    let mut float_size: f64 = size as f64;
    let mut unit_index: usize = 0;
    while float_size >= 1024.0 && unit_index < units.len() - 1 {
        float_size /= 1024.0;
        unit_index += 1;
    }
    if unit_index == 0 {
        format!("{size}B")
    } else {
        format!("{:.1}{}", float_size, units[unit_index])
    }
}

#[test]
fn format_size_agrees_with_floats() {
    let mut sizes: Vec<usize> = vec![
        0, 1, 1023, 1024, 1025, 1075, 1076, 1126, 1127, 1178, 1280, 1331, 1382, 1434, 1485, 1536,
        10188, 10189, 10240, 1048575, 1048576, 1153433, 1153434, 5 * 1048576 / 4,
        1073741823, 1073741824, 1181116006, 1181116007, 1288490188, 1288490189,
        1099511627776, 1125899906842624, 9007199254740991, 9007199254740993,
        18014398509481985, 18014398509481987, usize::MAX - 1, usize::MAX,
    ];
    let mut x: usize = 1;
    while x < usize::MAX / 3 {
        sizes.push(x);
        sizes.push(x + 51);
        sizes.push(x * 3 / 2);
        sizes.push(x + x / 20);
        x = x * 3 + 7;
    }
    for k in 0..4000usize {
        sizes.push(1024 + k * 37);
        sizes.push(1048576 * (k + 1) / 7 + k);
    }
    for s in sizes {
        for h in [false, true] {
            assert_eq!(LsCommand::format_size(s, h), float_format_size(s, h), "size {s}");
        }
    }
}

/// The new directory as a loop over `str::split` finds it.
fn reference_new_path(current_dir: &[String], target: &str) -> Vec<String> {
    let mut new_path: Vec<String> =
        if target.starts_with('/') { Vec::new() } else { current_dir.to_vec() };
    for part in target.split('/') {
        match part {
            "" | "." => {}
            ".." => {
                new_path.pop();
            }
            _ => new_path.push(part.to_string()),
        }
    }
    new_path
}

#[test]
fn new_path_agrees_with_str_split() {
    let cwds = [args(&[]), args(&["a"]), args(&["a", "b", "c"])];
    let targets = [
        "", "/", ".", "..", "../..", "/..", "x", "x/", "/x", "x//y", "./x/../y", "...", ".x", "x/..",
        "../../../z", "a/./b/../../c", "é/ü",
    ];
    for cwd in &cwds {
        for t in targets {
            let expected = reference_new_path(cwd, t);
            assert_eq!(CdCommand::compute_new_path(cwd, t), expected, "{:?} {:?}", cwd, t);
            assert_eq!(CatCommand::build_absolute_path(cwd, t), expected.join("/"));
        }
    }
}
