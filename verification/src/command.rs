//! The built-in commands of the terminal.
use vstd::prelude::*;
use crate::file_system::{CommandRegistry, ECSFileSystem, EntityId};
use crate::style_sheet::ICON;
use crate::text::{
    append_str, append_text, chars_of, chars_of_all, copy_text, decimal, decimal_text, join,
    join_texts, lex_order, lines, pad_left, right_aligned, sort_texts, split_lines, split_on,
    string_of, text_is, texts, views,
};
use crate::{same_but_history, Terminal};

verus! {

broadcast use vstd::seq_lib::group_seq_properties;

/// What a command hands back to the terminal.
#[derive(Debug, Clone, PartialEq)]
pub enum CommandResult {
    /// The command ran; with the text it printed, if any.
    Handled(Option<String>),
    /// No command of that name; with the name and its arguments.
    Unhandled(String, Vec<String>),
}

/// The lines that a command result adds to the history.
pub open spec fn result_lines(r: CommandResult) -> Seq<Seq<char>> {
    match r {
        CommandResult::Handled(Some(output)) => seq![output@],
        CommandResult::Handled(None) => Seq::empty(),
        CommandResult::Unhandled(cmd, _) => seq!["command not found: "@ + cmd@],
    }
}

/// The message for an unknown command.
pub fn not_found_message(cmd: &str) -> (r: String)
    ensures
        r@ == "command not found: "@ + cmd@,
{
    let mut t: Vec<char> = Vec::new();
    append_str(&mut t, "command not found: ");
    append_str(&mut t, cmd);
    string_of(&t)
}


/// Whether an argument is an option (starts with `-`).
pub open spec fn is_option(a: Seq<char>) -> bool {
    a.len() > 0 && a[0] == '-'
}

/// The flags that the characters name.
pub open spec fn chars_flags<F>(cs: Seq<char>, of: spec_fn(char) -> Option<F>) -> Set<F>
    decreases cs.len(),
{
    if cs.len() == 0 {
        Set::empty()
    } else {
        let prev = chars_flags(cs.drop_last(), of);
        match of(cs.last()) {
            Some(f) => prev.insert(f),
            None => prev,
        }
    }
}

/// The flags that the options among the arguments name: every character
/// after the `-` that names a flag (the others are ignored).
pub open spec fn args_flags<F>(args: Seq<Seq<char>>, of: spec_fn(char) -> Option<F>) -> Set<F>
    decreases args.len(),
{
    if args.len() == 0 {
        Set::empty()
    } else {
        let prev = args_flags(args.drop_last(), of);
        if is_option(args.last()) {
            prev.union(chars_flags(args.last().drop_first(), of))
        } else {
            prev
        }
    }
}

/// The arguments that are not options.
pub open spec fn operands(args: Seq<Seq<char>>) -> Seq<Seq<char>>
    decreases args.len(),
{
    if args.len() == 0 {
        Seq::empty()
    } else if is_option(args.last()) {
        operands(args.drop_last())
    } else {
        operands(args.drop_last()).push(args.last())
    }
}

/// The current directory after following `parts` from `base`: empty parts and
/// `.` stay, `..` leaves the last directory (if any), a name enters it.
pub open spec fn normalize(base: Seq<Seq<char>>, parts: Seq<Seq<char>>) -> Seq<Seq<char>>
    decreases parts.len(),
{
    if parts.len() == 0 {
        base
    } else {
        let prev = normalize(base, parts.drop_last());
        let p = parts.last();
        if p.len() == 0 || p == seq!['.'] {
            prev
        } else if p == seq!['.', '.'] {
            if prev.len() > 0 {
                prev.drop_last()
            } else {
                prev
            }
        } else {
            prev.push(p)
        }
    }
}

/// The directory that `target` names from `cwd`: from the root if it starts with `/`.
pub open spec fn new_path(cwd: Seq<Seq<char>>, target: Seq<char>) -> Seq<Seq<char>> {
    normalize(
        if target.len() > 0 && target[0] == '/' {
            Seq::empty()
        } else {
            cwd
        },
        split_on(target, '/'),
    )
}

/// Normalizes `parts` from `base`.
fn normalize_exec(base: Vec<Vec<char>>, parts: &Vec<Vec<char>>) -> (r: Vec<Vec<char>>)
    ensures
        texts(r@) == normalize(texts(base@), texts(parts@)),
{
    let ghost b = texts(base@);
    let mut r = base;
    let mut i: usize = 0;
    assert(texts(parts@).take(0) =~= Seq::<Seq<char>>::empty());
    while i < parts.len()
        invariant
            i <= parts.len(),
            texts(r@) == normalize(b, texts(parts@).take(i as int)),
        decreases parts.len() - i,
    {
        let part = &parts[i];
        proof {
            reveal_strlit(".");
            reveal_strlit("..");
            assert("."@ =~= seq!['.']);
            assert(".."@ =~= seq!['.', '.']);
            assert(texts(parts@).take(i + 1).drop_last() =~= texts(parts@).take(i as int));
            assert(texts(parts@).take(i + 1).last() == part@);
        }
        let ghost prev = texts(r@);
        if part.len() == 0 || text_is(part, ".") {
        } else if text_is(part, "..") {
            if r.len() > 0 {
                r.pop();
                assert(texts(r@) =~= prev.drop_last());
            }
        } else {
            r.push(copy_text(part));
            assert(texts(r@) =~= prev.push(part@));
        }
        i += 1;
    }
    assert(texts(parts@).take(parts.len() as int) =~= texts(parts@));
    r
}

/// The directory that `target` names from `current_dir`.
fn new_path_exec(current_dir: &Vec<String>, target: &Vec<char>) -> (r: Vec<Vec<char>>)
    ensures
        texts(r@) == new_path(views(current_dir@), target@),
{
    let base: Vec<Vec<char>> = if target.len() > 0 && target[0] == '/' {
        Vec::new()
    } else {
        chars_of_all(current_dir)
    };
    assert(texts(base@) =~= if target@.len() > 0 && target@[0] == '/' {
        Seq::<Seq<char>>::empty()
    } else {
        views(current_dir@)
    });
    let parts = crate::text::split_text(target, '/');
    normalize_exec(base, &parts)
}

pub struct ClearCommand;

impl ClearCommand {
    pub fn name() -> (r: &'static str)
        ensures
            r@ == "clear"@,
    {
        "clear"
    }

    /// Clears the history.
    pub fn execute(_args: Vec<String>, terminal: &mut Terminal)
        ensures
            final(terminal).history@.len() == 0,
            same_but_history(*final(terminal), *old(terminal)),
    {
        terminal.history = Vec::new();
        terminal.push_command_result(&CommandResult::Handled(None));
    }
}

pub struct PwdCommand;

impl PwdCommand {
    pub fn name() -> (r: &'static str)
        ensures
            r@ == "pwd"@,
    {
        "pwd"
    }

    /// Prints the current directory: `/` and its parts separated by `/`.
    pub fn execute(_args: Vec<String>, terminal: &mut Terminal)
        ensures
            views(final(terminal).history@) == views(old(terminal).history@).push(
                seq!['/'] + join(views(old(terminal).current_directory@), seq!['/']),
            ),
            same_but_history(*final(terminal), *old(terminal)),
    {
        let mut t: Vec<char> = Vec::new();
        t.push('/');
        let j = crate::text::join_strings(&terminal.current_directory, "/");
        append_text(&mut t, &j);
        proof {
            reveal_strlit("/");
            assert("/"@ =~= seq!['/']);
        }
        terminal.push_command_result(&CommandResult::Handled(Some(string_of(&t))));
    }
}

pub struct CdCommand;

/// The directory that `cd` goes to: the first argument that is not an option, else `/`.
pub open spec fn cd_target(args: Seq<Seq<char>>) -> Seq<char> {
    let ops = operands(args);
    if ops.len() > 0 {
        ops[0]
    } else {
        seq!['/']
    }
}

/// What `cd` does: the new current directory, or the error it prints.
pub open spec fn cd_outcome(fs: ECSFileSystem, root: EntityId, cwd: Seq<Seq<char>>, args: Seq<
    Seq<char>,
>) -> Result<Seq<Seq<char>>, Seq<char>> {
    let target = cd_target(args);
    let np = new_path(cwd, target);
    match fs.resolve(root, join(np, seq!['/'])) {
        Some(e) => if fs.children_of(e).len() > 0 {
            Ok(np)
        } else {
            Err(seq!['c', 'd', ':', ' '] + target + ": Not a directory"@)
        },
        None => Err(seq!['c', 'd', ':', ' '] + target + ": No such file or directory"@),
    }
}

fn first_operand(args: &Vec<Vec<char>>) -> (r: Option<usize>)
    ensures
        match r {
            Some(i) => i < args.len() && operands(texts(args@)).len() > 0 && operands(texts(args@))[0] == args@[i as int]@,
            None => operands(texts(args@)).len() == 0,
        },
{
    let mut i: usize = 0;
    while i < args.len()
        invariant
            i <= args.len(),
            operands(texts(args@).take(i as int)).len() == 0,
        decreases args.len() - i,
    {
        proof {
            assert(texts(args@).take(i + 1).drop_last() =~= texts(args@).take(i as int));
            assert(texts(args@).take(i + 1).last() == args@[i as int]@);
        }
        if !(args[i].len() > 0 && args[i][0] == '-') {
            proof {
                lemma_operands_first(texts(args@), i as int);
            }
            return Some(i);
        }
        i += 1;
    }
    assert(texts(args@).take(args.len() as int) =~= texts(args@));
    None
}

proof fn lemma_operands_first(args: Seq<Seq<char>>, i: int)
    requires
        0 <= i < args.len(),
        !is_option(args[i]),
        operands(args.take(i)).len() == 0,
    ensures
        operands(args).len() > 0,
        operands(args)[0] == args[i],
    decreases args.len(),
{
    if i < args.len() - 1 {
        assert(args.drop_last().take(i) =~= args.take(i));
        lemma_operands_first(args.drop_last(), i);
    } else {
        assert(args.drop_last() =~= args.take(i));
    }
}

impl CdCommand {
    pub fn name() -> (r: &'static str)
        ensures
            r@ == "cd"@,
    {
        "cd"
    }

    /// The target of `cd`: the first argument that is not an option.
    pub fn parse_target_path(args: &Vec<String>) -> (r: Option<String>)
        ensures
            match r {
                Some(t) => operands(views(args@)).len() > 0 && t@ == operands(views(args@))[0],
                None => operands(views(args@)).len() == 0,
            },
    {
        let a = chars_of_all(args);
        match first_operand(&a) {
            Some(i) => Some(string_of(&a[i])),
            None => None,
        }
    }

    /// The directory that `target` names from `current_dir`.
    pub fn compute_new_path(current_dir: &Vec<String>, target: &str) -> (r: Vec<String>)
        ensures
            views(r@) == new_path(views(current_dir@), target@),
    {
        let t = chars_of(target);
        let p = new_path_exec(current_dir, &t);
        crate::text::strings_of_all(&p)
    }

    /// Changes the current directory to the one the first operand names (the
    /// root if none): it must exist and have children.
    pub fn execute(args: Vec<String>, terminal: &mut Terminal, file_system: &ECSFileSystem)
        ensures
            match cd_outcome(*file_system, old(terminal).root_entity, views(old(terminal).current_directory@), views(args@)) {
                Ok(np) => views(final(terminal).current_directory@) == np
                    && final(terminal).history == old(terminal).history,
                Err(msg) => views(final(terminal).history@) == views(old(terminal).history@).push(msg)
                    && final(terminal).current_directory == old(terminal).current_directory,
            },
            final(terminal).command_history == old(terminal).command_history,
            final(terminal).history_index == old(terminal).history_index,
            final(terminal).input == old(terminal).input,
            final(terminal).pending_commands == old(terminal).pending_commands,
            final(terminal).style == old(terminal).style,
            final(terminal).root_entity == old(terminal).root_entity,
    {
        let a = chars_of_all(&args);
        let target: Vec<char> = match first_operand(&a) {
            Some(i) => copy_text(&a[i]),
            None => {
                let mut t: Vec<char> = Vec::new();
                t.push('/');
                t
            },
        };
        assert(target@ =~= cd_target(views(args@)));
        let np = new_path_exec(&terminal.current_directory, &target);
        let joined = join_texts(&np, "/");
        let joined_str = string_of(&joined);
        proof {
            reveal_strlit("/");
            assert("/"@ =~= seq!['/']);
        }
        let mut msg: Vec<char> = Vec::new();
        append_str(&mut msg, "cd: ");
        append_text(&mut msg, &target);
        proof {
            reveal_strlit("cd: ");
            assert("cd: "@ =~= seq!['c', 'd', ':', ' ']);
        }
        match file_system.resolve_path(terminal.root_entity, joined_str.as_str()) {
            Some(e) => {
                let kids = file_system.children(e);
                if kids.len() == 0 {
                    append_str(&mut msg, ": Not a directory");
                    terminal.push_command_result(&CommandResult::Handled(Some(string_of(&msg))));
                } else {
                    terminal.current_directory = crate::text::strings_of_all(&np);
                }
            },
            None => {
                append_str(&mut msg, ": No such file or directory");
                terminal.push_command_result(&CommandResult::Handled(Some(string_of(&msg))));
            },
        }
    }
}

pub struct HelpCommand;

impl HelpCommand {
    pub fn name() -> (r: &'static str)
        ensures
            r@ == "help"@,
    {
        "help"
    }

    /// Prints the names of the registered commands in order.
    pub fn execute<V>(_args: Vec<String>, terminal: &mut Terminal, registry: &CommandRegistry<V>)
        ensures
            views(final(terminal).history@) == views(old(terminal).history@).push(
                "Available built-in commands: "@ + join(
                    registry.names_seq().sort_by(lex_order()),
                    seq![',', ' '],
                ),
            ),
            same_but_history(*final(terminal), *old(terminal)),
    {
        let names = registry.names();
        let texts_of_names = chars_of_all(&names);
        let sorted = sort_texts(texts_of_names);
        let mut out: Vec<char> = Vec::new();
        append_str(&mut out, "Available built-in commands: ");
        let j = join_texts(&sorted, ", ");
        append_text(&mut out, &j);
        proof {
            reveal_strlit(", ");
            assert(", "@ =~= seq![',', ' ']);
        }
        terminal.push_command_result(&CommandResult::Handled(Some(string_of(&out))));
    }
}

pub struct RookCommand;

impl RookCommand {
    pub fn name() -> (r: &'static str)
        ensures
            r@ == "rook"@,
    {
        "rook"
    }

    /// Prints the icon in bright cyan.
    pub fn execute(_args: Vec<String>, terminal: &mut Terminal)
        ensures
            views(final(terminal).history@) == views(old(terminal).history@).push(
                "\x1b[96m"@ + ICON@ + "\x1b[0m"@,
            ),
            same_but_history(*final(terminal), *old(terminal)),
    {
        let mut out: Vec<char> = Vec::new();
        append_str(&mut out, "\x1b[96m");
        append_str(&mut out, ICON);
        append_str(&mut out, "\x1b[0m");
        terminal.push_command_result(&CommandResult::Handled(Some(string_of(&out))));
    }
}


/// The flags of `cat`.
#[derive(Copy, Clone, Hash, PartialEq, Debug, Eq, Structural)]
pub enum CatFlags {
    NumberLines,
    ShowEnds,
}

/// The flag that a character names for `cat`.
pub open spec fn cat_flag_of(c: char) -> Option<CatFlags> {
    if c == 'n' {
        Some(CatFlags::NumberLines)
    } else if c == 'E' {
        Some(CatFlags::ShowEnds)
    } else {
        None
    }
}

/// `cat_flag_of` as a function value.
pub open spec fn cat_flag_fn() -> spec_fn(char) -> Option<CatFlags> {
    |c: char| cat_flag_of(c)
}

impl CatFlags {
    /// The flag that a character names (`n`, `E`).
    pub fn from_char(c: &char) -> (r: Result<Self, &'static str>)
        ensures
            match r {
                Ok(f) => cat_flag_of(*c) == Some(f),
                Err(e) => cat_flag_of(*c) is None && e@ == "Invalid flag for cat"@,
            },
    {
        match c {
            'n' => Ok(Self::NumberLines),
            'E' => Ok(Self::ShowEnds),
            _ => Err("Invalid flag for cat"),
        }
    }
}

fn add_cat_flag(v: &mut Vec<CatFlags>, f: CatFlags)
    ensures
        final(v)@.to_set() == old(v)@.to_set().insert(f),
{
    let mut i: usize = 0;
    while i < v.len()
        invariant
            i <= v.len(),
            forall|k: int| 0 <= k < i ==> v@[k] != f,
        decreases v.len() - i,
    {
        if v[i] == f {
            assert(old(v)@.to_set().insert(f) =~= old(v)@.to_set());
            return;
        }
        i += 1;
    }
    let ghost before = v@;
    v.push(f);
    assert(v@.to_set() =~= before.to_set().insert(f));
}

/// The text of a file as `cat` prints it: unchanged without flags; else line by
/// line, numbered (right-aligned in six columns, then two spaces) with `-n`,
/// ended by `$` with `-E`, the lines joined by line feeds.
pub open spec fn cat_content(content: Seq<char>, flags: Set<CatFlags>) -> Seq<char> {
    if flags == Set::<CatFlags>::empty() {
        content
    } else {
        join(
            lines(content).map(|i: int, line: Seq<char>| cat_line(i as nat, line, flags)),
            seq!['\n'],
        )
    }
}

/// One line of a file as `cat` prints it (`i` counts from 0).
pub open spec fn cat_line(i: nat, line: Seq<char>, flags: Set<CatFlags>) -> Seq<char> {
    (if flags.contains(CatFlags::NumberLines) {
        pad_left(decimal(i + 1), 6) + seq![' ', ' ']
    } else {
        Seq::empty()
    }) + line + if flags.contains(CatFlags::ShowEnds) {
        seq!['$']
    } else {
        Seq::empty()
    }
}

/// What `cat` prints for one operand.
pub open spec fn cat_one(
    fs: ECSFileSystem,
    root: EntityId,
    cwd: Seq<Seq<char>>,
    path: Seq<char>,
    flags: Set<CatFlags>,
) -> Seq<char> {
    let prefix = seq!['c', 'a', 't', ':', ' '] + path;
    match fs.resolve(root, join(new_path(cwd, path), seq!['/'])) {
        Some(e) => match fs.record_of(e) {
            Some(r) => match r.text {
                Some(t) => cat_content(t.text@, flags),
                None => match r.binary {
                    Some(_) => prefix + ": cannot display binary file"@,
                    None => if fs.children_of(e).len() > 0 {
                        prefix + ": Is a directory"@
                    } else {
                        prefix + ": No text data"@
                    },
                },
            },
            None => prefix + ": No text data"@,
        },
        None => prefix + ": No such file or directory"@,
    }
}

/// What `cat` prints.
pub open spec fn cat_output(fs: ECSFileSystem, root: EntityId, cwd: Seq<Seq<char>>, args: Seq<
    Seq<char>,
>) -> Seq<char> {
    let flags = args_flags(args, cat_flag_fn());
    let paths = operands(args);
    if paths.len() == 0 {
        "cat: missing operand"@
    } else {
        join(paths.map_values(|p: Seq<char>| cat_one(fs, root, cwd, p, flags)), seq!['\n'])
    }
}

pub struct CatCommand;

impl CatCommand {
    pub fn name() -> (r: &'static str)
        ensures
            r@ == "cat"@,
    {
        "cat"
    }

    /// The flags that the options among the arguments name.
    pub fn parse_flags(args: &Vec<String>) -> (r: Vec<CatFlags>)
        ensures
            r@.to_set() == args_flags(views(args@), cat_flag_fn()),
    {
        let a = chars_of_all(args);
        let mut r: Vec<CatFlags> = Vec::new();
        let mut i: usize = 0;
        assert(r@.to_set() =~= Set::<CatFlags>::empty());
        assert(texts(a@).take(0) =~= Seq::<Seq<char>>::empty());
        while i < a.len()
            invariant
                i <= a.len(),
                r@.to_set() == args_flags(texts(a@).take(i as int), cat_flag_fn()),
            decreases a.len() - i,
        {
            let arg = &a[i];
            proof {
                assert(texts(a@).take(i + 1).drop_last() =~= texts(a@).take(i as int));
                assert(texts(a@).take(i + 1).last() == arg@);
            }
            if arg.len() > 0 && arg[0] == '-' {
                let ghost before = r@.to_set();
                let mut j: usize = 1;
                assert(arg@.drop_first().take(0) =~= Seq::<char>::empty());
                while j < arg.len()
                    invariant
                        1 <= j <= arg.len(),
                        r@.to_set() == before.union(chars_flags(arg@.drop_first().take(j - 1), cat_flag_fn())),
                    decreases arg.len() - j,
                {
                    proof {
                        assert(arg@.drop_first().take(j as int).drop_last() =~= arg@.drop_first().take(j - 1));
                        assert(arg@.drop_first().take(j as int).last() == arg@[j as int]);
                    }
                    match CatFlags::from_char(&arg[j]) {
                        Ok(f) => {
                            add_cat_flag(&mut r, f);
                            assert(r@.to_set() =~= before.union(chars_flags(arg@.drop_first().take(j as int), cat_flag_fn())));
                        },
                        Err(_) => {},
                    }
                    j += 1;
                }
                assert(arg@.drop_first().take(arg.len() - 1) =~= arg@.drop_first());
            }
            i += 1;
        }
        assert(texts(a@).take(a.len() as int) =~= texts(a@));
        r
    }

    /// The operands among the arguments.
    pub fn parse_paths(args: &Vec<String>) -> (r: Vec<String>)
        ensures
            views(r@) == operands(views(args@)),
    {
        let a = chars_of_all(args);
        let ops = operand_texts(&a);
        crate::text::strings_of_all(&ops)
    }

    /// The text of a file as `cat` prints it.
    pub fn format_content(content: &str, flags: &Vec<CatFlags>) -> (r: String)
        ensures
            r@ == cat_content(content@, flags@.to_set()),
    {
        let t = format_content_text(content, flags);
        string_of(&t)
    }

    /// The path, from the root and without a leading `/`, that `target` names from `current_dir`.
    pub fn build_absolute_path(current_dir: &Vec<String>, target: &str) -> (r: String)
        ensures
            r@ == join(new_path(views(current_dir@), target@), seq!['/']),
    {
        let t = chars_of(target);
        let p = new_path_exec(current_dir, &t);
        let j = join_texts(&p, "/");
        proof {
            reveal_strlit("/");
            assert("/"@ =~= seq!['/']);
        }
        string_of(&j)
    }

    /// Prints the files that the operands name (relative to the current directory).
    pub fn execute(args: Vec<String>, terminal: &mut Terminal, file_system: &ECSFileSystem)
        ensures
            views(final(terminal).history@) == views(old(terminal).history@).push(
                cat_output(*file_system, old(terminal).root_entity, views(old(terminal).current_directory@), views(args@)),
            ),
            same_but_history(*final(terminal), *old(terminal)),
    {
        let flags = Self::parse_flags(&args);
        let a = chars_of_all(&args);
        let paths = operand_texts(&a);
        if paths.len() == 0 {
            terminal.push_command_result(&CommandResult::Handled(Some(not_found_free("cat: missing operand"))));
            return;
        }
        let ghost flag_set = flags@.to_set();
        let ghost cwd = views(terminal.current_directory@);
        let ghost root = terminal.root_entity;
        let mut blocks: Vec<Vec<char>> = Vec::new();
        let mut i: usize = 0;
        while i < paths.len()
            invariant
                i <= paths.len(),
                flag_set == flags@.to_set(),
                cwd == views(terminal.current_directory@),
                root == terminal.root_entity,
                texts(blocks@) =~= texts(paths@).take(i as int).map_values(|p: Seq<char>| cat_one(*file_system, root, cwd, p, flag_set)),
            decreases paths.len() - i,
        {
            let block = cat_one_exec(file_system, terminal.root_entity, &terminal.current_directory, &paths[i], &flags);
            let ghost before = texts(blocks@);
            blocks.push(block);
            proof {
                let f = |p: Seq<char>| cat_one(*file_system, root, cwd, p, flag_set);
                assert(texts(paths@).take(i + 1) =~= texts(paths@).take(i as int).push(paths@[i as int]@));
                assert(texts(paths@).take(i + 1).map_values(f) =~= texts(paths@).take(i as int).map_values(f).push(f(paths@[i as int]@)));
                assert(texts(blocks@) =~= before.push(block@));
            }
            i += 1;
        }
        assert(texts(paths@).take(paths.len() as int) =~= texts(paths@));
        let out = join_texts(&blocks, "\n");
        proof {
            reveal_strlit("\n");
            assert("\n"@ =~= seq!['\n']);
        }
        terminal.push_command_result(&CommandResult::Handled(Some(string_of(&out))));
    }
}

/// A string with the characters of `s`.
fn not_found_free(s: &str) -> (r: String)
    ensures
        r@ == s@,
{
    let t = chars_of(s);
    string_of(&t)
}

/// The operands among the arguments.
fn operand_texts(args: &Vec<Vec<char>>) -> (r: Vec<Vec<char>>)
    ensures
        texts(r@) == operands(texts(args@)),
{
    let mut r: Vec<Vec<char>> = Vec::new();
    let mut i: usize = 0;
    assert(texts(args@).take(0) =~= Seq::<Seq<char>>::empty());
    while i < args.len()
        invariant
            i <= args.len(),
            texts(r@) == operands(texts(args@).take(i as int)),
        decreases args.len() - i,
    {
        proof {
            assert(texts(args@).take(i + 1).drop_last() =~= texts(args@).take(i as int));
            assert(texts(args@).take(i + 1).last() == args@[i as int]@);
        }
        if !(args[i].len() > 0 && args[i][0] == '-') {
            let ghost before = texts(r@);
            r.push(copy_text(&args[i]));
            assert(texts(r@) =~= before.push(args@[i as int]@));
        }
        i += 1;
    }
    assert(texts(args@).take(args.len() as int) =~= texts(args@));
    r
}

fn has_cat_flag(v: &Vec<CatFlags>, f: CatFlags) -> (r: bool)
    ensures
        r == v@.to_set().contains(f),
{
    let mut i: usize = 0;
    while i < v.len()
        invariant
            i <= v.len(),
            forall|k: int| 0 <= k < i ==> v@[k] != f,
        decreases v.len() - i,
    {
        if v[i] == f {
            assert(v@.contains(f));
            return true;
        }
        i += 1;
    }
    assert(!v@.contains(f));
    false
}

fn format_content_text(content: &str, flags: &Vec<CatFlags>) -> (r: Vec<char>)
    ensures
        r@ == cat_content(content@, flags@.to_set()),
{
    if flags.len() == 0 {
        assert(flags@.to_set() =~= Set::<CatFlags>::empty());
        return chars_of(content);
    }
    assert(flags@.to_set().contains(flags@[0]));
    let numbered = has_cat_flag(flags, CatFlags::NumberLines);
    let ends = has_cat_flag(flags, CatFlags::ShowEnds);
    let ls = split_lines(content);
    let ghost fset = flags@.to_set();
    let mut out: Vec<Vec<char>> = Vec::new();
    let mut i: usize = 0;
    while i < ls.len()
        invariant
            i <= ls.len(),
            texts(ls@) == lines(content@),
            numbered == fset.contains(CatFlags::NumberLines),
            ends == fset.contains(CatFlags::ShowEnds),
            texts(out@) =~= lines(content@).take(i as int).map(|k: int, line: Seq<char>| cat_line(k as nat, line, fset)),
        decreases ls.len() - i,
    {
        let mut line: Vec<char> = Vec::new();
        if numbered {
            let n = decimal_text((i as u64) + 1);
            let padded = right_aligned(&n, 6);
            append_text(&mut line, &padded);
            line.push(' ');
            line.push(' ');
        }
        append_text(&mut line, &ls[i]);
        if ends {
            line.push('$');
        }
        proof {
            assert(line@ =~= cat_line(i as nat, ls@[i as int]@, fset));
            assert(lines(content@).take(i + 1).map(|k: int, l: Seq<char>| cat_line(k as nat, l, fset)) =~= lines(content@).take(i as int).map(|k: int, l: Seq<char>| cat_line(k as nat, l, fset)).push(line@));
        }
        out.push(line);
        i += 1;
    }
    assert(lines(content@).take(ls.len() as int) =~= lines(content@));
    let r = join_texts(&out, "\n");
    proof {
        reveal_strlit("\n");
        assert("\n"@ =~= seq!['\n']);
        assert(fset != Set::<CatFlags>::empty());
    }
    r
}

fn cat_one_exec(
    fs: &ECSFileSystem,
    root: EntityId,
    cwd: &Vec<String>,
    path: &Vec<char>,
    flags: &Vec<CatFlags>,
) -> (r: Vec<char>)
    ensures
        r@ == cat_one(*fs, root, views(cwd@), path@, flags@.to_set()),
{
    let np = new_path_exec(cwd, path);
    let joined = join_texts(&np, "/");
    proof {
        reveal_strlit("/");
        assert("/"@ =~= seq!['/']);
        reveal_strlit("cat: ");
        assert("cat: "@ =~= seq!['c', 'a', 't', ':', ' ']);
    }
    let mut prefix: Vec<char> = Vec::new();
    append_str(&mut prefix, "cat: ");
    append_text(&mut prefix, path);
    let joined_str = string_of(&joined);
    match fs.resolve_path(root, joined_str.as_str()) {
        Some(e) => match fs.find_record(e) {
            Some(i) => {
                let rec = &fs.records[i];
                match &rec.text {
                    Some(t) => format_content_text(t.text.as_str(), flags),
                    None => match &rec.binary {
                        Some(_) => {
                            append_str(&mut prefix, ": cannot display binary file");
                            prefix
                        },
                        None => {
                            let kids = fs.children(e);
                            if kids.len() > 0 {
                                append_str(&mut prefix, ": Is a directory");
                            } else {
                                append_str(&mut prefix, ": No text data");
                            }
                            prefix
                        },
                    },
                }
            },
            None => {
                append_str(&mut prefix, ": No text data");
                prefix
            },
        },
        None => {
            append_str(&mut prefix, ": No such file or directory");
            prefix
        },
    }
}


/// `2^e`.
pub open spec fn two_to(e: nat) -> nat
    decreases e,
{
    if e == 0 {
        1
    } else {
        2 * two_to((e - 1) as nat)
    }
}

/// `num / den` rounded to the nearest integer, ties to the even one.
pub open spec fn round_half_even(num: nat, den: nat) -> nat {
    let q = num / den;
    let r = num % den;
    if 2 * r > den {
        q + 1
    } else if 2 * r < den {
        q
    } else if q % 2 == 0 {
        q
    } else {
        q + 1
    }
}

/// How many times `n` must be halved to fit in 53 bits.
pub open spec fn halvings(n: nat) -> nat
    decreases n,
{
    if n < 0x20_0000_0000_0000 {
        0
    } else {
        1 + halvings(n / 2)
    }
}

/// The value of `n as f64`: `n` rounded to 53 significant bits, ties to even.
pub open spec fn f64_value(n: nat) -> nat {
    let s = halvings(n);
    round_half_even(n, two_to(s)) * two_to(s)
}

/// How many times a size is divided by 1024 before it is shown (at most 3).
pub open spec fn unit_count(f: nat) -> nat {
    if f >= 0x4000_0000 {
        3
    } else if f >= 0x10_0000 {
        2
    } else if f >= 0x400 {
        1
    } else {
        0
    }
}

/// `1024^k` for `k` from 1 to 3.
pub open spec fn unit_divisor(k: nat) -> nat {
    if k == 1 {
        0x400
    } else if k == 2 {
        0x10_0000
    } else {
        0x4000_0000
    }
}

/// The letter of the unit for `k` divisions by 1024.
pub open spec fn unit_letter(k: nat) -> char {
    if k == 1 {
        'K'
    } else if k == 2 {
        'M'
    } else {
        'G'
    }
}

/// A size as `ls` shows it: in bytes; human-readable, `{n}B` below 1 KiB and
/// otherwise the size in K, M or G with one decimal, as `{:.1}` renders the
/// `f64` quotient (rounded to the nearest tenth, ties to even).
pub open spec fn size_text(size: nat, human_readable: bool) -> Seq<char> {
    if !human_readable {
        decimal(size)
    } else {
        let f = f64_value(size);
        let k = unit_count(f);
        if k == 0 {
            decimal(size).push('B')
        } else {
            let t = round_half_even(10 * f, unit_divisor(k));
            decimal(t / 10) + seq!['.', crate::text::digit_char(t % 10), unit_letter(k)]
        }
    }
}

proof fn lemma_round_bound(num: nat, den: nat)
    requires
        den > 0,
    ensures
        round_half_even(num, den) <= num / den + 1,
        round_half_even(num, den) * den <= num + den,
{
    let q = num / den;
    let r = num % den;
    assert(num == q * den + r) by (nonlinear_arith)
        requires
            den > 0,
            q == num / den,
            r == num % den,
    ;
    assert((q + 1) * den == q * den + den) by (nonlinear_arith);
}

fn round_half_even_exec(num: u128, den: u128) -> (r: u128)
    requires
        den > 0,
        den <= 0x1_0000_0000_0000_0000_0000_0000,
        num < 0x1_0000_0000_0000_0000_0000_0000,
    ensures
        r == round_half_even(num as nat, den as nat),
{
    let q = num / den;
    let rem = num % den;
    proof {
        assert(rem < den);
        assert(q <= num) by (nonlinear_arith)
            requires
                den > 0,
                q == num / den,
        ;
    }
    if 2 * rem > den {
        q + 1
    } else if 2 * rem < den {
        q
    } else if q % 2 == 0 {
        q
    } else {
        q + 1
    }
}

/// The value of `size as f64`, exactly.
fn f64_value_exec(size: u64) -> (r: u128)
    ensures
        r == f64_value(size as nat),
        r <= 0x2_0000_0000_0000_0000,
{
    let mut m: u64 = size;
    let mut s: u128 = 0;
    let mut den: u128 = 1;
    while m >= 0x20_0000_0000_0000
        invariant
            halvings(size as nat) == s + halvings(m as nat),
            den == two_to(s as nat),
            m * den <= size,
            1 <= den,
            s < den,
            den <= 0x1_0000_0000_0000_0000,
            den == 1 || m >= 1,
        decreases m,
    {
        proof {
            assert((m / 2) * (den * 2) <= m * den) by (nonlinear_arith)
                requires
                    m >= 0x20_0000_0000_0000,
            ;
            assert((m / 2) * (den * 2) >= den * 2) by (nonlinear_arith)
                requires
                    m >= 0x20_0000_0000_0000,
                    den >= 1,
            ;
        }
        m = m / 2;
        s = s + 1;
        den = den * 2;
    }
    proof {
        assert(den <= size + 1) by (nonlinear_arith)
            requires
                m * den <= size,
                den >= 1,
                den == 1 || m >= 1,
        ;
        lemma_round_bound(size as nat, den as nat);
    }
    let q = round_half_even_exec(size as u128, den);
    proof {
        lemma_round_bound(size as nat, den as nat);
    }
    q * den
}

proof fn lemma_two_to_bound(s: nat)
    ensures
        two_to(s) >= 1,
    decreases s,
{
    if s > 0 {
        lemma_two_to_bound((s - 1) as nat);
    }
}


/// A size as `ls` shows it (see `size_text`).
fn size_text_exec(size: usize, human_readable: bool) -> (r: Vec<char>)
    ensures
        r@ == size_text(size as nat, human_readable),
{
    if !human_readable {
        return decimal_text(size as u64);
    }
    let f = f64_value_exec(size as u64);
    let k: u64 = if f >= 0x4000_0000 {
        3
    } else if f >= 0x10_0000 {
        2
    } else if f >= 0x400 {
        1
    } else {
        0
    };
    if k == 0 {
        let mut r = decimal_text(size as u64);
        r.push('B');
        return r;
    }
    let d: u128 = if k == 1 {
        0x400
    } else if k == 2 {
        0x10_0000
    } else {
        0x4000_0000
    };
    let t = round_half_even_exec(10 * f, d);
    proof {
        let nf: nat = (10 * f) as nat;
        let dn: nat = d as nat;
        lemma_round_bound(nf, dn);
        assert(nf / dn <= nf / 1024) by (nonlinear_arith)
            requires
                dn >= 1024,
        ;
    }
    let mut r = decimal_text((t / 10) as u64);
    r.push('.');
    r.push(crate::text::digit((t % 10) as u64));
    r.push(if k == 1 {
        'K'
    } else if k == 2 {
        'M'
    } else {
        'G'
    });
    proof {
        assert(unit_count(f as nat) == k as nat);
        assert(r@ =~= size_text(size as nat, human_readable));
    }
    r
}


// ---------------------------------------------------------------------------
// ls
// ---------------------------------------------------------------------------

/// The flags of `ls`.
#[derive(Copy, Clone, Hash, PartialEq, Debug, Eq, Structural)]
pub enum LsFlags {
    ShowAll,
    Classify,
    LongList,
    Recursive,
    ByteSize,
    EntityId,
    ComponentView,
    OnePerLine,
    Directory,
    Reverse,
    HumanReadable,
    Labbeled,
}

/// The flag that a character names for `ls`.
pub open spec fn ls_flag_of(c: char) -> Option<LsFlags> {
    if c == 'a' {
        Some(LsFlags::ShowAll)
    } else if c == 'l' {
        Some(LsFlags::LongList)
    } else if c == 'R' {
        Some(LsFlags::Recursive)
    } else if c == 's' {
        Some(LsFlags::ByteSize)
    } else if c == 'F' {
        Some(LsFlags::Classify)
    } else if c == 'i' {
        Some(LsFlags::EntityId)
    } else if c == 'c' {
        Some(LsFlags::ComponentView)
    } else if c == '1' {
        Some(LsFlags::OnePerLine)
    } else if c == 'd' {
        Some(LsFlags::Directory)
    } else if c == 'r' {
        Some(LsFlags::Reverse)
    } else if c == 'h' {
        Some(LsFlags::HumanReadable)
    } else {
        None
    }
}

/// `ls_flag_of` as a function value.
pub open spec fn ls_flag_fn() -> spec_fn(char) -> Option<LsFlags> {
    |c: char| ls_flag_of(c)
}

impl LsFlags {
    /// The flag that a character names (`a l R s F i c 1 d r h`).
    pub fn from_char(c: &char) -> (r: Result<Self, &'static str>)
        ensures
            match r {
                Ok(f) => ls_flag_of(*c) == Some(f),
                Err(e) => ls_flag_of(*c) is None && e@ == "Invalid flag for ls"@,
            },
    {
        match c {
            'a' => Ok(Self::ShowAll),
            'l' => Ok(Self::LongList),
            'R' => Ok(Self::Recursive),
            's' => Ok(Self::ByteSize),
            'F' => Ok(Self::Classify),
            'i' => Ok(Self::EntityId),
            'c' => Ok(Self::ComponentView),
            '1' => Ok(Self::OnePerLine),
            'd' => Ok(Self::Directory),
            'r' => Ok(Self::Reverse),
            'h' => Ok(Self::HumanReadable),
            _ => Err("Invalid flag for ls"),
        }
    }
}

fn add_ls_flag(v: &mut Vec<LsFlags>, f: LsFlags)
    ensures
        final(v)@.to_set() == old(v)@.to_set().insert(f),
{
    let mut i: usize = 0;
    while i < v.len()
        invariant
            i <= v.len(),
            forall|k: int| 0 <= k < i ==> v@[k] != f,
        decreases v.len() - i,
    {
        if v[i] == f {
            assert(old(v)@.to_set().insert(f) =~= old(v)@.to_set());
            return;
        }
        i += 1;
    }
    let ghost before = v@;
    v.push(f);
    assert(v@.to_set() =~= before.to_set().insert(f));
}

fn has_ls_flag(v: &Vec<LsFlags>, f: LsFlags) -> (r: bool)
    ensures
        r == v@.to_set().contains(f),
{
    let mut i: usize = 0;
    while i < v.len()
        invariant
            i <= v.len(),
            forall|k: int| 0 <= k < i ==> v@[k] != f,
        decreases v.len() - i,
    {
        if v[i] == f {
            assert(v@.contains(f));
            return true;
        }
        i += 1;
    }
    assert(!v@.contains(f));
    false
}

/// The arguments that name paths for `ls`: non-empty and not options.
pub open spec fn ls_operands(args: Seq<Seq<char>>) -> Seq<Seq<char>>
    decreases args.len(),
{
    if args.len() == 0 {
        Seq::empty()
    } else if args.last().len() > 0 && args.last()[0] != '-' {
        ls_operands(args.drop_last()).push(args.last())
    } else {
        ls_operands(args.drop_last())
    }
}

/// The paths that `ls` lists: its operands, or `.`.
pub open spec fn ls_paths(args: Seq<Seq<char>>) -> Seq<Seq<char>> {
    if ls_operands(args).len() == 0 {
        seq![seq!['.']]
    } else {
        ls_operands(args)
    }
}

/// The flags `ls` runs with: those the options name, and `Labbeled` (no
/// heading) when it lists one path and not recursively.
pub open spec fn ls_effective_flags(args: Seq<Seq<char>>) -> Set<LsFlags> {
    let f = args_flags(args, ls_flag_fn());
    if ls_paths(args).len() == 1 && !f.contains(LsFlags::Recursive) {
        f.insert(LsFlags::Labbeled)
    } else {
        f
    }
}

/// Whether a name starts with a dot.
pub open spec fn starts_with_dot(n: Seq<char>) -> bool {
    n.len() > 0 && n[0] == '.'
}

/// The path of an entry below `path`.
pub open spec fn sub_path(path: Seq<char>, name: Seq<char>) -> Seq<char> {
    if path == seq!['.'] {
        name
    } else {
        path + seq!['/'] + name
    }
}

/// Whether `ls` shows an entity: with `-a` always, else unless its name starts with a dot.
pub open spec fn shown(fs: ECSFileSystem, flags: Set<LsFlags>, e: EntityId) -> bool {
    flags.contains(LsFlags::ShowAll) || !starts_with_dot(fs.display_name(e))
}

/// The entries for the shown children, with their names.
pub open spec fn child_entries(fs: ECSFileSystem, flags: Set<LsFlags>, kids: Seq<EntityId>) -> Seq<
    (Seq<char>, EntityId),
>
    decreases kids.len(),
{
    if kids.len() == 0 {
        Seq::empty()
    } else {
        let prev = child_entries(fs, flags, kids.drop_last());
        let k = kids.last();
        if shown(fs, flags, k) {
            prev.push((fs.display_name(k), k))
        } else {
            prev
        }
    }
}

/// The shown children that `-R` descends into (those with children), with their paths.
pub open spec fn subdirectories(
    fs: ECSFileSystem,
    flags: Set<LsFlags>,
    path: Seq<char>,
    kids: Seq<EntityId>,
) -> Seq<(Seq<char>, EntityId)>
    decreases kids.len(),
{
    if kids.len() == 0 {
        Seq::empty()
    } else {
        let prev = subdirectories(fs, flags, path, kids.drop_last());
        let k = kids.last();
        if shown(fs, flags, k) && flags.contains(LsFlags::Recursive) && fs.children_of(k).len() > 0 {
            prev.push((sub_path(path, fs.display_name(k)), k))
        } else {
            prev
        }
    }
}

/// The entries that `ls` lists for a directory `e` reached by `path`: with `-d`
/// the directory itself; else `.` and `..` with `-a`, then the shown children.
pub open spec fn ls_entries(fs: ECSFileSystem, flags: Set<LsFlags>, path: Seq<char>, e: EntityId) -> Seq<(Seq<char>, EntityId)> {
    if flags.contains(LsFlags::Directory) {
        seq![(path, e)]
    } else {
        (if flags.contains(LsFlags::ShowAll) {
            seq![
                (seq!['.'], e),
                (seq!['.', '.'], match fs.parent_of(e) {
                    Some(p) => p,
                    None => e,
                }),
            ]
        } else {
            Seq::empty()
        }) + child_entries(fs, flags, fs.children_of(e))
    }
}

/// The directories that `ls -R` goes on to after `e`.
pub open spec fn ls_subdirs(fs: ECSFileSystem, flags: Set<LsFlags>, path: Seq<char>, e: EntityId) -> Seq<(Seq<char>, EntityId)> {
    if flags.contains(LsFlags::Directory) {
        Seq::empty()
    } else {
        subdirectories(fs, flags, path, fs.children_of(e))
    }
}

/// One entry as `ls` prints it: `-i` its index right-aligned in five columns,
/// `v` and its generation left-aligned in two; `-c` the sorted short names of
/// its components in brackets; `-s` or `-l` its size right-aligned in five
/// columns (`-l`: after `d` for a directory or `-` for a file); then its name,
/// with a `/` after a directory with `-F`; all separated by spaces.
pub open spec fn entity_line(fs: ECSFileSystem, flags: Set<LsFlags>, name: Seq<char>, e: EntityId) -> Seq<char> {
    let is_dir = fs.children_of(e).len() > 0;
    let shown_name = if flags.contains(LsFlags::Classify) && is_dir {
        name.push('/')
    } else {
        name
    };
    let id_part: Seq<Seq<char>> = if flags.contains(LsFlags::EntityId) {
        seq![pad_left(decimal(e.index as nat), 5) + "v"@ + crate::text::pad_right(decimal(e.generation as nat), 2)]
    } else {
        Seq::empty()
    };
    let component_part: Seq<Seq<char>> = if flags.contains(LsFlags::ComponentView) {
        seq!["["@ + join(fs.component_names_of(e).sort_by(lex_order()), ", "@) + "]"@]
    } else {
        Seq::empty()
    };
    let size_part: Seq<Seq<char>> = if flags.contains(LsFlags::ByteSize) || flags.contains(LsFlags::LongList) {
        let t = pad_left(size_text(fs.size_of(e), flags.contains(LsFlags::HumanReadable)), 5);
        if flags.contains(LsFlags::LongList) {
            seq![seq![if is_dir { 'd' } else { '-' }] + " "@ + t]
        } else {
            seq![t]
        }
    } else {
        Seq::empty()
    };
    join(id_part + component_part + size_part + seq![shown_name], " "@)
}

/// The listing of one directory: its lines sorted (reversed with `-r`),
/// one per line with `-1` or `-l` and else two spaces apart, after a
/// `path:` heading unless `Labbeled`.
pub open spec fn directory_block(path: Seq<char>, lines: Seq<Seq<char>>, flags: Set<LsFlags>) -> Seq<char> {
    let sorted = lines.sort_by(lex_order());
    let ordered = if flags.contains(LsFlags::Reverse) {
        sorted.reverse()
    } else {
        sorted
    };
    let body = join(
        ordered,
        if flags.contains(LsFlags::OnePerLine) || flags.contains(LsFlags::LongList) {
            "\n"@
        } else {
            "  "@
        },
    );
    if flags.contains(LsFlags::Labbeled) {
        body
    } else {
        path + ":\n"@ + body
    }
}

/// The entities in a queue of directories.
pub open spec fn queue_entities(q: Seq<(Seq<char>, EntityId)>) -> Set<EntityId> {
    q.map_values(|x: (Seq<char>, EntityId)| x.1).to_set()
}

/// The number of entities that the walk may still visit.
pub open spec fn walk_measure(fs: ECSFileSystem, q: Seq<(Seq<char>, EntityId)>, visited: Set<EntityId>) -> nat {
    (fs.universe() + queue_entities(q)).difference(visited).len()
}

/// The listings of the directories in the queue, breadth first: each
/// directory not yet listed is listed once (an empty listing is left out),
/// and with `-R` its subdirectories join the end of the queue.
pub open spec fn ls_blocks(fs: ECSFileSystem, flags: Set<LsFlags>, q: Seq<(Seq<char>, EntityId)>, visited: Set<EntityId>) -> Seq<Seq<char>>
    decreases walk_measure(fs, q, visited), q.len(),
{
    if q.len() == 0 {
        Seq::empty()
    } else {
        let path = q[0].0;
        let e = q[0].1;
        proof {
            lemma_walk_measure(fs, flags, q, visited);
        }
        if visited.contains(e) {
            ls_blocks(fs, flags, q.drop_first(), visited)
        } else {
            let lines = ls_entries(fs, flags, path, e).map_values(
                |x: (Seq<char>, EntityId)| entity_line(fs, flags, x.0, x.1),
            );
            let block = directory_block(path, lines, flags);
            let rest = ls_blocks(
                fs,
                flags,
                q.drop_first() + ls_subdirs(fs, flags, path, e),
                visited.insert(e),
            );
            if block.len() > 0 {
                seq![block] + rest
            } else {
                rest
            }
        }
    }
}

/// The paths that resolve, with their entities.
pub open spec fn ls_queue(fs: ECSFileSystem, root: EntityId, paths: Seq<Seq<char>>) -> Seq<(Seq<char>, EntityId)>
    decreases paths.len(),
{
    if paths.len() == 0 {
        Seq::empty()
    } else {
        let prev = ls_queue(fs, root, paths.drop_last());
        match fs.resolve(root, paths.last()) {
            Some(e) => prev.push((paths.last(), e)),
            None => prev,
        }
    }
}

/// An error for every path that does not resolve.
pub open spec fn ls_errors(fs: ECSFileSystem, root: EntityId, paths: Seq<Seq<char>>) -> Seq<Seq<char>>
    decreases paths.len(),
{
    if paths.len() == 0 {
        Seq::empty()
    } else {
        let prev = ls_errors(fs, root, paths.drop_last());
        match fs.resolve(root, paths.last()) {
            Some(_) => prev,
            None => prev.push("ls: cannot access '"@ + paths.last() + "': No such file or directory"@),
        }
    }
}

/// What `ls` prints, if anything: the errors, then the listings separated by
/// blank lines, all on separate lines. Paths are resolved from the root.
pub open spec fn ls_output(fs: ECSFileSystem, root: EntityId, args: Seq<Seq<char>>) -> Option<Seq<char>> {
    let flags = ls_effective_flags(args);
    let paths = ls_paths(args);
    let blocks = ls_blocks(fs, flags, ls_queue(fs, root, paths), Set::empty());
    let errors = ls_errors(fs, root, paths);
    let messages = if blocks.len() > 0 {
        errors.push(join(blocks, "\n\n"@))
    } else {
        errors
    };
    if messages.len() > 0 {
        Some(join(messages, "\n"@))
    } else {
        None
    }
}

pub proof fn lemma_subdirectories_in(fs: ECSFileSystem, flags: Set<LsFlags>, path: Seq<char>, kids: Seq<EntityId>)
    ensures
        forall|j: int| 0 <= j < subdirectories(fs, flags, path, kids).len() ==> kids.contains(
            #[trigger] subdirectories(fs, flags, path, kids)[j].1,
        ),
    decreases kids.len(),
{
    if kids.len() > 0 {
        lemma_subdirectories_in(fs, flags, path, kids.drop_last());
        let sd = subdirectories(fs, flags, path, kids);
        let prev = subdirectories(fs, flags, path, kids.drop_last());
        assert forall|j: int| 0 <= j < sd.len() implies kids.contains(#[trigger] sd[j].1) by {
            if j < prev.len() {
                assert(sd[j] == prev[j]);
                assert(kids.drop_last().contains(prev[j].1));
                let m = choose|m: int| 0 <= m < kids.drop_last().len() && kids.drop_last()[m] == prev[j].1;
                assert(kids[m] == prev[j].1);
            } else {
                assert(sd[j].1 == kids.last());
                assert(kids[kids.len() - 1] == kids.last());
            }
        }
    }
}

/// The walk measure never grows by dropping the head of the queue, and drops
/// when the head is visited and its subdirectories join the queue.
pub proof fn lemma_walk_measure(fs: ECSFileSystem, flags: Set<LsFlags>, q: Seq<(Seq<char>, EntityId)>, visited: Set<EntityId>)
    requires
        q.len() > 0,
    ensures
        walk_measure(fs, q.drop_first(), visited) <= walk_measure(fs, q, visited),
        !visited.contains(q[0].1) ==> walk_measure(
            fs,
            q.drop_first() + ls_subdirs(fs, flags, q[0].0, q[0].1),
            visited.insert(q[0].1),
        ) < walk_measure(fs, q, visited),
{
    fs.lemma_universe_finite();
    let u = fs.universe();
    let ents = |x: (Seq<char>, EntityId)| x.1;
    let s = u + queue_entities(q);
    vstd::seq_lib::seq_to_set_is_finite(q.map_values(ents));
    let s1 = u + queue_entities(q.drop_first());
    assert(s1.subset_of(s)) by {
        assert forall|x: EntityId| #[trigger] s1.contains(x) implies s.contains(x) by {
            if queue_entities(q.drop_first()).contains(x) {
                let m = choose|m: int| 0 <= m < q.drop_first().map_values(ents).len() && q.drop_first().map_values(ents)[m] == x;
                assert(q.map_values(ents)[m + 1] == x);
            }
        }
    }
    vstd::set_lib::lemma_len_subset(s1.difference(visited), s.difference(visited));
    let e = q[0].1;
    if !visited.contains(e) {
        let sub = ls_subdirs(fs, flags, q[0].0, e);
        let q2 = q.drop_first() + sub;
        let s2 = u + queue_entities(q2);
        fs.lemma_children_in_universe(e);
        lemma_subdirectories_in(fs, flags, q[0].0, fs.children_of(e));
        assert(s2.subset_of(s)) by {
            assert forall|x: EntityId| #[trigger] s2.contains(x) implies s.contains(x) by {
                if queue_entities(q2).contains(x) && !u.contains(x) {
                    let m = choose|m: int| 0 <= m < q2.map_values(ents).len() && q2.map_values(ents)[m] == x;
                    if m < q.len() - 1 {
                        assert(q.map_values(ents)[m + 1] == x);
                    } else {
                        let j = m - (q.len() - 1);
                        assert(sub[j].1 == x);
                        if !fs.children_of(e).contains(x) {
                            assert(false);
                        }
                        let k = choose|k: int| 0 <= k < fs.children_of(e).len() && fs.children_of(e)[k] == x;
                        assert(u.contains(fs.children_of(e)[k]));
                    }
                }
            }
        }
        assert(s.contains(e)) by {
            assert(q.map_values(ents)[0] == e);
        }
        assert(s2.difference(visited.insert(e)).subset_of(s.difference(visited).remove(e)));
        vstd::set_lib::lemma_len_subset(s2.difference(visited.insert(e)), s.difference(visited).remove(e));
    }
}


/// The text and entity of each pair.
pub open spec fn pairs_view(s: Seq<(Vec<char>, EntityId)>) -> Seq<(Seq<char>, EntityId)> {
    s.map_values(|p: (Vec<char>, EntityId)| (p.0@, p.1))
}

fn ls_operand_texts(args: &Vec<Vec<char>>) -> (r: Vec<Vec<char>>)
    ensures
        texts(r@) == ls_paths(texts(args@)),
{
    let mut r: Vec<Vec<char>> = Vec::new();
    let mut i: usize = 0;
    assert(texts(args@).take(0) =~= Seq::<Seq<char>>::empty());
    while i < args.len()
        invariant
            i <= args.len(),
            texts(r@) == ls_operands(texts(args@).take(i as int)),
        decreases args.len() - i,
    {
        proof {
            assert(texts(args@).take(i + 1).drop_last() =~= texts(args@).take(i as int));
            assert(texts(args@).take(i + 1).last() == args@[i as int]@);
        }
        if args[i].len() > 0 && args[i][0] != '-' {
            let ghost before = texts(r@);
            r.push(copy_text(&args[i]));
            assert(texts(r@) =~= before.push(args@[i as int]@));
        }
        i += 1;
    }
    assert(texts(args@).take(args.len() as int) =~= texts(args@));
    if r.len() == 0 {
        let mut dot: Vec<char> = Vec::new();
        dot.push('.');
        r.push(dot);
        assert(texts(r@) =~= seq![seq!['.']]);
    }
    r
}

fn reverse_texts(v: Vec<Vec<char>>) -> (r: Vec<Vec<char>>)
    ensures
        texts(r@) == texts(v@).reverse(),
{
    let mut r: Vec<Vec<char>> = Vec::new();
    let mut v = v;
    let ghost orig = texts(v@);
    while v.len() > 0
        invariant
            orig.len() == v.len() + r.len(),
            texts(v@) == orig.take(v.len() as int),
            texts(r@) =~= orig.reverse().take(r.len() as int),
        decreases v.len(),
    {
        let ghost n = v.len();
        let ghost vv = v@;
        let x = v.pop().unwrap();
        proof {
            assert(vv[n - 1] == x);
            assert(texts(vv)[n - 1] == orig[n - 1]);
            assert(x@ == orig[n - 1]);
            assert(texts(v@) =~= orig.take(n - 1));
            assert(orig.reverse().take(r.len() + 1) =~= orig.reverse().take(r.len() as int).push(x@));
        }
        r.push(x);
    }
    assert(orig.reverse().take(r.len() as int) =~= orig.reverse());
    r
}

pub struct LsCommand;

impl LsCommand {
    pub fn name() -> (r: &'static str)
        ensures
            r@ == "ls"@,
    {
        "ls"
    }

    /// The flags that the options among the arguments name.
    pub fn parse_flags(args: &Vec<String>) -> (r: Vec<LsFlags>)
        ensures
            r@.to_set() == args_flags(views(args@), ls_flag_fn()),
    {
        let a = chars_of_all(args);
        let mut r: Vec<LsFlags> = Vec::new();
        let mut i: usize = 0;
        assert(r@.to_set() =~= Set::<LsFlags>::empty());
        assert(texts(a@).take(0) =~= Seq::<Seq<char>>::empty());
        while i < a.len()
            invariant
                i <= a.len(),
                r@.to_set() == args_flags(texts(a@).take(i as int), ls_flag_fn()),
            decreases a.len() - i,
        {
            let arg = &a[i];
            proof {
                assert(texts(a@).take(i + 1).drop_last() =~= texts(a@).take(i as int));
                assert(texts(a@).take(i + 1).last() == arg@);
            }
            if arg.len() > 0 && arg[0] == '-' {
                let ghost before = r@.to_set();
                let mut j: usize = 1;
                assert(arg@.drop_first().take(0) =~= Seq::<char>::empty());
                while j < arg.len()
                    invariant
                        1 <= j <= arg.len(),
                        r@.to_set() == before.union(chars_flags(arg@.drop_first().take(j - 1), ls_flag_fn())),
                    decreases arg.len() - j,
                {
                    proof {
                        assert(arg@.drop_first().take(j as int).drop_last() =~= arg@.drop_first().take(j - 1));
                        assert(arg@.drop_first().take(j as int).last() == arg@[j as int]);
                    }
                    match LsFlags::from_char(&arg[j]) {
                        Ok(f) => {
                            add_ls_flag(&mut r, f);
                            assert(r@.to_set() =~= before.union(chars_flags(arg@.drop_first().take(j as int), ls_flag_fn())));
                        },
                        Err(_) => {},
                    }
                    j += 1;
                }
                assert(arg@.drop_first().take(arg.len() - 1) =~= arg@.drop_first());
            }
            i += 1;
        }
        assert(texts(a@).take(a.len() as int) =~= texts(a@));
        r
    }

    /// The paths to list: the non-empty arguments that are not options, or `.`.
    pub fn parse_paths(args: &Vec<String>) -> (r: Vec<String>)
        ensures
            views(r@) == ls_paths(views(args@)),
    {
        let a = chars_of_all(args);
        let p = ls_operand_texts(&a);
        crate::text::strings_of_all(&p)
    }

    /// A size as `ls` shows it.
    pub fn format_size(size: usize, human_readable: bool) -> (r: String)
        ensures
            r@ == size_text(size as nat, human_readable),
    {
        let t = size_text_exec(size, human_readable);
        string_of(&t)
    }

    /// The entries to list for the directory `target` reached by `path`; with
    /// `-R`, queues its subdirectories.
    fn gather_entities_to_list(
        path: &Vec<char>,
        target: EntityId,
        flags: &Vec<LsFlags>,
        file_system: &ECSFileSystem,
        queue: &mut Vec<(Vec<char>, EntityId)>,
    ) -> (r: Vec<(Vec<char>, EntityId)>)
        ensures
            pairs_view(r@) == ls_entries(*file_system, flags@.to_set(), path@, target),
            pairs_view(final(queue)@) == pairs_view(old(queue)@) + ls_subdirs(
                *file_system,
                flags@.to_set(),
                path@,
                target,
            ),
    {
        let ghost fset = flags@.to_set();
        let mut list: Vec<(Vec<char>, EntityId)> = Vec::new();
        if has_ls_flag(flags, LsFlags::Directory) {
            list.push((copy_text(path), target));
            assert(pairs_view(list@) =~= seq![(path@, target)]);
            assert(pairs_view(queue@) =~= pairs_view(queue@) + Seq::<(Seq<char>, EntityId)>::empty());
            return list;
        }
        let show_all = has_ls_flag(flags, LsFlags::ShowAll);
        let recursive = has_ls_flag(flags, LsFlags::Recursive);
        if show_all {
            let mut dot: Vec<char> = Vec::new();
            dot.push('.');
            list.push((dot, target));
            let parent = match file_system.parent(target) {
                Some(p) => p,
                None => target,
            };
            let mut dots: Vec<char> = Vec::new();
            dots.push('.');
            dots.push('.');
            list.push((dots, parent));
            assert(list@[0].0@ =~= seq!['.']);
            assert(list@[1].0@ =~= seq!['.', '.']);
            assert(pairs_view(list@) =~= seq![(seq!['.'], target), (seq!['.', '.'], parent)]);
        }
        let ghost head = pairs_view(list@);
        let ghost q0 = pairs_view(queue@);
        assert(head =~= if fset.contains(LsFlags::ShowAll) {
            seq![
                (seq!['.'], target),
                (seq!['.', '.'], match file_system.parent_of(target) {
                    Some(p) => p,
                    None => target,
                }),
            ]
        } else {
            Seq::<(Seq<char>, EntityId)>::empty()
        });
        let children = file_system.children(target);
        let mut k: usize = 0;
        assert(children@.take(0) =~= Seq::<EntityId>::empty());
        while k < children.len()
            invariant
                k <= children.len(),
                fset == flags@.to_set(),
                show_all == fset.contains(LsFlags::ShowAll),
                recursive == fset.contains(LsFlags::Recursive),
                pairs_view(list@) =~= head + child_entries(*file_system, fset, children@.take(k as int)),
                pairs_view(queue@) =~= q0 + subdirectories(*file_system, fset, path@, children@.take(k as int)),
            decreases children.len() - k,
        {
            let child = children[k];
            let name = file_system.vfs_name_text(child);
            proof {
                assert(children@.take(k + 1).drop_last() =~= children@.take(k as int));
                assert(children@.take(k + 1).last() == child);
                reveal_strlit(".");
                assert("."@ =~= seq!['.']);
            }
            let ghost lv = pairs_view(list@);
            let ghost qv = pairs_view(queue@);
            if show_all || !(name.len() > 0 && name[0] == '.') {
                list.push((copy_text(&name), child));
                assert(pairs_view(list@) =~= lv.push((name@, child)));
                if recursive {
                    let grandchildren = file_system.children(child);
                    if grandchildren.len() > 0 {
                        let new_path = if text_is(path, ".") {
                            copy_text(&name)
                        } else {
                            let mut p = copy_text(path);
                            p.push('/');
                            append_text(&mut p, &name);
                            p
                        };
                        assert(new_path@ =~= sub_path(path@, name@));
                        queue.push((new_path, child));
                        assert(pairs_view(queue@) =~= qv.push((sub_path(path@, name@), child)));
                    }
                }
            }
            k += 1;
        }
        assert(children@.take(children.len() as int) =~= children@);
        list
    }

    /// One entry as `ls` prints it.
    fn format_single_entity(
        name: Vec<char>,
        entity: EntityId,
        flags: &Vec<LsFlags>,
        file_system: &ECSFileSystem,
    ) -> (r: Vec<char>)
        requires
            file_system.wf(),
        ensures
            r@ == entity_line(*file_system, flags@.to_set(), name@, entity),
    {
        let ghost fset = flags@.to_set();
        let children = file_system.children(entity);
        let is_dir = children.len() > 0;
        let mut shown_name = name;
        if has_ls_flag(flags, LsFlags::Classify) && is_dir {
            shown_name.push('/');
        }
        let mut parts: Vec<Vec<char>> = Vec::new();
        let ghost mut expected: Seq<Seq<char>> = Seq::empty();
        if has_ls_flag(flags, LsFlags::EntityId) {
            let idx = decimal_text(entity.index as u64);
            let mut t = right_aligned(&idx, 5);
            t.push('v');
            let generation = decimal_text(entity.generation as u64);
            let g = crate::text::left_aligned(&generation, 2);
            append_text(&mut t, &g);
            proof {
                reveal_strlit("v");
                assert("v"@ =~= seq!['v']);
                assert(t@ =~= pad_left(decimal(entity.index as nat), 5) + "v"@ + crate::text::pad_right(decimal(entity.generation as nat), 2));
                expected = seq![t@];
            }
            parts.push(t);
        }
        let ghost after_id = expected;
        let ghost comp_part: Seq<Seq<char>> = Seq::empty();
        let ghost size_part: Seq<Seq<char>> = Seq::empty();
        if has_ls_flag(flags, LsFlags::ComponentView) {
            let names = file_system.component_names(entity);
            let sorted = sort_texts(names);
            let mut t: Vec<char> = Vec::new();
            append_str(&mut t, "[");
            let j = join_texts(&sorted, ", ");
            append_text(&mut t, &j);
            append_str(&mut t, "]");
            proof {
                expected = expected.push(t@);
                comp_part = seq![t@];
                assert(t@ == "["@ + join(file_system.component_names_of(entity).sort_by(lex_order()), ", "@) + "]"@);
            }
            parts.push(t);
        }
        if has_ls_flag(flags, LsFlags::ByteSize) || has_ls_flag(flags, LsFlags::LongList) {
            let size = file_system.compute_size(entity);
            let st = size_text_exec(size, has_ls_flag(flags, LsFlags::HumanReadable));
            let padded = right_aligned(&st, 5);
            let t = if has_ls_flag(flags, LsFlags::LongList) {
                let mut u: Vec<char> = Vec::new();
                u.push(if is_dir {
                    'd'
                } else {
                    '-'
                });
                append_str(&mut u, " ");
                append_text(&mut u, &padded);
                u
            } else {
                padded
            };
            proof {
                expected = expected.push(t@);
                size_part = seq![t@];
                assert(t@ =~= if fset.contains(LsFlags::LongList) {
                    seq![if is_dir { 'd' } else { '-' }] + " "@ + pad_left(size_text(file_system.size_of(entity), fset.contains(LsFlags::HumanReadable)), 5)
                } else {
                    pad_left(size_text(file_system.size_of(entity), fset.contains(LsFlags::HumanReadable)), 5)
                });
            }
            parts.push(t);
        }
        proof {
            assert(expected =~= after_id + comp_part + size_part);
            expected = expected.push(shown_name@);
        }
        parts.push(shown_name);
        assert(texts(parts@) =~= expected);
        proof {
            let id_part: Seq<Seq<char>> = if fset.contains(LsFlags::EntityId) {
                seq![pad_left(decimal(entity.index as nat), 5) + "v"@ + crate::text::pad_right(decimal(entity.generation as nat), 2)]
            } else {
                Seq::empty()
            };
            assert(after_id =~= id_part);
            let component_part: Seq<Seq<char>> = if fset.contains(LsFlags::ComponentView) {
                seq!["["@ + join(file_system.component_names_of(entity).sort_by(lex_order()), ", "@) + "]"@]
            } else {
                Seq::empty()
            };
            assert(comp_part =~= component_part);
            let is_d = file_system.children_of(entity).len() > 0;
            let sp: Seq<Seq<char>> = if fset.contains(LsFlags::ByteSize) || fset.contains(LsFlags::LongList) {
                let t = pad_left(size_text(file_system.size_of(entity), fset.contains(LsFlags::HumanReadable)), 5);
                if fset.contains(LsFlags::LongList) {
                    seq![seq![if is_d { 'd' } else { '-' }] + " "@ + t]
                } else {
                    seq![t]
                }
            } else {
                Seq::empty()
            };
            assert(size_part =~= sp);
            let sn = if fset.contains(LsFlags::Classify) && is_d { name@.push('/') } else { name@ };
            assert(shown_name@ == sn);
            assert(texts(parts@) =~= id_part + component_part + sp + seq![sn]);
        }
        let r = join_texts(&parts, " ");
        proof {
            let line = entity_line(*file_system, fset, name@, entity);
            assert(r@ =~= line);
        }
        r
    }

    /// The listing of one directory.
    fn format_directory_block(path: &Vec<char>, output_lines: Vec<Vec<char>>, flags: &Vec<LsFlags>) -> (r: Vec<char>)
        ensures
            r@ == directory_block(path@, texts(output_lines@), flags@.to_set()),
    {
        let sorted = sort_texts(output_lines);
        let ordered = if has_ls_flag(flags, LsFlags::Reverse) {
            reverse_texts(sorted)
        } else {
            sorted
        };
        let body = if has_ls_flag(flags, LsFlags::OnePerLine) || has_ls_flag(flags, LsFlags::LongList) {
            join_texts(&ordered, "\n")
        } else {
            join_texts(&ordered, "  ")
        };
        if has_ls_flag(flags, LsFlags::Labbeled) {
            body
        } else {
            let mut r = copy_text(path);
            append_str(&mut r, ":\n");
            append_text(&mut r, &body);
            r
        }
    }
}


impl LsCommand {
    /// Lists the directories that the operands name (from the root; `.` without
    /// operands) as `ls_output` says.
    pub fn execute(args: Vec<String>, terminal: &mut Terminal, file_system: &ECSFileSystem)
        requires
            file_system.wf(),
        ensures
            views(final(terminal).history@) == views(old(terminal).history@) + match ls_output(
                *file_system,
                old(terminal).root_entity,
                views(args@),
            ) {
                Some(o) => seq![o],
                None => Seq::empty(),
            },
            same_but_history(*final(terminal), *old(terminal)),
    {
        let root = terminal.root_entity;
        let mut flags = Self::parse_flags(&args);
        let a = chars_of_all(&args);
        let paths = ls_operand_texts(&a);
        if paths.len() == 1 && !has_ls_flag(&flags, LsFlags::Recursive) {
            add_ls_flag(&mut flags, LsFlags::Labbeled);
        }
        let ghost fset = flags@.to_set();
        assert(fset == ls_effective_flags(views(args@)));
        let ghost ps = texts(paths@);
        let mut queue: Vec<(Vec<char>, EntityId)> = Vec::new();
        let mut messages: Vec<Vec<char>> = Vec::new();
        let mut i: usize = 0;
        assert(ps.take(0) =~= Seq::<Seq<char>>::empty());
        while i < paths.len()
            invariant
                i <= paths.len(),
                ps == texts(paths@),
                pairs_view(queue@) == ls_queue(*file_system, root, ps.take(i as int)),
                texts(messages@) == ls_errors(*file_system, root, ps.take(i as int)),
            decreases paths.len() - i,
        {
            proof {
                assert(ps.take(i + 1).drop_last() =~= ps.take(i as int));
                assert(ps.take(i + 1).last() == paths@[i as int]@);
            }
            let path_str = string_of(&paths[i]);
            let ghost qv = pairs_view(queue@);
            let ghost mv = texts(messages@);
            match file_system.resolve_path(root, path_str.as_str()) {
                Some(e) => {
                    queue.push((copy_text(&paths[i]), e));
                    assert(pairs_view(queue@) =~= qv.push((paths@[i as int]@, e)));
                },
                None => {
                    let mut m: Vec<char> = Vec::new();
                    append_str(&mut m, "ls: cannot access '");
                    append_text(&mut m, &paths[i]);
                    append_str(&mut m, "': No such file or directory");
                    messages.push(m);
                    assert(texts(messages@) =~= mv.push("ls: cannot access '"@ + paths@[i as int]@ + "': No such file or directory"@));
                },
            }
            i += 1;
        }
        assert(ps.take(paths.len() as int) =~= ps);
        let ghost q0 = pairs_view(queue@);
        let ghost all_blocks = ls_blocks(*file_system, fset, q0, Set::empty());
        let mut head: usize = 0;
        let mut visited: Vec<EntityId> = Vec::new();
        let mut blocks: Vec<Vec<char>> = Vec::new();
        assert(q0.skip(0) =~= q0);
        assert(visited@.to_set() =~= Set::<EntityId>::empty());
        while head < queue.len()
            invariant
                head <= queue.len(),
                file_system.wf(),
                fset == flags@.to_set(),
                all_blocks == texts(blocks@) + ls_blocks(*file_system, fset, pairs_view(queue@).skip(head as int), visited@.to_set()),
            decreases walk_measure(*file_system, pairs_view(queue@).skip(head as int), visited@.to_set()), queue.len() - head,
        {
            let ghost q = pairs_view(queue@).skip(head as int);
            let ghost v = visited@.to_set();
            let path = copy_text(&queue[head].0);
            let e = queue[head].1;
            proof {
                assert(q[0] == (path@, e));
                assert(pairs_view(queue@).skip(head + 1) =~= q.drop_first());
                lemma_walk_measure(*file_system, fset, q, v);
            }
            head = head + 1;
            if crate::file_system::contains_entity(&visited, e) {
                continue;
            }
            visited.push(e);
            assert(visited@.to_set() =~= v.insert(e));
            let entries = Self::gather_entities_to_list(&path, e, &flags, file_system, &mut queue);
            assert(pairs_view(queue@).skip(head as int) =~= q.drop_first() + ls_subdirs(*file_system, fset, path@, e));
            let ghost ents = ls_entries(*file_system, fset, path@, e);
            let mut lines: Vec<Vec<char>> = Vec::new();
            let mut k: usize = 0;
            while k < entries.len()
                invariant
                    k <= entries.len(),
                    file_system.wf(),
                    fset == flags@.to_set(),
                    pairs_view(entries@) == ents,
                    texts(lines@) =~= ents.take(k as int).map_values(|x: (Seq<char>, EntityId)| entity_line(*file_system, fset, x.0, x.1)),
                decreases entries.len() - k,
            {
                let line = Self::format_single_entity(copy_text(&entries[k].0), entries[k].1, &flags, file_system);
                let ghost before = texts(lines@);
                lines.push(line);
                proof {
                    let f = |x: (Seq<char>, EntityId)| entity_line(*file_system, fset, x.0, x.1);
                    assert(ents[k as int] == (entries@[k as int].0@, entries@[k as int].1));
                    assert(ents.take(k + 1).map_values(f) =~= ents.take(k as int).map_values(f).push(f(ents[k as int])));
                    assert(texts(lines@) =~= before.push(line@));
                }
                k += 1;
            }
            assert(ents.take(entries.len() as int) =~= ents);
            let block = Self::format_directory_block(&path, lines, &flags);
            let ghost bv = texts(blocks@);
            if block.len() > 0 {
                blocks.push(block);
                assert(texts(blocks@) =~= bv.push(block@));
            }
        }
        assert(pairs_view(queue@).skip(head as int) =~= Seq::<(Seq<char>, EntityId)>::empty());
        assert(texts(blocks@) =~= all_blocks);
        if blocks.len() > 0 {
            let joined = join_texts(&blocks, "\n\n");
            let ghost mv = texts(messages@);
            messages.push(joined);
            assert(texts(messages@) =~= mv.push(join(all_blocks, "\n\n"@)));
        }
        if messages.len() > 0 {
            let out = join_texts(&messages, "\n");
            terminal.push_command_result(&CommandResult::Handled(Some(string_of(&out))));
        } else {
            terminal.push_command_result(&CommandResult::Handled(None));
        }
    }
}


// ---------------------------------------------------------------------------
// Laws of paths
// ---------------------------------------------------------------------------

/// A plain directory name: not empty, not `.` or `..`, without `/`.
pub open spec fn is_plain_name(p: Seq<char>) -> bool {
    p.len() > 0 && p != seq!['.'] && p != seq!['.', '.'] && !p.contains('/')
}

/// A path of plain names only.
pub open spec fn is_plain_path(ps: Seq<Seq<char>>) -> bool {
    forall|i: int| 0 <= i < ps.len() ==> is_plain_name(#[trigger] ps[i])
}

proof fn lemma_normalize_concat(base: Seq<Seq<char>>, a: Seq<Seq<char>>, b: Seq<Seq<char>>)
    ensures
        normalize(base, a + b) == normalize(normalize(base, a), b),
    decreases b.len(),
{
    if b.len() == 0 {
        assert(a + b =~= a);
    } else {
        assert((a + b).drop_last() =~= a + b.drop_last());
        assert((a + b).last() == b.last());
        lemma_normalize_concat(base, a, b.drop_last());
    }
}

proof fn lemma_normalize_plain(base: Seq<Seq<char>>, ps: Seq<Seq<char>>)
    requires
        is_plain_path(ps),
    ensures
        normalize(base, ps) == base + ps,
    decreases ps.len(),
{
    if ps.len() == 0 {
        assert(base + ps =~= base);
    } else {
        assert(is_plain_name(ps[ps.len() - 1]));
        lemma_normalize_plain(base, ps.drop_last());
        assert((base + ps.drop_last()).push(ps.last()) =~= base + ps);
    }
}

proof fn lemma_normalize_keeps_plain(base: Seq<Seq<char>>, ps: Seq<Seq<char>>)
    requires
        is_plain_path(base),
        forall|i: int| 0 <= i < ps.len() ==> !(#[trigger] ps[i]).contains('/'),
    ensures
        is_plain_path(normalize(base, ps)),
    decreases ps.len(),
{
    if ps.len() > 0 {
        lemma_normalize_keeps_plain(base, ps.drop_last());
        let prev = normalize(base, ps.drop_last());
        let p = ps.last();
        assert(!p.contains('/')) by {
            assert(ps[ps.len() - 1] == p);
        }
        if p.len() == 0 || p == seq!['.'] {
        } else if p == seq!['.', '.'] {
            if prev.len() > 0 {
                assert forall|i: int| 0 <= i < prev.drop_last().len() implies is_plain_name(
                    #[trigger] prev.drop_last()[i],
                ) by {
                    assert(prev.drop_last()[i] == prev[i]);
                }
            }
        } else {
            assert forall|i: int| 0 <= i < prev.push(p).len() implies is_plain_name(
                #[trigger] prev.push(p)[i],
            ) by {
                if i < prev.len() {
                    assert(prev.push(p)[i] == prev[i]);
                }
            }
        }
    }
}

/// Going to the path that `pwd` prints (a `/` and the current directory
/// joined by `/`) returns to the current directory, from anywhere, where the
/// current directory holds plain names only.
pub proof fn law_cd_to_pwd(cwd: Seq<Seq<char>>, from: Seq<Seq<char>>)
    requires
        is_plain_path(cwd),
    ensures
        new_path(from, seq!['/'] + join(cwd, seq!['/'])) == cwd,
{
    let j = join(cwd, seq!['/']);
    let target = seq!['/'] + j;
    assert(target[0] == '/');
    assert(Seq::<char>::empty() + seq!['/'] + j =~= target);
    crate::text::lemma_split_on_concat(Seq::<char>::empty(), j, '/');
    let empty_piece: Seq<Seq<char>> = seq![Seq::<char>::empty()];
    assert(split_on(Seq::<char>::empty(), '/') == empty_piece);
    assert(normalize(Seq::empty(), empty_piece) == Seq::<Seq<char>>::empty()) by {
        assert(empty_piece.last().len() == 0);
        assert(empty_piece.drop_last() =~= Seq::<Seq<char>>::empty());
        assert(normalize(Seq::empty(), empty_piece.drop_last()) == Seq::<Seq<char>>::empty());
    }
    if cwd.len() == 0 {
        assert(j =~= Seq::<char>::empty());
        lemma_normalize_concat(Seq::empty(), empty_piece, empty_piece);
        assert(empty_piece + empty_piece =~= split_on(target, '/'));
    } else {
        crate::text::lemma_split_join(cwd, '/');
        lemma_normalize_concat(Seq::empty(), empty_piece, cwd);
        lemma_normalize_plain(Seq::empty(), cwd);
        assert(Seq::<Seq<char>>::empty() + cwd =~= cwd);
    }
}

/// `cd` keeps the current directory made of plain names.
pub proof fn law_new_path_plain(cwd: Seq<Seq<char>>, target: Seq<char>)
    requires
        is_plain_path(cwd),
    ensures
        is_plain_path(new_path(cwd, target)),
{
    crate::text::lemma_split_on_pieces(target, '/');
    let base = if target.len() > 0 && target[0] == '/' {
        Seq::<Seq<char>>::empty()
    } else {
        cwd
    };
    lemma_normalize_keeps_plain(base, split_on(target, '/'));
}

/// `.` stays, `..` leaves the last directory, and a plain name enters it;
/// entering a plain name and then `..` comes back.
pub proof fn law_new_path_steps(cwd: Seq<Seq<char>>, name: Seq<char>)
    ensures
        new_path(cwd, seq!['.']) == cwd,
        new_path(cwd, seq!['.', '.']) == if cwd.len() > 0 {
            cwd.drop_last()
        } else {
            cwd
        },
        is_plain_name(name) ==> new_path(cwd, name) == cwd.push(name),
        is_plain_name(name) ==> new_path(new_path(cwd, name), seq!['.', '.']) == cwd,
{
    let dot: Seq<char> = seq!['.'];
    let dots: Seq<char> = seq!['.', '.'];
    assert(!dot.contains('/')) by {
        if dot.contains('/') {
            let i = choose|i: int| 0 <= i < dot.len() && dot[i] == '/';
            assert(dot[i] == '.');
        }
    }
    assert(!dots.contains('/')) by {
        if dots.contains('/') {
            let i = choose|i: int| 0 <= i < dots.len() && dots[i] == '/';
            assert(dots[i] == '.');
        }
    }
    crate::text::lemma_split_on_single(dot, '/');
    crate::text::lemma_split_on_single(dots, '/');
    assert(seq![dot].drop_last() =~= Seq::<Seq<char>>::empty());
    assert(seq![dots].drop_last() =~= Seq::<Seq<char>>::empty());
    assert(seq![dot].last() == dot);
    assert(seq![dots].last() == dots);
    assert(dot[0] != '/');
    assert(dots[0] != '/');
    assert(normalize(cwd, seq![dot].drop_last()) == cwd);
    assert(normalize(cwd, seq![dots].drop_last()) == cwd);
    assert(new_path(cwd, dot) == normalize(cwd, seq![dot]));
    assert(new_path(cwd, dots) == normalize(cwd, seq![dots]));
    if is_plain_name(name) {
        crate::text::lemma_split_on_single(name, '/');
        assert(seq![name].drop_last() =~= Seq::<Seq<char>>::empty());
        assert(name[0] != '/') by {
            if name[0] == '/' {
                assert(name.contains('/'));
            }
        }
        assert(cwd.push(name).drop_last() =~= cwd);
        assert(seq![name].last() == name);
        assert(normalize(cwd, seq![name].drop_last()) == cwd);
        assert(new_path(cwd, name) == cwd.push(name));
        assert(new_path(cwd.push(name), dots) == normalize(cwd.push(name), seq![dots]));
        assert(normalize(cwd.push(name), seq![dots].drop_last()) == cwd.push(name));
    }
}

// ---------------------------------------------------------------------------
// Laws of the commands
// ---------------------------------------------------------------------------

/// `cd` succeeds exactly when the directory it computes resolves from the root
/// to an entity with at least one child, and then goes there.
pub proof fn law_cd_enters_directories(
    fs: ECSFileSystem,
    root: EntityId,
    cwd: Seq<Seq<char>>,
    args: Seq<Seq<char>>,
)
    ensures
        ({
            let np = new_path(cwd, cd_target(args));
            &&& (cd_outcome(fs, root, cwd, args) is Ok) <==> (fs.resolve(root, join(np, seq!['/']))
                matches Some(e) && fs.children_of(e).len() >= 1)
            &&& cd_outcome(fs, root, cwd, args) matches Ok(d) ==> d == np
        }),
{
}

/// `cd` goes to the first operand, or to the root without one.
pub proof fn law_cd_target(args: Seq<Seq<char>>)
    ensures
        (exists|i: int| 0 <= i < args.len() && !is_option(args[i])) ==> ({
            let i = choose|i: int| 0 <= i < args.len() && !is_option(args[i]) && forall|k: int|
                0 <= k < i ==> is_option(#[trigger] args[k]);
            cd_target(args) == args[i]
        }),
        (forall|i: int| 0 <= i < args.len() ==> is_option(#[trigger] args[i])) ==> cd_target(args)
            == seq!['/'],
    decreases args.len(),
{
    lemma_operands_all(args);
    if exists|i: int| 0 <= i < args.len() && !is_option(args[i]) {
        let i0 = choose|i: int| 0 <= i < args.len() && !is_option(args[i]);
        lemma_first_operand_exists(args, i0);
        let i = choose|i: int| 0 <= i < args.len() && !is_option(args[i]) && forall|k: int|
            0 <= k < i ==> is_option(#[trigger] args[k]);
        assert(operands(args.take(i)).len() == 0) by {
            lemma_operands_all(args.take(i));
        }
        lemma_operands_first(args, i);
    }
}

proof fn lemma_operands_all(args: Seq<Seq<char>>)
    ensures
        (operands(args).len() == 0) <==> (forall|i: int| 0 <= i < args.len() ==> is_option(#[trigger] args[i])),
    decreases args.len(),
{
    if args.len() > 0 {
        lemma_operands_all(args.drop_last());
        if forall|i: int| 0 <= i < args.len() ==> is_option(#[trigger] args[i]) {
            assert forall|i: int| 0 <= i < args.drop_last().len() implies is_option(#[trigger] args.drop_last()[i]) by {
                assert(is_option(args[i]));
            }
            assert(is_option(args[args.len() - 1]));
        }
        if operands(args).len() == 0 {
            assert forall|i: int| 0 <= i < args.len() implies is_option(#[trigger] args[i]) by {
                if i < args.len() - 1 {
                    assert(args.drop_last()[i] == args[i]);
                }
            }
        }
    }
}

proof fn lemma_first_operand_exists(args: Seq<Seq<char>>, i0: int)
    requires
        0 <= i0 < args.len(),
        !is_option(args[i0]),
    ensures
        exists|i: int| 0 <= i < args.len() && !is_option(args[i]) && forall|k: int|
            0 <= k < i ==> is_option(#[trigger] args[k]),
    decreases i0,
{
    if exists|k: int| 0 <= k < i0 && !is_option(args[k]) {
        let k = choose|k: int| 0 <= k < i0 && !is_option(args[k]);
        lemma_first_operand_exists(args, k);
    } else {
        assert forall|k: int| 0 <= k < i0 implies is_option(#[trigger] args[k]) by {}
    }
}

/// The paths at which `ls -R` lists the subdirectories of a directory listed
/// at `path`: `path`, `/` and the name (only the name below `.`), each a shown
/// child of the directory that has children.
pub proof fn law_ls_subdirectory_paths(fs: ECSFileSystem, flags: Set<LsFlags>, path: Seq<char>, e: EntityId)
    ensures
        forall|j: int| 0 <= j < ls_subdirs(fs, flags, path, e).len() ==> {
            let (p, k) = #[trigger] ls_subdirs(fs, flags, path, e)[j];
            &&& fs.children_of(e).contains(k)
            &&& fs.children_of(k).len() > 0
            &&& flags.contains(LsFlags::Recursive)
            &&& p == if path == seq!['.'] {
                fs.display_name(k)
            } else {
                path + seq!['/'] + fs.display_name(k)
            }
        },
{
    if !flags.contains(LsFlags::Directory) {
        lemma_subdirectory_paths(fs, flags, path, fs.children_of(e));
    }
}

proof fn lemma_subdirectory_paths(fs: ECSFileSystem, flags: Set<LsFlags>, path: Seq<char>, kids: Seq<EntityId>)
    ensures
        forall|j: int| 0 <= j < subdirectories(fs, flags, path, kids).len() ==> {
            let (p, k) = #[trigger] subdirectories(fs, flags, path, kids)[j];
            &&& kids.contains(k)
            &&& fs.children_of(k).len() > 0
            &&& flags.contains(LsFlags::Recursive)
            &&& p == if path == seq!['.'] {
                fs.display_name(k)
            } else {
                path + seq!['/'] + fs.display_name(k)
            }
        },
    decreases kids.len(),
{
    if kids.len() > 0 {
        lemma_subdirectory_paths(fs, flags, path, kids.drop_last());
        let prev = subdirectories(fs, flags, path, kids.drop_last());
        let cur = subdirectories(fs, flags, path, kids);
        assert forall|j: int| 0 <= j < cur.len() implies {
            let (p, k) = #[trigger] cur[j];
            &&& kids.contains(k)
            &&& fs.children_of(k).len() > 0
            &&& flags.contains(LsFlags::Recursive)
            &&& p == if path == seq!['.'] {
                fs.display_name(k)
            } else {
                path + seq!['/'] + fs.display_name(k)
            }
        } by {
            if j < prev.len() {
                assert(cur[j] == prev[j]);
                let k = prev[j].1;
                assert(kids.drop_last().contains(k));
                let m = choose|m: int| 0 <= m < kids.drop_last().len() && kids.drop_last()[m] == k;
                assert(kids[m] == k);
            } else {
                assert(kids[kids.len() - 1] == kids.last());
            }
        }
    }
}

/// The option arguments, in order.
pub open spec fn options_of(args: Seq<Seq<char>>) -> Seq<Seq<char>>
    decreases args.len(),
{
    if args.len() == 0 {
        Seq::empty()
    } else if is_option(args.last()) {
        options_of(args.drop_last()).push(args.last())
    } else {
        options_of(args.drop_last())
    }
}

proof fn lemma_options_of(args: Seq<Seq<char>>)
    ensures
        operands(options_of(args)) == Seq::<Seq<char>>::empty(),
        args_flags(options_of(args), cat_flag_fn()) == args_flags(args, cat_flag_fn()),
    decreases args.len(),
{
    if args.len() > 0 {
        lemma_options_of(args.drop_last());
        if is_option(args.last()) {
            let o = options_of(args.drop_last()).push(args.last());
            assert(o.drop_last() =~= options_of(args.drop_last()));
        }
    }
}

/// Naming one more file to `cat` adds, on a line of its own, exactly what
/// `cat` prints for that file alone with the same options: every file is
/// printed under the same flags, however many are named.
pub proof fn law_cat_each_file(
    fs: ECSFileSystem,
    root: EntityId,
    cwd: Seq<Seq<char>>,
    args: Seq<Seq<char>>,
    path: Seq<char>,
)
    requires
        operands(args).len() > 0,
        !is_option(path),
    ensures
        cat_output(fs, root, cwd, args.push(path)) == cat_output(fs, root, cwd, args) + seq!['\n']
            + cat_output(fs, root, cwd, options_of(args).push(path)),
{
    let more = args.push(path);
    assert(more.drop_last() =~= args);
    let flags = args_flags(args, cat_flag_fn());
    assert(args_flags(more, cat_flag_fn()) == flags);
    assert(operands(more) == operands(args).push(path));
    let f = |p: Seq<char>| cat_one(fs, root, cwd, p, flags);
    let blocks = operands(args).map_values(f);
    assert(operands(more).map_values(f) =~= blocks.push(f(path)));
    assert(blocks.push(f(path)).drop_last() =~= blocks);
    lemma_options_of(args);
    let single = options_of(args).push(path);
    assert(single.drop_last() =~= options_of(args));
    assert(args_flags(single, cat_flag_fn()) == flags);
    assert(operands(single) =~= seq![path]);
    assert(operands(single).map_values(f) =~= seq![f(path)]);
}

proof fn lemma_child_entries(fs: ECSFileSystem, flags: Set<LsFlags>, kids: Seq<EntityId>)
    ensures
        forall|j: int| 0 <= j < child_entries(fs, flags, kids).len() ==> {
            let (n, k) = #[trigger] child_entries(fs, flags, kids)[j];
            &&& kids.contains(k)
            &&& n == fs.display_name(k)
            &&& (flags.contains(LsFlags::ShowAll) || !(n.len() > 0 && n[0] == '.'))
        },
        forall|i: int| 0 <= i < kids.len() && (flags.contains(LsFlags::ShowAll) || !(fs.display_name(
            kids[i],
        ).len() > 0 && fs.display_name(kids[i])[0] == '.')) ==> child_entries(fs, flags, kids).contains(
            (fs.display_name(#[trigger] kids[i]), kids[i]),
        ),
    decreases kids.len(),
{
    if kids.len() > 0 {
        let init = kids.drop_last();
        lemma_child_entries(fs, flags, init);
        let prev = child_entries(fs, flags, init);
        let cur = child_entries(fs, flags, kids);
        assert forall|j: int| 0 <= j < cur.len() implies {
            let (n, k) = #[trigger] cur[j];
            &&& kids.contains(k)
            &&& n == fs.display_name(k)
            &&& (flags.contains(LsFlags::ShowAll) || !(n.len() > 0 && n[0] == '.'))
        } by {
            if j < prev.len() {
                assert(cur[j] == prev[j]);
                let k = prev[j].1;
                assert(init.contains(k));
                let m = choose|m: int| 0 <= m < init.len() && init[m] == k;
                assert(kids[m] == k);
            } else {
                assert(kids[kids.len() - 1] == kids.last());
            }
        }
        assert forall|i: int| 0 <= i < kids.len() && (flags.contains(LsFlags::ShowAll) || !(
        fs.display_name(kids[i]).len() > 0 && fs.display_name(kids[i])[0] == '.')) implies cur.contains(
            (fs.display_name(#[trigger] kids[i]), kids[i]),
        ) by {
            if i < kids.len() - 1 {
                assert(init[i] == kids[i]);
                let x = (fs.display_name(kids[i]), kids[i]);
                assert(prev.contains(x));
                let m = choose|m: int| 0 <= m < prev.len() && prev[m] == x;
                assert(cur[m] == x);
            } else {
                assert(cur[cur.len() - 1] == (fs.display_name(kids[i]), kids[i]));
            }
        }
    }
}

/// What `ls` lists for a directory (without `-d`): with `-a`, first `.` for
/// the directory and `..` for its parent (itself without one); then its
/// children under their names, each child that is shown and only those: all
/// with `-a`, else those whose name does not start with a dot.
pub proof fn law_ls_entries(fs: ECSFileSystem, flags: Set<LsFlags>, path: Seq<char>, e: EntityId)
    requires
        !flags.contains(LsFlags::Directory),
    ensures
        ({
            let es = ls_entries(fs, flags, path, e);
            let kids = fs.children_of(e);
            let extra: int = if flags.contains(LsFlags::ShowAll) { 2 } else { 0 };
            &&& flags.contains(LsFlags::ShowAll) ==> es[0] == (seq!['.'], e) && es[1] == (
                seq!['.', '.'],
                match fs.parent_of(e) {
                    Some(p) => p,
                    None => e,
                },
            )
            &&& forall|j: int| extra <= j < es.len() ==> {
                let (n, k) = #[trigger] es[j];
                &&& kids.contains(k)
                &&& n == fs.display_name(k)
                &&& (flags.contains(LsFlags::ShowAll) || !(n.len() > 0 && n[0] == '.'))
            }
            &&& forall|i: int| 0 <= i < kids.len() && (flags.contains(LsFlags::ShowAll) || !(
            fs.display_name(kids[i]).len() > 0 && fs.display_name(kids[i])[0] == '.')) ==> es.contains(
                (fs.display_name(#[trigger] kids[i]), kids[i]),
            )
        }),
{
    let kids = fs.children_of(e);
    let ce = child_entries(fs, flags, kids);
    lemma_child_entries(fs, flags, kids);
    let es = ls_entries(fs, flags, path, e);
    let head: Seq<(Seq<char>, EntityId)> = if flags.contains(LsFlags::ShowAll) {
        seq![
            (seq!['.'], e),
            (seq!['.', '.'], match fs.parent_of(e) {
                Some(p) => p,
                None => e,
            }),
        ]
    } else {
        Seq::empty()
    };
    assert(es == head + ce);
    assert forall|j: int| head.len() <= j < es.len() implies {
        let (n, k) = #[trigger] es[j];
        &&& kids.contains(k)
        &&& n == fs.display_name(k)
        &&& (flags.contains(LsFlags::ShowAll) || !(n.len() > 0 && n[0] == '.'))
    } by {
        assert(es[j] == ce[j - head.len()]);
    }
    assert forall|i: int| 0 <= i < kids.len() && (flags.contains(LsFlags::ShowAll) || !(
    fs.display_name(kids[i]).len() > 0 && fs.display_name(kids[i])[0] == '.')) implies es.contains(
        (fs.display_name(#[trigger] kids[i]), kids[i]),
    ) by {
        let x = (fs.display_name(kids[i]), kids[i]);
        assert(ce.contains(x));
        let m = choose|m: int| 0 <= m < ce.len() && ce[m] == x;
        assert(es[m + head.len()] == x);
    }
}

} // verus!
