//! Which editor opens the plan, and whether it runs in the terminal or in its own window.
use vstd::prelude::*;

use crate::config::{AppConfig, EditorCommand, EditorMode};
use crate::paths::{path_file_name, path_file_name_of};
use crate::schedule::{copy_strings, strs};
use crate::text::{push_str, str_eq};

verus! {

#[verifier::external_type_specification]
#[verifier::external_body]
pub struct ExShellParseError(shell_words::ParseError);

#[derive(Clone, Copy, Debug, PartialEq, Eq, Structural)]
pub enum EditorKind {
    Gui,
    Tty,
}

/// The words of the editor's command and how it runs.
#[derive(Clone, Debug)]
pub struct ResolvedEditor {
    pub argv: Vec<String>,
    pub kind: EditorKind,
}

/// What opening the editor came to.
#[derive(Clone, Copy, Debug, PartialEq, Eq, Structural)]
pub enum LaunchResult {
    Detached,
    Waited,
    Missing,
}

/// A command line that does not split into words: the configured one, `VISUAL` or `EDITOR`.
#[derive(Clone, Copy, Debug, PartialEq, Eq, Structural)]
pub enum EditorError {
    Command,
    Visual,
    Editor,
}

pub open spec fn editor_error_text(e: EditorError) -> Seq<char> {
    match e {
        EditorError::Command => "invalid editor command"@,
        EditorError::Visual => "invalid VISUAL"@,
        EditorError::Editor => "invalid EDITOR"@,
    }
}

impl EditorError {
    pub fn message(&self) -> (s: String)
        ensures
            s@ == editor_error_text(*self),
    {
        let mut out = String::new();
        match self {
            EditorError::Command => push_str(&mut out, "invalid editor command"),
            EditorError::Visual => push_str(&mut out, "invalid VISUAL"),
            EditorError::Editor => push_str(&mut out, "invalid EDITOR"),
        }
        out
    }
}

/// What `shell_words::split` returns for `s`: the words, or none when the quoting is broken.
pub uninterp spec fn shell_split_of(s: Seq<char>) -> Option<Seq<Seq<char>>>;

/// `shell_words::split`, which splits a command line into words as a POSIX shell would,
/// without expansions. The words are named by `shell_split_of`.
#[verifier::external_body]
fn shell_split(s: &str) -> (r: Result<Vec<String>, shell_words::ParseError>)
    ensures
        match r {
            Ok(v) => shell_split_of(s@) == Some(strs(v@)),
            Err(_) => shell_split_of(s@) is None,
        },
{
    shell_words::split(s)
}

/// The words of `s`, or `err` when it does not split.
fn split_words(s: &str, err: EditorError) -> (r: Result<Vec<String>, EditorError>)
    ensures
        match r {
            Ok(v) => shell_split_of(s@) == Some(strs(v@)),
            Err(e) => shell_split_of(s@) is None && e == err,
        },
{
    match shell_split(s) {
        Ok(v) => Ok(v),
        Err(_) => Err(err),
    }
}

/// Editors that open a window of their own.
pub open spec fn gui_editor_names() -> Seq<Seq<char>> {
    seq!["code"@, "codium"@, "subl"@, "kate"@, "gedit"@, "code-insiders"@]
}

/// Editors that run in the terminal.
pub open spec fn tty_editor_names() -> Seq<Seq<char>> {
    seq!["vi"@, "vim"@, "nvim"@, "nano"@, "pico"@, "emacs"@, "hx"@, "helix"@, "micro"@, "ed"@]
}

/// The editors tried when none is configured, in order: the windowed ones, then these.
pub open spec fn fallback_editor_names() -> Seq<Seq<char>> {
    seq!["vi"@, "nano"@]
}

fn names(list: &[&str]) -> (v: Vec<String>)
    ensures
        strs(v@) == list@.map_values(|s: &str| s@),
{
    let mut v: Vec<String> = Vec::new();
    let mut i: usize = 0;
    while i < list.len()
        invariant
            i <= list@.len(),
            strs(v@) == list@.take(i as int).map_values(|s: &str| s@),
        decreases list.len() - i,
    {
        let mut s = String::new();
        push_str(&mut s, list[i]);
        v.push(s);
        proof {
            assert(list@.take(i + 1).map_values(|s: &str| s@) =~= list@.take(i as int).map_values(|s: &str| s@).push(
                list@[i as int]@,
            ));
        }
        i += 1;
    }
    assert(list@.take(i as int) =~= list@);
    v
}

/// See `gui_editor_names`.
pub fn gui_editors() -> (v: Vec<String>)
    ensures
        strs(v@) == gui_editor_names(),
{
    let v = names(&["code", "codium", "subl", "kate", "gedit", "code-insiders"]);
    assert(strs(v@) =~= gui_editor_names());
    v
}

/// See `tty_editor_names`.
pub fn tty_editors() -> (v: Vec<String>)
    ensures
        strs(v@) == tty_editor_names(),
{
    let v = names(&["vi", "vim", "nvim", "nano", "pico", "emacs", "hx", "helix", "micro", "ed"]);
    assert(strs(v@) =~= tty_editor_names());
    v
}

/// See `fallback_editor_names`.
pub fn fallback_editors() -> (v: Vec<String>)
    ensures
        strs(v@) == fallback_editor_names(),
{
    let v = names(&["vi", "nano"]);
    assert(strs(v@) =~= fallback_editor_names());
    v
}

/// The first of `candidates` that `found` holds.
pub open spec fn first_found(candidates: Seq<Seq<char>>, found: Seq<Seq<char>>) -> Option<Seq<char>>
    decreases candidates.len(),
{
    if candidates.len() == 0 {
        None
    } else if found.contains(candidates[0]) {
        Some(candidates[0])
    } else {
        first_found(candidates.drop_first(), found)
    }
}

fn contains_text(list: &Vec<String>, s: &str) -> (b: bool)
    ensures
        b == strs(list@).contains(s@),
{
    let mut i: usize = 0;
    while i < list.len()
        invariant
            i <= list@.len(),
            forall|k: int| 0 <= k < i ==> list@[k]@ != s@,
        decreases list.len() - i,
    {
        if str_eq(list[i].as_str(), s) {
            assert(strs(list@)[i as int] == s@);
            return true;
        }
        i += 1;
    }
    proof {
        if strs(list@).contains(s@) {
            let k = choose|k: int| 0 <= k < strs(list@).len() && strs(list@)[k] == s@;
            assert(list@[k]@ == s@);
        }
    }
    false
}

fn find_first(candidates: &Vec<String>, found: &Vec<String>) -> (r: Option<String>)
    ensures
        match r {
            Some(s) => first_found(strs(candidates@), strs(found@)) == Some(s@),
            None => first_found(strs(candidates@), strs(found@)) is None,
        },
{
    let mut i: usize = 0;
    assert(strs(candidates@).skip(0) =~= strs(candidates@));
    while i < candidates.len()
        invariant
            i <= candidates@.len(),
            first_found(strs(candidates@), strs(found@)) == first_found(strs(candidates@).skip(i as int), strs(found@)),
        decreases candidates.len() - i,
    {
        let ghost rest = strs(candidates@).skip(i as int);
        proof {
            assert(rest[0] == candidates@[i as int]@);
            assert(rest.drop_first() =~= strs(candidates@).skip(i + 1));
        }
        if contains_text(found, candidates[i].as_str()) {
            return Some(candidates[i].clone());
        }
        i += 1;
    }
    proof {
        assert(strs(candidates@).skip(i as int) =~= Seq::<Seq<char>>::empty());
    }
    None
}

pub open spec fn command_view(c: Option<EditorCommand>) -> Option<Result<Seq<Seq<char>>, Seq<char>>> {
    match c {
        Some(EditorCommand::Args(a)) => Some(Ok(strs(a@))),
        Some(EditorCommand::String(s)) => Some(Err(s@)),
        None => None,
    }
}

/// The words from the configuration (marked as chosen there), else from `VISUAL`, else
/// from `EDITOR`; a set variable whose words are none passes on to the next.
pub open spec fn chosen_words(
    command: Option<Result<Seq<Seq<char>>, Seq<char>>>,
    visual: Option<Seq<char>>,
    editor: Option<Seq<char>>,
) -> Result<(Seq<Seq<char>>, bool), EditorError> {
    let with_visual = variable_words(configured_words(command), visual, EditorError::Visual);
    variable_words(with_visual, editor, EditorError::Editor)
}

/// The configured editor's words, marked as chosen.
pub open spec fn configured_words(command: Option<Result<Seq<Seq<char>>, Seq<char>>>) -> Result<(Seq<Seq<char>>, bool), EditorError> {
    match command {
        Some(Ok(words)) => Ok((words, true)),
        Some(Err(line)) => match shell_split_of(line) {
            Some(words) => Ok((words, true)),
            None => Err(EditorError::Command),
        },
        None => Ok((Seq::empty(), false)),
    }
}

pub open spec fn variable_words(
    current: Result<(Seq<Seq<char>>, bool), EditorError>,
    var: Option<Seq<char>>,
    err: EditorError,
) -> Result<(Seq<Seq<char>>, bool), EditorError> {
    match current {
        Ok((words, explicit)) => if words.len() == 0 && var is Some {
            match shell_split_of(var->Some_0) {
                Some(w) => Ok((w, explicit)),
                None => Err(err),
            }
        } else {
            current
        },
        Err(e) => Err(e),
    }
}

/// With no words yet: a windowed editor found on the path when windows are allowed (the
/// mode asks for them, or it does not forbid them and the session is not remote), else
/// `vi` or `nano` when found.
pub open spec fn with_fallback(words: Seq<Seq<char>>, mode: EditorMode, headless: bool, found: Seq<Seq<char>>) -> Seq<Seq<char>> {
    let gui_allowed = mode == EditorMode::Gui || (!headless && mode != EditorMode::Tty);
    if words.len() > 0 {
        words
    } else {
        let gui = if gui_allowed {
            first_found(gui_editor_names(), found)
        } else {
            None
        };
        match gui {
            Some(n) => seq![n],
            None => match first_found(fallback_editor_names(), found) {
                Some(n) => seq![n],
                None => Seq::empty(),
            },
        }
    }
}

/// How the editor runs: by its program's name, unless the mode says; a windowed editor
/// that nobody chose runs in the terminal over a remote session.
pub open spec fn editor_kind_of(program: Seq<char>, mode: EditorMode, headless: bool, explicit: bool) -> EditorKind {
    let base = match path_file_name_of(program) {
        Some(b) => b,
        None => program,
    };
    let by_name = if tty_editor_names().contains(base) {
        EditorKind::Tty
    } else if gui_editor_names().contains(base) {
        EditorKind::Gui
    } else {
        EditorKind::Tty
    };
    let by_mode = match mode {
        EditorMode::Gui => EditorKind::Gui,
        EditorMode::Tty => EditorKind::Tty,
        EditorMode::Auto => by_name,
    };
    if headless && by_mode == EditorKind::Gui && !explicit && mode == EditorMode::Auto {
        EditorKind::Tty
    } else {
        by_mode
    }
}

/// The editor: its words and kind, none when nothing was found, or the error of a command
/// line that does not split.
pub open spec fn resolved_of(
    command: Option<Result<Seq<Seq<char>>, Seq<char>>>,
    mode: EditorMode,
    visual: Option<Seq<char>>,
    editor: Option<Seq<char>>,
    headless: bool,
    found: Seq<Seq<char>>,
) -> Result<Option<(Seq<Seq<char>>, EditorKind)>, EditorError> {
    match chosen_words(command, visual, editor) {
        Err(e) => Err(e),
        Ok((words, explicit)) => {
            let argv = with_fallback(words, mode, headless, found);
            if argv.len() == 0 {
                Ok(None)
            } else {
                Ok(Some((argv, editor_kind_of(argv[0], mode, headless, explicit))))
            }
        },
    }
}

/// A session over SSH, unless the terminal is VS Code's.
pub open spec fn headless_remote_of(ssh: bool, term_program: Option<Seq<char>>) -> bool {
    ssh && term_program != Some("vscode"@)
}

/// See `headless_remote_of`; `ssh` tells whether any of `SSH_CONNECTION`, `SSH_CLIENT`
/// and `SSH_TTY` is set.
pub fn is_headless_remote(ssh: bool, term_program: Option<&str>) -> (b: bool)
    ensures
        b == headless_remote_of(ssh, match term_program {
            Some(t) => Some(t@),
            None => None,
        }),
{
    match term_program {
        Some(t) => ssh && !str_eq(t, "vscode"),
        None => ssh,
    }
}

pub open spec fn opt_view(o: Option<String>) -> Option<Seq<char>> {
    match o {
        Some(s) => Some(s@),
        None => None,
    }
}

fn variable_step(words: Vec<String>, explicit: bool, var: &Option<String>, err: EditorError) -> (r: Result<(Vec<String>, bool), EditorError>)
    ensures
        match (r, variable_words(Ok((strs(words@), explicit)), opt_view(*var), err)) {
            (Ok((v, x)), Ok((w, y))) => strs(v@) == w && x == y,
            (Err(e), Err(f)) => e == f,
            _ => false,
        },
{
    if words.len() == 0 {
        if let Some(line) = var {
            return match split_words(line.as_str(), err) {
                Ok(w) => Ok((w, explicit)),
                Err(e) => Err(e),
            };
        }
    }
    Ok((words, explicit))
}

/// Finds the editor (see `resolved_of`) from the configuration, the values of `VISUAL`
/// and `EDITOR`, whether the session is remote, and the candidate programs found on the path.
pub fn resolve_editor(
    config: &AppConfig,
    visual: &Option<String>,
    editor: &Option<String>,
    headless: bool,
    found: &Vec<String>,
) -> (r: Result<Option<ResolvedEditor>, EditorError>)
    ensures
        match (r, resolved_of(command_view(config.editor), config.editor_mode, opt_view(*visual), opt_view(*editor), headless, strs(found@))) {
            (Ok(Some(e)), Ok(Some((argv, kind)))) => strs(e.argv@) == argv && e.kind == kind,
            (Ok(None), Ok(None)) => true,
            (Err(e), Err(f)) => e == f,
            _ => false,
        },
{
    let (words, explicit) = match &config.editor {
        Some(EditorCommand::Args(args)) => (copy_strings(args), true),
        Some(EditorCommand::String(line)) => match split_words(line.as_str(), EditorError::Command) {
            Ok(w) => (w, true),
            Err(e) => return Err(e),
        },
        None => {
            let v: Vec<String> = Vec::new();
            assert(strs(v@) =~= Seq::<Seq<char>>::empty());
            (v, false)
        },
    };
    let ghost cmd = command_view(config.editor);
    assert(configured_words(cmd) == Ok::<(Seq<Seq<char>>, bool), EditorError>((strs(words@), explicit)));
    let (words, explicit) = match variable_step(words, explicit, visual, EditorError::Visual) {
        Ok(p) => p,
        Err(e) => return Err(e),
    };
    let ghost step1 = variable_words(configured_words(cmd), opt_view(*visual), EditorError::Visual);
    assert(step1 == Ok::<(Seq<Seq<char>>, bool), EditorError>((strs(words@), explicit)));
    let (words, explicit) = match variable_step(words, explicit, editor, EditorError::Editor) {
        Ok(p) => p,
        Err(e) => return Err(e),
    };
    assert(chosen_words(cmd, opt_view(*visual), opt_view(*editor)) == Ok::<(Seq<Seq<char>>, bool), EditorError>((strs(words@), explicit)));
    let mode = config.editor_mode;
    let gui_allowed = mode == EditorMode::Gui || (!headless && mode != EditorMode::Tty);
    let mut argv = words;
    if argv.len() == 0 {
        let gui = if gui_allowed {
            find_first(&gui_editors(), found)
        } else {
            None
        };
        let pick = match gui {
            Some(n) => Some(n),
            None => find_first(&fallback_editors(), found),
        };
        if let Some(n) = pick {
            argv.push(n);
        }
        proof {
            assert(strs(argv@) =~= with_fallback(Seq::empty(), mode, headless, strs(found@)));
        }
    }
    if argv.len() == 0 {
        return Ok(None);
    }
    let base = match path_file_name(argv[0].as_str()) {
        Some(b) => b,
        None => argv[0].clone(),
    };
    let by_name = if contains_text(&tty_editors(), base.as_str()) {
        EditorKind::Tty
    } else if contains_text(&gui_editors(), base.as_str()) {
        EditorKind::Gui
    } else {
        EditorKind::Tty
    };
    let by_mode = match mode {
        EditorMode::Gui => EditorKind::Gui,
        EditorMode::Tty => EditorKind::Tty,
        EditorMode::Auto => by_name,
    };
    let kind = if headless && by_mode == EditorKind::Gui && !explicit && mode == EditorMode::Auto {
        EditorKind::Tty
    } else {
        by_mode
    };
    assert(strs(argv@)[0] == argv@[0]@);
    Ok(Some(ResolvedEditor { argv, kind }))
}

/// The program's name without its directory.
pub open spec fn basename_of(command: Seq<char>) -> Seq<char> {
    match path_file_name_of(command) {
        Some(b) => b,
        None => command,
    }
}

/// See `basename_of`.
pub fn basename(command: &str) -> (r: String)
    ensures
        r@ == basename_of(command@),
{
    match path_file_name(command) {
        Some(b) => b,
        None => {
            let mut s = String::new();
            push_str(&mut s, command);
            s
        },
    }
}

/// The terminal multiplexer to open a pane in: the first of tmux, zellij, kitty and
/// wezterm whose variable is set, with the words that open a pane.
pub open spec fn multiplexer_of(tmux: bool, zellij: bool, kitty: bool, wezterm: bool) -> Option<Seq<Seq<char>>> {
    if tmux {
        Some(seq!["tmux"@, "split-window"@, "-h"@])
    } else if zellij {
        Some(seq!["zellij"@, "action"@, "new-pane"@, "--"@])
    } else if kitty {
        Some(seq!["kitty"@, "@"@, "launch"@, "--type=tab"@])
    } else if wezterm {
        Some(seq!["wezterm"@, "cli"@, "spawn"@, "--new-tab"@])
    } else {
        None
    }
}

/// See `multiplexer_of`: `tmux` tells whether `TMUX` is set, `zellij` `ZELLIJ`, `kitty`
/// `KITTY_WINDOW_ID` and `wezterm` `WEZTERM_PANE`.
pub fn multiplexer_command(tmux: bool, zellij: bool, kitty: bool, wezterm: bool) -> (r: Option<Vec<String>>)
    ensures
        match (r, multiplexer_of(tmux, zellij, kitty, wezterm)) {
            (Some(v), Some(w)) => strs(v@) == w,
            (None, None) => true,
            _ => false,
        },
{
    if tmux {
        let v = names(&["tmux", "split-window", "-h"]);
        assert(strs(v@) =~= seq!["tmux"@, "split-window"@, "-h"@]);
        Some(v)
    } else if zellij {
        let v = names(&["zellij", "action", "new-pane", "--"]);
        assert(strs(v@) =~= seq!["zellij"@, "action"@, "new-pane"@, "--"@]);
        Some(v)
    } else if kitty {
        let v = names(&["kitty", "@", "launch", "--type=tab"]);
        assert(strs(v@) =~= seq!["kitty"@, "@"@, "launch"@, "--type=tab"@]);
        Some(v)
    } else if wezterm {
        let v = names(&["wezterm", "cli", "spawn", "--new-tab"]);
        assert(strs(v@) =~= seq!["wezterm"@, "cli"@, "spawn"@, "--new-tab"@]);
        Some(v)
    } else {
        None
    }
}

} // verus!
