//! The decisions of the interactive plan view: what a key or the mouse wheel does to
//! the view, and the texts that the view shows around the list.
use vstd::prelude::*;

use crate::controller::{count_changes, count_trash, operation_counts};
use crate::model::{OpKind, Operation};
use crate::preview::{
    at_least_one, clamped_h, clamped_scroll, first_from, match_message, max_scroll, moved, prepared_list,
    prepared_views, rows_upto, rows_view, same_content, sat_mul, scroll_target, scroll_to_row, scrolled,
    search_list, wf, line_view, Preview, Span, SpanStyle, SpanV,
};
use crate::schedule::{join_strings, join_with};
use crate::text::{decimal, push_decimal, push_str};

verus! {

/// A key as the view reads it.
#[derive(Clone, Copy, Debug, PartialEq, Eq, Structural)]
pub enum Key {
    Char(char),
    Esc,
    Enter,
    Backspace,
    Up,
    Down,
    Left,
    Right,
    PageUp,
    PageDown,
    Home,
    End,
    Other,
}

/// A key with the modifiers that the view tells apart.
#[derive(Clone, Copy, Debug, PartialEq, Eq, Structural)]
pub struct KeyPress {
    pub key: Key,
    pub ctrl: bool,
    pub alt: bool,
}

/// What the view hands back to the loop that runs it.
#[derive(Clone, Copy, Debug, PartialEq, Eq, Structural)]
pub enum LoopAction {
    Execute,
    Cancel,
    OpenEditor,
    Reset,
}

/// The question the view is waiting on, if any.
#[derive(Clone, Copy, Debug, PartialEq, Eq, Structural)]
pub enum Confirm {
    Idle,
    Trash,
    Reset,
}

/// The line being typed, if any.
#[derive(Clone, Copy, Debug, PartialEq, Eq, Structural)]
pub enum Prompt {
    Inactive,
    Search,
    Filter,
}

/// A turn of the mouse wheel.
#[derive(Clone, Copy, Debug, PartialEq, Eq, Structural)]
pub enum Wheel {
    Down,
    Up,
    Right,
    Left,
    Other,
}

/// What a key asks of the view.
#[derive(Clone, Copy, Debug, PartialEq, Eq, Structural)]
pub enum Command {
    Quit(LoopAction),
    Confirmed,
    Declined,
    HalfPages(isize),
    Lines(isize),
    Pages(isize),
    Start,
    Finish,
    Pan(isize),
    AskReset,
    Execute,
    StartPrompt(Prompt),
    Jump(bool),
    Help,
    PromptCancel,
    PromptKeep,
    PromptPop,
    PromptPush(char),
    Nothing,
}

/// The keys of a prompt: Ctrl-d/u scroll by half pages, arrows and paging keys scroll,
/// Esc clears, Enter keeps, Backspace and plain characters edit.
pub open spec fn prompt_command(k: KeyPress) -> Command {
    if k.ctrl {
        if k.key == Key::Char('d') {
            Command::HalfPages(1isize)
        } else if k.key == Key::Char('u') {
            Command::HalfPages(-1isize)
        } else {
            Command::Nothing
        }
    } else {
        match k.key {
            Key::Esc => Command::PromptCancel,
            Key::Enter => Command::PromptKeep,
            Key::Backspace => Command::PromptPop,
            Key::Down => Command::Lines(1isize),
            Key::Up => Command::Lines(-1isize),
            Key::PageDown => Command::Pages(1isize),
            Key::PageUp => Command::Pages(-1isize),
            Key::Home => Command::Start,
            Key::End => Command::Finish,
            Key::Right => Command::Pan(1isize),
            Key::Left => Command::Pan(-1isize),
            Key::Char(c) => if k.alt {
                Command::Nothing
            } else {
                Command::PromptPush(c)
            },
            _ => Command::Nothing,
        }
    }
}

/// The keys of the list.
pub open spec fn list_command(k: KeyPress) -> Command {
    if k.ctrl {
        if k.key == Key::Char('d') {
            Command::HalfPages(1isize)
        } else if k.key == Key::Char('u') {
            Command::HalfPages(-1isize)
        } else {
            Command::Nothing
        }
    } else {
        match k.key {
            Key::Esc => Command::Quit(LoopAction::Cancel),
            Key::Down => Command::Lines(1isize),
            Key::Up => Command::Lines(-1isize),
            Key::PageDown => Command::Pages(1isize),
            Key::PageUp => Command::Pages(-1isize),
            Key::Home => Command::Start,
            Key::End => Command::Finish,
            Key::Right => Command::Pan(1isize),
            Key::Left => Command::Pan(-1isize),
            Key::Char(c) => char_command(c),
            _ => Command::Nothing,
        }
    }
}

pub open spec fn char_command(c: char) -> Command {
    if c == 'c' || c == 'q' {
        Command::Quit(LoopAction::Cancel)
    } else if c == 'o' {
        Command::Quit(LoopAction::OpenEditor)
    } else if c == 'r' {
        Command::AskReset
    } else if c == 'e' {
        Command::Execute
    } else if c == '/' {
        Command::StartPrompt(Prompt::Search)
    } else if c == 'f' {
        Command::StartPrompt(Prompt::Filter)
    } else if c == 'n' {
        Command::Jump(true)
    } else if c == 'N' {
        Command::Jump(false)
    } else if c == '?' {
        Command::Help
    } else if c == 'j' {
        Command::Lines(1isize)
    } else if c == 'k' {
        Command::Lines(-1isize)
    } else if c == ' ' {
        Command::Pages(1isize)
    } else if c == 'g' {
        Command::Start
    } else if c == 'G' {
        Command::Finish
    } else if c == 'l' {
        Command::Pan(1isize)
    } else if c == 'h' {
        Command::Pan(-1isize)
    } else {
        Command::Nothing
    }
}

/// What a key asks: Ctrl-c always quits; a pending question takes `y` or `Y` as yes and
/// any other key as no; then the prompt's keys, then the list's.
pub open spec fn key_command(confirm: Confirm, prompt: Prompt, k: KeyPress) -> Command {
    if k.ctrl && k.key == Key::Char('c') {
        Command::Quit(LoopAction::Cancel)
    } else if confirm != Confirm::Idle {
        if k.key == Key::Char('y') || k.key == Key::Char('Y') {
            Command::Confirmed
        } else {
            Command::Declined
        }
    } else if prompt != Prompt::Inactive {
        prompt_command(k)
    } else {
        list_command(k)
    }
}

fn prompt_command_of(k: KeyPress) -> (c: Command)
    ensures
        c == prompt_command(k),
{
    if k.ctrl {
        if k.key == Key::Char('d') {
            Command::HalfPages(1isize)
        } else if k.key == Key::Char('u') {
            Command::HalfPages(-1isize)
        } else {
            Command::Nothing
        }
    } else {
        match k.key {
            Key::Esc => Command::PromptCancel,
            Key::Enter => Command::PromptKeep,
            Key::Backspace => Command::PromptPop,
            Key::Down => Command::Lines(1isize),
            Key::Up => Command::Lines(-1isize),
            Key::PageDown => Command::Pages(1isize),
            Key::PageUp => Command::Pages(-1isize),
            Key::Home => Command::Start,
            Key::End => Command::Finish,
            Key::Right => Command::Pan(1isize),
            Key::Left => Command::Pan(-1isize),
            Key::Char(c) => if k.alt {
                Command::Nothing
            } else {
                Command::PromptPush(c)
            },
            _ => Command::Nothing,
        }
    }
}

fn char_command_of(c: char) -> (r: Command)
    ensures
        r == char_command(c),
{
    if c == 'c' || c == 'q' {
        Command::Quit(LoopAction::Cancel)
    } else if c == 'o' {
        Command::Quit(LoopAction::OpenEditor)
    } else if c == 'r' {
        Command::AskReset
    } else if c == 'e' {
        Command::Execute
    } else if c == '/' {
        Command::StartPrompt(Prompt::Search)
    } else if c == 'f' {
        Command::StartPrompt(Prompt::Filter)
    } else if c == 'n' {
        Command::Jump(true)
    } else if c == 'N' {
        Command::Jump(false)
    } else if c == '?' {
        Command::Help
    } else if c == 'j' {
        Command::Lines(1isize)
    } else if c == 'k' {
        Command::Lines(-1isize)
    } else if c == ' ' {
        Command::Pages(1isize)
    } else if c == 'g' {
        Command::Start
    } else if c == 'G' {
        Command::Finish
    } else if c == 'l' {
        Command::Pan(1isize)
    } else if c == 'h' {
        Command::Pan(-1isize)
    } else {
        Command::Nothing
    }
}

fn list_command_of(k: KeyPress) -> (c: Command)
    ensures
        c == list_command(k),
{
    if k.ctrl {
        if k.key == Key::Char('d') {
            Command::HalfPages(1isize)
        } else if k.key == Key::Char('u') {
            Command::HalfPages(-1isize)
        } else {
            Command::Nothing
        }
    } else {
        match k.key {
            Key::Esc => Command::Quit(LoopAction::Cancel),
            Key::Down => Command::Lines(1isize),
            Key::Up => Command::Lines(-1isize),
            Key::PageDown => Command::Pages(1isize),
            Key::PageUp => Command::Pages(-1isize),
            Key::Home => Command::Start,
            Key::End => Command::Finish,
            Key::Right => Command::Pan(1isize),
            Key::Left => Command::Pan(-1isize),
            Key::Char(c) => char_command_of(c),
            _ => Command::Nothing,
        }
    }
}

/// See `key_command`.
pub fn command_for_key(confirm: Confirm, prompt: Prompt, k: KeyPress) -> (c: Command)
    ensures
        c == key_command(confirm, prompt, k),
{
    if k.ctrl && k.key == Key::Char('c') {
        Command::Quit(LoopAction::Cancel)
    } else if confirm != Confirm::Idle {
        if k.key == Key::Char('y') || k.key == Key::Char('Y') {
            Command::Confirmed
        } else {
            Command::Declined
        }
    } else if prompt != Prompt::Inactive {
        prompt_command_of(k)
    } else {
        list_command_of(k)
    }
}

/// What the view holds: the operations of the plan (or the error that stopped it from
/// being read), the list, the pending question, the prompt and its draft, and the status line.
pub struct ViewState {
    pub operations: Vec<Operation>,
    pub parse_error: Option<String>,
    pub preview: Preview,
    pub confirm: Confirm,
    pub prompt: Prompt,
    pub draft: String,
    pub status: String,
}

/// What `handle_key` returns for a command.
pub open spec fn key_result(cmd: Command, s: ViewState) -> Option<LoopAction> {
    match cmd {
        Command::Quit(a) => Some(a),
        Command::Confirmed => match s.confirm {
            Confirm::Trash => Some(LoopAction::Execute),
            Confirm::Reset => Some(LoopAction::Reset),
            Confirm::Idle => None,
        },
        Command::Execute => if s.parse_error is None && count_trash(s.operations@) == 0 {
            Some(LoopAction::Execute)
        } else {
            None
        },
        _ => None,
    }
}

/// The status shown when a question is answered with no.
pub open spec fn declined_text(c: Confirm, status: Seq<char>) -> Seq<char> {
    match c {
        Confirm::Trash => "execution cancelled"@,
        Confirm::Reset => "reset cancelled"@,
        Confirm::Idle => status,
    }
}

pub open spec fn help_text() -> Seq<char> {
    "j/k space/PgUp/Dn g/G C-d/u Home/End  h/l  / search  n/N  f filter  mouse wheel"@
}

/// The fields that a command leaves alone when it only touches the list.
pub open spec fn keeps_view(a: ViewState, b: ViewState) -> bool {
    &&& b.operations@ == a.operations@
    &&& b.parse_error == a.parse_error
    &&& b.confirm == a.confirm
    &&& b.prompt == a.prompt
    &&& b.draft@ == a.draft@
    &&& b.status@ == a.status@
}

/// The list moved and nothing else.
pub open spec fn only_moved(a: Preview, b: Preview) -> bool {
    &&& same_content(a, b)
    &&& b.matches@ == a.matches@
    &&& b.match_i == a.match_i
}

/// Where `jump_match` goes among `n > 0` matches.
pub open spec fn jump_index(p: Preview, next: bool) -> int {
    let n = p.matches@.len() as int;
    if next {
        (p.match_i + 1) % n
    } else if p.match_i == 0 {
        n - 1
    } else {
        p.match_i - 1
    }
}

/// The list after its search is set to `query`, and the message that reports it.
pub open spec fn searched(a: Preview, b: Preview, query: Seq<char>, msg: Seq<char>) -> bool {
    &&& b.search@ == query
    &&& b.filter@ == a.filter@
    &&& prepared_views(b.prepared@) == prepared_views(a.prepared@)
    &&& rows_view(b.rows@) == rows_view(a.rows@)
    &&& b.matches@ == search_list(rows_view(a.rows@), prepared_views(a.prepared@), query)
    &&& (query.len() == 0 ==> msg.len() == 0 && b.scroll == a.scroll)
    &&& (query.len() > 0 && b.matches@.len() == 0 ==> msg == "no matches"@ && b.scroll == a.scroll)
    &&& (query.len() > 0 && b.matches@.len() > 0 ==> {
        let k = first_from(b.matches@, a.scroll, 0);
        &&& b.match_i == k
        &&& b.scroll == scroll_target(a.scroll, a.page, a.rows@.len(), b.matches@[k])
        &&& msg == match_message((k + 1) as nat, b.matches@.len())
    })
}

/// The list after its filter is set to `filter`.
pub open spec fn filtered(a: Preview, b: Preview, filter: Seq<char>) -> bool {
    &&& b.filter@ == filter
    &&& b.search@ == a.search@
    &&& prepared_views(b.prepared@) == prepared_views(a.prepared@)
    &&& rows_view(b.rows@) == rows_upto(
        prepared_views(a.prepared@),
        crate::schedule::lowercase_of(filter),
        a.prepared@.len() as int,
    ).0
    &&& b.matches@ == search_list(rows_view(b.rows@), prepared_views(b.prepared@), b.search@)
}

/// The draft applied to the prompt it belongs to.
pub open spec fn draft_applied(a: ViewState, b: ViewState) -> bool {
    &&& b.operations@ == a.operations@
    &&& b.parse_error == a.parse_error
    &&& b.confirm == a.confirm
    &&& b.prompt == a.prompt
    &&& (a.prompt == Prompt::Search ==> searched(a.preview, b.preview, b.draft@, b.status@))
    &&& (a.prompt == Prompt::Filter ==> filtered(a.preview, b.preview, b.draft@) && b.status@ == a.status@)
}

/// What a command does to the view.
pub open spec fn key_effect(cmd: Command, a: ViewState, b: ViewState) -> bool {
    match cmd {
        Command::Quit(_) | Command::Confirmed | Command::Nothing => keeps_view(a, b) && b.preview == a.preview,
        Command::Declined => {
            &&& b.confirm == Confirm::Idle
            &&& b.status@ == declined_text(a.confirm, a.status@)
            &&& b.operations@ == a.operations@
            &&& b.parse_error == a.parse_error
            &&& b.prompt == a.prompt
            &&& b.draft@ == a.draft@
            &&& b.preview == a.preview
        },
        Command::HalfPages(d) => keeps_view(a, b) && only_moved(a.preview, b.preview)
            && b.preview.scroll == scrolled(a.preview, sat_mul(d, at_least_one(a.preview.page / 2) as isize)),
        Command::Lines(d) => keeps_view(a, b) && only_moved(a.preview, b.preview)
            && b.preview.scroll == scrolled(a.preview, d),
        Command::Pages(d) => keeps_view(a, b) && only_moved(a.preview, b.preview)
            && b.preview.scroll == scrolled(a.preview, sat_mul(d, at_least_one(a.preview.page) as isize)),
        Command::Start => keeps_view(a, b) && b.preview == (Preview { scroll: 0, ..a.preview }),
        Command::Finish => keeps_view(a, b) && only_moved(a.preview, b.preview)
            && b.preview.scroll == max_scroll(a.preview),
        Command::Pan(d) => keeps_view(a, b) && only_moved(a.preview, b.preview) && (if d > 0 {
            b.preview.h_scroll == clamped_h(Preview { h_scroll: moved(a.preview.h_scroll, sat_mul(d, 4)), ..a.preview })
        } else {
            b.preview.h_scroll == moved(a.preview.h_scroll, sat_mul(d, 4))
        }),
        Command::AskReset => {
            &&& b.confirm == Confirm::Reset
            &&& b.operations@ == a.operations@
            &&& b.parse_error == a.parse_error
            &&& b.prompt == a.prompt
            &&& b.draft@ == a.draft@
            &&& b.status@ == a.status@
            &&& b.preview == a.preview
        },
        Command::Execute => {
            &&& b.operations@ == a.operations@
            &&& b.parse_error == a.parse_error
            &&& b.prompt == a.prompt
            &&& b.draft@ == a.draft@
            &&& b.preview == a.preview
            &&& (a.parse_error is Some ==> b.confirm == a.confirm && b.status@ == "fix the plan error before executing"@)
            &&& (a.parse_error is None ==> b.status@ == a.status@ && b.confirm == (if count_trash(a.operations@) > 0 {
                Confirm::Trash
            } else {
                a.confirm
            }))
        },
        Command::StartPrompt(p) => {
            &&& b.prompt == p
            &&& b.draft@ == (if p == Prompt::Search {
                a.preview.search@
            } else {
                a.preview.filter@
            })
            &&& b.status@.len() == 0
            &&& b.operations@ == a.operations@
            &&& b.parse_error == a.parse_error
            &&& b.confirm == a.confirm
            &&& b.preview == a.preview
        },
        Command::Jump(next) => {
            &&& b.operations@ == a.operations@
            &&& b.parse_error == a.parse_error
            &&& b.confirm == a.confirm
            &&& b.prompt == a.prompt
            &&& b.draft@ == a.draft@
            &&& same_content(a.preview, b.preview)
            &&& b.preview.matches@ == a.preview.matches@
            &&& (a.preview.matches@.len() == 0 ==> b.status@ == "no matches"@ && b.preview == a.preview)
            &&& (a.preview.matches@.len() > 0 ==> {
                let i = jump_index(a.preview, next);
                &&& b.preview.match_i == i
                &&& b.preview.scroll == scroll_to_row(a.preview, a.preview.matches@[i])
                &&& b.status@ == match_message((i + 1) as nat, a.preview.matches@.len())
            })
        },
        Command::Help => {
            &&& b.status@ == help_text()
            &&& b.operations@ == a.operations@
            &&& b.parse_error == a.parse_error
            &&& b.confirm == a.confirm
            &&& b.prompt == a.prompt
            &&& b.draft@ == a.draft@
            &&& b.preview == a.preview
        },
        Command::PromptCancel => {
            &&& b.prompt == Prompt::Inactive
            &&& b.draft@.len() == 0
            &&& b.status@.len() == 0
            &&& b.operations@ == a.operations@
            &&& b.parse_error == a.parse_error
            &&& b.confirm == a.confirm
            &&& (a.prompt == Prompt::Search ==> {
                &&& b.preview.search@.len() == 0
                &&& b.preview.filter@ == a.preview.filter@
                &&& rows_view(b.preview.rows@) == rows_view(a.preview.rows@)
                &&& b.preview.scroll == a.preview.scroll
                &&& b.preview.matches@ == search_list(rows_view(a.preview.rows@), prepared_views(a.preview.prepared@), Seq::empty())
            })
            &&& (a.prompt == Prompt::Filter ==> filtered(a.preview, b.preview, Seq::empty()))
        },
        Command::PromptKeep => {
            &&& b.prompt == Prompt::Inactive
            &&& b.operations@ == a.operations@
            &&& b.parse_error == a.parse_error
            &&& b.confirm == a.confirm
            &&& b.draft@ == a.draft@
            &&& b.status@ == a.status@
            &&& b.preview == a.preview
        },
        Command::PromptPop => {
            &&& b.draft@ == (if a.draft@.len() > 0 {
                a.draft@.drop_last()
            } else {
                a.draft@
            })
            &&& draft_applied(a, b)
        },
        Command::PromptPush(c) => b.draft@ == a.draft@.push(c) && draft_applied(a, b),
    }
}


fn text_of(s: &str) -> (r: String)
    ensures
        r@ == s@,
{
    let mut out = String::new();
    push_str(&mut out, s);
    out
}

impl ViewState {
    /// A view of `operations` (or of the error that stopped the plan from being read).
    pub fn from_plan(
        operations: Vec<Operation>,
        parse_error: Option<String>,
        root: &str,
        id_width: usize,
        no_color: bool,
    ) -> (r: ViewState)
        ensures
            r.operations@ == operations@,
            r.parse_error == parse_error,
            prepared_views(r.preview.prepared@) == prepared_list(operations@, root@, id_width as nat),
            r.preview.scroll == 0,
            r.preview.search@.len() == 0,
            r.preview.filter@.len() == 0,
            r.preview.no_color == no_color,
            r.confirm == Confirm::Idle,
            r.prompt == Prompt::Inactive,
            r.draft@.len() == 0,
            r.status@.len() == 0,
            wf(r.preview),
    {
        let preview = Preview::from_operations(operations.as_slice(), root, id_width, no_color);
        ViewState {
            operations,
            parse_error,
            preview,
            confirm: Confirm::Idle,
            prompt: Prompt::Inactive,
            draft: String::new(),
            status: String::new(),
        }
    }

    /// After the plan was reset: the fresh plan, the list back at the top with no search
    /// or filter, no prompt, draft or question, and the status `plan reset`.
    pub fn show_reset_plan(&mut self, operations: Vec<Operation>, parse_error: Option<String>, root: &str, id_width: usize)
        ensures
            final(self).operations@ == operations@,
            final(self).parse_error == parse_error,
            prepared_views(final(self).preview.prepared@) == prepared_list(operations@, root@, id_width as nat),
            final(self).preview.search@.len() == 0,
            final(self).preview.filter@.len() == 0,
            final(self).preview.scroll == 0,
            final(self).preview.h_scroll == 0,
            final(self).draft@.len() == 0,
            final(self).prompt == Prompt::Inactive,
            final(self).confirm == Confirm::Idle,
            final(self).status@ == "plan reset"@,
            wf(final(self).preview),
    {
        self.operations = operations;
        self.parse_error = parse_error;
        self.preview.reload(self.operations.as_slice(), root, id_width);
        self.draft = String::new();
        self.prompt = Prompt::Inactive;
        self.preview.reset_view();
        self.confirm = Confirm::Idle;
        self.status = text_of("plan reset");
    }

    /// After a reset failed: the question is dropped and the status tells why.
    pub fn show_reset_failure(&mut self, reason: &str)
        ensures
            final(self).status@ == "reset failed: "@ + reason@,
            final(self).confirm == Confirm::Idle,
            final(self).operations@ == old(self).operations@,
            final(self).parse_error == old(self).parse_error,
            final(self).preview == old(self).preview,
            final(self).prompt == old(self).prompt,
            final(self).draft@ == old(self).draft@,
    {
        let mut status = String::new();
        push_str(&mut status, "reset failed: ");
        push_str(&mut status, reason);
        self.status = status;
        self.confirm = Confirm::Idle;
    }

    /// After a saved edit of the plan was read: the new plan, keeping the search and the
    /// filter; a pending question is dropped (it was about the old plan) and the status
    /// is `plan reloaded`.
    pub fn show_reloaded_plan(&mut self, operations: Vec<Operation>, parse_error: Option<String>, root: &str, id_width: usize)
        ensures
            final(self).operations@ == operations@,
            final(self).parse_error == parse_error,
            prepared_views(final(self).preview.prepared@) == prepared_list(operations@, root@, id_width as nat),
            final(self).preview.search@ == old(self).preview.search@,
            final(self).preview.filter@ == old(self).preview.filter@,
            final(self).prompt == old(self).prompt,
            final(self).draft@ == old(self).draft@,
            final(self).confirm == Confirm::Idle,
            final(self).status@ == "plan reloaded"@,
            wf(final(self).preview),
    {
        self.operations = operations;
        self.parse_error = parse_error;
        self.preview.reload(self.operations.as_slice(), root, id_width);
        self.status = text_of("plan reloaded");
        self.confirm = Confirm::Idle;
    }

    /// Loads the operations held by the view into the list again.
    pub fn reload_preview(&mut self, root: &str, id_width: usize)
        ensures
            prepared_views(final(self).preview.prepared@) == prepared_list(old(self).operations@, root@, id_width as nat),
            final(self).preview.search@ == old(self).preview.search@,
            final(self).preview.filter@ == old(self).preview.filter@,
            final(self).operations@ == old(self).operations@,
            final(self).parse_error == old(self).parse_error,
            final(self).confirm == old(self).confirm,
            final(self).prompt == old(self).prompt,
            final(self).draft@ == old(self).draft@,
            final(self).status@ == old(self).status@,
            wf(final(self).preview),
    {
        self.preview.reload(self.operations.as_slice(), root, id_width);
    }
}

fn declined(state: &mut ViewState)
    ensures
        key_effect(Command::Declined, *old(state), *final(state)),
{
    let text = match state.confirm {
        Confirm::Trash => text_of("execution cancelled"),
        Confirm::Reset => text_of("reset cancelled"),
        Confirm::Idle => state.status.clone(),
    };
    state.status = text;
    state.confirm = Confirm::Idle;
}

fn execute_key(state: &mut ViewState)
    ensures
        key_effect(Command::Execute, *old(state), *final(state)),
{
    if state.parse_error.is_none() {
        let counts = operation_counts(state.operations.as_slice());
        if counts.1 > 0 {
            state.confirm = Confirm::Trash;
        }
    } else {
        state.status = text_of("fix the plan error before executing");
    }
}

fn start_prompt(state: &mut ViewState, p: Prompt)
    requires
        p != Prompt::Inactive,
    ensures
        key_effect(Command::StartPrompt(p), *old(state), *final(state)),
{
    state.prompt = p;
    state.draft = if p == Prompt::Search {
        text_of(state.preview.search())
    } else {
        text_of(state.preview.filter())
    };
    state.status = String::new();
}

fn jump(state: &mut ViewState, next: bool)
    requires
        wf(old(state).preview),
    ensures
        key_effect(Command::Jump(next), *old(state), *final(state)),
        wf(final(state).preview),
{
    let msg = state.preview.jump_match(next);
    state.status = msg;
}

fn prompt_cancel(state: &mut ViewState)
    requires
        wf(old(state).preview),
    ensures
        key_effect(Command::PromptCancel, *old(state), *final(state)),
        wf(final(state).preview),
{
    match state.prompt {
        Prompt::Search => state.preview.clear_search(),
        Prompt::Filter => {
            state.preview.clear_filter();
            assert(state.preview.filter@ =~= Seq::<char>::empty());
        },
        Prompt::Inactive => {},
    }
    state.draft = String::new();
    state.prompt = Prompt::Inactive;
    state.status = String::new();
}

/// Applies the draft to the search or the filter, whichever the prompt edits.
fn apply_draft(state: &mut ViewState)
    requires
        wf(old(state).preview),
    ensures
        draft_applied(*old(state), *final(state)),
        final(state).draft@ == old(state).draft@,
        wf(final(state).preview),
{
    match state.prompt {
        Prompt::Search => {
            let draft = state.draft.clone();
            let msg = state.preview.set_search(draft);
            state.status = msg;
        },
        Prompt::Filter => {
            let draft = state.draft.clone();
            state.preview.set_filter(draft);
        },
        Prompt::Inactive => {},
    }
}

fn prompt_pop(state: &mut ViewState)
    requires
        wf(old(state).preview),
    ensures
        key_effect(Command::PromptPop, *old(state), *final(state)),
        wf(final(state).preview),
{
    let cs = crate::text::chars_of(state.draft.as_str());
    if cs.len() > 0 {
        state.draft = crate::text::string_from(&cs, 0, cs.len() - 1);
        assert(state.draft@ =~= old(state).draft@.drop_last());
    }
    apply_draft(state);
}

fn prompt_push(state: &mut ViewState, c: char)
    requires
        wf(old(state).preview),
    ensures
        key_effect(Command::PromptPush(c), *old(state), *final(state)),
        wf(final(state).preview),
{
    crate::text::push_char(&mut state.draft, c);
    apply_draft(state);
}

/// Does what `cmd` asks of the view (see `key_effect`) and returns what the loop should do.
pub fn run_command(cmd: Command, state: &mut ViewState) -> (r: Option<LoopAction>)
    requires
        wf(old(state).preview),
        cmd is Confirmed || cmd is Declined ==> old(state).confirm != Confirm::Idle,
        cmd is StartPrompt ==> cmd->StartPrompt_0 != Prompt::Inactive,
    ensures
        r == key_result(cmd, *old(state)),
        key_effect(cmd, *old(state), *final(state)),
        wf(final(state).preview),
{
    match cmd {
        Command::Quit(a) => Some(a),
        Command::Confirmed => match state.confirm {
            Confirm::Trash => Some(LoopAction::Execute),
            Confirm::Reset => Some(LoopAction::Reset),
            Confirm::Idle => None,
        },
        Command::Declined => {
            declined(state);
            None
        },
        Command::HalfPages(d) => {
            state.preview.scroll_half_pages(d);
            None
        },
        Command::Lines(d) => {
            state.preview.scroll_lines(d);
            None
        },
        Command::Pages(d) => {
            state.preview.scroll_pages(d);
            None
        },
        Command::Start => {
            state.preview.goto_start();
            None
        },
        Command::Finish => {
            state.preview.goto_end();
            None
        },
        Command::Pan(d) => {
            state.preview.pan(d);
            None
        },
        Command::AskReset => {
            state.confirm = Confirm::Reset;
            None
        },
        Command::Execute => {
            let ready = state.parse_error.is_none() && operation_counts(state.operations.as_slice()).1 == 0;
            execute_key(state);
            if ready {
                Some(LoopAction::Execute)
            } else {
                None
            }
        },
        Command::StartPrompt(p) => {
            start_prompt(state, p);
            None
        },
        Command::Jump(next) => {
            jump(state, next);
            None
        },
        Command::Help => {
            state.status = text_of("j/k space/PgUp/Dn g/G C-d/u Home/End  h/l  / search  n/N  f filter  mouse wheel");
            None
        },
        Command::PromptCancel => {
            prompt_cancel(state);
            None
        },
        Command::PromptKeep => {
            state.prompt = Prompt::Inactive;
            None
        },
        Command::PromptPop => {
            prompt_pop(state);
            None
        },
        Command::PromptPush(c) => {
            prompt_push(state, c);
            None
        },
        Command::Nothing => None,
    }
}

/// Handles a key: finds what it asks (`key_command`) and does it (`run_command`).
pub fn handle_key(key: KeyPress, state: &mut ViewState) -> (r: Option<LoopAction>)
    requires
        wf(old(state).preview),
    ensures
        r == key_result(key_command(old(state).confirm, old(state).prompt, key), *old(state)),
        key_effect(key_command(old(state).confirm, old(state).prompt, key), *old(state), *final(state)),
        wf(final(state).preview),
{
    let cmd = command_for_key(state.confirm, state.prompt, key);
    run_command(cmd, state)
}

/// The command of a turn of the wheel: three rows down or up, or a step sideways.
pub open spec fn wheel_command(w: Wheel) -> Command {
    match w {
        Wheel::Down => Command::Lines(3isize),
        Wheel::Up => Command::Lines(-3isize),
        Wheel::Right => Command::Pan(1isize),
        Wheel::Left => Command::Pan(-1isize),
        Wheel::Other => Command::Nothing,
    }
}

/// Handles a turn of the mouse wheel (see `wheel_command`).
pub fn handle_mouse(wheel: Wheel, state: &mut ViewState)
    requires
        wf(old(state).preview),
    ensures
        key_effect(wheel_command(wheel), *old(state), *final(state)),
        wf(final(state).preview),
{
    let cmd = match wheel {
        Wheel::Down => Command::Lines(3),
        Wheel::Up => Command::Lines(-3),
        Wheel::Right => Command::Pan(1),
        Wheel::Left => Command::Pan(-1),
        Wheel::Other => Command::Nothing,
    };
    let _ = run_command(cmd, state);
}


/// "s" after a count other than one.
pub open spec fn plural(n: nat) -> Seq<char> {
    if n == 1 {
        Seq::empty()
    } else {
        "s"@
    }
}

fn push_plural(out: &mut String, n: usize)
    ensures
        final(out)@ == old(out)@ + plural(n as nat),
{
    if n != 1 {
        push_str(out, "s");
    } else {
        assert(old(out)@ + plural(n as nat) =~= old(out)@);
    }
}

/// The first line of the view.
pub open spec fn title_of(mode: Seq<char>, status: Seq<char>, changes: nat, total: nat) -> Seq<char> {
    "remodeco "@ + mode + " · "@ + status + " · "@ + decimal(changes) + " change"@ + plural(changes) + " / "@
        + decimal(total) + " file"@ + plural(total)
}

/// See `title_of`.
pub fn title_text(mode: &str, status: &str, changes: usize, total: usize) -> (r: String)
    ensures
        r@ == title_of(mode@, status@, changes as nat, total as nat),
{
    let mut out = String::new();
    push_str(&mut out, "remodeco ");
    push_str(&mut out, mode);
    push_str(&mut out, " · ");
    push_str(&mut out, status);
    push_str(&mut out, " · ");
    push_decimal(&mut out, changes as u64);
    push_str(&mut out, " change");
    push_plural(&mut out, changes);
    push_str(&mut out, " / ");
    push_decimal(&mut out, total as u64);
    push_str(&mut out, " file");
    push_plural(&mut out, total);
    out
}

pub open spec fn one_span(text: Seq<char>, style: SpanStyle) -> Seq<SpanV> {
    seq![SpanV { text, style, matched: false }]
}

fn span_line(text: String, style: SpanStyle) -> (r: Vec<Span>)
    ensures
        line_view(r@) == one_span(text@, style),
{
    let mut v: Vec<Span> = Vec::new();
    v.push(Span { text, style, matched: false });
    proof {
        assert(line_view(v@) =~= one_span(text@, style));
    }
    v
}

/// The line under the keys: the pending question, the plan's error, a hint when the
/// plan changes nothing, or nothing.
pub open spec fn notice_of(s: ViewState) -> Seq<SpanV> {
    let changes = count_changes(s.operations@);
    let trash = count_trash(s.operations@);
    if s.confirm == Confirm::Trash {
        one_span("Trash "@ + decimal(trash) + " item"@ + plural(trash) + "? y/N"@, SpanStyle::Warning)
    } else if s.confirm == Confirm::Reset {
        one_span(
            if changes == 0 {
                "Reset plan to original paths? y/N"@
            } else {
                "Reset "@ + decimal(changes) + " change"@ + plural(changes) + " to original paths? y/N"@
            },
            SpanStyle::Warning,
        )
    } else if s.parse_error is Some {
        one_span(s.parse_error->Some_0@, SpanStyle::Error)
    } else if changes == 0 {
        one_span("No operations — edit the plan with o."@, SpanStyle::Dim)
    } else {
        Seq::empty()
    }
}

/// See `notice_of`.
pub fn notice_line(state: &ViewState) -> (r: Vec<Span>)
    ensures
        line_view(r@) == notice_of(*state),
{
    let counts = operation_counts(state.operations.as_slice());
    let changes = counts.0;
    let trash = counts.1;
    if state.confirm == Confirm::Trash {
        let mut t = String::new();
        push_str(&mut t, "Trash ");
        push_decimal(&mut t, trash as u64);
        push_str(&mut t, " item");
        push_plural(&mut t, trash);
        push_str(&mut t, "? y/N");
        span_line(t, SpanStyle::Warning)
    } else if state.confirm == Confirm::Reset {
        let mut t = String::new();
        if changes == 0 {
            push_str(&mut t, "Reset plan to original paths? y/N");
        } else {
            push_str(&mut t, "Reset ");
            push_decimal(&mut t, changes as u64);
            push_str(&mut t, " change");
            push_plural(&mut t, changes);
            push_str(&mut t, " to original paths? y/N");
        }
        span_line(t, SpanStyle::Warning)
    } else if let Some(error) = &state.parse_error {
        span_line(error.clone(), SpanStyle::Error)
    } else if changes == 0 {
        span_line(text_of("No operations — edit the plan with o."), SpanStyle::Dim)
    } else {
        let v: Vec<Span> = Vec::new();
        assert(line_view(v@) =~= Seq::<SpanV>::empty());
        v
    }
}

/// A prompt: its label and draft, a cursor, and the keys that end it.
pub open spec fn prompt_spans(label: Seq<char>, draft: Seq<char>) -> Seq<SpanV> {
    seq![
        SpanV { text: label + ": "@ + draft, style: SpanStyle::Plain, matched: false },
        SpanV { text: "█"@, style: SpanStyle::Cursor, matched: false },
        SpanV { text: "  Enter keep  Esc clear"@, style: SpanStyle::Dim, matched: false },
    ]
}

/// The keys line, or the prompt being typed.
pub open spec fn header_keys_of(s: ViewState) -> Seq<SpanV> {
    match s.prompt {
        Prompt::Search => prompt_spans("Search"@, s.draft@),
        Prompt::Filter => prompt_spans("Filter"@, s.draft@),
        Prompt::Inactive => one_span(
            "[e] execute  [o] editor  [r] reset  [c/q] cancel  [/] search  [f] filter  [?] keys"@,
            SpanStyle::Plain,
        ),
    }
}

fn prompt_line(label: &str, draft: &str) -> (r: Vec<Span>)
    ensures
        line_view(r@) == prompt_spans(label@, draft@),
{
    let mut t = String::new();
    push_str(&mut t, label);
    push_str(&mut t, ": ");
    push_str(&mut t, draft);
    let mut v: Vec<Span> = Vec::new();
    v.push(Span { text: t, style: SpanStyle::Plain, matched: false });
    v.push(Span { text: text_of("█"), style: SpanStyle::Cursor, matched: false });
    v.push(Span { text: text_of("  Enter keep  Esc clear"), style: SpanStyle::Dim, matched: false });
    proof {
        assert(line_view(v@) =~= prompt_spans(label@, draft@));
    }
    v
}

/// See `header_keys_of`.
pub fn header_keys(state: &ViewState) -> (r: Vec<Span>)
    ensures
        line_view(r@) == header_keys_of(*state),
{
    match state.prompt {
        Prompt::Search => prompt_line("Search", state.draft.as_str()),
        Prompt::Filter => prompt_line("Filter", state.draft.as_str()),
        Prompt::Inactive => span_line(
            text_of("[e] execute  [o] editor  [r] reset  [c/q] cancel  [/] search  [f] filter  [?] keys"),
            SpanStyle::Plain,
        ),
    }
}

/// The parts of the footer under the list: the rows shown, the filter, the search's
/// place, and the column when lines are wider than the list.
pub open spec fn footer_parts(p: Preview) -> Seq<Seq<char>> {
    let total = p.rows@.len();
    let end = if p.scroll + p.page < total {
        (p.scroll + p.page) as nat
    } else {
        total
    };
    let first = seq!["line "@ + decimal((p.scroll + 1) as nat) + "–"@ + decimal(end) + " / "@ + decimal(total)];
    let with_filter = if p.filter@.len() > 0 {
        first.push("filter "@ + p.filter@)
    } else {
        first
    };
    let with_search = if p.search@.len() > 0 {
        with_filter.push(
            if p.matches@.len() == 0 {
                "no matches"@
            } else {
                match_message((p.match_i + 1) as nat, p.matches@.len())
            },
        )
    } else {
        with_filter
    };
    if p.max_line_chars > p.list_width {
        with_search.push("col "@ + decimal((p.h_scroll + 1) as nat))
    } else {
        with_search
    }
}

/// The footer: the status when there is one, a hint while typing, else the parts of
/// `footer_parts` joined with " · ".
pub open spec fn footer_of(s: ViewState) -> Seq<char> {
    if s.status@.len() > 0 {
        s.status@
    } else if s.prompt != Prompt::Inactive {
        "type to match  arrows scroll"@
    } else if s.preview.rows@.len() == 0 {
        if s.preview.filter@.len() == 0 {
            Seq::empty()
        } else {
            "no rows match filter"@
        }
    } else {
        join_with(footer_parts(s.preview), "  ·  "@)
    }
}

/// See `footer_of`.
pub fn footer(state: &ViewState) -> (r: String)
    requires
        state.status@.len() == 0 && state.prompt == Prompt::Inactive && state.preview.rows@.len() > 0 ==> {
            &&& state.preview.scroll + state.preview.page <= usize::MAX
            &&& state.preview.scroll < usize::MAX
            &&& (state.preview.search@.len() > 0 && state.preview.matches@.len() > 0 ==> state.preview.match_i < usize::MAX)
            &&& (state.preview.max_line_chars > state.preview.list_width ==> state.preview.h_scroll < usize::MAX)
        },
    ensures
        r@ == footer_of(*state),
{
    if !state.status.as_str().is_empty() {
        return state.status.clone();
    }
    if state.prompt != Prompt::Inactive {
        return text_of("type to match  arrows scroll");
    }
    let p = &state.preview;
    let total = p.row_count();
    if total == 0 {
        return if p.filter().is_empty() {
            String::new()
        } else {
            text_of("no rows match filter")
        };
    }
    let start = p.scroll() + 1;
    let end = if p.scroll() + p.page() < total {
        p.scroll() + p.page()
    } else {
        total
    };
    let mut parts: Vec<String> = Vec::new();
    let mut first = String::new();
    push_str(&mut first, "line ");
    push_decimal(&mut first, start as u64);
    push_str(&mut first, "–");
    push_decimal(&mut first, end as u64);
    push_str(&mut first, " / ");
    push_decimal(&mut first, total as u64);
    parts.push(first);
    let ghost expect = footer_parts(*p);
    if !p.filter().is_empty() {
        let mut f = String::new();
        push_str(&mut f, "filter ");
        push_str(&mut f, p.filter());
        parts.push(f);
    }
    if !p.search().is_empty() {
        if p.match_count() == 0 {
            parts.push(text_of("no matches"));
        } else {
            let mut m = String::new();
            push_str(&mut m, "match ");
            push_decimal(&mut m, (p.match_index() + 1) as u64);
            push_str(&mut m, " / ");
            push_decimal(&mut m, p.match_count() as u64);
            parts.push(m);
        }
    }
    if p.max_line_chars() > p.list_width() {
        let mut c = String::new();
        push_str(&mut c, "col ");
        push_decimal(&mut c, (p.h_scroll() + 1) as u64);
        parts.push(c);
    }
    proof {
        assert(crate::schedule::strs(parts@) =~= expect);
    }
    join_strings(&parts, "  ·  ")
}


/// Handles a key while a prompt is open (see `prompt_command`).
pub fn handle_prompt_key(key: KeyPress, state: &mut ViewState) -> (r: Option<LoopAction>)
    requires
        wf(old(state).preview),
    ensures
        r is None,
        key_effect(prompt_command(key), *old(state), *final(state)),
        wf(final(state).preview),
{
    let cmd = prompt_command_of(key);
    run_command(cmd, state)
}

/// The line of an operation in the plain listing: its id padded with zeros to the id
/// width (at least one digit), then its path, and for a move or copy ` -> ` and the
/// destination. Operations that change nothing are not listed.
pub open spec fn plain_line_of(op: Operation, id_width: nat) -> Seq<char> {
    let w = if id_width == 0 {
        1
    } else {
        id_width
    };
    let head = crate::text::zero_padded(op.id as nat, w) + "  "@ + op.from@;
    if op.kind == OpKind::Trash {
        head
    } else {
        head + " -> "@ + op.to@
    }
}

pub open spec fn listed(op: Operation) -> bool {
    op.kind != OpKind::Noop && op.kind != OpKind::Skip
}

pub open spec fn plain_lines_of(ops: Seq<Operation>, id_width: nat) -> Seq<Seq<char>>
    decreases ops.len(),
{
    if ops.len() == 0 {
        Seq::empty()
    } else {
        let rest = plain_lines_of(ops.drop_last(), id_width);
        if listed(ops.last()) {
            rest.push(plain_line_of(ops.last(), id_width))
        } else {
            rest
        }
    }
}

/// See `plain_lines_of`.
pub fn plain_lines(operations: &[Operation], id_width: usize) -> (r: Vec<String>)
    ensures
        crate::schedule::strs(r@) == plain_lines_of(operations@, id_width as nat),
{
    let w: usize = if id_width == 0 {
        1
    } else {
        id_width
    };
    let mut out: Vec<String> = Vec::new();
    let mut i: usize = 0;
    while i < operations.len()
        invariant
            i <= operations@.len(),
            w as nat == (if id_width == 0 {
                1
            } else {
                id_width as nat
            }),
            crate::schedule::strs(out@) == plain_lines_of(operations@.take(i as int), id_width as nat),
        decreases operations.len() - i,
    {
        let op = &operations[i];
        proof {
            assert(operations@.take(i + 1).drop_last() =~= operations@.take(i as int));
            assert(operations@.take(i + 1).last() == operations@[i as int]);
        }
        if op.kind != OpKind::Noop && op.kind != OpKind::Skip {
            let mut line = String::new();
            crate::text::push_padded(&mut line, op.id, w);
            push_str(&mut line, "  ");
            push_str(&mut line, op.from.as_str());
            if op.kind != OpKind::Trash {
                push_str(&mut line, " -> ");
                push_str(&mut line, op.to.as_str());
            }
            out.push(line);
            proof {
                assert(crate::schedule::strs(out@) =~= plain_lines_of(operations@.take(i as int), id_width as nat).push(
                    plain_line_of(operations@[i as int], id_width as nat),
                ));
            }
        }
        i += 1;
    }
    assert(operations@.take(i as int) =~= operations@);
    out
}

/// The first character of the trimmed answer, `c` (cancel) when it is empty.
pub open spec fn answer_of(input: Seq<char>) -> char {
    let t = crate::text::trim(input);
    if t.len() > 0 {
        t[0]
    } else {
        'c'
    }
}

/// See `answer_of`.
pub fn plain_answer(input: &str) -> (c: char)
    ensures
        c == answer_of(input@),
{
    let cs = crate::text::chars_of(input);
    let (a, b) = crate::text::trim_bounds(&cs, 0, cs.len());
    assert(cs@.subrange(0, cs@.len() as int) =~= cs@);
    if a < b {
        assert(cs@.subrange(a as int, b as int)[0] == cs@[a as int]);
        cs[a]
    } else {
        'c'
    }
}

/// Whether the trimmed answer starts with `y` or `Y`.
pub open spec fn yes_of(input: Seq<char>) -> bool {
    let t = crate::text::trim(input);
    t.len() > 0 && (t[0] == 'y' || t[0] == 'Y')
}

/// See `yes_of`.
pub fn is_yes(input: &str) -> (b: bool)
    ensures
        b == yes_of(input@),
{
    let cs = crate::text::chars_of(input);
    let (a, b) = crate::text::trim_bounds(&cs, 0, cs.len());
    assert(cs@.subrange(0, cs@.len() as int) =~= cs@);
    if a < b {
        assert(cs@.subrange(a as int, b as int)[0] == cs@[a as int]);
        cs[a] == 'y' || cs[a] == 'Y'
    } else {
        false
    }
}

/// Keys and the mouse wheel change only the view: the operations that an execution
/// applies, and the plan's error, stay as they were.
pub proof fn lemma_view_keeps_plan(cmd: Command, a: ViewState, b: ViewState)
    requires
        key_effect(cmd, a, b),
    ensures
        b.operations@ == a.operations@,
        b.parse_error == a.parse_error,
{
}

/// Whether a key starts an execution does not depend on the filter or the search: it is
/// decided on all operations of the plan.
pub proof fn lemma_execute_ignores_view(cmd: Command, a: ViewState, b: ViewState)
    requires
        a.operations@ == b.operations@,
        a.parse_error == b.parse_error,
        a.confirm == b.confirm,
    ensures
        key_result(cmd, a) == key_result(cmd, b),
{
}

} // verus!
