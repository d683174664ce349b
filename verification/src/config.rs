//! Settings: their defaults, the layers that override them, and the plan formats.

use crate::schedule::{copy_strings, strs};
use crate::text::push_str;
use vstd::prelude::*;

verus! {

#[derive(Clone, Copy, Debug, PartialEq, Eq, Structural)]
pub enum EditorMode {
    Auto,
    Gui,
    Tty,
}

#[derive(Clone, Copy, Debug, PartialEq, Eq, Structural)]
pub enum PlanFormat {
    Properties,
    Yaml,
    PlainText,
}

impl Default for PlanFormat {
    /// The default format: properties, written as `plan.properties`.
    fn default() -> (r: PlanFormat)
        ensures
            r == PlanFormat::Properties,
    {
        PlanFormat::Properties
    }
}

pub open spec fn format_file_name(f: PlanFormat) -> Seq<char> {
    match f {
        PlanFormat::Properties => "plan.properties"@,
        PlanFormat::Yaml => "plan.yaml"@,
        PlanFormat::PlainText => "plan.txt"@,
    }
}

impl PlanFormat {
    /// The plan file name for the format.
    pub fn file_name(self) -> (s: &'static str)
        ensures
            s@ == format_file_name(self),
    {
        match self {
            PlanFormat::Properties => "plan.properties",
            PlanFormat::Yaml => "plan.yaml",
            PlanFormat::PlainText => "plan.txt",
        }
    }

    /// Every format, in `--format` order.
    pub fn all() -> (v: Vec<PlanFormat>)
        ensures
            v@ == seq![PlanFormat::Properties, PlanFormat::Yaml, PlanFormat::PlainText],
    {
        let mut v = Vec::new();
        v.push(PlanFormat::Properties);
        v.push(PlanFormat::Yaml);
        v.push(PlanFormat::PlainText);
        v
    }
}

/// An editor given as one command line, or as its words.
pub enum EditorCommand {
    String(String),
    Args(Vec<String>),
}

pub struct AppConfig {
    pub editor: Option<EditorCommand>,
    pub editor_mode: EditorMode,
    pub exclude: Vec<String>,
    pub include_hidden: bool,
    pub recursive: bool,
    pub open_editor: bool,
    pub plan_format: PlanFormat,
}

/// One settings file: every setting it names.
pub struct PartialConfig {
    pub editor: Option<EditorCommand>,
    pub editor_mode: Option<EditorMode>,
    pub exclude: Option<Vec<String>>,
    pub include_hidden: Option<bool>,
    pub recursive: Option<bool>,
    pub open_editor: Option<bool>,
    pub format: Option<PlanFormat>,
    pub plain_text: Option<bool>,
}

/// What the command line and the environment set.
pub struct ConfigOverrides {
    pub no_default_excludes: bool,
    pub exclude: Vec<String>,
    pub hidden: bool,
    pub no_recursive: bool,
    pub editor: Option<String>,
    pub editor_mode: Option<EditorMode>,
    /// `--no-edit`, or `REMODECO_NO_EDIT` set to `1`.
    pub no_edit: bool,
    pub format: Option<PlanFormat>,
    /// `REMODECO_EDITOR`, when set.
    pub env_editor: Option<String>,
}

pub enum EditorV {
    Line(Seq<char>),
    Words(Seq<Seq<char>>),
}

pub open spec fn editor_view(e: Option<EditorCommand>) -> Option<EditorV> {
    match e {
        Some(EditorCommand::String(s)) => Some(EditorV::Line(s@)),
        Some(EditorCommand::Args(v)) => Some(EditorV::Words(strs(v@))),
        None => None,
    }
}

pub struct ConfigV {
    pub editor: Option<EditorV>,
    pub editor_mode: EditorMode,
    pub exclude: Seq<Seq<char>>,
    pub include_hidden: bool,
    pub recursive: bool,
    pub open_editor: bool,
    pub plan_format: PlanFormat,
}

impl View for AppConfig {
    type V = ConfigV;

    open spec fn view(&self) -> ConfigV {
        ConfigV {
            editor: editor_view(self.editor),
            editor_mode: self.editor_mode,
            exclude: strs(self.exclude@),
            include_hidden: self.include_hidden,
            recursive: self.recursive,
            open_editor: self.open_editor,
            plan_format: self.plan_format,
        }
    }
}

pub open spec fn default_exclude_names() -> Seq<Seq<char>> {
    seq![".git"@, "node_modules"@, ".hg"@, ".svn"@]
}

/// The directories skipped unless asked otherwise.
pub fn default_excludes() -> (v: Vec<String>)
    ensures
        strs(v@) == default_exclude_names(),
{
    let mut v: Vec<String> = Vec::new();
    let names = [".git", "node_modules", ".hg", ".svn"];
    let mut i: usize = 0;
    while i < 4
        invariant
            i <= 4,
            names@ == seq![".git", "node_modules", ".hg", ".svn"],
            strs(v@) == default_exclude_names().take(i as int),
        decreases 4 - i,
    {
        let mut s = String::new();
        push_str(&mut s, names[i]);
        let ghost before = v@;
        v.push(s);
        proof {
            assert(strs(v@) =~= strs(before).push(s@));
            assert(default_exclude_names().take(i + 1) =~= default_exclude_names().take(i as int).push(
                default_exclude_names()[i as int],
            ));
        }
        i += 1;
    }
    assert(default_exclude_names().take(4) =~= default_exclude_names());
    v
}

pub open spec fn default_view() -> ConfigV {
    ConfigV {
        editor: None,
        editor_mode: EditorMode::Auto,
        exclude: default_exclude_names(),
        include_hidden: false,
        recursive: true,
        open_editor: true,
        plan_format: PlanFormat::Properties,
    }
}

/// The settings before any file or option.
pub fn default_config() -> (c: AppConfig)
    ensures
        c@ == default_view(),
{
    AppConfig {
        editor: None,
        editor_mode: EditorMode::Auto,
        exclude: default_excludes(),
        include_hidden: false,
        recursive: true,
        open_editor: true,
        plan_format: PlanFormat::Properties,
    }
}

/// A settings file laid over `c`: what it names replaces, except that its excludes are
/// added; `plainText: true` selects the plain-text format when no format is named.
pub open spec fn merged(c: ConfigV, p: PartialConfig) -> ConfigV {
    ConfigV {
        editor: match p.editor {
            Some(_) => editor_view(p.editor),
            None => c.editor,
        },
        editor_mode: match p.editor_mode {
            Some(m) => m,
            None => c.editor_mode,
        },
        exclude: match p.exclude {
            Some(v) => c.exclude + strs(v@),
            None => c.exclude,
        },
        include_hidden: match p.include_hidden {
            Some(b) => b,
            None => c.include_hidden,
        },
        recursive: match p.recursive {
            Some(b) => b,
            None => c.recursive,
        },
        open_editor: match p.open_editor {
            Some(b) => b,
            None => c.open_editor,
        },
        plan_format: match p.format {
            Some(f) => f,
            None => if p.plain_text == Some(true) {
                PlanFormat::PlainText
            } else {
                c.plan_format
            },
        },
    }
}

/// Lays a settings file over `config` (see `merged`).
#[verifier::rlimit(40)]
pub fn merge_partial(config: &mut AppConfig, partial: PartialConfig)
    ensures
        final(config)@ == merged(old(config)@, partial),
{
    let ghost p = partial;
    let ghost c0 = config@;
    let PartialConfig { editor, editor_mode, exclude, include_hidden, recursive, open_editor, format, plain_text } =
        partial;
    if let Some(value) = editor {
        config.editor = Some(value);
    }
    assert(editor_view(config.editor) == merged(c0, p).editor);
    if let Some(value) = editor_mode {
        config.editor_mode = value;
    }
    if let Some(mut value) = exclude {
        let ghost a = config.exclude@;
        let ghost b = value@;
        config.exclude.append(&mut value);
        proof {
            assert(strs(config.exclude@) =~= strs(a) + strs(b));
        }
    }
    assert(strs(config.exclude@) == merged(c0, p).exclude);
    if let Some(value) = include_hidden {
        config.include_hidden = value;
    }
    if let Some(value) = recursive {
        config.recursive = value;
    }
    if let Some(value) = open_editor {
        config.open_editor = value;
    }
    if let Some(value) = format {
        config.plan_format = value;
    } else if plain_text == Some(true) {
        config.plan_format = PlanFormat::PlainText;
    }
}

/// The command line and environment laid over `c`: `--no-default-excludes` drops the
/// excludes so far, `--exclude` adds, `--hidden` and `--no-recursive` set, `--editor`
/// and then `REMODECO_EDITOR` replace the editor, `--editor-mode` and `--format` set,
/// and `--no-edit` turns the editor off.
pub open spec fn overridden(c: ConfigV, o: ConfigOverrides) -> ConfigV {
    ConfigV {
        editor: match o.env_editor {
            Some(e) => Some(EditorV::Line(e@)),
            None => match o.editor {
                Some(e) => Some(EditorV::Line(e@)),
                None => c.editor,
            },
        },
        editor_mode: match o.editor_mode {
            Some(m) => m,
            None => c.editor_mode,
        },
        exclude: (if o.no_default_excludes {
            Seq::empty()
        } else {
            c.exclude
        }) + strs(o.exclude@),
        include_hidden: c.include_hidden || o.hidden,
        recursive: c.recursive && !o.no_recursive,
        open_editor: c.open_editor && !o.no_edit,
        plan_format: match o.format {
            Some(f) => f,
            None => c.plan_format,
        },
    }
}

/// Lays the command line and environment over `config` (see `overridden`).
pub fn apply_overrides(config: &mut AppConfig, overrides: ConfigOverrides)
    ensures
        final(config)@ == overridden(old(config)@, overrides),
{
    let ghost o = overrides;
    let ConfigOverrides { no_default_excludes, exclude, hidden, no_recursive, editor, editor_mode, no_edit, format, env_editor } =
        overrides;
    if no_default_excludes {
        config.exclude = Vec::new();
        assert(strs(config.exclude@) =~= Seq::<Seq<char>>::empty());
    }
    let mut extra = exclude;
    let ghost a = config.exclude@;
    let ghost b = extra@;
    config.exclude.append(&mut extra);
    proof {
        assert(strs(config.exclude@) =~= strs(a) + strs(b));
    }
    if hidden {
        config.include_hidden = true;
    }
    if no_recursive {
        config.recursive = false;
    }
    if let Some(e) = editor {
        config.editor = Some(EditorCommand::String(e));
    }
    if let Some(m) = editor_mode {
        config.editor_mode = m;
    }
    if no_edit {
        config.open_editor = false;
    }
    if let Some(f) = format {
        config.plan_format = f;
    }
    if let Some(e) = env_editor {
        config.editor = Some(EditorCommand::String(e));
    }
}

} // verus!
