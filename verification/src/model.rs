//! Session, manifest, operation, schedule and journal records.

use vstd::prelude::*;

verus! {

#[derive(Clone, Copy, Debug, PartialEq, Eq, Structural)]
pub enum SessionMode {
    Move,
    Copy,
}

impl SessionMode {
    /// The lowercase name stored on disk and shown to the user.
    pub fn name(&self) -> (s: &'static str)
        ensures
            s@ == (match self {
                SessionMode::Move => "move"@,
                SessionMode::Copy => "copy"@,
            }),
    {
        match self {
            SessionMode::Move => "move",
            SessionMode::Copy => "copy",
        }
    }
}

#[derive(Clone, Copy, Debug, PartialEq, Eq, Structural)]
pub enum SessionStatus {
    Draft,
    Executing,
    ExecuteInterrupted,
    Executed,
    Undoing,
    UndoInterrupted,
    Undone,
}

pub open spec fn status_unfinished(s: SessionStatus) -> bool {
    !(s == SessionStatus::Executed || s == SessionStatus::Undone)
}

pub open spec fn status_executable(s: SessionStatus) -> bool {
    s == SessionStatus::Draft || s == SessionStatus::Executing || s
        == SessionStatus::ExecuteInterrupted
}

impl SessionStatus {
    /// A session that still needs work: anything but executed or undone.
    pub fn unfinished(self) -> (b: bool)
        ensures
            b == status_unfinished(self),
    {
        match self {
            SessionStatus::Draft
            | SessionStatus::Executing
            | SessionStatus::ExecuteInterrupted
            | SessionStatus::Undoing
            | SessionStatus::UndoInterrupted => true,
            SessionStatus::Executed | SessionStatus::Undone => false,
        }
    }

    /// A session that may (still) be executed: a draft, or an execution that did not finish.
    pub fn executable(self) -> (b: bool)
        ensures
            b == status_executable(self),
    {
        match self {
            SessionStatus::Draft | SessionStatus::Executing | SessionStatus::ExecuteInterrupted => true,
            _ => false,
        }
    }

    /// The kebab-case name stored on disk and shown to the user.
    pub fn name(&self) -> (s: &'static str)
        ensures
            s@ == (match self {
                SessionStatus::Draft => "draft"@,
                SessionStatus::Executing => "executing"@,
                SessionStatus::ExecuteInterrupted => "execute-interrupted"@,
                SessionStatus::Executed => "executed"@,
                SessionStatus::Undoing => "undoing"@,
                SessionStatus::UndoInterrupted => "undo-interrupted"@,
                SessionStatus::Undone => "undone"@,
            }),
    {
        match self {
            SessionStatus::Draft => "draft",
            SessionStatus::Executing => "executing",
            SessionStatus::ExecuteInterrupted => "execute-interrupted",
            SessionStatus::Executed => "executed",
            SessionStatus::Undoing => "undoing",
            SessionStatus::UndoInterrupted => "undo-interrupted",
            SessionStatus::Undone => "undone",
        }
    }
}

#[derive(Clone, Copy, Debug, PartialEq, Eq, Structural)]
pub enum SourceKind {
    File,
    Symlink,
}

/// Filesystem metadata recorded for a source; all numbers are kept as decimal text.
#[derive(Clone, Debug)]
pub struct SourceFingerprint {
    pub kind: SourceKind,
    pub dev: String,
    pub ino: String,
    pub size: String,
    pub nlink: String,
    pub mtime_ns: String,
    pub mode: u32,
}

pub struct FingerprintView {
    pub kind: SourceKind,
    pub dev: Seq<char>,
    pub ino: Seq<char>,
    pub size: Seq<char>,
    pub nlink: Seq<char>,
    pub mtime_ns: Seq<char>,
    pub mode: u32,
}

impl View for SourceFingerprint {
    type V = FingerprintView;

    open spec fn view(&self) -> FingerprintView {
        FingerprintView {
            kind: self.kind,
            dev: self.dev@,
            ino: self.ino@,
            size: self.size@,
            nlink: self.nlink@,
            mtime_ns: self.mtime_ns@,
            mode: self.mode,
        }
    }
}

impl SourceFingerprint {
    /// A field-by-field copy.
    pub fn duplicate(&self) -> (r: SourceFingerprint)
        ensures
            r@ == self@,
    {
        SourceFingerprint {
            kind: self.kind,
            dev: self.dev.clone(),
            ino: self.ino.clone(),
            size: self.size.clone(),
            nlink: self.nlink.clone(),
            mtime_ns: self.mtime_ns.clone(),
            mode: self.mode,
        }
    }

    /// Field-by-field equality.
    pub fn same_as(&self, other: &SourceFingerprint) -> (b: bool)
        ensures
            b == (self@ == other@),
    {
        self.kind == other.kind && self.dev == other.dev && self.ino == other.ino && self.size
            == other.size && self.nlink == other.nlink && self.mtime_ns == other.mtime_ns
            && self.mode == other.mode
    }
}

#[derive(Clone, Copy, Debug, PartialEq, Eq, Structural)]
pub enum DirectoryKind {
    Directory,
}

#[derive(Clone, Debug)]
pub struct DirectoryIdentity {
    pub kind: DirectoryKind,
    pub dev: String,
    pub ino: String,
}

impl DirectoryIdentity {
    /// A field-by-field copy.
    pub fn duplicate(&self) -> (r: DirectoryIdentity)
        ensures
            r.kind == self.kind,
            r.dev@ == self.dev@,
            r.ino@ == self.ino@,
    {
        DirectoryIdentity { kind: self.kind, dev: self.dev.clone(), ino: self.ino.clone() }
    }

    /// Same device and inode.
    pub fn same_as(&self, other: &DirectoryIdentity) -> (b: bool)
        ensures
            b == (self.dev@ == other.dev@ && self.ino@ == other.ino@),
    {
        self.dev == other.dev && self.ino == other.ino
    }
}

#[derive(Clone, Debug)]
pub struct ManifestEntry {
    pub id: u64,
    pub from: String,
    pub fingerprint: SourceFingerprint,
}

#[derive(Clone, Debug)]
pub struct ManifestFile {
    pub session_id: String,
    pub root: String,
    pub entries: Vec<ManifestEntry>,
}

#[derive(Clone, Debug)]
pub struct SessionStats {
    pub files: usize,
    pub symlinks: usize,
    pub skipped_special: usize,
    pub changes: usize,
}

#[derive(Clone, Debug)]
pub struct SessionRecord {
    pub id: String,
    pub root: String,
    pub mode: SessionMode,
    pub status: SessionStatus,
    pub revision: u64,
    pub created_at: String,
    pub updated_at: String,
    pub plan_path: String,
    pub manifest_path: String,
    pub generated_whole_file_hash: String,
    pub whole_file_hash: String,
    pub body_hash: String,
    pub plan_body_diverged: bool,
    pub active_journal_id: Option<String>,
    pub id_width: usize,
    pub tool_version: String,
    pub stats: SessionStats,
}

#[derive(Clone, Copy, Debug, PartialEq, Eq, Structural)]
pub enum OpKind {
    Skip,
    Noop,
    Trash,
    Move,
    Copy,
}

#[derive(Clone, Debug)]
pub struct Operation {
    pub id: u64,
    pub from: String,
    pub to: String,
    pub kind: OpKind,
}

#[derive(Clone, Debug)]
pub enum DestParentRef {
    Existing { identity: DirectoryIdentity, parent_path: String, suffix: Vec<String> },
    MkdirStep { step_id: String, parent_path: String, suffix: Vec<String> },
}

#[derive(Clone, Copy, Debug, PartialEq, Eq, Structural)]
pub enum PlannedKind {
    Mkdir,
    Stage,
    Commit,
    Copy,
    Trash,
    Noop,
}

#[derive(Clone, Debug)]
pub struct PlannedStep {
    pub step_id: String,
    pub op: PlannedKind,
    pub from: Option<String>,
    pub to: Option<String>,
    pub id: Option<u64>,
    pub fingerprint_from: Option<SourceFingerprint>,
    pub dest_parent_ref: Option<DestParentRef>,
    pub mkdir_path: Option<String>,
}

#[derive(Clone, Copy, Debug, PartialEq, Eq, Structural)]
pub enum StepState {
    Pending,
    InProgress,
    Committed,
    Failed,
    Skipped,
}

#[derive(Clone, Debug)]
pub struct TrashKey {
    pub files_path: String,
    pub info_path: Option<String>,
    pub original_path: String,
}

#[derive(Clone, Debug)]
pub struct JournalStep {
    pub planned: PlannedStep,
    pub state: StepState,
    pub error: Option<String>,
    pub created_by_us: Option<bool>,
    pub created_dir_fingerprint: Option<DirectoryIdentity>,
    pub fingerprint_to: Option<SourceFingerprint>,
    pub trash_restore_key: Option<TrashKey>,
}

#[derive(Clone, Copy, Debug, PartialEq, Eq, Structural)]
pub enum JournalMode {
    Execute,
    Undo,
}

#[derive(Clone, Copy, Debug, PartialEq, Eq, Structural)]
pub enum JournalFinalStatus {
    Executed,
    Undone,
    Aborted,
    Superseded,
}

#[derive(Clone, Debug)]
pub struct Journal {
    pub journal_id: String,
    pub mode: JournalMode,
    pub parent_journal_id: Option<String>,
    pub final_status: Option<JournalFinalStatus>,
    pub superseded_by_journal_id: Option<String>,
    pub expected_plan_hash: String,
    pub expected_revision: u64,
    pub expected_mode: SessionMode,
    pub steps: Vec<JournalStep>,
}

} // verus!
