//! Running a journal: what to check, ask, apply and record for each step, as a state
//! machine that the caller drives with what the filesystem and the user answered.

use crate::model::{
    DestParentRef, DirectoryIdentity, Journal, JournalFinalStatus, JournalMode, JournalStep, PlannedKind, PlannedStep,
    SourceFingerprint, StepState,
};
use crate::schedule::{concat, or_question};
use crate::text::push_str;
use vstd::prelude::*;

verus! {

/// What to do about a source that changed or went missing.
#[derive(Clone, Copy, Debug, PartialEq, Eq, Structural)]
pub enum MismatchAction {
    Proceed,
    Skip,
    All,
    Abort,
}

/// What to do about a file that cannot be sent to the trash.
#[derive(Clone, Copy, Debug, PartialEq, Eq, Structural)]
pub enum TrashFallbackAction {
    Delete,
    Skip,
    All,
    Abort,
}

/// How a step's source compares with its recorded fingerprint.
#[derive(Clone, Copy, Debug, PartialEq, Eq, Structural)]
pub enum SourceStatus {
    Unchanged,
    Changed,
    Missing,
}

/// The word for a step's kind in prompts, when the step has a source to verify.
pub open spec fn verify_kind(op: PlannedKind) -> Option<Seq<char>> {
    match op {
        PlannedKind::Trash => Some("Deletion"@),
        PlannedKind::Copy => Some("Copy"@),
        PlannedKind::Stage | PlannedKind::Commit => Some("Move"@),
        PlannedKind::Mkdir | PlannedKind::Noop => None,
    }
}

/// The kind word and the source path of a step whose source must match its fingerprint.
pub fn source_to_verify(planned: &PlannedStep) -> (r: Option<(&'static str, String)>)
    ensures
        match (r, planned.from, verify_kind(planned.op)) {
            (Some((k, p)), Some(from), Some(word)) => k@ == word && p@ == from@,
            (None, None, _) => true,
            (None, Some(_), None) => true,
            _ => false,
        },
{
    let path = match &planned.from {
        Some(p) => p.clone(),
        None => return None,
    };
    let kind = match planned.op {
        PlannedKind::Trash => "Deletion",
        PlannedKind::Copy => "Copy",
        PlannedKind::Stage | PlannedKind::Commit => "Move",
        PlannedKind::Mkdir | PlannedKind::Noop => return None,
    };
    Some((kind, path))
}

/// The shell-like line printed for a step.
pub open spec fn spec_command_line(p: PlannedStep) -> Option<Seq<char>> {
    match p.op {
        PlannedKind::Mkdir => Some("mkdir "@ + or_question(p.mkdir_path)),
        PlannedKind::Trash => Some("rm "@ + or_question(p.from)),
        PlannedKind::Copy => Some("cp "@ + or_question(p.from) + " "@ + or_question(p.to)),
        PlannedKind::Stage | PlannedKind::Commit => Some(
            "mv "@ + or_question(p.from) + " "@ + or_question(p.to),
        ),
        PlannedKind::Noop => None,
    }
}

fn text_or_question(o: &Option<String>) -> (r: String)
    ensures
        r@ == or_question(*o),
{
    match o {
        Some(s) => s.clone(),
        None => {
            let mut q = String::new();
            push_str(&mut q, "?");
            q
        },
    }
}

/// The command a step amounts to: `mkdir`, `rm`, `cp` or `mv` with its paths (`?` for
/// a missing one); none for a no-op.
pub fn command_line(planned: &PlannedStep) -> (r: Option<String>)
    ensures
        match (r, spec_command_line(*planned)) {
            (Some(s), Some(t)) => s@ == t,
            (None, None) => true,
            _ => false,
        },
{
    match planned.op {
        PlannedKind::Mkdir => Some(concat("mkdir ", text_or_question(&planned.mkdir_path).as_str())),
        PlannedKind::Trash => Some(concat("rm ", text_or_question(&planned.from).as_str())),
        PlannedKind::Copy | PlannedKind::Stage | PlannedKind::Commit => {
            let mut out = String::new();
            let word = if planned.op == PlannedKind::Copy {
                "cp "
            } else {
                "mv "
            };
            push_str(&mut out, word);
            push_str(&mut out, text_or_question(&planned.from).as_str());
            push_str(&mut out, " ");
            push_str(&mut out, text_or_question(&planned.to).as_str());
            proof {
                assert(out@ =~= word@ + or_question(planned.from) + " "@ + or_question(planned.to));
            }
            Some(out)
        },
        PlannedKind::Noop => None,
    }
}

/// The journal steps after skipping step `i`: it becomes skipped, and so does every
/// later pending step of the same operation id; nothing else changes.
pub open spec fn skipped_steps(s: Seq<JournalStep>, i: int) -> Seq<JournalStep> {
    Seq::new(
        s.len(),
        |j: int|
            if j == i || (j > i && s[i].planned.id is Some && s[j].planned.id == s[i].planned.id
                && s[j].state == StepState::Pending) {
                JournalStep { state: StepState::Skipped, ..s[j] }
            } else {
                s[j]
            },
    )
}

/// Marks step `index` skipped, with the later pending steps of the same id.
pub fn skip_step(journal: &mut Journal, index: usize)
    requires
        index < old(journal).steps.len(),
    ensures
        final(journal).steps@ == skipped_steps(old(journal).steps@, index as int),
        final(journal).journal_id == old(journal).journal_id,
        final(journal).mode == old(journal).mode,
        final(journal).parent_journal_id == old(journal).parent_journal_id,
        final(journal).final_status == old(journal).final_status,
        final(journal).superseded_by_journal_id == old(journal).superseded_by_journal_id,
        final(journal).expected_plan_hash == old(journal).expected_plan_hash,
        final(journal).expected_revision == old(journal).expected_revision,
        final(journal).expected_mode == old(journal).expected_mode,
{
    let ghost s0 = journal.steps@;
    let id = journal.steps[index].planned.id;
    let mut steps: Vec<JournalStep> = Vec::new();
    std::mem::swap(&mut steps, &mut journal.steps);
    assert(steps@ == s0);
    let mut j: usize = 0;
    while j < steps.len()
        invariant
            steps.len() == s0.len(),
            index < s0.len(),
            id == s0[index as int].planned.id,
            j <= steps.len(),
            forall|t: int| 0 <= t < j ==> steps@[t] == skipped_steps(s0, index as int)[t],
            forall|t: int| j <= t < steps.len() ==> steps@[t] == s0[t],
        decreases steps.len() - j,
    {
        let hit = j == index || (j > index && id.is_some() && steps[j].planned.id == id
            && steps[j].state == StepState::Pending);
        if hit {
            let mut st = steps.remove(j);
            st.state = StepState::Skipped;
            steps.insert(j, st);
        }
        proof {
            assert(steps@[j as int] == skipped_steps(s0, index as int)[j as int]);
        }
        j += 1;
    }
    journal.steps = steps;
    assert(journal.steps@ =~= skipped_steps(s0, index as int));
}


/// Where a journal run stands within the current step.
#[derive(Clone, Copy, Debug, PartialEq, Eq, Structural)]
pub enum RunStage {
    Begin,
    Reconciling,
    CheckingSource,
    AskingChanged,
    AskingMissing,
    LocatingTrash,
    AskingTrash,
    Applying,
    Pruning,
    Done,
}

/// A journal run: the current step, the stage within it, the answers that apply to the
/// rest of the run ("all"), and how the current step is to be applied.
#[derive(Clone, Copy, Debug, PartialEq, Eq, Structural)]
pub struct JournalRun {
    pub index: usize,
    pub stage: RunStage,
    pub proceed_all: bool,
    pub skip_all_missing: bool,
    pub delete_all_untrashable: bool,
    pub verify_source: bool,
    pub permanent_delete: bool,
}

/// What the caller found or was told, answering the last action.
pub enum RunEvent {
    /// Go on (to start, and after pruning).
    Next,
    /// A step left in progress was found applied, with the fingerprint of its result.
    Reconciled(Option<SourceFingerprint>),
    /// How the step's source compares with its fingerprint.
    Source(SourceStatus),
    /// The user's answer about a changed or missing source.
    Mismatch(MismatchAction),
    /// Why the trash cannot take the file, if it cannot.
    TrashLocated(Option<String>),
    /// The user's answer about a file the trash cannot take.
    TrashChoice(TrashFallbackAction),
    /// The error met applying the step, if any.
    Applied(Option<String>),
}

/// What the caller should do next.
pub enum RunAction {
    /// Check whether step `index`, left in progress, was already applied.
    Reconcile { index: usize },
    /// Compare the source `path` of step `index` with its fingerprint.
    CheckSource { index: usize, path: String },
    /// Ask what to do about a source that changed (or is missing).
    AskMismatch { kind: String, path: String, missing: bool },
    /// Find the trash for `path`.
    LocateTrash { path: String },
    /// Ask what to do about a file the trash cannot take.
    AskUnsafeTrash { path: String, reason: String },
    /// Print `command`, then apply step `index`.
    Apply { index: usize, command: Option<String>, verify_source: bool, permanent_delete: bool },
    /// Remove the directories above `from` that became empty, up to the root.
    Prune { from: String },
    /// The run is complete.
    Finished,
    /// The run stopped at the current step.
    Stopped,
    /// The run cannot go on; report `message` as an error.
    Fail { message: String },
}

/// The next action, and whether the journal must be written before it.
pub struct RunDecision {
    pub action: RunAction,
    pub write: bool,
}

pub enum ActionV {
    Reconcile(int),
    CheckSource(int, Seq<char>),
    AskMismatch(Seq<char>, Seq<char>, bool),
    LocateTrash(Seq<char>),
    AskUnsafeTrash(Seq<char>, Seq<char>),
    Apply(int, Option<Seq<char>>, bool, bool),
    Prune(Seq<char>),
    Finished,
    Stopped,
    Fail(Seq<char>),
}

pub open spec fn action_view(a: RunAction) -> ActionV {
    match a {
        RunAction::Reconcile { index } => ActionV::Reconcile(index as int),
        RunAction::CheckSource { index, path } => ActionV::CheckSource(index as int, path@),
        RunAction::AskMismatch { kind, path, missing } => ActionV::AskMismatch(kind@, path@, missing),
        RunAction::LocateTrash { path } => ActionV::LocateTrash(path@),
        RunAction::AskUnsafeTrash { path, reason } => ActionV::AskUnsafeTrash(path@, reason@),
        RunAction::Apply { index, command, verify_source, permanent_delete } => ActionV::Apply(
            index as int,
            crate::schedule::opt_str(command),
            verify_source,
            permanent_delete,
        ),
        RunAction::Prune { from } => ActionV::Prune(from@),
        RunAction::Finished => ActionV::Finished,
        RunAction::Stopped => ActionV::Stopped,
        RunAction::Fail { message } => ActionV::Fail(message@),
    }
}

/// The result of one decision: the run after it, the steps after its exact edits, an
/// error recorded on a step as the last edit (step, state, message), the new final
/// status if it changes, the action, and whether to write first.
pub struct Outcome {
    pub run: JournalRun,
    pub steps: Seq<JournalStep>,
    pub error: Option<(int, StepState, Seq<char>)>,
    pub final_status: Option<Option<JournalFinalStatus>>,
    pub action: ActionV,
    pub write: bool,
}

pub open spec fn set_state(s: Seq<JournalStep>, i: int, st: StepState) -> Seq<JournalStep> {
    s.update(i, JournalStep { state: st, ..s[i] })
}

/// The first step at or after `i` that is neither committed nor skipped.
pub open spec fn next_open(s: Seq<JournalStep>, i: int) -> int
    decreases s.len() - i,
{
    if i < 0 || i >= s.len() {
        s.len() as int
    } else if s[i].state == StepState::Committed || s[i].state == StepState::Skipped {
        next_open(s, i + 1)
    } else {
        i
    }
}

pub open spec fn finished_status(mode: JournalMode) -> JournalFinalStatus {
    match mode {
        JournalMode::Execute => JournalFinalStatus::Executed,
        JournalMode::Undo => JournalFinalStatus::Undone,
    }
}

pub open spec fn plain(run: JournalRun, steps: Seq<JournalStep>, action: ActionV, write: bool) -> Outcome {
    Outcome { run, steps, error: None, final_status: None, action, write }
}

/// Stopping at step `i` with `msg` recorded (and the step left in `st`).
pub open spec fn stop_with(
    run: JournalRun,
    steps: Seq<JournalStep>,
    i: int,
    st: StepState,
    msg: Seq<char>,
) -> Outcome {
    Outcome {
        run: JournalRun { stage: RunStage::Done, ..run },
        steps,
        error: Some((i, st, msg)),
        final_status: Some(None),
        action: ActionV::Stopped,
        write: true,
    }
}

/// Marks the current step in progress and asks for it to be applied.
pub open spec fn apply_prep(run: JournalRun, steps: Seq<JournalStep>) -> Outcome {
    let i = run.index as int;
    plain(
        JournalRun { stage: RunStage::Applying, ..run },
        set_state(steps, i, StepState::InProgress),
        ActionV::Apply(i, spec_command_line(steps[i].planned), run.verify_source, run.permanent_delete),
        true,
    )
}

/// A trash step first asks where the trash is; other steps go to be applied.
pub open spec fn trash_check(run: JournalRun, steps: Seq<JournalStep>, write: bool) -> Outcome {
    let p = steps[run.index as int].planned;
    if p.op == PlannedKind::Trash && p.from is Some {
        plain(JournalRun { stage: RunStage::LocatingTrash, ..run }, steps, ActionV::LocateTrash(p.from->0@), write)
    } else {
        apply_prep(run, steps)
    }
}

/// A step with a source to verify asks for it to be checked; others go on.
pub open spec fn check_source(run: JournalRun, steps: Seq<JournalStep>, write: bool) -> Outcome {
    let i = run.index as int;
    let p = steps[i].planned;
    let r = JournalRun { verify_source: true, permanent_delete: false, ..run };
    match (p.from, verify_kind(p.op)) {
        (Some(from), Some(_)) => if p.fingerprint_from is None {
            plain(JournalRun { stage: RunStage::Done, ..r }, steps, ActionV::Fail("step has no fingerprint"@), write)
        } else {
            plain(JournalRun { stage: RunStage::CheckingSource, ..r }, steps, ActionV::CheckSource(i, from@), write)
        },
        _ => trash_check(r, steps, write),
    }
}

/// Moves to the first open step at or after `i`: the end finishes the run; a step left
/// in progress is reconciled first; any other has its source checked.
pub open spec fn begin_at(run: JournalRun, steps: Seq<JournalStep>, mode: JournalMode, i: int, write: bool) -> Outcome {
    let k = next_open(steps, i);
    if k >= steps.len() {
        Outcome {
            run: JournalRun { index: k as usize, stage: RunStage::Done, ..run },
            steps,
            error: None,
            final_status: Some(Some(finished_status(mode))),
            action: ActionV::Finished,
            write: true,
        }
    } else if steps[k].state == StepState::InProgress {
        plain(JournalRun { index: k as usize, stage: RunStage::Reconciling, ..run }, steps, ActionV::Reconcile(k), write)
    } else {
        check_source(JournalRun { index: k as usize, ..run }, steps, write)
    }
}

pub open spec fn missing_message(kind: Seq<char>, path: Seq<char>) -> Seq<char> {
    kind + " target is missing: "@ + path
}

/// Whether an event answers the action asked at a stage.
pub open spec fn event_fits(stage: RunStage, e: RunEvent) -> bool {
    match (stage, e) {
        (RunStage::Begin, RunEvent::Next) => true,
        (RunStage::Reconciling, RunEvent::Reconciled(_)) => true,
        (RunStage::CheckingSource, RunEvent::Source(_)) => true,
        (RunStage::AskingChanged, RunEvent::Mismatch(_)) => true,
        (RunStage::AskingMissing, RunEvent::Mismatch(_)) => true,
        (RunStage::LocatingTrash, RunEvent::TrashLocated(_)) => true,
        (RunStage::AskingTrash, RunEvent::TrashChoice(_)) => true,
        (RunStage::Applying, RunEvent::Applied(_)) => true,
        (RunStage::Pruning, RunEvent::Next) => true,
        _ => false,
    }
}

/// The decision for `event` at the run's stage.
pub open spec fn spec_advance(run: JournalRun, steps: Seq<JournalStep>, mode: JournalMode, e: RunEvent) -> Outcome {
    let i = run.index as int;
    let p = steps[i].planned;
    let kind = match verify_kind(p.op) {
        Some(k) => k,
        None => Seq::empty(),
    };
    let path = match p.from {
        Some(f) => f@,
        None => Seq::empty(),
    };
    match e {
        RunEvent::Next => if run.stage == RunStage::Begin {
            begin_at(run, steps, mode, i, false)
        } else {
            begin_at(run, steps, mode, i + 1, false)
        },
        RunEvent::Reconciled(Some(fp)) => begin_at(
            run,
            steps.update(i, JournalStep { state: StepState::Committed, fingerprint_to: Some(fp), ..steps[i] }),
            mode,
            i + 1,
            true,
        ),
        RunEvent::Reconciled(None) => check_source(run, steps, false),
        RunEvent::Source(SourceStatus::Unchanged) => trash_check(run, steps, false),
        RunEvent::Source(SourceStatus::Changed) => if run.proceed_all {
            trash_check(JournalRun { verify_source: false, ..run }, steps, false)
        } else {
            plain(JournalRun { stage: RunStage::AskingChanged, ..run }, steps, ActionV::AskMismatch(kind, path, false), false)
        },
        RunEvent::Source(SourceStatus::Missing) => if run.skip_all_missing {
            begin_at(run, skipped_steps(steps, i), mode, i + 1, true)
        } else {
            plain(JournalRun { stage: RunStage::AskingMissing, ..run }, steps, ActionV::AskMismatch(kind, path, true), false)
        },
        RunEvent::Mismatch(a) => if run.stage == RunStage::AskingChanged {
            match a {
                MismatchAction::Proceed | MismatchAction::All => trash_check(
                    JournalRun { proceed_all: run.proceed_all || a == MismatchAction::All, verify_source: false, ..run },
                    steps,
                    false,
                ),
                MismatchAction::Skip => begin_at(run, skipped_steps(steps, i), mode, i + 1, true),
                MismatchAction::Abort => stop_with(run, steps, i, steps[i].state, "aborted"@),
            }
        } else {
            match a {
                MismatchAction::Skip | MismatchAction::All => begin_at(
                    JournalRun { skip_all_missing: run.skip_all_missing || a == MismatchAction::All, ..run },
                    skipped_steps(steps, i),
                    mode,
                    i + 1,
                    true,
                ),
                MismatchAction::Abort => stop_with(run, steps, i, steps[i].state, "aborted"@),
                MismatchAction::Proceed => stop_with(run, steps, i, StepState::Failed, missing_message(kind, path)),
            }
        },
        RunEvent::TrashLocated(None) => apply_prep(run, steps),
        RunEvent::TrashLocated(Some(reason)) => if run.delete_all_untrashable {
            apply_prep(JournalRun { permanent_delete: true, ..run }, steps)
        } else {
            plain(JournalRun { stage: RunStage::AskingTrash, ..run }, steps, ActionV::AskUnsafeTrash(path, reason@), false)
        },
        RunEvent::TrashChoice(a) => match a {
            TrashFallbackAction::Delete | TrashFallbackAction::All => apply_prep(
                JournalRun {
                    delete_all_untrashable: run.delete_all_untrashable || a == TrashFallbackAction::All,
                    permanent_delete: true,
                    ..run
                },
                steps,
            ),
            TrashFallbackAction::Skip => begin_at(run, skipped_steps(steps, i), mode, i + 1, true),
            TrashFallbackAction::Abort => stop_with(run, steps, i, steps[i].state, "aborted"@),
        },
        RunEvent::Applied(Some(err)) => stop_with(run, steps, i, StepState::Failed, err@),
        RunEvent::Applied(None) => {
            let s2 = set_state(steps, i, StepState::Committed);
            if (p.op == PlannedKind::Stage || p.op == PlannedKind::Commit || p.op == PlannedKind::Trash) && p.from is Some {
                plain(JournalRun { stage: RunStage::Pruning, ..run }, s2, ActionV::Prune(path), true)
            } else {
                begin_at(run, s2, mode, i + 1, true)
            }
        },
    }
}

/// The journal after a decision: its steps and final status as the outcome says, the
/// rest unchanged.
pub open spec fn journal_follows(o: Outcome, j0: Journal, j1: Journal) -> bool {
    &&& match o.error {
        None => j1.steps@ == o.steps,
        Some((i, st, msg)) => {
            &&& j1.steps@.len() == o.steps.len()
            &&& 0 <= i < o.steps.len()
            &&& forall|j: int| 0 <= j < o.steps.len() && j != i ==> j1.steps@[j] == o.steps[j]
            &&& j1.steps@[i] == JournalStep { state: st, error: j1.steps@[i].error, ..o.steps[i] }
            &&& crate::schedule::opt_str(j1.steps@[i].error) == Some(msg)
        },
    }
    &&& match o.final_status {
        None => j1.final_status == j0.final_status,
        Some(f) => j1.final_status == f,
    }
    &&& j1.journal_id == j0.journal_id
    &&& j1.mode == j0.mode
    &&& j1.parent_journal_id == j0.parent_journal_id
    &&& j1.superseded_by_journal_id == j0.superseded_by_journal_id
    &&& j1.expected_plan_hash == j0.expected_plan_hash
    &&& j1.expected_revision == j0.expected_revision
    &&& j1.expected_mode == j0.expected_mode
}


pub open spec fn outcome_ok(o: Outcome, r: JournalRun, j0: Journal, j1: Journal, d: RunDecision) -> bool {
    &&& r == o.run
    &&& journal_follows(o, j0, j1)
    &&& action_view(d.action) == o.action
    &&& d.write == o.write
}

pub open spec fn same_header(j0: Journal, j1: Journal) -> bool {
    &&& j1.journal_id == j0.journal_id
    &&& j1.mode == j0.mode
    &&& j1.parent_journal_id == j0.parent_journal_id
    &&& j1.final_status == j0.final_status
    &&& j1.superseded_by_journal_id == j0.superseded_by_journal_id
    &&& j1.expected_plan_hash == j0.expected_plan_hash
    &&& j1.expected_revision == j0.expected_revision
    &&& j1.expected_mode == j0.expected_mode
}

fn set_step_state(journal: &mut Journal, i: usize, st: StepState)
    requires
        i < old(journal).steps.len(),
    ensures
        final(journal).steps@ == set_state(old(journal).steps@, i as int, st),
        same_header(*old(journal), *final(journal)),
{
    let mut step = journal.steps.remove(i);
    step.state = st;
    journal.steps.insert(i, step);
    assert(journal.steps@ =~= set_state(old(journal).steps@, i as int, st));
}

fn apply_prep_exec(run: &mut JournalRun, journal: &mut Journal) -> (d: RunDecision)
    requires
        old(run).index < old(journal).steps.len(),
    ensures
        outcome_ok(apply_prep(*old(run), old(journal).steps@), *final(run), *old(journal), *final(journal), d),
{
    let i = run.index;
    let command = command_line(&journal.steps[i].planned);
    set_step_state(journal, i, StepState::InProgress);
    run.stage = RunStage::Applying;
    RunDecision {
        action: RunAction::Apply {
            index: i,
            command,
            verify_source: run.verify_source,
            permanent_delete: run.permanent_delete,
        },
        write: true,
    }
}

fn trash_check_exec(run: &mut JournalRun, journal: &mut Journal, write: bool) -> (d: RunDecision)
    requires
        old(run).index < old(journal).steps.len(),
    ensures
        outcome_ok(trash_check(*old(run), old(journal).steps@, write), *final(run), *old(journal), *final(journal), d),
{
    let i = run.index;
    if journal.steps[i].planned.op == PlannedKind::Trash {
        if let Some(from) = &journal.steps[i].planned.from {
            let path = from.clone();
            run.stage = RunStage::LocatingTrash;
            return RunDecision { action: RunAction::LocateTrash { path }, write };
        }
    }
    apply_prep_exec(run, journal)
}

fn check_source_exec(run: &mut JournalRun, journal: &mut Journal, write: bool) -> (d: RunDecision)
    requires
        old(run).index < old(journal).steps.len(),
    ensures
        outcome_ok(check_source(*old(run), old(journal).steps@, write), *final(run), *old(journal), *final(journal), d),
{
    let i = run.index;
    run.verify_source = true;
    run.permanent_delete = false;
    match source_to_verify(&journal.steps[i].planned) {
        Some((_kind, path)) => {
            if journal.steps[i].planned.fingerprint_from.is_none() {
                let mut message = String::new();
                push_str(&mut message, "step has no fingerprint");
                run.stage = RunStage::Done;
                RunDecision { action: RunAction::Fail { message }, write }
            } else {
                run.stage = RunStage::CheckingSource;
                RunDecision { action: RunAction::CheckSource { index: i, path }, write }
            }
        },
        None => trash_check_exec(run, journal, write),
    }
}

fn begin_exec(run: &mut JournalRun, journal: &mut Journal, i: usize, write: bool) -> (d: RunDecision)
    requires
        i <= old(journal).steps.len(),
    ensures
        outcome_ok(
            begin_at(*old(run), old(journal).steps@, old(journal).mode, i as int, write),
            *final(run),
            *old(journal),
            *final(journal),
            d,
        ),
{
    let ghost s = journal.steps@;
    let mut k = i;
    while k < journal.steps.len() && (journal.steps[k].state == StepState::Committed
        || journal.steps[k].state == StepState::Skipped)
        invariant
            i <= k <= journal.steps.len(),
            s == journal.steps@,
            next_open(s, i as int) == next_open(s, k as int),
        decreases journal.steps.len() - k,
    {
        k += 1;
    }
    run.index = k;
    if k >= journal.steps.len() {
        run.stage = RunStage::Done;
        journal.final_status = Some(
            match journal.mode {
                JournalMode::Execute => JournalFinalStatus::Executed,
                JournalMode::Undo => JournalFinalStatus::Undone,
            },
        );
        return RunDecision { action: RunAction::Finished, write: true };
    }
    if journal.steps[k].state == StepState::InProgress {
        run.stage = RunStage::Reconciling;
        return RunDecision { action: RunAction::Reconcile { index: k }, write };
    }
    check_source_exec(run, journal, write)
}

fn stop_exec(run: &mut JournalRun, journal: &mut Journal, st: StepState, message: String) -> (d: RunDecision)
    requires
        old(run).index < old(journal).steps.len(),
    ensures
        outcome_ok(
            stop_with(*old(run), old(journal).steps@, old(run).index as int, st, message@),
            *final(run),
            *old(journal),
            *final(journal),
            d,
        ),
{
    let i = run.index;
    let mut step = journal.steps.remove(i);
    step.state = st;
    step.error = Some(message);
    journal.steps.insert(i, step);
    journal.final_status = None;
    run.stage = RunStage::Done;
    RunDecision { action: RunAction::Stopped, write: true }
}

fn text(s: &str) -> (r: String)
    ensures
        r@ == s@,
{
    let mut out = String::new();
    push_str(&mut out, s);
    out
}

/// Takes one decision of a journal run (see `spec_advance`): `event` answers the action
/// the run last asked for; the journal is updated, and the next action returned. The
/// caller writes the journal when `write` is set, then performs the action.
///
/// Per step: committed and skipped steps are passed over; a step left in progress is
/// reconciled first; a source that changed asks whether to proceed (unless "all" was
/// answered before), a missing source whether to skip; a trash step whose file the
/// trash cannot take asks whether to delete it; skipping a step skips the later
/// pending steps of the same id; an abort records "aborted" and stops; a failed step
/// records its error and stops; after the last step the journal is marked executed or
/// undone by its mode.
pub fn advance(run: &mut JournalRun, journal: &mut Journal, event: RunEvent) -> (d: RunDecision)
    requires
        event_fits(old(run).stage, event),
        old(run).stage == RunStage::Begin ==> old(run).index <= old(journal).steps.len(),
        old(run).stage != RunStage::Begin ==> old(run).index < old(journal).steps.len(),
    ensures
        outcome_ok(
            spec_advance(*old(run), old(journal).steps@, old(journal).mode, event),
            *final(run),
            *old(journal),
            *final(journal),
            d,
        ),
{
    match event {
        RunEvent::Next => {
            let i = run.index;
            if run.stage == RunStage::Begin {
                begin_exec(run, journal, i, false)
            } else {
                begin_exec(run, journal, i + 1, false)
            }
        },
        RunEvent::Reconciled(fp) => on_reconciled(run, journal, fp),
        RunEvent::Source(status) => on_source(run, journal, status),
        RunEvent::Mismatch(a) => on_mismatch(run, journal, a),
        RunEvent::TrashLocated(reason) => on_trash_located(run, journal, reason),
        RunEvent::TrashChoice(a) => on_trash_choice(run, journal, a),
        RunEvent::Applied(err) => on_applied(run, journal, err),
    }
}

fn on_reconciled(run: &mut JournalRun, journal: &mut Journal, fp: Option<SourceFingerprint>) -> (d: RunDecision)
    requires
        old(run).index < old(journal).steps.len(),
    ensures
        outcome_ok(
            spec_advance(*old(run), old(journal).steps@, old(journal).mode, RunEvent::Reconciled(fp)),
            *final(run),
            *old(journal),
            *final(journal),
            d,
        ),
{
    let i = run.index;
    match fp {
        Some(fp) => {
            let mut step = journal.steps.remove(i);
            step.state = StepState::Committed;
            step.fingerprint_to = Some(fp);
            journal.steps.insert(i, step);
            proof {
                assert(journal.steps@ =~= old(journal).steps@.update(
                    i as int,
                    JournalStep { state: StepState::Committed, fingerprint_to: Some(fp), ..old(journal).steps@[i as int] },
                ));
            }
            begin_exec(run, journal, i + 1, true)
        },
        None => check_source_exec(run, journal, false),
    }
}

fn on_source(run: &mut JournalRun, journal: &mut Journal, status: SourceStatus) -> (d: RunDecision)
    requires
        old(run).index < old(journal).steps.len(),
    ensures
        outcome_ok(
            spec_advance(*old(run), old(journal).steps@, old(journal).mode, RunEvent::Source(status)),
            *final(run),
            *old(journal),
            *final(journal),
            d,
        ),
{
    let i = run.index;
    match status {
        SourceStatus::Unchanged => trash_check_exec(run, journal, false),
        SourceStatus::Changed => {
            if run.proceed_all {
                run.verify_source = false;
                trash_check_exec(run, journal, false)
            } else {
                let (kind, path) = prompt_words(&journal.steps[i].planned);
                run.stage = RunStage::AskingChanged;
                RunDecision { action: RunAction::AskMismatch { kind, path, missing: false }, write: false }
            }
        },
        SourceStatus::Missing => {
            if run.skip_all_missing {
                skip_step(journal, i);
                begin_exec(run, journal, i + 1, true)
            } else {
                let (kind, path) = prompt_words(&journal.steps[i].planned);
                run.stage = RunStage::AskingMissing;
                RunDecision { action: RunAction::AskMismatch { kind, path, missing: true }, write: false }
            }
        },
    }
}

fn on_mismatch(run: &mut JournalRun, journal: &mut Journal, a: MismatchAction) -> (d: RunDecision)
    requires
        old(run).index < old(journal).steps.len(),
    ensures
        outcome_ok(
            spec_advance(*old(run), old(journal).steps@, old(journal).mode, RunEvent::Mismatch(a)),
            *final(run),
            *old(journal),
            *final(journal),
            d,
        ),
{
    let i = run.index;
    if run.stage == RunStage::AskingChanged {
        match a {
            MismatchAction::Proceed | MismatchAction::All => {
                run.proceed_all = run.proceed_all || a == MismatchAction::All;
                run.verify_source = false;
                trash_check_exec(run, journal, false)
            },
            MismatchAction::Skip => {
                skip_step(journal, i);
                begin_exec(run, journal, i + 1, true)
            },
            MismatchAction::Abort => {
                let st = journal.steps[i].state;
                stop_exec(run, journal, st, text("aborted"))
            },
        }
    } else {
        match a {
            MismatchAction::Skip | MismatchAction::All => {
                run.skip_all_missing = run.skip_all_missing || a == MismatchAction::All;
                skip_step(journal, i);
                begin_exec(run, journal, i + 1, true)
            },
            MismatchAction::Abort => {
                let st = journal.steps[i].state;
                stop_exec(run, journal, st, text("aborted"))
            },
            MismatchAction::Proceed => {
                let (kind, path) = prompt_words(&journal.steps[i].planned);
                let mut message = kind;
                push_str(&mut message, " target is missing: ");
                push_str(&mut message, path.as_str());
                stop_exec(run, journal, StepState::Failed, message)
            },
        }
    }
}

fn on_trash_located(run: &mut JournalRun, journal: &mut Journal, reason: Option<String>) -> (d: RunDecision)
    requires
        old(run).index < old(journal).steps.len(),
    ensures
        outcome_ok(
            spec_advance(*old(run), old(journal).steps@, old(journal).mode, RunEvent::TrashLocated(reason)),
            *final(run),
            *old(journal),
            *final(journal),
            d,
        ),
{
    let i = run.index;
    match reason {
        None => apply_prep_exec(run, journal),
        Some(reason) => {
            if run.delete_all_untrashable {
                run.permanent_delete = true;
                apply_prep_exec(run, journal)
            } else {
                let (_kind, path) = prompt_words(&journal.steps[i].planned);
                run.stage = RunStage::AskingTrash;
                RunDecision { action: RunAction::AskUnsafeTrash { path, reason }, write: false }
            }
        },
    }
}

fn on_trash_choice(run: &mut JournalRun, journal: &mut Journal, a: TrashFallbackAction) -> (d: RunDecision)
    requires
        old(run).index < old(journal).steps.len(),
    ensures
        outcome_ok(
            spec_advance(*old(run), old(journal).steps@, old(journal).mode, RunEvent::TrashChoice(a)),
            *final(run),
            *old(journal),
            *final(journal),
            d,
        ),
{
    let i = run.index;
    match a {
        TrashFallbackAction::Delete | TrashFallbackAction::All => {
            run.delete_all_untrashable = run.delete_all_untrashable || a == TrashFallbackAction::All;
            run.permanent_delete = true;
            apply_prep_exec(run, journal)
        },
        TrashFallbackAction::Skip => {
            skip_step(journal, i);
            begin_exec(run, journal, i + 1, true)
        },
        TrashFallbackAction::Abort => {
            let st = journal.steps[i].state;
            stop_exec(run, journal, st, text("aborted"))
        },
    }
}

fn on_applied(run: &mut JournalRun, journal: &mut Journal, err: Option<String>) -> (d: RunDecision)
    requires
        old(run).index < old(journal).steps.len(),
    ensures
        outcome_ok(
            spec_advance(*old(run), old(journal).steps@, old(journal).mode, RunEvent::Applied(err)),
            *final(run),
            *old(journal),
            *final(journal),
            d,
        ),
{
    let i = run.index;
    match err {
        Some(err) => stop_exec(run, journal, StepState::Failed, err),
        None => {
            set_step_state(journal, i, StepState::Committed);
            let op = journal.steps[i].planned.op;
            if op == PlannedKind::Stage || op == PlannedKind::Commit || op == PlannedKind::Trash {
                if let Some(from) = &journal.steps[i].planned.from {
                    let from = from.clone();
                    run.stage = RunStage::Pruning;
                    return RunDecision { action: RunAction::Prune { from }, write: true };
                }
            }
            begin_exec(run, journal, i + 1, true)
        },
    }
}

/// The kind word and the source path used in prompts.
fn prompt_words(p: &PlannedStep) -> (r: (String, String))
    ensures
        r.0@ == (match verify_kind(p.op) {
            Some(k) => k,
            None => Seq::<char>::empty(),
        }),
        r.1@ == (match p.from {
            Some(f) => f@,
            None => Seq::<char>::empty(),
        }),
{
    let kind = match p.op {
        PlannedKind::Trash => text("Deletion"),
        PlannedKind::Copy => text("Copy"),
        PlannedKind::Stage | PlannedKind::Commit => text("Move"),
        PlannedKind::Mkdir | PlannedKind::Noop => String::new(),
    };
    let path = match &p.from {
        Some(f) => f.clone(),
        None => String::new(),
    };
    (kind, path)
}

impl JournalRun {
    /// A run that starts at the first step, with no "all" answers yet.
    pub fn new() -> (r: JournalRun)
        ensures
            r.index == 0,
            r.stage == RunStage::Begin,
            !r.proceed_all && !r.skip_all_missing && !r.delete_all_untrashable,
            r.verify_source && !r.permanent_delete,
    {
        JournalRun {
            index: 0,
            stage: RunStage::Begin,
            proceed_all: false,
            skip_all_missing: false,
            delete_all_untrashable: false,
            verify_source: true,
            permanent_delete: false,
        }
    }
}


pub open spec fn settled(st: StepState) -> bool {
    st == StepState::Committed || st == StepState::Skipped
}

/// Every step before the run's current one is committed or skipped (and, while pruning,
/// the current one too).
pub open spec fn run_inv(run: JournalRun, steps: Seq<JournalStep>) -> bool {
    &&& run.index <= steps.len()
    &&& forall|j: int| 0 <= j < run.index ==> settled(#[trigger] steps[j].state)
    &&& run.stage == RunStage::Pruning ==> run.index < steps.len() && settled(steps[run.index as int].state)
}

proof fn lemma_next_open(s: Seq<JournalStep>, i: int)
    requires
        0 <= i <= s.len(),
    ensures
        i <= next_open(s, i) <= s.len(),
        forall|j: int| i <= j < next_open(s, i) ==> settled(#[trigger] s[j].state),
        next_open(s, i) < s.len() ==> !settled(s[next_open(s, i)].state),
    decreases s.len() - i,
{
    if i < s.len() && settled(s[i].state) {
        lemma_next_open(s, i + 1);
    }
}

/// What every outcome must keep.
pub open spec fn outcome_keeps(o: Outcome) -> bool {
    &&& (o.error is None && o.action !is Stopped ==> run_inv(o.run, o.steps))
    &&& (o.action is Finished ==> forall|j: int| 0 <= j < o.steps.len() ==> settled(#[trigger] o.steps[j].state))
}

proof fn lemma_begin_keeps(run: JournalRun, steps: Seq<JournalStep>, mode: JournalMode, i: int, write: bool)
    requires
        0 <= i <= steps.len(),
        forall|j: int| 0 <= j < i ==> settled(#[trigger] steps[j].state),
    ensures
        outcome_keeps(begin_at(run, steps, mode, i, write)),
{
    lemma_next_open(steps, i);
    let k = next_open(steps, i);
    assert forall|j: int| 0 <= j < k implies settled(#[trigger] steps[j].state) by {
        if j >= i {
            assert(settled(steps[j].state));
        }
    }
    if k < steps.len() {
        let r = JournalRun { index: k as usize, ..run };
        lemma_check_keeps(r, steps, write);
    }
}

proof fn lemma_prep_keeps(run: JournalRun, steps: Seq<JournalStep>)
    requires
        run.index < steps.len(),
        forall|j: int| 0 <= j < run.index ==> settled(#[trigger] steps[j].state),
    ensures
        outcome_keeps(apply_prep(run, steps)),
{
    let s2 = set_state(steps, run.index as int, StepState::InProgress);
    assert forall|j: int| 0 <= j < run.index implies settled(#[trigger] s2[j].state) by {
        assert(s2[j] == steps[j]);
    }
}

proof fn lemma_trash_keeps(run: JournalRun, steps: Seq<JournalStep>, write: bool)
    requires
        run.index < steps.len(),
        forall|j: int| 0 <= j < run.index ==> settled(#[trigger] steps[j].state),
    ensures
        outcome_keeps(trash_check(run, steps, write)),
{
    lemma_prep_keeps(run, steps);
}

proof fn lemma_check_keeps(run: JournalRun, steps: Seq<JournalStep>, write: bool)
    requires
        run.index < steps.len(),
        forall|j: int| 0 <= j < run.index ==> settled(#[trigger] steps[j].state),
    ensures
        outcome_keeps(check_source(run, steps, write)),
{
    let r = JournalRun { verify_source: true, permanent_delete: false, ..run };
    lemma_trash_keeps(r, steps, write);
}

proof fn lemma_skip_begin_keeps(run: JournalRun, steps: Seq<JournalStep>, mode: JournalMode)
    requires
        run.index < steps.len(),
        forall|j: int| 0 <= j < run.index ==> settled(#[trigger] steps[j].state),
    ensures
        outcome_keeps(begin_at(run, skipped_steps(steps, run.index as int), mode, run.index + 1, true)),
{
    let s2 = skipped_steps(steps, run.index as int);
    assert forall|j: int| 0 <= j < run.index + 1 implies settled(#[trigger] s2[j].state) by {
        if j < run.index {
            assert(s2[j] == steps[j]);
        }
    }
    lemma_begin_keeps(run, s2, mode, run.index + 1, true);
}

/// A journal run keeps every step before its current one committed or skipped, and
/// when it finishes every step is committed or skipped: no step is passed over.
pub proof fn lemma_run_settles_steps(run: JournalRun, steps: Seq<JournalStep>, mode: JournalMode, e: RunEvent)
    requires
        run_inv(run, steps),
        event_fits(run.stage, e),
        run.stage != RunStage::Begin ==> run.index < steps.len(),
    ensures
        outcome_keeps(spec_advance(run, steps, mode, e)),
{
    let i = run.index as int;
    match e {
        RunEvent::Next => {
            if run.stage == RunStage::Begin {
                lemma_begin_keeps(run, steps, mode, i, false);
            } else {
                lemma_begin_keeps(run, steps, mode, i + 1, false);
            }
        },
        RunEvent::Reconciled(Some(fp)) => {
            let s2 = steps.update(i, JournalStep { state: StepState::Committed, fingerprint_to: Some(fp), ..steps[i] });
            assert forall|j: int| 0 <= j < i + 1 implies settled(#[trigger] s2[j].state) by {
                if j < i {
                    assert(s2[j] == steps[j]);
                }
            }
            lemma_begin_keeps(run, s2, mode, i + 1, true);
        },
        RunEvent::Reconciled(None) => lemma_check_keeps(run, steps, false),
        RunEvent::Source(st) => {
            lemma_trash_keeps(run, steps, false);
            lemma_trash_keeps(JournalRun { verify_source: false, ..run }, steps, false);
            lemma_skip_begin_keeps(run, steps, mode);
        },
        RunEvent::Mismatch(a) => {
            lemma_trash_keeps(
                JournalRun { proceed_all: run.proceed_all || a == MismatchAction::All, verify_source: false, ..run },
                steps,
                false,
            );
            lemma_skip_begin_keeps(run, steps, mode);
            lemma_skip_begin_keeps(
                JournalRun { skip_all_missing: run.skip_all_missing || a == MismatchAction::All, ..run },
                steps,
                mode,
            );
        },
        RunEvent::TrashLocated(_) => {
            lemma_prep_keeps(run, steps);
            lemma_prep_keeps(JournalRun { permanent_delete: true, ..run }, steps);
        },
        RunEvent::TrashChoice(a) => {
            lemma_prep_keeps(
                JournalRun {
                    delete_all_untrashable: run.delete_all_untrashable || a == TrashFallbackAction::All,
                    permanent_delete: true,
                    ..run
                },
                steps,
            );
            lemma_skip_begin_keeps(run, steps, mode);
        },
        RunEvent::Applied(_) => {
            let s2 = set_state(steps, i, StepState::Committed);
            assert forall|j: int| 0 <= j < i + 1 implies settled(#[trigger] s2[j].state) by {
                if j < i {
                    assert(s2[j] == steps[j]);
                }
            }
            lemma_begin_keeps(run, s2, mode, i + 1, true);
        },
    }
}


/// The directory a step's destination must sit in: its path, the identity it must have,
/// and the components leading from it to the destination.
pub struct ParentExpectation {
    pub parent_path: String,
    pub identity: DirectoryIdentity,
    pub suffix: Vec<String>,
}

/// What the filesystem shows at a parent path: whether it is a real directory (not a
/// symlink), and its identity.
pub struct DirFacts {
    pub is_dir: bool,
    pub identity: DirectoryIdentity,
}

/// The index of the first step before `index` whose step id is `step_id`.
pub open spec fn find_step(steps: Seq<JournalStep>, index: int, step_id: Seq<char>, t: int) -> Option<int>
    decreases index - t,
{
    if t < 0 || t >= index || t >= steps.len() {
        None
    } else if steps[t].planned.step_id@ == step_id {
        Some(t)
    } else {
        find_step(steps, index, step_id, t + 1)
    }
}

/// What a parent reference expects: an existing directory as recorded, or the directory
/// created by an earlier mkdir step, which must be committed and have its identity.
pub open spec fn spec_expectation(steps: Seq<JournalStep>, index: int, r: DestParentRef) -> Result<
    (Seq<char>, Seq<char>, Seq<char>, Seq<Seq<char>>),
    Seq<char>,
> {
    match r {
        DestParentRef::Existing { identity, parent_path, suffix } => Ok(
            (parent_path@, identity.dev@, identity.ino@, crate::schedule::strs(suffix@)),
        ),
        DestParentRef::MkdirStep { step_id, parent_path, suffix } => match find_step(steps, index, step_id@, 0) {
            None => Err("destination parent mkdir step not found"@),
            Some(t) => if steps[t].state != StepState::Committed {
                Err("destination parent mkdir was not committed"@)
            } else {
                match steps[t].created_dir_fingerprint {
                    None => Err("mkdir has no directory fingerprint"@),
                    Some(id) => Ok((parent_path@, id.dev@, id.ino@, crate::schedule::strs(suffix@))),
                }
            },
        },
    }
}

/// The expectation for the destination parent of step `index` (see `spec_expectation`).
pub fn parent_expectation(journal: &Journal, index: usize, reference: &DestParentRef) -> (r: Result<
    ParentExpectation,
    String,
>)
    requires
        index <= journal.steps.len(),
    ensures
        match (r, spec_expectation(journal.steps@, index as int, *reference)) {
            (Ok(e), Ok((p, dev, ino, sx))) => e.parent_path@ == p && e.identity.dev@ == dev && e.identity.ino@
                == ino && crate::schedule::strs(e.suffix@) == sx,
            (Err(m), Err(n)) => m@ == n,
            _ => false,
        },
{
    match reference {
        DestParentRef::Existing { identity, parent_path, suffix } => Ok(
            ParentExpectation {
                parent_path: parent_path.clone(),
                identity: identity.duplicate(),
                suffix: crate::schedule::copy_strings(suffix),
            },
        ),
        DestParentRef::MkdirStep { step_id, parent_path, suffix } => {
            let ghost s = journal.steps@;
            let mut t: usize = 0;
            while t < index && t < journal.steps.len() && journal.steps[t].planned.step_id != *step_id
                invariant
                    t <= index,
                    index <= journal.steps.len(),
                    s == journal.steps@,
                    find_step(s, index as int, step_id@, 0) == find_step(s, index as int, step_id@, t as int),
                decreases index - t,
            {
                t += 1;
            }
            if t >= index {
                return Err(text("destination parent mkdir step not found"));
            }
            let prior = &journal.steps[t];
            if prior.state != StepState::Committed {
                return Err(text("destination parent mkdir was not committed"));
            }
            match &prior.created_dir_fingerprint {
                None => Err(text("mkdir has no directory fingerprint")),
                Some(id) => Ok(
                    ParentExpectation {
                        parent_path: parent_path.clone(),
                        identity: id.duplicate(),
                        suffix: crate::schedule::copy_strings(suffix),
                    },
                ),
            }
        },
    }
}

/// `base` with each component of `suffix` pushed in turn.
pub open spec fn join_all(base: Seq<char>, suffix: Seq<Seq<char>>) -> Seq<char>
    decreases suffix.len(),
{
    if suffix.len() == 0 {
        base
    } else {
        crate::schedule::join_component(join_all(base, suffix.drop_last()), suffix.last())
    }
}

/// The check of a destination's parent: the stat error, a parent that is no longer the
/// same real directory, or a destination that is not the parent joined with the suffix.
pub open spec fn spec_check_parent(
    e: ParentExpectation,
    observed: Result<DirFacts, String>,
    destination: Seq<char>,
) -> Result<(), Seq<char>> {
    match observed {
        Err(m) => Err(m@),
        Ok(f) => if !f.is_dir || f.identity.dev@ != e.identity.dev@ || f.identity.ino@ != e.identity.ino@ {
            Err("destination parent changed: "@ + e.parent_path@)
        } else if !crate::paths::path_eq_of(join_all(e.parent_path@, crate::schedule::strs(e.suffix@)), destination) {
            Err("destination does not match captured parent: "@ + destination)
        } else {
            Ok(())
        },
    }
}

/// Checks a destination against what its parent reference expects (see
/// `spec_check_parent`); `observed` is what a stat of the parent path showed.
pub fn check_parent(e: &ParentExpectation, observed: &Result<DirFacts, String>, destination: &str) -> (r: Result<
    (),
    String,
>)
    ensures
        match (r, spec_check_parent(*e, *observed, destination@)) {
            (Ok(()), Ok(())) => true,
            (Err(m), Err(n)) => m@ == n,
            _ => false,
        },
{
    match observed {
        Err(m) => Err(m.clone()),
        Ok(f) => {
            if !f.is_dir || !f.identity.same_as(&e.identity) {
                return Err(concat("destination parent changed: ", e.parent_path.as_str()));
            }
            let mut expected = e.parent_path.clone();
            let mut k: usize = 0;
            while k < e.suffix.len()
                invariant
                    k <= e.suffix.len(),
                    expected@ == join_all(e.parent_path@, crate::schedule::strs(e.suffix@).take(k as int)),
                decreases e.suffix.len() - k,
            {
                let next = crate::schedule::join_path(expected.as_str(), e.suffix[k].as_str());
                proof {
                    let t = crate::schedule::strs(e.suffix@).take(k + 1);
                    assert(t.drop_last() =~= crate::schedule::strs(e.suffix@).take(k as int));
                    assert(t.last() == e.suffix@[k as int]@);
                }
                expected = next;
                k += 1;
            }
            proof {
                assert(crate::schedule::strs(e.suffix@).take(k as int) =~= crate::schedule::strs(e.suffix@));
            }
            if !crate::paths::path_eq(expected.as_str(), destination) {
                return Err(concat("destination does not match captured parent: ", destination));
            }
            Ok(())
        },
    }
}

/// The directories, from `current` upward, that pruning may remove: it stops at the
/// root, at the first directory outside the root, and above the top.
pub open spec fn prune_chain(current: Seq<char>, root: Seq<char>) -> Seq<Seq<char>>
    decreases current.len(),
{
    if crate::paths::path_eq_of(current, root) || crate::paths::path_strip_of(current, root) is None {
        Seq::empty()
    } else {
        match crate::paths::path_parent_of(current) {
            Some(p) => if p.len() < current.len() {
                seq![current] + prune_chain(p, root)
            } else {
                seq![current]
            },
            None => seq![current],
        }
    }
}

/// The directories above `leaf` that pruning may remove, nearest first.
pub open spec fn prune_dirs_of(leaf: Seq<char>, root: Seq<char>) -> Seq<Seq<char>> {
    match crate::paths::path_parent_of(leaf) {
        Some(p) => prune_chain(p, root),
        None => Seq::empty(),
    }
}

/// The directories above `leaf`, nearest first, that may be removed once they are empty
/// (see `prune_dirs_of`); the caller removes them in order while each is an empty
/// directory, and stops at the first that is not.
pub fn prune_candidates(leaf: &str, root: &str) -> (r: Vec<String>)
    ensures
        crate::schedule::strs(r@) == prune_dirs_of(leaf@, root@),
{
    let mut out: Vec<String> = Vec::new();
    let mut current = match crate::paths::path_parent(leaf) {
        Some(p) => p,
        None => {
            assert(crate::schedule::strs(out@) =~= prune_dirs_of(leaf@, root@));
            return out;
        },
    };
    proof {
        assert(crate::schedule::strs(out@) + prune_chain(current@, root@) =~= prune_dirs_of(leaf@, root@));
    }
    loop
        invariant
            crate::schedule::strs(out@) + prune_chain(current@, root@) == prune_dirs_of(leaf@, root@),
        decreases current@.len(),
    {
        if crate::paths::path_eq(current.as_str(), root) {
            assert(crate::schedule::strs(out@) =~= prune_dirs_of(leaf@, root@));
            return out;
        }
        if crate::paths::path_strip_prefix(current.as_str(), root).is_none() {
            assert(crate::schedule::strs(out@) =~= prune_dirs_of(leaf@, root@));
            return out;
        }
        let parent = crate::paths::path_parent(current.as_str());
        let ghost before = out@;
        let ghost c = current@;
        match parent {
            Some(p) => {
                out.push(current);
                proof {
                    assert(crate::schedule::strs(out@) =~= crate::schedule::strs(before).push(c));
                    assert(crate::schedule::strs(before) + prune_chain(c, root@) =~= crate::schedule::strs(before) + (seq![c] + prune_chain(p@, root@)));
                    assert(crate::schedule::strs(out@) + prune_chain(p@, root@) =~= crate::schedule::strs(before) + (seq![c] + prune_chain(p@, root@)));
                }
                current = p;
            },
            None => {
                out.push(current);
                proof {
                    assert(crate::schedule::strs(out@) =~= crate::schedule::strs(before).push(c));
                    assert(crate::schedule::strs(out@) =~= prune_dirs_of(leaf@, root@));
                }
                return out;
            },
        }
    }
}

/// Pruning never removes the session root, nor anything outside it: every directory it
/// may remove differs from the root and lies below it.
pub proof fn lemma_prune_keeps_root(leaf: Seq<char>, root: Seq<char>)
    ensures
        forall|k: int| 0 <= k < prune_dirs_of(leaf, root).len() ==> {
            &&& !crate::paths::path_eq_of(#[trigger] prune_dirs_of(leaf, root)[k], root)
            &&& crate::paths::path_strip_of(prune_dirs_of(leaf, root)[k], root) is Some
        },
{
    match crate::paths::path_parent_of(leaf) {
        Some(p) => lemma_prune_chain_inside(p, root),
        None => {},
    }
}

/// Pruning walks upward from the leaf, innermost first: the first directory it may
/// remove is the leaf's parent, and each next one is the parent of the one before.
pub proof fn lemma_prune_walks_up(leaf: Seq<char>, root: Seq<char>)
    ensures
        prune_dirs_of(leaf, root).len() > 0 ==> crate::paths::path_parent_of(leaf) == Some(prune_dirs_of(leaf, root)[0]),
        forall|k: int|
            0 < k < prune_dirs_of(leaf, root).len() ==> crate::paths::path_parent_of(prune_dirs_of(leaf, root)[k - 1])
                == Some(#[trigger] prune_dirs_of(leaf, root)[k]),
{
    match crate::paths::path_parent_of(leaf) {
        Some(p) => lemma_prune_chain_up(p, root),
        None => {},
    }
}

proof fn lemma_prune_chain_up(current: Seq<char>, root: Seq<char>)
    ensures
        prune_chain(current, root).len() > 0 ==> prune_chain(current, root)[0] == current,
        forall|k: int|
            0 < k < prune_chain(current, root).len() ==> crate::paths::path_parent_of(prune_chain(current, root)[k - 1])
                == Some(#[trigger] prune_chain(current, root)[k]),
    decreases current.len(),
{
    if crate::paths::path_eq_of(current, root) || crate::paths::path_strip_of(current, root) is None {
    } else {
        match crate::paths::path_parent_of(current) {
            Some(p) => if p.len() < current.len() {
                lemma_prune_chain_up(p, root);
                let c = prune_chain(current, root);
                let rest = prune_chain(p, root);
                assert forall|k: int| 0 < k < c.len() implies crate::paths::path_parent_of(c[k - 1]) == Some(
                    #[trigger] c[k],
                ) by {
                    assert(c[k] == rest[k - 1]);
                    if k > 1 {
                        assert(c[k - 1] == rest[k - 2]);
                    }
                }
            },
            None => {},
        }
    }
}

proof fn lemma_prune_chain_inside(current: Seq<char>, root: Seq<char>)
    ensures
        forall|k: int| 0 <= k < prune_chain(current, root).len() ==> {
            &&& !crate::paths::path_eq_of(#[trigger] prune_chain(current, root)[k], root)
            &&& crate::paths::path_strip_of(prune_chain(current, root)[k], root) is Some
        },
    decreases current.len(),
{
    if crate::paths::path_eq_of(current, root) || crate::paths::path_strip_of(current, root) is None {
    } else {
        match crate::paths::path_parent_of(current) {
            Some(p) => if p.len() < current.len() {
                lemma_prune_chain_inside(p, root);
                let c = prune_chain(current, root);
                assert forall|k: int| 0 <= k < c.len() implies {
                    &&& !crate::paths::path_eq_of(#[trigger] c[k], root)
                    &&& crate::paths::path_strip_of(c[k], root) is Some
                } by {
                    if k > 0 {
                        assert(c[k] == prune_chain(p, root)[k - 1]);
                    }
                }
            },
            None => {},
        }
    }
}

/// An answer of "all" holds for the rest of the run: no later decision takes it back,
/// and while it holds the question it answered is not asked again (a changed source
/// proceeds, a missing source is skipped, a file the trash cannot take is deleted).
pub proof fn lemma_all_answers_last(run: JournalRun, steps: Seq<JournalStep>, mode: JournalMode, e: RunEvent)
    ensures
        run.proceed_all ==> spec_advance(run, steps, mode, e).run.proceed_all,
        run.skip_all_missing ==> spec_advance(run, steps, mode, e).run.skip_all_missing,
        run.delete_all_untrashable ==> spec_advance(run, steps, mode, e).run.delete_all_untrashable,
        run.proceed_all && (e matches RunEvent::Source(SourceStatus::Changed))
            ==> !(spec_advance(run, steps, mode, e).action is AskMismatch),
        run.skip_all_missing && (e matches RunEvent::Source(SourceStatus::Missing))
            ==> !(spec_advance(run, steps, mode, e).action is AskMismatch),
        run.delete_all_untrashable && (e matches RunEvent::TrashLocated(Some(_)))
            ==> !(spec_advance(run, steps, mode, e).action is AskUnsafeTrash),
{
}

/// What a changed or missing source is reported as (see `missing_message`).
pub open spec fn mismatch_text_of(kind: Seq<char>, path: Seq<char>, missing: bool) -> Seq<char> {
    if missing {
        missing_message(kind, path)
    } else {
        kind + " target has changed since the plan was made: "@ + path
    }
}

/// See `mismatch_text_of`.
pub fn mismatch_text(kind: &str, path: &str, missing: bool) -> (r: String)
    ensures
        r@ == mismatch_text_of(kind@, path@, missing),
{
    let mut out = String::new();
    push_str(&mut out, kind);
    if missing {
        push_str(&mut out, " target is missing: ");
    } else {
        push_str(&mut out, " target has changed since the plan was made: ");
    }
    push_str(&mut out, path);
    out
}

/// The answer to a changed (or missing) source that a typed line gives, by its first
/// character after trimming: `p` proceeds (not offered for a missing source), `s`
/// skips, `a` answers for all, `q` quits; either case. Anything else asks again.
pub open spec fn mismatch_choice(input: Seq<char>, missing: bool) -> Option<MismatchAction> {
    let t = crate::text::trim(input);
    if t.len() == 0 {
        None
    } else if (t[0] == 'p' || t[0] == 'P') && !missing {
        Some(MismatchAction::Proceed)
    } else if t[0] == 's' || t[0] == 'S' {
        Some(MismatchAction::Skip)
    } else if t[0] == 'a' || t[0] == 'A' {
        Some(MismatchAction::All)
    } else if t[0] == 'q' || t[0] == 'Q' {
        Some(MismatchAction::Abort)
    } else {
        None
    }
}

/// See `mismatch_choice`.
pub fn mismatch_answer(input: &str, missing: bool) -> (r: Option<MismatchAction>)
    ensures
        r == mismatch_choice(input@, missing),
{
    let cs = crate::text::chars_of(input);
    let (a, b) = crate::text::trim_bounds(&cs, 0, cs.len());
    assert(cs@.subrange(0, cs@.len() as int) =~= cs@);
    if a >= b {
        return None;
    }
    assert(cs@.subrange(a as int, b as int)[0] == cs@[a as int]);
    let c = cs[a];
    if (c == 'p' || c == 'P') && !missing {
        Some(MismatchAction::Proceed)
    } else if c == 's' || c == 'S' {
        Some(MismatchAction::Skip)
    } else if c == 'a' || c == 'A' {
        Some(MismatchAction::All)
    } else if c == 'q' || c == 'Q' {
        Some(MismatchAction::Abort)
    } else {
        None
    }
}

/// The answer to a file the trash cannot take that a typed line gives, by its first
/// character after trimming: `d` deletes, `s` skips, `a` deletes all such files, `q`
/// quits; either case. Anything else asks again.
pub open spec fn untrashable_choice(input: Seq<char>) -> Option<TrashFallbackAction> {
    let t = crate::text::trim(input);
    if t.len() == 0 {
        None
    } else if t[0] == 'd' || t[0] == 'D' {
        Some(TrashFallbackAction::Delete)
    } else if t[0] == 's' || t[0] == 'S' {
        Some(TrashFallbackAction::Skip)
    } else if t[0] == 'a' || t[0] == 'A' {
        Some(TrashFallbackAction::All)
    } else if t[0] == 'q' || t[0] == 'Q' {
        Some(TrashFallbackAction::Abort)
    } else {
        None
    }
}

/// See `untrashable_choice`.
pub fn untrashable_answer(input: &str) -> (r: Option<TrashFallbackAction>)
    ensures
        r == untrashable_choice(input@),
{
    let cs = crate::text::chars_of(input);
    let (a, b) = crate::text::trim_bounds(&cs, 0, cs.len());
    assert(cs@.subrange(0, cs@.len() as int) =~= cs@);
    if a >= b {
        return None;
    }
    assert(cs@.subrange(a as int, b as int)[0] == cs@[a as int]);
    let c = cs[a];
    if c == 'd' || c == 'D' {
        Some(TrashFallbackAction::Delete)
    } else if c == 's' || c == 'S' {
        Some(TrashFallbackAction::Skip)
    } else if c == 'a' || c == 'A' {
        Some(TrashFallbackAction::All)
    } else if c == 'q' || c == 'Q' {
        Some(TrashFallbackAction::Abort)
    } else {
        None
    }
}

/// The journal is written before and after every change to the filesystem: a decision to
/// apply a step marks it in progress and asks for the journal to be written first, and
/// the decision after a step was applied records it committed and written.
#[verifier::spinoff_prover]
#[verifier::rlimit(60)]
pub proof fn lemma_steps_recorded_around_changes(run: JournalRun, steps: Seq<JournalStep>, mode: JournalMode, e: RunEvent)
    requires
        run.index < steps.len() <= usize::MAX,
    ensures
        spec_advance(run, steps, mode, e).action matches ActionV::Apply(i, _, _, _) ==> {
            &&& spec_advance(run, steps, mode, e).write
            &&& i == spec_advance(run, steps, mode, e).run.index
            &&& spec_advance(run, steps, mode, e).steps[i].state == StepState::InProgress
        },
        (e matches RunEvent::Applied(None)) ==> {
            &&& spec_advance(run, steps, mode, e).write
            &&& spec_advance(run, steps, mode, e).steps[run.index as int].state == StepState::Committed
        },
{
    let i = run.index as int;
    lemma_next_open_from(steps, i);
    lemma_next_open_from(steps, i + 1);
    lemma_next_open_from(set_state(steps, i, StepState::Committed), i + 1);
    lemma_next_open_from(skipped_steps(steps, i), i + 1);
    match e {
        RunEvent::Reconciled(Some(fp)) => {
            let s2 = steps.update(i, JournalStep { state: StepState::Committed, fingerprint_to: Some(fp), ..steps[i] });
            lemma_next_open_from(s2, i + 1);
        },
        RunEvent::Applied(None) => {
            let s2 = set_state(steps, i, StepState::Committed);
            assert(s2[i].state == StepState::Committed);
            let k = next_open(s2, i + 1);
            if k < s2.len() {
                assert(set_state(s2, k, StepState::InProgress)[i] == s2[i]);
            }
        },
        _ => {},
    }
}

proof fn lemma_next_open_from(s: Seq<JournalStep>, i: int)
    requires
        0 <= i,
    ensures
        i <= next_open(s, i) <= s.len() || (i > s.len() && next_open(s, i) == s.len()),
    decreases s.len() - i,
{
    if i < s.len() && (s[i].state == StepState::Committed || s[i].state == StepState::Skipped) {
        lemma_next_open_from(s, i + 1);
    }
}

/// A run of a journal whose steps are all committed or skipped (an execution resumed
/// after it finished) finishes at its first decision: it asks nothing, applies nothing,
/// leaves every step as it was, and records the journal executed (or undone).
pub proof fn lemma_settled_journal_finishes_at_once(run: JournalRun, steps: Seq<JournalStep>, mode: JournalMode)
    requires
        run.stage == RunStage::Begin,
        run.index == 0,
        forall|j: int| 0 <= j < steps.len() ==> settled(#[trigger] steps[j].state),
    ensures
        spec_advance(run, steps, mode, RunEvent::Next).action == ActionV::Finished,
        spec_advance(run, steps, mode, RunEvent::Next).steps == steps,
        spec_advance(run, steps, mode, RunEvent::Next).error is None,
        spec_advance(run, steps, mode, RunEvent::Next).final_status == Some(Some(finished_status(mode))),
{
    lemma_next_open(steps, 0);
}

/// The steps a decision leaves in the journal, with the state it records beside an error.
pub open spec fn left_steps(o: Outcome) -> Seq<JournalStep> {
    match o.error {
        None => o.steps,
        Some((i, st, _)) => set_state(o.steps, i, st),
    }
}

/// The stages at which the current step is being worked on.
pub open spec fn working_stage(s: RunStage) -> bool {
    s != RunStage::Begin && s != RunStage::Pruning && s != RunStage::Done
}

/// A run of decisions from the start of a journal: decision `n` answers `events[n]` at the
/// stage the run is in, from `runs[n]` and the steps `lists[n]`, and leaves `runs[n + 1]`
/// and `lists[n + 1]`.
pub open spec fn is_run_trace(
    runs: Seq<JournalRun>,
    lists: Seq<Seq<JournalStep>>,
    mode: JournalMode,
    events: Seq<RunEvent>,
) -> bool {
    &&& runs.len() == events.len() + 1
    &&& lists.len() == events.len() + 1
    &&& runs[0].index == 0
    &&& runs[0].stage == RunStage::Begin
    &&& forall|n: int|
        0 <= n < events.len() ==> {
            &&& event_fits(runs[n].stage, #[trigger] events[n])
            &&& runs[n + 1] == spec_advance(runs[n], lists[n], mode, events[n]).run
            &&& lists[n + 1] == left_steps(spec_advance(runs[n], lists[n], mode, events[n]))
        }
}

/// What holds between the decisions of a run.
pub open spec fn trace_inv(run: JournalRun, steps: Seq<JournalStep>) -> bool {
    &&& steps.len() <= usize::MAX
    &&& run.stage != RunStage::Done ==> run_inv(run, steps)
    &&& working_stage(run.stage) ==> run.index < steps.len() && !settled(steps[run.index as int].state)
}

/// A decision that records no error, keeps the number of steps and every settled step,
/// and works on an unsettled step.
pub open spec fn fresh_outcome(steps: Seq<JournalStep>, o: Outcome) -> bool {
    &&& o.error is None
    &&& o.steps.len() == steps.len()
    &&& forall|j: int| 0 <= j < steps.len() && settled(steps[j].state) ==> settled(#[trigger] o.steps[j].state)
    &&& working_stage(o.run.stage) ==> o.run.index < o.steps.len() && !settled(o.steps[o.run.index as int].state)
}

proof fn lemma_prep_fresh(run: JournalRun, steps: Seq<JournalStep>)
    requires
        run.index < steps.len(),
        !settled(steps[run.index as int].state),
    ensures
        fresh_outcome(steps, apply_prep(run, steps)),
{
}

proof fn lemma_trash_fresh(run: JournalRun, steps: Seq<JournalStep>, write: bool)
    requires
        run.index < steps.len(),
        !settled(steps[run.index as int].state),
    ensures
        fresh_outcome(steps, trash_check(run, steps, write)),
{
    lemma_prep_fresh(run, steps);
}

proof fn lemma_check_fresh(run: JournalRun, steps: Seq<JournalStep>, write: bool)
    requires
        run.index < steps.len(),
        !settled(steps[run.index as int].state),
    ensures
        fresh_outcome(steps, check_source(run, steps, write)),
{
    lemma_trash_fresh(JournalRun { verify_source: true, permanent_delete: false, ..run }, steps, write);
}

proof fn lemma_begin_fresh(run: JournalRun, steps: Seq<JournalStep>, mode: JournalMode, i: int, write: bool)
    requires
        0 <= i <= steps.len() <= usize::MAX,
    ensures
        fresh_outcome(steps, begin_at(run, steps, mode, i, write)),
{
    lemma_next_open(steps, i);
    let k = next_open(steps, i);
    if k < steps.len() && steps[k].state != StepState::InProgress {
        lemma_check_fresh(JournalRun { index: k as usize, ..run }, steps, write);
    }
}

proof fn lemma_skip_fresh(run: JournalRun, steps: Seq<JournalStep>, mode: JournalMode)
    requires
        run.index < steps.len() <= usize::MAX,
    ensures
        fresh_outcome(steps, begin_at(run, skipped_steps(steps, run.index as int), mode, run.index + 1, true)),
{
    let s2 = skipped_steps(steps, run.index as int);
    lemma_begin_fresh(run, s2, mode, run.index + 1, true);
    let o = begin_at(run, s2, mode, run.index + 1, true);
    assert forall|j: int| 0 <= j < steps.len() && settled(steps[j].state) implies settled(#[trigger] o.steps[j].state) by {
        assert(settled(s2[j].state));
    }
}

/// One decision of a run keeps `trace_inv`, the number of steps, and every settled step.
#[verifier::rlimit(40)]
proof fn lemma_decision_keeps_trace(run: JournalRun, steps: Seq<JournalStep>, mode: JournalMode, e: RunEvent)
    requires
        trace_inv(run, steps),
        event_fits(run.stage, e),
    ensures
        trace_inv(spec_advance(run, steps, mode, e).run, left_steps(spec_advance(run, steps, mode, e))),
        left_steps(spec_advance(run, steps, mode, e)).len() == steps.len(),
        forall|j: int|
            0 <= j < steps.len() && settled(steps[j].state) ==> settled(
                #[trigger] left_steps(spec_advance(run, steps, mode, e))[j].state,
            ),
{
    let i = run.index as int;
    let o = spec_advance(run, steps, mode, e);
    lemma_run_settles_steps(run, steps, mode, e);
    match e {
        RunEvent::Next => {
            if run.stage == RunStage::Begin {
                lemma_begin_fresh(run, steps, mode, i, false);
            } else {
                lemma_begin_fresh(run, steps, mode, i + 1, false);
            }
        },
        RunEvent::Reconciled(Some(fp)) => {
            let s2 = steps.update(i, JournalStep { state: StepState::Committed, fingerprint_to: Some(fp), ..steps[i] });
            lemma_begin_fresh(run, s2, mode, i + 1, true);
            assert forall|j: int| 0 <= j < steps.len() && settled(steps[j].state) implies settled(
                #[trigger] left_steps(o)[j].state,
            ) by {
                assert(settled(s2[j].state));
            }
        },
        RunEvent::Reconciled(None) => lemma_check_fresh(run, steps, false),
        RunEvent::Source(st) => {
            lemma_trash_fresh(run, steps, false);
            lemma_trash_fresh(JournalRun { verify_source: false, ..run }, steps, false);
            lemma_skip_fresh(run, steps, mode);
        },
        RunEvent::Mismatch(a) => {
            lemma_trash_fresh(
                JournalRun { proceed_all: run.proceed_all || a == MismatchAction::All, verify_source: false, ..run },
                steps,
                false,
            );
            lemma_skip_fresh(run, steps, mode);
            lemma_skip_fresh(
                JournalRun { skip_all_missing: run.skip_all_missing || a == MismatchAction::All, ..run },
                steps,
                mode,
            );
            if o.error is Some {
                assert forall|j: int| 0 <= j < steps.len() && settled(steps[j].state) implies settled(
                    #[trigger] left_steps(o)[j].state,
                ) by {
                    if j != i {
                        assert(left_steps(o)[j] == steps[j]);
                    }
                }
            }
        },
        RunEvent::TrashLocated(_) => {
            lemma_prep_fresh(run, steps);
            lemma_prep_fresh(JournalRun { permanent_delete: true, ..run }, steps);
        },
        RunEvent::TrashChoice(a) => {
            lemma_prep_fresh(
                JournalRun {
                    delete_all_untrashable: run.delete_all_untrashable || a == TrashFallbackAction::All,
                    permanent_delete: true,
                    ..run
                },
                steps,
            );
            lemma_skip_fresh(run, steps, mode);
            if o.error is Some {
                assert forall|j: int| 0 <= j < steps.len() && settled(steps[j].state) implies settled(
                    #[trigger] left_steps(o)[j].state,
                ) by {
                    if j != i {
                        assert(left_steps(o)[j] == steps[j]);
                    }
                }
            }
        },
        RunEvent::Applied(Some(_)) => {
            assert forall|j: int| 0 <= j < steps.len() && settled(steps[j].state) implies settled(
                #[trigger] left_steps(o)[j].state,
            ) by {
                if j != i {
                    assert(left_steps(o)[j] == steps[j]);
                }
            }
        },
        RunEvent::Applied(None) => {
            let s2 = set_state(steps, i, StepState::Committed);
            lemma_begin_fresh(run, s2, mode, i + 1, true);
            assert forall|j: int| 0 <= j < steps.len() && settled(steps[j].state) implies settled(
                #[trigger] left_steps(o)[j].state,
            ) by {
                assert(settled(s2[j].state));
            }
        },
    }
}

/// Up to decision `n` of a run: `trace_inv` holds, the number of steps is unchanged, and
/// every step settled at an earlier point is still settled.
proof fn lemma_trace_upto(
    runs: Seq<JournalRun>,
    lists: Seq<Seq<JournalStep>>,
    mode: JournalMode,
    events: Seq<RunEvent>,
    n: int,
)
    requires
        is_run_trace(runs, lists, mode, events),
        lists[0].len() <= usize::MAX,
        0 <= n <= events.len(),
    ensures
        trace_inv(runs[n], lists[n]),
        lists[n].len() == lists[0].len(),
        forall|m: int, j: int|
            0 <= m <= n && 0 <= j < lists[m].len() && settled(#[trigger] lists[m][j].state) ==> settled(lists[n][j].state),
    decreases n,
{
    if n > 0 {
        lemma_trace_upto(runs, lists, mode, events, n - 1);
        assert(event_fits(runs[n - 1].stage, events[n - 1]));
        lemma_decision_keeps_trace(runs[n - 1], lists[n - 1], mode, events[n - 1]);
        assert forall|m: int, j: int|
            0 <= m <= n && 0 <= j < lists[m].len() && settled(#[trigger] lists[m][j].state) implies settled(
                lists[n][j].state,
            ) by {
            if m < n {
                lemma_trace_upto(runs, lists, mode, events, m);
                assert(settled(lists[n - 1][j].state));
                assert(settled(left_steps(spec_advance(runs[n - 1], lists[n - 1], mode, events[n - 1]))[j].state));
            }
        }
    }
}

/// Over a whole run of decisions from the start of a journal: while the run goes on,
/// every step before the current one is committed or skipped; a step once committed or
/// skipped stays so; a run that finishes leaves every step committed or skipped and the
/// journal executed (or undone); and a run that stops leaves the final status unset and
/// its current step failed or marked "aborted".
#[verifier::rlimit(40)]
pub proof fn lemma_run_keeps_settled_steps(
    runs: Seq<JournalRun>,
    lists: Seq<Seq<JournalStep>>,
    mode: JournalMode,
    events: Seq<RunEvent>,
)
    requires
        is_run_trace(runs, lists, mode, events),
        lists[0].len() <= usize::MAX,
    ensures
        forall|n: int| 0 <= n <= events.len() && (#[trigger] runs[n]).stage != RunStage::Done ==> run_inv(runs[n], lists[n]),
        forall|m: int, n: int, j: int|
            0 <= m <= n <= events.len() && 0 <= j < lists[m].len() && settled(#[trigger] lists[m][j].state) ==> settled(
                #[trigger] lists[n][j].state,
            ),
        forall|n: int|
            0 <= n < events.len() && (#[trigger] spec_advance(runs[n], lists[n], mode, events[n])).action is Finished ==> {
                &&& spec_advance(runs[n], lists[n], mode, events[n]).final_status == Some(Some(finished_status(mode)))
                &&& forall|j: int| 0 <= j < lists[n + 1].len() ==> settled(#[trigger] lists[n + 1][j].state)
            },
        forall|n: int|
            0 <= n < events.len() && (#[trigger] spec_advance(runs[n], lists[n], mode, events[n])).action is Stopped ==> {
                &&& spec_advance(runs[n], lists[n], mode, events[n]).final_status == Some(None::<JournalFinalStatus>)
                &&& spec_advance(runs[n], lists[n], mode, events[n]).error matches Some((i, st, msg)) && i == runs[n].index
                    && (lists[n + 1][i].state == StepState::Failed || msg == "aborted"@)
            },
{
    assert forall|n: int| 0 <= n <= events.len() && (#[trigger] runs[n]).stage != RunStage::Done implies run_inv(
        runs[n],
        lists[n],
    ) by {
        lemma_trace_upto(runs, lists, mode, events, n);
    }
    assert forall|m: int, n: int, j: int|
        0 <= m <= n <= events.len() && 0 <= j < lists[m].len() && settled(#[trigger] lists[m][j].state) implies settled(
            #[trigger] lists[n][j].state,
        ) by {
        lemma_trace_upto(runs, lists, mode, events, n);
    }
    assert forall|n: int| 0 <= n < events.len() implies {
        &&& (#[trigger] spec_advance(runs[n], lists[n], mode, events[n])).action is Finished ==> {
            &&& spec_advance(runs[n], lists[n], mode, events[n]).final_status == Some(Some(finished_status(mode)))
            &&& forall|j: int| 0 <= j < lists[n + 1].len() ==> settled(#[trigger] lists[n + 1][j].state)
        }
        &&& spec_advance(runs[n], lists[n], mode, events[n]).action is Stopped ==> {
            &&& spec_advance(runs[n], lists[n], mode, events[n]).final_status == Some(None::<JournalFinalStatus>)
            &&& spec_advance(runs[n], lists[n], mode, events[n]).error matches Some((i, st, msg)) && i == runs[n].index
                && (lists[n + 1][i].state == StepState::Failed || msg == "aborted"@)
        }
    } by {
        lemma_trace_decision_ends(runs, lists, mode, events, n);
    }
}

/// How decision `n` of a run ends it, if it does.
#[verifier::spinoff_prover]
#[verifier::rlimit(90)]
proof fn lemma_trace_decision_ends(
    runs: Seq<JournalRun>,
    lists: Seq<Seq<JournalStep>>,
    mode: JournalMode,
    events: Seq<RunEvent>,
    n: int,
)
    requires
        is_run_trace(runs, lists, mode, events),
        lists[0].len() <= usize::MAX,
        0 <= n < events.len(),
    ensures
        spec_advance(runs[n], lists[n], mode, events[n]).action is Finished ==> {
            &&& spec_advance(runs[n], lists[n], mode, events[n]).final_status == Some(Some(finished_status(mode)))
            &&& forall|j: int| 0 <= j < lists[n + 1].len() ==> settled(#[trigger] lists[n + 1][j].state)
        },
        spec_advance(runs[n], lists[n], mode, events[n]).action is Stopped ==> {
            &&& spec_advance(runs[n], lists[n], mode, events[n]).final_status == Some(None::<JournalFinalStatus>)
            &&& spec_advance(runs[n], lists[n], mode, events[n]).error matches Some((i, st, msg)) && i == runs[n].index
                && (lists[n + 1][i].state == StepState::Failed || msg == "aborted"@)
        },
{
    lemma_trace_upto(runs, lists, mode, events, n);
    assert(event_fits(runs[n].stage, events[n]));
    let o = spec_advance(runs[n], lists[n], mode, events[n]);
    lemma_run_settles_steps(runs[n], lists[n], mode, events[n]);
    lemma_finished_status(runs[n], lists[n], mode, events[n]);
    lemma_stopped_status(runs[n], lists[n], mode, events[n]);
    if let Some((i, st, msg)) = o.error {
        assert(lists[n + 1] == set_state(o.steps, i, st));
    }
}

/// A decision that finishes the run records no error and the journal executed (or undone).
proof fn lemma_finished_status(run: JournalRun, steps: Seq<JournalStep>, mode: JournalMode, e: RunEvent)
    ensures
        spec_advance(run, steps, mode, e).action is Finished ==> {
            &&& spec_advance(run, steps, mode, e).final_status == Some(Some(finished_status(mode)))
            &&& spec_advance(run, steps, mode, e).error is None
        },
{
}

/// Only `stop_with` stops a run: the other outcomes of a decision do not.
proof fn lemma_begin_goes_on(run: JournalRun, steps: Seq<JournalStep>, mode: JournalMode, i: int, write: bool)
    ensures
        !(begin_at(run, steps, mode, i, write).action is Stopped),
        !(check_source(run, steps, write).action is Stopped),
        !(trash_check(run, steps, write).action is Stopped),
        !(apply_prep(run, steps).action is Stopped),
{
}

/// A decision that stops the run clears the final status and records on the current
/// step either a failure or "aborted".
#[verifier::rlimit(30)]
proof fn lemma_stopped_status(run: JournalRun, steps: Seq<JournalStep>, mode: JournalMode, e: RunEvent)
    ensures
        spec_advance(run, steps, mode, e).action is Stopped ==> {
            &&& spec_advance(run, steps, mode, e).final_status == Some(None::<JournalFinalStatus>)
            &&& spec_advance(run, steps, mode, e).error matches Some((i, st, msg)) && i == run.index && (st
                == StepState::Failed || msg == "aborted"@)
        },
{
    let i = run.index as int;
    lemma_begin_goes_on(run, steps, mode, i, false);
    lemma_begin_goes_on(run, steps, mode, i + 1, false);
    lemma_begin_goes_on(run, steps, mode, i + 1, true);
    lemma_begin_goes_on(run, skipped_steps(steps, i), mode, i + 1, true);
    lemma_begin_goes_on(JournalRun { verify_source: false, ..run }, steps, mode, i, false);
    match e {
        RunEvent::Reconciled(Some(fp)) => {
            lemma_begin_goes_on(
                run,
                steps.update(i, JournalStep { state: StepState::Committed, fingerprint_to: Some(fp), ..steps[i] }),
                mode,
                i + 1,
                true,
            );
        },
        RunEvent::Mismatch(a) => {
            lemma_begin_goes_on(
                JournalRun { proceed_all: run.proceed_all || a == MismatchAction::All, verify_source: false, ..run },
                steps,
                mode,
                i,
                false,
            );
            lemma_begin_goes_on(
                JournalRun { skip_all_missing: run.skip_all_missing || a == MismatchAction::All, ..run },
                skipped_steps(steps, i),
                mode,
                i + 1,
                true,
            );
        },
        RunEvent::TrashLocated(_) => {
            lemma_begin_goes_on(JournalRun { permanent_delete: true, ..run }, steps, mode, i, false);
        },
        RunEvent::TrashChoice(a) => {
            lemma_begin_goes_on(
                JournalRun {
                    delete_all_untrashable: run.delete_all_untrashable || a == TrashFallbackAction::All,
                    permanent_delete: true,
                    ..run
                },
                steps,
                mode,
                i,
                false,
            );
        },
        RunEvent::Applied(None) => {
            lemma_begin_goes_on(run, set_state(steps, i, StepState::Committed), mode, i + 1, true);
        },
        _ => {},
    }
}

/// Over a whole run of decisions, an answer of "all" holds from the decision that gave it
/// to the end: the flag stays set, and at every later point the question it answered is
/// not asked again (a changed source proceeds, a missing source is skipped, a file the
/// trash cannot take is deleted).
pub proof fn lemma_all_answers_hold_for_the_run(
    runs: Seq<JournalRun>,
    lists: Seq<Seq<JournalStep>>,
    mode: JournalMode,
    events: Seq<RunEvent>,
)
    requires
        is_run_trace(runs, lists, mode, events),
    ensures
        forall|m: int, n: int|
            0 <= m <= n <= events.len() && (#[trigger] runs[m]).proceed_all ==> (#[trigger] runs[n]).proceed_all,
        forall|m: int, n: int|
            0 <= m <= n <= events.len() && (#[trigger] runs[m]).skip_all_missing ==> (#[trigger] runs[n]).skip_all_missing,
        forall|m: int, n: int|
            0 <= m <= n <= events.len() && (#[trigger] runs[m]).delete_all_untrashable
                ==> (#[trigger] runs[n]).delete_all_untrashable,
        forall|m: int, n: int|
            0 <= m <= n < events.len() && (#[trigger] runs[m]).proceed_all && (#[trigger] events[n] matches RunEvent::Source(
                SourceStatus::Changed,
            )) ==> !(spec_advance(runs[n], lists[n], mode, events[n]).action is AskMismatch),
        forall|m: int, n: int|
            0 <= m <= n < events.len() && (#[trigger] runs[m]).skip_all_missing && (#[trigger] events[n] matches RunEvent::Source(
                SourceStatus::Missing,
            )) ==> !(spec_advance(runs[n], lists[n], mode, events[n]).action is AskMismatch),
        forall|m: int, n: int|
            0 <= m <= n < events.len() && (#[trigger] runs[m]).delete_all_untrashable && (
            #[trigger] events[n] matches RunEvent::TrashLocated(Some(_))) ==> !(spec_advance(
                runs[n],
                lists[n],
                mode,
                events[n],
            ).action is AskUnsafeTrash),
{
    assert forall|m: int, n: int| 0 <= m <= n <= events.len() implies {
        &&& (#[trigger] runs[m]).proceed_all ==> (#[trigger] runs[n]).proceed_all
        &&& runs[m].skip_all_missing ==> runs[n].skip_all_missing
        &&& runs[m].delete_all_untrashable ==> runs[n].delete_all_untrashable
    } by {
        lemma_flags_persist(runs, lists, mode, events, m, n);
    }
    assert forall|m: int, n: int| 0 <= m <= n < events.len() implies {
        &&& (#[trigger] runs[m]).proceed_all && (#[trigger] events[n] matches RunEvent::Source(SourceStatus::Changed))
            ==> !(spec_advance(runs[n], lists[n], mode, events[n]).action is AskMismatch)
        &&& runs[m].skip_all_missing && (events[n] matches RunEvent::Source(SourceStatus::Missing))
            ==> !(spec_advance(runs[n], lists[n], mode, events[n]).action is AskMismatch)
        &&& runs[m].delete_all_untrashable && (events[n] matches RunEvent::TrashLocated(Some(_)))
            ==> !(spec_advance(runs[n], lists[n], mode, events[n]).action is AskUnsafeTrash)
    } by {
        lemma_flags_persist(runs, lists, mode, events, m, n);
        lemma_all_answers_last(runs[n], lists[n], mode, events[n]);
    }
}

proof fn lemma_flags_persist(
    runs: Seq<JournalRun>,
    lists: Seq<Seq<JournalStep>>,
    mode: JournalMode,
    events: Seq<RunEvent>,
    m: int,
    n: int,
)
    requires
        is_run_trace(runs, lists, mode, events),
        0 <= m <= n <= events.len(),
    ensures
        runs[m].proceed_all ==> runs[n].proceed_all,
        runs[m].skip_all_missing ==> runs[n].skip_all_missing,
        runs[m].delete_all_untrashable ==> runs[n].delete_all_untrashable,
    decreases n - m,
{
    if m < n {
        lemma_flags_persist(runs, lists, mode, events, m, n - 1);
        assert(event_fits(runs[n - 1].stage, events[n - 1]));
        lemma_all_answers_last(runs[n - 1], lists[n - 1], mode, events[n - 1]);
    }
}

} // verus!
