//! Session-level decisions: when a session may run, what a run or an undo changes in
//! the session record, which journal an undo reverses and what its steps are.

use crate::hashing::{hex_of, random_hex, spec_sha256_hex};
use crate::model::{
    DestParentRef, Journal, JournalFinalStatus, JournalMode, JournalStep, ManifestEntry, OpKind,
    Operation, PlannedKind, PlannedStep, SessionMode, SessionRecord, SessionStatus, StepState,
};
use crate::plan::{
    classify_from, classify_ops, header_matches, ops_view, parse_plan, spec_parse_plan,
    unknown_id_message, validate_plan_header, whole_file_hash, OpV,
};
use crate::schedule::{
    concat, ensure_spec, join_strings, join_with, made_ok, made_view, opt_fp, opt_str, ref_matches,
    step_matches, steps_match, strs, transfer_step_v, MkState, ParentProbe, ParentRefV, StepV,
};
use crate::text::{decimal, push_decimal, push_str};
use vstd::prelude::*;

verus! {

/// What a confirmation was given for: the plan revision, the mode and the plan's hash.
pub struct ExpectedSession {
    pub revision: u64,
    pub mode: SessionMode,
    pub plan_hash: String,
}

/// `e` was taken from a session at `s`'s revision, mode and plan hash.
pub open spec fn taken_from(e: ExpectedSession, s: SessionRecord) -> bool {
    &&& e.revision == s.revision
    &&& e.mode == s.mode
    &&& e.plan_hash@ == s.whole_file_hash@
}

/// `e` lets `s` run: `s` may run, and is still what was confirmed.
pub open spec fn confirms(e: ExpectedSession, s: SessionRecord) -> bool {
    crate::model::status_executable(s.status) && taken_from(e, s)
}

/// The session as it stands, to confirm against later.
pub fn expected(session: &SessionRecord) -> (e: ExpectedSession)
    ensures
        taken_from(e, *session),
{
    ExpectedSession {
        revision: session.revision,
        mode: session.mode,
        plan_hash: session.whole_file_hash.clone(),
    }
}

pub open spec fn status_message(s: SessionStatus) -> Seq<char> {
    "cannot execute a session with status "@ + match s {
        SessionStatus::Draft => "draft"@,
        SessionStatus::Executing => "executing"@,
        SessionStatus::ExecuteInterrupted => "execute-interrupted"@,
        SessionStatus::Executed => "executed"@,
        SessionStatus::Undoing => "undoing"@,
        SessionStatus::UndoInterrupted => "undo-interrupted"@,
        SessionStatus::Undone => "undone"@,
    }
}

pub open spec fn changed_message() -> Seq<char> {
    "session changed since confirmation; reload"@
}

fn changed_text() -> (s: String)
    ensures
        s@ == changed_message(),
{
    let mut s = String::new();
    push_str(&mut s, "session changed since confirmation; reload");
    s
}

/// A session may run only when it is executable and still what was confirmed: same
/// revision, mode and plan hash.
pub fn check_execute(session: &SessionRecord, expected: &ExpectedSession) -> (r: Result<(), String>)
    ensures
        r is Ok <==> confirms(*expected, *session),
        r matches Err(m) ==> if !crate::model::status_executable(session.status) {
            m@ == status_message(session.status)
        } else {
            m@ == changed_message()
        },
{
    if !session.status.executable() {
        return Err(concat("cannot execute a session with status ", session.status.name()));
    }
    if session.revision != expected.revision || session.mode != expected.mode
        || session.whole_file_hash != expected.plan_hash {
        return Err(changed_text());
    }
    Ok(())
}

/// Whether running the session resumes its journal rather than scheduling a new one.
pub fn resumes_journal(status: SessionStatus) -> (b: bool)
    ensures
        b == (status == SessionStatus::Executing || status == SessionStatus::ExecuteInterrupted),
{
    status == SessionStatus::Executing || status == SessionStatus::ExecuteInterrupted
}

/// The journal an interrupted session resumes.
pub fn resume_journal_id(session: &SessionRecord) -> (r: Result<String, String>)
    ensures
        match (r, session.active_journal_id) {
            (Ok(id), Some(a)) => id@ == a@,
            (Err(m), None) => m@ == "interrupted session has no journal"@,
            _ => false,
        },
{
    match &session.active_journal_id {
        Some(id) => Ok(id.clone()),
        None => {
            let mut m = String::new();
            push_str(&mut m, "interrupted session has no journal");
            Err(m)
        },
    }
}

/// A resumed journal must have been made for what was confirmed.
pub fn check_resumed_journal(journal: &Journal, expected: &ExpectedSession) -> (r: Result<(), String>)
    ensures
        match r {
            Ok(()) => journal.expected_plan_hash@ == expected.plan_hash@ && journal.expected_revision
                == expected.revision && journal.expected_mode == expected.mode,
            Err(m) => m@ == "interrupted journal does not match the current plan"@ && !(
            journal.expected_plan_hash@ == expected.plan_hash@ && journal.expected_revision
                == expected.revision && journal.expected_mode == expected.mode),
        },
{
    if journal.expected_plan_hash != expected.plan_hash || journal.expected_revision != expected.revision
        || journal.expected_mode != expected.mode {
        let mut m = String::new();
        push_str(&mut m, "interrupted journal does not match the current plan");
        return Err(m);
    }
    Ok(())
}

pub open spec fn pending_step(p: PlannedStep) -> JournalStep {
    JournalStep {
        planned: p,
        state: StepState::Pending,
        error: None,
        created_by_us: None,
        created_dir_fingerprint: None,
        fingerprint_to: None,
        trash_restore_key: None,
    }
}

/// A new journal with a random id, whose steps are `steps`, all pending.
pub fn new_journal(
    steps: Vec<PlannedStep>,
    mode: JournalMode,
    parent_journal_id: Option<String>,
    expected_plan_hash: String,
    expected_revision: u64,
    expected_mode: SessionMode,
) -> (j: Journal)
    ensures
        exists|b: Seq<u8>| b.len() == 8 && j.journal_id@ == hex_of(b),
        j.mode == mode,
        j.parent_journal_id == parent_journal_id,
        j.final_status is None,
        j.superseded_by_journal_id is None,
        j.expected_plan_hash == expected_plan_hash,
        j.expected_revision == expected_revision,
        j.expected_mode == expected_mode,
        j.steps@ == steps@.map_values(|p: PlannedStep| pending_step(p)),
{
    let ghost planned = steps@;
    let mut out: Vec<JournalStep> = Vec::new();
    let mut steps = steps;
    let mut rest: Vec<PlannedStep> = Vec::new();
    while steps.len() > 0
        invariant
            steps@ + rest@.reverse() == planned,
        decreases steps.len(),
    {
        let ghost before = steps@;
        let ghost rbefore = rest@;
        let p = steps.pop().unwrap();
        rest.push(p);
        proof {
            assert(rest@.reverse() =~= seq![p] + rbefore.reverse());
            assert(before =~= steps@.push(p));
            assert(steps@ + rest@.reverse() =~= planned);
        }
    }
    assert(rest@.reverse() =~= planned);
    while rest.len() > 0
        invariant
            out@ + rest@.reverse().map_values(|p: PlannedStep| pending_step(p)) == planned.map_values(
                |p: PlannedStep| pending_step(p),
            ),
        decreases rest.len(),
    {
        let ghost before = rest@;
        let p = rest.pop().unwrap();
        out.push(
            JournalStep {
                planned: p,
                state: StepState::Pending,
                error: None,
                created_by_us: None,
                created_dir_fingerprint: None,
                fingerprint_to: None,
                trash_restore_key: None,
            },
        );
        proof {
            assert(before.reverse() =~= seq![p] + rest@.reverse());
            assert(out@ + rest@.reverse().map_values(|p: PlannedStep| pending_step(p)) =~= planned.map_values(
                |p: PlannedStep| pending_step(p),
            ));
        }
    }
    proof {
        assert(out@ =~= planned.map_values(|p: PlannedStep| pending_step(p)));
    }
    Journal {
        journal_id: random_hex(8),
        mode,
        parent_journal_id,
        final_status: None,
        superseded_by_journal_id: None,
        expected_plan_hash,
        expected_revision,
        expected_mode,
        steps: out,
    }
}


/// The journal `journal_id` has started: it becomes the active journal and the session
/// is executing.
pub fn start_execution(session: &mut SessionRecord, journal_id: &String)
    ensures
        final(session).active_journal_id is Some,
        final(session).active_journal_id.unwrap()@ == journal_id@,
        final(session).status == SessionStatus::Executing,
        final(session).revision == old(session).revision,
        final(session).whole_file_hash == old(session).whole_file_hash,
        *final(session) == (SessionRecord {
            active_journal_id: final(session).active_journal_id,
            status: SessionStatus::Executing,
            ..*old(session)
        }),
{
    session.active_journal_id = Some(journal_id.clone());
    session.status = SessionStatus::Executing;
}

/// How many committed steps change a file (every committed step but directory creation).
pub open spec fn changed_count(steps: Seq<JournalStep>) -> nat
    decreases steps.len(),
{
    if steps.len() == 0 {
        0
    } else {
        changed_count(steps.drop_last()) + if steps.last().state == StepState::Committed
            && steps.last().planned.op != PlannedKind::Mkdir {
            1nat
        } else {
            0nat
        }
    }
}

/// After a run: an executed journal makes the session executed, with the number of
/// changes it made; any other outcome leaves it interrupted.
pub fn finish_execution(session: &mut SessionRecord, journal: &Journal)
    ensures
        journal.final_status == Some(JournalFinalStatus::Executed) ==> final(session).status
            == SessionStatus::Executed && final(session).stats.changes as nat == changed_count(journal.steps@),
        journal.final_status != Some(JournalFinalStatus::Executed) ==> final(session).status
            == SessionStatus::ExecuteInterrupted && final(session).stats.changes == old(session).stats.changes,
        final(session).active_journal_id == old(session).active_journal_id,
        final(session).revision == old(session).revision,
        *final(session) == (SessionRecord {
            status: final(session).status,
            stats: crate::model::SessionStats { changes: final(session).stats.changes, ..old(session).stats },
            ..*old(session)
        }),
{
    if journal.final_status == Some(JournalFinalStatus::Executed) {
        let mut count: usize = 0;
        let mut i: usize = 0;
        while i < journal.steps.len()
            invariant
                i <= journal.steps.len(),
                count as nat == changed_count(journal.steps@.take(i as int)),
                count <= i,
            decreases journal.steps.len() - i,
        {
            proof {
                let t = journal.steps@.take(i + 1);
                assert(t.drop_last() == journal.steps@.take(i as int));
                assert(t.last() == journal.steps@[i as int]);
            }
            if journal.steps[i].state == StepState::Committed && journal.steps[i].planned.op != PlannedKind::Mkdir {
                count += 1;
            }
            i += 1;
        }
        assert(journal.steps@.take(i as int) == journal.steps@);
        session.status = SessionStatus::Executed;
        session.stats.changes = count;
    } else {
        session.status = SessionStatus::ExecuteInterrupted;
    }
}

/// `after` took in new plan hashes over `before`: the next revision of the same session.
pub open spec fn took_new_hashes(before: SessionRecord, after: SessionRecord) -> bool {
    &&& after.revision == before.revision + 1
    &&& after.status == before.status
    &&& after.id == before.id
}

/// A confirmation lets the session it was taken from run, as long as that session may
/// run; once a saved edit of the plan has been taken in, the same confirmation is refused.
pub proof fn lemma_confirmation_binds_plan(e: ExpectedSession, s: SessionRecord, later: SessionRecord)
    requires
        taken_from(e, s),
        took_new_hashes(s, later),
    ensures
        crate::model::status_executable(s.status) ==> confirms(e, s),
        !confirms(e, later),
{
}

/// Takes the plan's current hashes. When they differ from the recorded ones the session
/// takes them and its revision goes up; an executed or undone session also notes when
/// the body moved away from what ran. Returns whether anything changed.
pub fn apply_hashes(session: &mut SessionRecord, whole: String, body: String) -> (changed: bool)
    requires
        old(session).revision < u64::MAX,
    ensures
        changed == !(whole@ == old(session).whole_file_hash@ && body@ == old(session).body_hash@),
        changed ==> took_new_hashes(*old(session), *final(session)),
        changed ==> final(session).whole_file_hash@ == whole@ && final(session).body_hash@ == body@
            && final(session).revision == old(session).revision + 1 && final(session).plan_body_diverged
            == (old(session).plan_body_diverged || ((old(session).status == SessionStatus::Executed
            || old(session).status == SessionStatus::Undone) && body@ != old(session).body_hash@)),
        !changed ==> *final(session) == *old(session),
        final(session).status == old(session).status,
        final(session).id == old(session).id,
        *final(session) == (SessionRecord {
            whole_file_hash: final(session).whole_file_hash,
            body_hash: final(session).body_hash,
            revision: final(session).revision,
            plan_body_diverged: final(session).plan_body_diverged,
            ..*old(session)
        }),
{
    if whole == session.whole_file_hash && body == session.body_hash {
        return false;
    }
    let body_moved = body != session.body_hash;
    session.whole_file_hash = whole;
    session.body_hash = body;
    session.revision = session.revision + 1;
    if session.status == SessionStatus::Executed || session.status == SessionStatus::Undone {
        session.plan_body_diverged = session.plan_body_diverged || body_moved;
    }
    true
}

/// Only a draft without an active journal can be reset.
pub fn check_reset(session: &SessionRecord) -> (r: Result<(), String>)
    ensures
        match r {
            Ok(()) => session.active_journal_id is None && session.status == SessionStatus::Draft,
            Err(m) => if session.active_journal_id is Some {
                m@ == "cannot reset a session with an active journal"@
            } else {
                session.status != SessionStatus::Draft && m@ == "can only reset a draft session"@
            },
        },
{
    if session.active_journal_id.is_some() {
        let mut m = String::new();
        push_str(&mut m, "cannot reset a session with an active journal");
        return Err(m);
    }
    if session.status != SessionStatus::Draft {
        let mut m = String::new();
        push_str(&mut m, "can only reset a draft session");
        return Err(m);
    }
    Ok(())
}

/// Records a plan written at `plan_path`: its path and hashes, and a new revision.
pub fn record_plan(session: &mut SessionRecord, plan_path: String, plan: &str)
    requires
        old(session).revision < u64::MAX,
    ensures
        final(session).plan_path@ == plan_path@,
        final(session).whole_file_hash@ == spec_sha256_hex(vstd::utf8::encode_utf8(plan@)),
        final(session).body_hash@ == spec_sha256_hex(vstd::utf8::encode_utf8(crate::plan::plan_body(plan@))),
        final(session).revision == old(session).revision + 1,
        final(session).status == old(session).status,
        final(session).active_journal_id == old(session).active_journal_id,
        final(session).generated_whole_file_hash == old(session).generated_whole_file_hash,
        *final(session) == (SessionRecord {
            plan_path: final(session).plan_path,
            whole_file_hash: final(session).whole_file_hash,
            body_hash: final(session).body_hash,
            revision: final(session).revision,
            ..*old(session)
        }),
{
    session.plan_path = plan_path;
    session.whole_file_hash = whole_file_hash(plan);
    session.body_hash = crate::plan::body_hash(plan);
    session.revision = session.revision + 1;
}

/// After a reset: the regenerated plan is the one the session was generated with, and
/// nothing has changed.
pub fn finish_reset(session: &mut SessionRecord)
    ensures
        final(session).generated_whole_file_hash@ == old(session).whole_file_hash@,
        !final(session).plan_body_diverged,
        final(session).stats.changes == 0,
        final(session).whole_file_hash == old(session).whole_file_hash,
        final(session).revision == old(session).revision,
        final(session).status == old(session).status,
        *final(session) == (SessionRecord {
            generated_whole_file_hash: final(session).generated_whole_file_hash,
            plan_body_diverged: false,
            stats: crate::model::SessionStats { changes: 0, ..old(session).stats },
            ..*old(session)
        }),
{
    session.generated_whole_file_hash = session.whole_file_hash.clone();
    session.plan_body_diverged = false;
    session.stats.changes = 0;
}

/// Operations that change something, and trash operations among them.
pub open spec fn count_changes(ops: Seq<Operation>) -> nat
    decreases ops.len(),
{
    if ops.len() == 0 {
        0
    } else {
        count_changes(ops.drop_last()) + if ops.last().kind != OpKind::Noop && ops.last().kind
            != OpKind::Skip {
            1nat
        } else {
            0nat
        }
    }
}

pub open spec fn count_trash(ops: Seq<Operation>) -> nat
    decreases ops.len(),
{
    if ops.len() == 0 {
        0
    } else {
        count_trash(ops.drop_last()) + if ops.last().kind == OpKind::Trash {
            1nat
        } else {
            0nat
        }
    }
}

/// The number of operations that change something, and of those that trash a file.
pub fn operation_counts(operations: &[Operation]) -> (r: (usize, usize))
    ensures
        r.0 as nat == count_changes(operations@),
        r.1 as nat == count_trash(operations@),
{
    let mut changes: usize = 0;
    let mut trash: usize = 0;
    let mut i: usize = 0;
    while i < operations.len()
        invariant
            i <= operations.len(),
            changes as nat == count_changes(operations@.take(i as int)),
            trash as nat == count_trash(operations@.take(i as int)),
            changes <= i,
            trash <= i,
        decreases operations.len() - i,
    {
        proof {
            let t = operations@.take(i + 1);
            assert(t.drop_last() == operations@.take(i as int));
            assert(t.last() == operations@[i as int]);
        }
        let k = operations[i].kind;
        if k != OpKind::Noop && k != OpKind::Skip {
            changes += 1;
        }
        if k == OpKind::Trash {
            trash += 1;
        }
        i += 1;
    }
    assert(operations@.take(i as int) == operations@);
    (changes, trash)
}


/// An undo cannot start while another is unfinished.
pub fn check_undo(session: &SessionRecord) -> (r: Result<(), String>)
    ensures
        match r {
            Ok(()) => session.status != SessionStatus::Undoing && session.status != SessionStatus::UndoInterrupted,
            Err(m) => (session.status == SessionStatus::Undoing || session.status == SessionStatus::UndoInterrupted)
                && m@ == "session "@ + session.id@ + " has an interrupted undo (status "@ + (if session.status
                == SessionStatus::Undoing {
                "undoing"@
            } else {
                "undo-interrupted"@
            }) + "); resuming an undo is not supported"@,
        },
{
    if session.status == SessionStatus::Undoing || session.status == SessionStatus::UndoInterrupted {
        let mut m = String::new();
        push_str(&mut m, "session ");
        push_str(&mut m, session.id.as_str());
        push_str(&mut m, " has an interrupted undo (status ");
        push_str(&mut m, session.status.name());
        push_str(&mut m, "); resuming an undo is not supported");
        return Err(m);
    }
    Ok(())
}

/// Some undo journal that finished reversed `id`.
pub open spec fn undone_by(journals: Seq<Journal>, id: Seq<char>) -> bool {
    exists|k: int|
        0 <= k < journals.len() && journals[k].mode == JournalMode::Undo && journals[k].final_status
            == Some(JournalFinalStatus::Undone) && opt_str(#[trigger] journals[k].parent_journal_id) == Some(id)
}

/// An execute journal that ran to the end and has not been undone.
pub open spec fn undoable(journals: Seq<Journal>, j: Journal) -> bool {
    &&& j.mode == JournalMode::Execute
    &&& j.final_status == Some(JournalFinalStatus::Executed)
    &&& !undone_by(journals, j.journal_id@)
}

/// The first journal, from `t` on, that satisfies `undoable`.
pub open spec fn first_undoable(journals: Seq<Journal>, t: int) -> Option<int>
    decreases journals.len() - t,
{
    if t < 0 || t >= journals.len() {
        None
    } else if undoable(journals, journals[t]) {
        Some(t)
    } else {
        first_undoable(journals, t + 1)
    }
}

/// The first journal, from `t` on, whose id is `id`.
pub open spec fn first_with_id(journals: Seq<Journal>, id: Seq<char>, t: int) -> Option<int>
    decreases journals.len() - t,
{
    if t < 0 || t >= journals.len() {
        None
    } else if journals[t].journal_id@ == id {
        Some(t)
    } else {
        first_with_id(journals, id, t + 1)
    }
}

/// The journal an undo reverses: the session's active journal when it is undoable,
/// else the first undoable journal.
pub open spec fn spec_active_executed(session: SessionRecord, journals: Seq<Journal>) -> Option<int> {
    let active = match session.active_journal_id {
        Some(id) => first_with_id(journals, id@, 0),
        None => None,
    };
    match active {
        Some(k) => if undoable(journals, journals[k]) {
            Some(k)
        } else {
            first_undoable(journals, 0)
        },
        None => first_undoable(journals, 0),
    }
}

fn is_undone(journals: &Vec<Journal>, id: &String) -> (b: bool)
    ensures
        b == undone_by(journals@, id@),
{
    let mut k: usize = 0;
    while k < journals.len()
        invariant
            k <= journals.len(),
            forall|t: int|
                0 <= t < k ==> !(journals@[t].mode == JournalMode::Undo && journals@[t].final_status
                    == Some(JournalFinalStatus::Undone) && opt_str(journals@[t].parent_journal_id) == Some(id@)),
        decreases journals.len() - k,
    {
        let j = &journals[k];
        if j.mode == JournalMode::Undo && j.final_status == Some(JournalFinalStatus::Undone) {
            if let Some(parent) = &j.parent_journal_id {
                if *parent == *id {
                    assert(opt_str(journals@[k as int].parent_journal_id) == Some(id@));
                    return true;
                }
            }
        }
        k += 1;
    }
    false
}

fn is_undoable(journals: &Vec<Journal>, k: usize) -> (b: bool)
    requires
        k < journals.len(),
    ensures
        b == undoable(journals@, journals@[k as int]),
{
    let j = &journals[k];
    j.mode == JournalMode::Execute && j.final_status == Some(JournalFinalStatus::Executed) && !is_undone(
        journals,
        &j.journal_id,
    )
}

/// Which of `journals` an undo reverses (see `spec_active_executed`).
pub fn active_executed_journal(session: &SessionRecord, journals: &Vec<Journal>) -> (r: Result<usize, String>)
    ensures
        match (r, spec_active_executed(*session, journals@)) {
            (Ok(k), Some(t)) => k as int == t,
            (Err(m), None) => m@ == "no executed journal to undo"@,
            _ => false,
        },
{
    let mut active: Option<usize> = None;
    if let Some(id) = &session.active_journal_id {
        let mut t: usize = 0;
        while t < journals.len() && active.is_none()
            invariant
                t <= journals.len(),
                match active {
                    None => first_with_id(journals@, id@, 0) == first_with_id(journals@, id@, t as int),
                    Some(k) => first_with_id(journals@, id@, 0) == Some(k as int) && k < journals.len(),
                },
            decreases journals.len() - t + (if active is None {
                1int
            } else {
                0int
            }),
        {
            if journals[t].journal_id == *id {
                active = Some(t);
            } else {
                t += 1;
            }
        }
    }
    if let Some(k) = active {
        if is_undoable(journals, k) {
            return Ok(k);
        }
    }
    proof {
        if session.active_journal_id is Some && active is None {
            assert(first_with_id(journals@, session.active_journal_id->0@, 0) is None);
        }
    }
    let mut t: usize = 0;
    while t < journals.len()
        invariant
            t <= journals.len(),
            first_undoable(journals@, 0) == first_undoable(journals@, t as int),
            spec_active_executed(*session, journals@) == first_undoable(journals@, 0),
        decreases journals.len() - t,
    {
        if is_undoable(journals, t) {
            return Ok(t);
        }
        t += 1;
    }
    let mut m = String::new();
    push_str(&mut m, "no executed journal to undo");
    Err(m)
}

/// The path whose parent directories an undo of `step` needs: the source of a committed
/// rename, or the original path of a committed trash with a restore key.
pub open spec fn spec_inverse_destination(step: JournalStep) -> Option<Seq<char>> {
    if step.state != StepState::Committed {
        None
    } else {
        match step.planned.op {
            PlannedKind::Stage | PlannedKind::Commit => opt_str(step.planned.from),
            PlannedKind::Trash => match step.trash_restore_key {
                Some(key) => Some(key.original_path@),
                None => None,
            },
            _ => None,
        }
    }
}

/// See `spec_inverse_destination`.
pub fn inverse_destination(step: &JournalStep) -> (r: Option<String>)
    ensures
        opt_str(r) == spec_inverse_destination(*step),
{
    if step.state != StepState::Committed {
        return None;
    }
    match step.planned.op {
        PlannedKind::Stage | PlannedKind::Commit => match &step.planned.from {
            Some(f) => Some(f.clone()),
            None => None,
        },
        PlannedKind::Trash => match &step.trash_restore_key {
            Some(key) => Some(key.original_path.clone()),
            None => None,
        },
        _ => None,
    }
}

pub open spec fn undo_step_v(
    op: PlannedKind,
    from: Option<Seq<char>>,
    to: Option<Seq<char>>,
    id: Option<u64>,
    fp: Option<crate::model::SourceFingerprint>,
    parent: Option<ParentRefV>,
) -> StepV {
    StepV { op, from, to, id, fingerprint: opt_fp(fp), parent, mkdir_path: None }
}

/// The undo steps for the committed steps of `steps` below index `k`, last first: a
/// rename is renamed back (after the directories its old path needs), a copy is
/// trashed, a trashed file is moved back from the trash. `probes[j]` shows the parent
/// directories of step `j`'s old path.
pub open spec fn inverse_from(
    steps: Seq<JournalStep>,
    probes: Seq<Result<ParentProbe, String>>,
    k: int,
    st: MkState,
) -> Result<MkState, Seq<char>>
    decreases k,
{
    if k <= 0 || k > steps.len() {
        Ok(st)
    } else {
        let j = k - 1;
        let s = steps[j];
        let p = s.planned;
        if s.state != StepState::Committed {
            inverse_from(steps, probes, j, st)
        } else {
            match p.op {
                PlannedKind::Stage | PlannedKind::Commit => if p.to is None {
                    Err("executed rename has no destination"@)
                } else if p.from is None {
                    Err("executed rename has no source"@)
                } else {
                    match ensure_spec(st, probes[j]) {
                        Err(e) => Err(e),
                        Ok((st2, rv)) => inverse_from(
                            steps,
                            probes,
                            j,
                            MkState {
                                steps: st2.steps.push(
                                    undo_step_v(PlannedKind::Commit, opt_str(p.to), opt_str(p.from), p.id, s.fingerprint_to, Some(rv)),
                                ),
                                made: st2.made,
                            },
                        ),
                    }
                },
                PlannedKind::Copy => inverse_from(
                    steps,
                    probes,
                    j,
                    MkState {
                        steps: st.steps.push(undo_step_v(PlannedKind::Trash, opt_str(p.to), None, p.id, s.fingerprint_to, None)),
                        made: st.made,
                    },
                ),
                PlannedKind::Trash => match s.trash_restore_key {
                    None => inverse_from(steps, probes, j, st),
                    Some(key) => match ensure_spec(st, probes[j]) {
                        Err(e) => Err(e),
                        Ok((st2, rv)) => inverse_from(
                            steps,
                            probes,
                            j,
                            MkState {
                                steps: st2.steps.push(
                                    undo_step_v(
                                        PlannedKind::Commit,
                                        Some(key.files_path@),
                                        Some(key.original_path@),
                                        p.id,
                                        s.fingerprint_to,
                                        Some(rv),
                                    ),
                                ),
                                made: st2.made,
                            },
                        ),
                    },
                },
                PlannedKind::Mkdir | PlannedKind::Noop => inverse_from(steps, probes, j, st),
            }
        }
    }
}

/// A step of an undo, with a fresh id ending in `-u`.
fn inverse_step(
    op: PlannedKind,
    from: Option<String>,
    to: Option<String>,
    id: Option<u64>,
    fingerprint: Option<crate::model::SourceFingerprint>,
    parent: Option<DestParentRef>,
) -> (s: PlannedStep)
    ensures
        crate::schedule::is_step_id(s.step_id@),
        s.op == op,
        s.from == from,
        s.to == to,
        s.id == id,
        s.fingerprint_from == fingerprint,
        s.dest_parent_ref == parent,
        s.mkdir_path is None,
{
    let hex = random_hex(6);
    let step_id = concat(hex.as_str(), "-u");
    proof {
        let b = choose|b: Seq<u8>| b.len() == 6 && hex@ == hex_of(b);
        assert(step_id@ == hex_of(b) + "-u"@);
    }
    PlannedStep { step_id, op, from, to, id, fingerprint_from: fingerprint, dest_parent_ref: parent, mkdir_path: None }
}

fn copy_opt(o: &Option<String>) -> (r: Option<String>)
    ensures
        opt_str(r) == opt_str(*o),
{
    match o {
        Some(s) => Some(s.clone()),
        None => None,
    }
}

fn copy_fp(o: &Option<crate::model::SourceFingerprint>) -> (r: Option<crate::model::SourceFingerprint>)
    ensures
        opt_fp(r) == opt_fp(*o),
{
    match o {
        Some(f) => Some(f.duplicate()),
        None => None,
    }
}

/// The steps of the undo of `active` (see `inverse_from`); `probes[j]` shows the parent
/// directories of the old path of step `j` (see `inverse_destination`).
pub fn inverse_steps(active: &Journal, probes: &Vec<Result<ParentProbe, String>>) -> (r: Result<
    Vec<PlannedStep>,
    String,
>)
    requires
        probes.len() == active.steps.len(),
    ensures
        match (r, inverse_from(active.steps@, probes@, active.steps@.len() as int, MkState { steps: Seq::empty(), made: Seq::empty() })) {
            (Ok(v), Ok(st)) => steps_match(v@, st.steps),
            (Err(e), Err(m)) => e@ == m,
            _ => false,
        },
{
    let mut out: Vec<PlannedStep> = Vec::new();
    let mut made: Vec<(String, usize)> = Vec::new();
    let ghost st0 = MkState { steps: Seq::empty(), made: Seq::empty() };
    let ghost target = inverse_from(active.steps@, probes@, active.steps@.len() as int, st0);
    let ghost mut cur = st0;
    proof {
        assert(made_view(made@) =~= Seq::<(Seq<char>, int)>::empty());
    }
    let mut k = active.steps.len();
    while k > 0
        invariant
            k <= active.steps.len(),
            probes.len() == active.steps.len(),
            steps_match(out@, cur.steps),
            made_view(made@) == cur.made,
            made_ok(made@, out@.len() as int),
            target == inverse_from(active.steps@, probes@, k as int, cur),
            target == inverse_from(active.steps@, probes@, active.steps@.len() as int, st0),
            st0 == (MkState { steps: Seq::empty(), made: Seq::empty() }),
        decreases k,
    {
        let j = k - 1;
        let s = &active.steps[j];
        let p = &s.planned;
        if s.state == StepState::Committed {
            match p.op {
                PlannedKind::Stage | PlannedKind::Commit => {
                    if p.to.is_none() {
                        let mut m = String::new();
                        push_str(&mut m, "executed rename has no destination");
                        proof {
                            assert(m@ =~= "executed rename has no destination"@);
                            assert(inverse_from(active.steps@, probes@, k as int, cur)
                                == Err::<MkState, Seq<char>>("executed rename has no destination"@));
                        }
                        return Err(m);
                    }
                    if p.from.is_none() {
                        let mut m = String::new();
                        push_str(&mut m, "executed rename has no source");
                        proof {
                            assert(m@ =~= "executed rename has no source"@);
                            assert(inverse_from(active.steps@, probes@, k as int, cur)
                                == Err::<MkState, Seq<char>>("executed rename has no source"@));
                        }
                        return Err(m);
                    }
                    let ghost vs = cur.steps;
                    let ghost mk = MkState { steps: vs, made: made_view(made@) };
                    assert(mk == cur);
                    match crate::schedule::capture_destination_parent(&mut out, &mut made, &probes[j], Ghost(vs)) {
                        Err(e) => {
                            proof {
                                assert(ensure_spec(cur, probes@[j as int]) is Err);
                            }
                            return Err(e);
                        },
                        Ok(parent) => {
                            let ghost (st2, rv) = ensure_spec(cur, probes@[j as int])->Ok_0;
                            let planned = inverse_step(
                                PlannedKind::Commit,
                                copy_opt(&p.to),
                                copy_opt(&p.from),
                                p.id,
                                copy_fp(&s.fingerprint_to),
                                Some(parent),
                            );
                            let ghost v = undo_step_v(PlannedKind::Commit, opt_str(p.to), opt_str(p.from), p.id, s.fingerprint_to, Some(rv));
                            proof {
                                crate::schedule::lemma_ref_grow(out@, planned, parent, rv);
                                assert(step_matches(out@.push(planned), planned, v));
                                crate::schedule::lemma_steps_push(out@, st2.steps, planned, v);
                            }
                            out.push(planned);
                            proof {
                                cur = MkState { steps: st2.steps.push(v), made: st2.made };
                            }
                        },
                    }
                },
                PlannedKind::Copy => {
                    let planned = inverse_step(PlannedKind::Trash, copy_opt(&p.to), None, p.id, copy_fp(&s.fingerprint_to), None);
                    let ghost v = undo_step_v(PlannedKind::Trash, opt_str(p.to), None, p.id, s.fingerprint_to, None);
                    proof {
                        assert(step_matches(out@.push(planned), planned, v));
                        crate::schedule::lemma_steps_push(out@, cur.steps, planned, v);
                    }
                    out.push(planned);
                    proof {
                        cur = MkState { steps: cur.steps.push(v), made: cur.made };
                    }
                },
                PlannedKind::Trash => {
                    if let Some(key) = &s.trash_restore_key {
                        let ghost vs = cur.steps;
                        let ghost mk = MkState { steps: vs, made: made_view(made@) };
                        assert(mk == cur);
                        match crate::schedule::capture_destination_parent(&mut out, &mut made, &probes[j], Ghost(vs)) {
                            Err(e) => {
                                proof {
                                    assert(ensure_spec(cur, probes@[j as int]) is Err);
                                }
                                return Err(e);
                            },
                            Ok(parent) => {
                                let ghost (st2, rv) = ensure_spec(cur, probes@[j as int])->Ok_0;
                                let planned = inverse_step(
                                    PlannedKind::Commit,
                                    Some(key.files_path.clone()),
                                    Some(key.original_path.clone()),
                                    p.id,
                                    copy_fp(&s.fingerprint_to),
                                    Some(parent),
                                );
                                let ghost v = undo_step_v(
                                    PlannedKind::Commit,
                                    Some(key.files_path@),
                                    Some(key.original_path@),
                                    p.id,
                                    s.fingerprint_to,
                                    Some(rv),
                                );
                                proof {
                                    crate::schedule::lemma_ref_grow(out@, planned, parent, rv);
                                    assert(step_matches(out@.push(planned), planned, v));
                                    crate::schedule::lemma_steps_push(out@, st2.steps, planned, v);
                                }
                                out.push(planned);
                                proof {
                                    cur = MkState { steps: st2.steps.push(v), made: st2.made };
                                }
                            },
                        }
                    }
                },
                _ => {},
            }
        }
        k = j;
    }
    Ok(out)
}

/// The trash metadata files to remove once an undo has finished: those recorded by the
/// trash steps of the reversed journal.
pub open spec fn info_paths(steps: Seq<JournalStep>) -> Seq<Seq<char>>
    decreases steps.len(),
{
    if steps.len() == 0 {
        Seq::empty()
    } else {
        let s = steps.last();
        let prev = info_paths(steps.drop_last());
        if s.planned.op == PlannedKind::Trash && s.trash_restore_key is Some && s.trash_restore_key->0.info_path is Some {
            prev.push(s.trash_restore_key->0.info_path->0@)
        } else {
            prev
        }
    }
}

/// See `info_paths`.
pub fn trash_info_paths(active: &Journal) -> (r: Vec<String>)
    ensures
        strs(r@) == info_paths(active.steps@),
{
    let mut out: Vec<String> = Vec::new();
    let mut i: usize = 0;
    while i < active.steps.len()
        invariant
            i <= active.steps.len(),
            strs(out@) == info_paths(active.steps@.take(i as int)),
        decreases active.steps.len() - i,
    {
        proof {
            let t = active.steps@.take(i + 1);
            assert(t.drop_last() == active.steps@.take(i as int));
            assert(t.last() == active.steps@[i as int]);
        }
        let s = &active.steps[i];
        if s.planned.op == PlannedKind::Trash {
            if let Some(key) = &s.trash_restore_key {
                if let Some(info) = &key.info_path {
                    let ghost before = out@;
                    out.push(info.clone());
                    proof {
                        assert(strs(out@) =~= strs(before).push(info@));
                    }
                }
            }
        }
        i += 1;
    }
    assert(active.steps@.take(i as int) == active.steps@);
    out
}

/// The undo journal `journal_id` has started.
pub fn start_undo(session: &mut SessionRecord, journal_id: &String)
    ensures
        final(session).active_journal_id is Some,
        final(session).active_journal_id.unwrap()@ == journal_id@,
        final(session).status == SessionStatus::Undoing,
        final(session).revision == old(session).revision,
        *final(session) == (SessionRecord {
            active_journal_id: final(session).active_journal_id,
            status: SessionStatus::Undoing,
            ..*old(session)
        }),
{
    session.active_journal_id = Some(journal_id.clone());
    session.status = SessionStatus::Undoing;
}

/// After an undo: undone when the journal finished, else interrupted.
pub fn finish_undo(session: &mut SessionRecord, journal: &Journal)
    ensures
        final(session).status == (if journal.final_status == Some(JournalFinalStatus::Undone) {
            SessionStatus::Undone
        } else {
            SessionStatus::UndoInterrupted
        }),
        final(session).active_journal_id == old(session).active_journal_id,
        final(session).revision == old(session).revision,
        *final(session) == (SessionRecord { status: final(session).status, ..*old(session) }),
{
    session.status = if journal.final_status == Some(JournalFinalStatus::Undone) {
        SessionStatus::Undone
    } else {
        SessionStatus::UndoInterrupted
    };
}

/// A session that can still be undone is deleted only with `force`.
pub fn check_delete(id: &str, force: bool, can_undo: bool) -> (r: Result<(), String>)
    ensures
        match r {
            Ok(()) => force || !can_undo,
            Err(m) => !force && can_undo && m@ == "session "@ + id@ + " can still be undone; run `remodeco undo "@ + id@
                + "` first, or pass --force"@,
        },
{
    if !force && can_undo {
        let mut m = String::new();
        push_str(&mut m, "session ");
        push_str(&mut m, id);
        push_str(&mut m, " can still be undone; run `remodeco undo ");
        push_str(&mut m, id);
        push_str(&mut m, "` first, or pass --force");
        return Err(m);
    }
    Ok(())
}


pub open spec fn unknown_message(unknown: Seq<(int, Seq<char>)>) -> Seq<char> {
    "unknown lines: "@ + join_with(unknown.map_values(|u: (int, Seq<char>)| decimal(u.0 as nat)), ", "@)
}

/// The operations of a session's plan text: it must still have the confirmed hash when
/// one is required, parse, carry this session's header, have no unknown lines,
/// and name only manifest ids.
pub open spec fn spec_plan_operations(
    raw: Seq<char>,
    raw_len: nat,
    required: Option<Seq<char>>,
    session_id: Seq<char>,
    root: Seq<char>,
    mode: SessionMode,
    m: Seq<ManifestEntry>,
) -> Result<Seq<OpV>, Seq<char>> {
    if required is Some && spec_sha256_hex(vstd::utf8::encode_utf8(raw)) != required->0 {
        Err(changed_message())
    } else {
        match spec_parse_plan(raw, raw_len) {
            Err((_, msg)) => Err(msg),
            Ok(p) => match p.header {
                None => Err("missing front matter"@),
                Some(h) => if !header_matches(h, session_id, root) {
                    Err("plan front matter does not match the session"@)
                } else if p.unknown.len() > 0 {
                    Err(unknown_message(p.unknown))
                } else {
                    match classify_from(p.bullets, m, mode, 0) {
                        Ok(ops) => Ok(ops),
                        Err(id) => Err(unknown_id_message(id)),
                    }
                },
            },
        }
    }
}

/// The operations of the plan text `raw` of `session` (see `spec_plan_operations`).
pub fn plan_operations(
    session: &SessionRecord,
    raw: &str,
    required_hash: Option<&str>,
    manifest: &Vec<ManifestEntry>,
) -> (r: Result<Vec<Operation>, String>)
    ensures
        match (r, spec_plan_operations(
            raw@,
            raw.len() as nat,
            match required_hash {
                Some(h) => Some(h@),
                None => None,
            },
            session.id@,
            session.root@,
            session.mode,
            manifest@,
        )) {
            (Ok(ops), Ok(sops)) => ops_view(ops@) == sops,
            (Err(e), Err(msg)) => e@ == msg,
            _ => false,
        },
{
    if let Some(expected) = required_hash {
        let h = whole_file_hash(raw);
        if !crate::text::str_eq(h.as_str(), expected) {
            return Err(changed_text());
        }
    }
    let parsed = match parse_plan(raw) {
        Ok(p) => p,
        Err(e) => return Err(e.message),
    };
    if let Err(e) = validate_plan_header(&parsed, session.id.as_str(), session.root.as_str()) {
        return Err(e.message);
    }
    if parsed.unknown_lines.len() > 0 {
        let mut numbers: Vec<String> = Vec::new();
        let mut i: usize = 0;
        while i < parsed.unknown_lines.len()
            invariant
                i <= parsed.unknown_lines.len(),
                numbers.len() == i,
                strs(numbers@) == parsed@.unknown.take(i as int).map_values(
                    |u: (int, Seq<char>)| decimal(u.0 as nat),
                ),
            decreases parsed.unknown_lines.len() - i,
        {
            let mut d = String::new();
            push_decimal(&mut d, parsed.unknown_lines[i].0 as u64);
            let ghost before = numbers@;
            numbers.push(d);
            proof {
                assert(parsed@.unknown[i as int].0 == parsed.unknown_lines@[i as int].0 as int);
                assert(d@ =~= decimal(parsed@.unknown[i as int].0 as nat));
                assert(strs(numbers@) =~= strs(before).push(d@));
                assert(parsed@.unknown.take(i + 1).map_values(|u: (int, Seq<char>)| decimal(u.0 as nat))
                    =~= parsed@.unknown.take(i as int).map_values(|u: (int, Seq<char>)| decimal(u.0 as nat)).push(
                    decimal(parsed@.unknown[i as int].0 as nat)));
                assert(strs(numbers@) =~= parsed@.unknown.take(i + 1).map_values(
                    |u: (int, Seq<char>)| decimal(u.0 as nat),
                ));
            }
            i += 1;
        }
        assert(parsed@.unknown.take(i as int) =~= parsed@.unknown);
        return Err(concat("unknown lines: ", join_strings(&numbers, ", ").as_str()));
    }
    match classify_ops(&parsed, manifest, session.mode) {
        Ok((ops, _skipped)) => Ok(ops),
        Err(e) => Err(e.message),
    }
}

/// What a draft's plan file needs before it is shown.
pub enum Normalize {
    /// Nothing: not a draft, unreadable or unparsable, has unknown lines, or already
    /// under the preferred name.
    Keep,
    /// Its header does not match the session; it stays in place.
    Warn(crate::plan::PlanError),
    /// Rewrite it under the preferred name, keeping these edited destinations.
    Rewrite(std::collections::HashMap<u64, String>),
}

/// The destinations of the plan's entries by id; a later entry of an id wins.
pub open spec fn bullet_map(b: Seq<crate::plan::BulletV>) -> Map<u64, Seq<char>>
    decreases b.len(),
{
    if b.len() == 0 {
        Map::empty()
    } else {
        bullet_map(b.drop_last()).insert(b.last().id, b.last().destination)
    }
}

/// The destinations of `d`, as text.
pub open spec fn dest_texts(d: Map<u64, String>) -> Map<u64, Seq<char>> {
    d.map_values(|s: String| s@)
}

/// What a draft's plan file needs (see `Normalize`); `raw` is its text when it could be
/// read, `current_name` its file name.
pub open spec fn normalize_of(
    status: SessionStatus,
    id: Seq<char>,
    root: Seq<char>,
    current_name: Seq<char>,
    format: crate::config::PlanFormat,
    raw: Option<(Seq<char>, nat)>,
) -> Option<Result<Map<u64, Seq<char>>, ()>> {
    if status != SessionStatus::Draft {
        None
    } else {
        match raw {
            None => None,
            Some((text, bytes)) => match spec_parse_plan(text, bytes) {
                Err(_) => None,
                Ok(p) => if p.unknown.len() > 0 || current_name == crate::config::format_file_name(format) {
                    None
                } else if p.header matches Some(h) && header_matches(h, id, root) {
                    Some(Ok(bullet_map(p.bullets)))
                } else {
                    Some(Err(()))
                },
            },
        }
    }
}

/// See `normalize_of`: `None` is keeping the file, `Err` the warning, `Ok` the rewrite.
pub fn normalize_decision(
    session: &SessionRecord,
    current_name: &str,
    format: crate::config::PlanFormat,
    raw: Option<&str>,
) -> (r: Normalize)
    ensures
        match (r, normalize_of(
            session.status,
            session.id@,
            session.root@,
            current_name@,
            format,
            match raw {
                Some(t) => Some((t@, t.len() as nat)),
                None => None,
            },
        )) {
            (Normalize::Keep, None) => true,
            (Normalize::Warn(_), Some(Err(_))) => true,
            (Normalize::Rewrite(m), Some(Ok(b))) => dest_texts(m@) == b,
            _ => false,
        },
{
    broadcast use vstd::std_specs::hash::group_hash_axioms;

    if session.status != SessionStatus::Draft {
        return Normalize::Keep;
    }
    let text = match raw {
        Some(t) => t,
        None => return Normalize::Keep,
    };
    let parsed = match parse_plan(text) {
        Ok(p) => p,
        Err(_) => return Normalize::Keep,
    };
    if parsed.unknown_lines.len() > 0 || crate::text::str_eq(current_name, format.file_name()) {
        return Normalize::Keep;
    }
    match validate_plan_header(&parsed, session.id.as_str(), session.root.as_str()) {
        Err(e) => return Normalize::Warn(e),
        Ok(()) => {},
    }
    let mut m: std::collections::HashMap<u64, String> = std::collections::HashMap::new();
    let mut i: usize = 0;
    let ghost bv = parsed@.bullets;
    assert(bv.take(0) =~= Seq::<crate::plan::BulletV>::empty());
    assert(dest_texts(m@) =~= Map::<u64, Seq<char>>::empty());
    while i < parsed.bullets.len()
        invariant
            i <= parsed.bullets@.len(),
            bv == parsed@.bullets,
            bv.len() == parsed.bullets@.len(),
            forall|k: int| 0 <= k < bv.len() ==> #[trigger] bv[k] == parsed.bullets@[k]@,
            dest_texts(m@) == bullet_map(bv.take(i as int)),
        decreases parsed.bullets.len() - i,
    {
        let b = &parsed.bullets[i];
        m.insert(b.id, b.destination.clone());
        proof {
            assert(bv.take(i + 1).drop_last() =~= bv.take(i as int));
            assert(bv.take(i + 1).last() == bv[i as int]);
            assert(dest_texts(m@) =~= bullet_map(bv.take(i as int)).insert(bv[i as int].id, bv[i as int].destination));
        }
        i += 1;
    }
    assert(bv.take(i as int) =~= bv);
    Normalize::Rewrite(m)
}

/// A scan of this many files or more needs `--yes`.
pub const SCAN_LIMIT: usize = 25000;

/// A scan of this many files or more is reported.
pub const SCAN_WARNING: usize = 5000;

/// Refuses a scan of `SCAN_LIMIT` files or more without `--yes`; else tells whether the
/// count deserves a warning.
pub fn check_scan_size(count: usize, yes: bool) -> (r: Result<bool, String>)
    ensures
        r is Err <==> count >= 25000 && !yes,
        r matches Err(m) ==> m@ == "scan includes "@ + decimal(count as nat) + " files; inspect excludes and rerun with --yes"@,
        r matches Ok(w) ==> w == (count >= 5000),
{
    if count >= SCAN_LIMIT && !yes {
        let mut m = String::new();
        push_str(&mut m, "scan includes ");
        push_decimal(&mut m, count as u64);
        push_str(&mut m, " files; inspect excludes and rerun with --yes");
        return Err(m);
    }
    Ok(count >= SCAN_WARNING)
}

/// The manifest of a scan: its rows in order, numbered from 1.
pub open spec fn entries_fit(entries: Seq<ManifestEntry>, rows: Seq<crate::scan::ScanRow>) -> bool {
    &&& entries.len() == rows.len()
    &&& forall|k: int| 0 <= k < rows.len() ==> {
        &&& (#[trigger] entries[k]).id == k + 1
        &&& entries[k].from == rows[k].from
        &&& entries[k].fingerprint == rows[k].fingerprint
    }
}

/// See `entries_fit`.
pub fn manifest_entries(rows: Vec<crate::scan::ScanRow>) -> (r: Vec<ManifestEntry>)
    requires
        rows@.len() < u64::MAX,
    ensures
        entries_fit(r@, rows@),
{
    let ghost input = rows@;
    let mut out: Vec<ManifestEntry> = Vec::new();
    let mut rest = rows;
    let mut taken: usize = 0;
    let total = rest.len();
    proof {
        assert(input.skip(0) =~= input);
    }
    while rest.len() > 0
        invariant
            taken <= input.len(),
            input.len() == total,
            input.len() < u64::MAX,
            rest@ == input.skip(taken as int),
            out@.len() == taken,
            forall|k: int| 0 <= k < taken ==> {
                &&& (#[trigger] out@[k]).id == k + 1
                &&& out@[k].from == input[k].from
                &&& out@[k].fingerprint == input[k].fingerprint
            },
        decreases rest.len(),
    {
        assert(taken < input.len());
        let row = rest.remove(0);
        proof {
            assert(row == input[taken as int]);
            assert(rest@ =~= input.skip(taken + 1));
        }
        out.push(ManifestEntry { id: taken as u64 + 1, from: row.from, fingerprint: row.fingerprint });
        taken += 1;
    }
    out
}

pub open spec fn count_kind(entries: Seq<ManifestEntry>, kind: crate::model::SourceKind) -> nat
    decreases entries.len(),
{
    if entries.len() == 0 {
        0
    } else {
        count_kind(entries.drop_last(), kind) + if entries.last().fingerprint.kind == kind {
            1nat
        } else {
            0nat
        }
    }
}

fn count_of_kind(entries: &Vec<ManifestEntry>, kind: crate::model::SourceKind) -> (n: usize)
    ensures
        n == count_kind(entries@, kind),
{
    let mut n: usize = 0;
    let mut i: usize = 0;
    while i < entries.len()
        invariant
            i <= entries@.len(),
            n == count_kind(entries@.take(i as int), kind),
            n <= i,
        decreases entries.len() - i,
    {
        proof {
            assert(entries@.take(i + 1).drop_last() =~= entries@.take(i as int));
        }
        if entries[i].fingerprint.kind == kind {
            n += 1;
        }
        i += 1;
    }
    assert(entries@.take(i as int) =~= entries@);
    n
}

/// A new draft session for a fresh plan: revision 1, both hashes of the plan, its
/// counts of files and symbolic links, and no changes yet.
pub fn new_session(
    id: String,
    root: String,
    mode: SessionMode,
    stamp: String,
    plan_path: String,
    manifest_path: String,
    plan: &str,
    entries: &Vec<ManifestEntry>,
    id_width: usize,
    skipped_special: usize,
    tool_version: String,
) -> (s: SessionRecord)
    ensures
        s.id == id,
        s.root == root,
        s.mode == mode,
        s.status == SessionStatus::Draft,
        s.revision == 1,
        s.created_at == stamp && s.updated_at == stamp,
        s.plan_path == plan_path,
        s.manifest_path == manifest_path,
        s.generated_whole_file_hash@ == spec_sha256_hex(vstd::utf8::encode_utf8(plan@)),
        s.whole_file_hash@ == spec_sha256_hex(vstd::utf8::encode_utf8(plan@)),
        s.body_hash@ == spec_sha256_hex(vstd::utf8::encode_utf8(crate::plan::plan_body(plan@))),
        !s.plan_body_diverged,
        s.active_journal_id is None,
        s.id_width == id_width,
        s.tool_version == tool_version,
        s.stats.files == count_kind(entries@, crate::model::SourceKind::File),
        s.stats.symlinks == count_kind(entries@, crate::model::SourceKind::Symlink),
        s.stats.skipped_special == skipped_special,
        s.stats.changes == 0,
{
    let files = count_of_kind(entries, crate::model::SourceKind::File);
    let symlinks = count_of_kind(entries, crate::model::SourceKind::Symlink);
    SessionRecord {
        id,
        root,
        mode,
        status: SessionStatus::Draft,
        revision: 1,
        created_at: stamp.clone(),
        updated_at: stamp,
        plan_path,
        manifest_path,
        generated_whole_file_hash: whole_file_hash(plan),
        whole_file_hash: whole_file_hash(plan),
        body_hash: crate::plan::body_hash(plan),
        plan_body_diverged: false,
        active_journal_id: None,
        id_width,
        tool_version,
        stats: crate::model::SessionStats { files, symlinks, skipped_special, changes: 0 },
    }
}

/// Whether undo step `u` takes back the committed step `s`: a rename is renamed back, a
/// copy is trashed, a trashed file with a restore record is moved back from the trash.
pub open spec fn undoes(s: JournalStep, u: StepV) -> bool {
    let p = s.planned;
    match p.op {
        PlannedKind::Stage | PlannedKind::Commit => {
            &&& u.op == PlannedKind::Commit
            &&& u.from == opt_str(p.to)
            &&& u.to == opt_str(p.from)
        },
        PlannedKind::Copy => {
            &&& u.op == PlannedKind::Trash
            &&& u.from == opt_str(p.to)
        },
        PlannedKind::Trash => match s.trash_restore_key {
            Some(key) => {
                &&& u.op == PlannedKind::Commit
                &&& u.from == Some(key.files_path@)
                &&& u.to == Some(key.original_path@)
            },
            None => false,
        },
        PlannedKind::Mkdir | PlannedKind::Noop => false,
    }
}

/// Whether `s` leaves something for an undo to take back: a rename, a copy, or a
/// trashed file with a restore record.
pub open spec fn has_undo(s: JournalStep) -> bool {
    match s.planned.op {
        PlannedKind::Stage | PlannedKind::Commit | PlannedKind::Copy => true,
        PlannedKind::Trash => s.trash_restore_key is Some,
        PlannedKind::Mkdir | PlannedKind::Noop => false,
    }
}

/// Whether some step of `undo` takes back `s` (see `undoes`), when `s` has anything to
/// take back.
pub open spec fn taken_back_by(s: JournalStep, undo: Seq<StepV>) -> bool {
    has_undo(s) ==> exists|k: int| 0 <= k < undo.len() && undoes(s, #[trigger] undo[k])
}

/// Undo takes back every committed step of the execution it undoes: when the undo
/// journal can be built, each committed rename has a rename back in it, each committed
/// copy a trash step, and each trashed file with a restore record a move back.
pub proof fn lemma_undo_takes_back_every_step(
    steps: Seq<JournalStep>,
    probes: Seq<Result<ParentProbe, String>>,
    j: int,
)
    requires
        0 <= j < steps.len(),
        steps[j].state == StepState::Committed,
        inverse_from(steps, probes, steps.len() as int, MkState { steps: Seq::empty(), made: Seq::empty() }) is Ok,
    ensures
        taken_back_by(
            steps[j],
            inverse_from(steps, probes, steps.len() as int, MkState { steps: Seq::empty(), made: Seq::empty() })->Ok_0.steps,
        ),
{
    lemma_inverse_finds(steps, probes, steps.len() as int, MkState { steps: Seq::empty(), made: Seq::empty() }, j);
}

proof fn lemma_mk_components_grows(st: MkState, cur: Seq<char>, missing: Seq<Seq<char>>, i: int, prev: ParentRefV)
    ensures
        st.steps.len() <= crate::schedule::mk_components(st, cur, missing, i, prev).0.steps.len(),
        crate::schedule::mk_components(st, cur, missing, i, prev).0.steps.take(st.steps.len() as int) == st.steps,
    decreases missing.len() - i,
{
    if i < 0 || i >= missing.len() {
        assert(st.steps.take(st.steps.len() as int) =~= st.steps);
    } else {
        let next = crate::schedule::join_component(cur, missing[i]);
        match crate::schedule::find_made(st.made, next, 0) {
            Some(m) => {
                lemma_mk_components_grows(
                    st,
                    next,
                    missing,
                    i + 1,
                    ParentRefV::Mkdir { step: m, parent_path: next, suffix: Seq::empty() },
                );
            },
            None => {
                let idx = st.steps.len() as int;
                let st2 = MkState {
                    steps: st.steps.push(crate::schedule::mkdir_step_v(prev, missing[i], next)),
                    made: st.made.push((next, idx)),
                };
                lemma_mk_components_grows(
                    st2,
                    next,
                    missing,
                    i + 1,
                    ParentRefV::Mkdir { step: idx, parent_path: next, suffix: Seq::empty() },
                );
                let fin = crate::schedule::mk_components(st2, next, missing, i + 1, ParentRefV::Mkdir { step: idx, parent_path: next, suffix: Seq::empty() }).0;
                assert(fin.steps.take(st.steps.len() as int) =~= fin.steps.take(st2.steps.len() as int).take(st.steps.len() as int));
                assert(st2.steps.take(st.steps.len() as int) =~= st.steps);
            },
        }
    }
}

proof fn lemma_ensure_grows(st: MkState, parent: Result<ParentProbe, String>)
    ensures
        match ensure_spec(st, parent) {
            Ok((st2, _)) => st.steps.len() <= st2.steps.len() && st2.steps.take(st.steps.len() as int) == st.steps,
            Err(_) => true,
        },
{
    match parent {
        Err(_) => {},
        Ok(pp) => {
            let start = ParentRefV::Existing {
                dev: pp.identity.dev@,
                ino: pp.identity.ino@,
                parent_path: pp.existing@,
                suffix: Seq::empty(),
            };
            lemma_mk_components_grows(st, pp.existing@, crate::schedule::strs(pp.missing@), 0, start);
        },
    }
}

proof fn lemma_inverse_grows(steps: Seq<JournalStep>, probes: Seq<Result<ParentProbe, String>>, k: int, st: MkState)
    ensures
        match inverse_from(steps, probes, k, st) {
            Ok(fin) => st.steps.len() <= fin.steps.len() && fin.steps.take(st.steps.len() as int) == st.steps,
            Err(_) => true,
        },
    decreases k,
{
    if k <= 0 || k > steps.len() {
        assert(st.steps.take(st.steps.len() as int) =~= st.steps);
    } else {
        let j = k - 1;
        let s = steps[j];
        let p = s.planned;
        if s.state != StepState::Committed {
            lemma_inverse_grows(steps, probes, j, st);
        } else {
            match p.op {
                PlannedKind::Stage | PlannedKind::Commit => if p.to is None || p.from is None {
                } else {
                    lemma_ensure_grows(st, probes[j]);
                    match ensure_spec(st, probes[j]) {
                        Err(_) => {},
                        Ok((st2, rv)) => {
                            let st3 = MkState {
                                steps: st2.steps.push(
                                    undo_step_v(PlannedKind::Commit, opt_str(p.to), opt_str(p.from), p.id, s.fingerprint_to, Some(rv)),
                                ),
                                made: st2.made,
                            };
                            lemma_inverse_grows(steps, probes, j, st3);
                            assert(st3.steps.take(st.steps.len() as int) =~= st2.steps.take(st.steps.len() as int));
                            lemma_take_chain(inverse_from(steps, probes, j, st3), st3.steps, st.steps);
                        },
                    }
                },
                PlannedKind::Copy => {
                    let st3 = MkState {
                        steps: st.steps.push(undo_step_v(PlannedKind::Trash, opt_str(p.to), None, p.id, s.fingerprint_to, None)),
                        made: st.made,
                    };
                    lemma_inverse_grows(steps, probes, j, st3);
                    assert(st3.steps.take(st.steps.len() as int) =~= st.steps);
                    lemma_take_chain(inverse_from(steps, probes, j, st3), st3.steps, st.steps);
                },
                PlannedKind::Trash => match s.trash_restore_key {
                    None => lemma_inverse_grows(steps, probes, j, st),
                    Some(key) => {
                        lemma_ensure_grows(st, probes[j]);
                        match ensure_spec(st, probes[j]) {
                            Err(_) => {},
                            Ok((st2, rv)) => {
                                let st3 = MkState {
                                    steps: st2.steps.push(
                                        undo_step_v(
                                            PlannedKind::Commit,
                                            Some(key.files_path@),
                                            Some(key.original_path@),
                                            p.id,
                                            s.fingerprint_to,
                                            Some(rv),
                                        ),
                                    ),
                                    made: st2.made,
                                };
                                lemma_inverse_grows(steps, probes, j, st3);
                                assert(st3.steps.take(st.steps.len() as int) =~= st2.steps.take(st.steps.len() as int));
                                lemma_take_chain(inverse_from(steps, probes, j, st3), st3.steps, st.steps);
                            },
                        }
                    },
                },
                PlannedKind::Mkdir | PlannedKind::Noop => lemma_inverse_grows(steps, probes, j, st),
            }
        }
    }
}

/// A prefix of a prefix: when `mid` starts with `low` (or is `low` with one more step
/// after a prefix of it), the result that starts with `mid` starts with `low`.
proof fn lemma_take_chain(r: Result<MkState, Seq<char>>, mid: Seq<StepV>, low: Seq<StepV>)
    requires
        low.len() <= mid.len(),
        mid.take(low.len() as int) == low,
        match r {
            Ok(fin) => mid.len() <= fin.steps.len() && fin.steps.take(mid.len() as int) == mid,
            Err(_) => true,
        },
    ensures
        match r {
            Ok(fin) => low.len() <= fin.steps.len() && fin.steps.take(low.len() as int) == low,
            Err(_) => true,
        },
{
    match r {
        Ok(fin) => {
            assert(fin.steps.take(low.len() as int) =~= fin.steps.take(mid.len() as int).take(low.len() as int));
        },
        Err(_) => {},
    }
}

proof fn lemma_inverse_finds(
    steps: Seq<JournalStep>,
    probes: Seq<Result<ParentProbe, String>>,
    k: int,
    st: MkState,
    j: int,
)
    requires
        0 <= j < k <= steps.len(),
        steps[j].state == StepState::Committed,
        inverse_from(steps, probes, k, st) is Ok,
    ensures
        taken_back_by(steps[j], inverse_from(steps, probes, k, st)->Ok_0.steps),
    decreases k,
{
    let i = k - 1;
    let s = steps[i];
    let p = s.planned;
    let fin = inverse_from(steps, probes, k, st)->Ok_0.steps;
    if s.state != StepState::Committed {
        lemma_inverse_finds(steps, probes, i, st, j);
    } else {
        match p.op {
            PlannedKind::Stage | PlannedKind::Commit => {
                let (st2, rv) = ensure_spec(st, probes[i])->Ok_0;
                let u = undo_step_v(PlannedKind::Commit, opt_str(p.to), opt_str(p.from), p.id, s.fingerprint_to, Some(rv));
                let st3 = MkState { steps: st2.steps.push(u), made: st2.made };
                if i == j {
                    lemma_inverse_grows(steps, probes, i, st3);
                    assert(fin.take(st3.steps.len() as int)[st2.steps.len() as int] == u);
                    assert(undoes(s, fin[st2.steps.len() as int]));
                } else {
                    lemma_inverse_finds(steps, probes, i, st3, j);
                }
            },
            PlannedKind::Copy => {
                let u = undo_step_v(PlannedKind::Trash, opt_str(p.to), None, p.id, s.fingerprint_to, None);
                let st3 = MkState { steps: st.steps.push(u), made: st.made };
                if i == j {
                    lemma_inverse_grows(steps, probes, i, st3);
                    assert(fin.take(st3.steps.len() as int)[st.steps.len() as int] == u);
                    assert(undoes(s, fin[st.steps.len() as int]));
                } else {
                    lemma_inverse_finds(steps, probes, i, st3, j);
                }
            },
            PlannedKind::Trash => match s.trash_restore_key {
                None => if i != j {
                    lemma_inverse_finds(steps, probes, i, st, j);
                },
                Some(key) => {
                    let (st2, rv) = ensure_spec(st, probes[i])->Ok_0;
                    let u = undo_step_v(
                        PlannedKind::Commit,
                        Some(key.files_path@),
                        Some(key.original_path@),
                        p.id,
                        s.fingerprint_to,
                        Some(rv),
                    );
                    let st3 = MkState { steps: st2.steps.push(u), made: st2.made };
                    if i == j {
                        lemma_inverse_grows(steps, probes, i, st3);
                        assert(fin.take(st3.steps.len() as int)[st2.steps.len() as int] == u);
                        assert(undoes(s, fin[st2.steps.len() as int]));
                    } else {
                        lemma_inverse_finds(steps, probes, i, st3, j);
                    }
                },
            },
            PlannedKind::Mkdir | PlannedKind::Noop => if i != j {
                lemma_inverse_finds(steps, probes, i, st, j);
            },
        }
    }
}

/// The error recorded on the first step that has one.
pub open spec fn first_step_error(steps: Seq<JournalStep>) -> Option<Seq<char>>
    decreases steps.len(),
{
    if steps.len() == 0 {
        None
    } else {
        match steps[0].error {
            Some(e) => Some(e@),
            None => first_step_error(steps.drop_first()),
        }
    }
}

/// What a finished execution reports: `executed <id>`, or why it stopped.
pub open spec fn execution_report_of(j: Journal) -> Result<Seq<char>, Seq<char>> {
    if j.final_status == Some(JournalFinalStatus::Executed) {
        Ok("executed "@ + j.journal_id@)
    } else {
        Err("execution interrupted: "@ + match first_step_error(j.steps@) {
            Some(e) => e,
            None => "unknown failure"@,
        })
    }
}

/// See `execution_report_of`.
pub fn execution_report(journal: &Journal) -> (r: Result<String, String>)
    ensures
        match (r, execution_report_of(*journal)) {
            (Ok(a), Ok(b)) => a@ == b,
            (Err(a), Err(b)) => a@ == b,
            _ => false,
        },
{
    if journal.final_status == Some(JournalFinalStatus::Executed) {
        let mut out = String::new();
        push_str(&mut out, "executed ");
        push_str(&mut out, journal.journal_id.as_str());
        return Ok(out);
    }
    let mut out = String::new();
    push_str(&mut out, "execution interrupted: ");
    let mut i: usize = 0;
    assert(journal.steps@.skip(0) =~= journal.steps@);
    while i < journal.steps.len()
        invariant
            i <= journal.steps.len(),
            out@ == "execution interrupted: "@,
            journal.final_status != Some(JournalFinalStatus::Executed),
            first_step_error(journal.steps@) == first_step_error(journal.steps@.skip(i as int)),
        decreases journal.steps.len() - i,
    {
        proof {
            assert(journal.steps@.skip(i as int).drop_first() =~= journal.steps@.skip(i + 1));
        }
        if let Some(e) = &journal.steps[i].error {
            assert(journal.steps@.skip(i as int)[0] == journal.steps@[i as int]);
            assert(first_step_error(journal.steps@.skip(i as int)) == Some(e@));
            push_str(&mut out, e.as_str());
            return Err(out);
        }
        i += 1;
    }
    push_str(&mut out, "unknown failure");
    Err(out)
}

/// What a finished undo reports: `undone <id>`, or that it stopped.
pub open spec fn undo_report_of(j: Journal) -> Result<Seq<char>, Seq<char>> {
    if j.final_status == Some(JournalFinalStatus::Undone) {
        Ok("undone "@ + j.journal_id@)
    } else {
        Err("undo interrupted "@ + j.journal_id@)
    }
}

/// See `undo_report_of`.
pub fn undo_report(journal: &Journal) -> (r: Result<String, String>)
    ensures
        match (r, undo_report_of(*journal)) {
            (Ok(a), Ok(b)) => a@ == b,
            (Err(a), Err(b)) => a@ == b,
            _ => false,
        },
{
    let mut out = String::new();
    if journal.final_status == Some(JournalFinalStatus::Undone) {
        push_str(&mut out, "undone ");
        push_str(&mut out, journal.journal_id.as_str());
        Ok(out)
    } else {
        push_str(&mut out, "undo interrupted ");
        push_str(&mut out, journal.journal_id.as_str());
        Err(out)
    }
}

/// Asking for copies on a session stored as a move session: on a terminal the session
/// becomes a copy session (a new revision, `Ok(true)`); elsewhere it is refused. Nothing
/// changes when copies are not asked for or the session already copies (`Ok(false)`).
pub fn switch_to_copy(session: &mut SessionRecord, copy: bool, is_tty: bool) -> (r: Result<bool, String>)
    requires
        copy && old(session).mode != SessionMode::Copy && is_tty ==> old(session).revision < u64::MAX,
    ensures
        !copy || old(session).mode == SessionMode::Copy ==> r == Ok::<bool, String>(false) && *final(session) == *old(session),
        copy && old(session).mode != SessionMode::Copy && !is_tty ==> (r matches Err(e) && e@
            == "--copy does not match stored session mode"@) && *final(session) == *old(session),
        copy && old(session).mode != SessionMode::Copy && is_tty ==> r == Ok::<bool, String>(true)
            && *final(session) == (SessionRecord {
                mode: SessionMode::Copy,
                revision: (old(session).revision + 1) as u64,
                ..*old(session)
            }),
{
    if !copy || session.mode == SessionMode::Copy {
        return Ok(false);
    }
    if !is_tty {
        let mut e = String::new();
        push_str(&mut e, "--copy does not match stored session mode");
        return Err(e);
    }
    session.mode = SessionMode::Copy;
    session.revision = session.revision + 1;
    Ok(true)
}

} // verus!
