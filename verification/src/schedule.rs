//! Turning classified operations into the ordered steps of a journal: trash first,
//! then copies, or renames ordered so that nothing is overwritten, each preceded by
//! the directories it needs.

use crate::hashing::{hex_of, random_hex};
use crate::model::{
    DestParentRef, DirectoryIdentity, FingerprintView, ManifestEntry, OpKind, Operation,
    PlannedKind, PlannedStep, SessionMode, SourceFingerprint,
};
use crate::ordering::{
    action_index, apply_action, flow_after, greedy_order, lemma_greedy_step, lemma_greedy_unique,
    order_moves, MoveAction, MoveRequest,
};
use crate::paths::{path_eq, path_eq_of, path_parent, path_parent_of};
use crate::text::{decimal, push_decimal, push_str, starts_with, str_eq};
use vstd::prelude::*;

verus! {

/// What the filesystem showed of the directories above one path: the nearest existing
/// ancestor directory, its identity, the names of the missing directories below it
/// (outermost first), and the path's own last component.
pub struct ParentProbe {
    pub existing: String,
    pub identity: DirectoryIdentity,
    pub missing: Vec<String>,
    pub leaf: String,
}

/// What the filesystem showed of one destination path before scheduling: whether
/// something is there, and its parent directories or the error met finding them.
pub struct PathProbe {
    pub path: String,
    pub exists: bool,
    pub parent: Result<ParentProbe, String>,
}

pub struct ScheduleResult {
    pub steps: Vec<PlannedStep>,
    pub outside_root: Vec<String>,
    pub trash_ids: Vec<u64>,
    pub errors: Vec<String>,
}

impl Default for ScheduleResult {
    /// An empty schedule: no steps, nothing outside the root, no trash, no errors.
    fn default() -> (r: ScheduleResult)
        ensures
            r.steps@.len() == 0,
            r.outside_root@.len() == 0,
            r.trash_ids@.len() == 0,
            r.errors@.len() == 0,
    {
        ScheduleResult { steps: Vec::new(), outside_root: Vec::new(), trash_ids: Vec::new(), errors: Vec::new() }
    }
}

/// Where a step's destination directory comes from: an existing directory, or the
/// mkdir step at index `step`.
pub enum ParentRefV {
    Existing { dev: Seq<char>, ino: Seq<char>, parent_path: Seq<char>, suffix: Seq<Seq<char>> },
    Mkdir { step: int, parent_path: Seq<char>, suffix: Seq<Seq<char>> },
}

/// A planned step apart from its random id.
pub struct StepV {
    pub op: PlannedKind,
    pub from: Option<Seq<char>>,
    pub to: Option<Seq<char>>,
    pub id: Option<u64>,
    pub fingerprint: Option<FingerprintView>,
    pub parent: Option<ParentRefV>,
    pub mkdir_path: Option<Seq<char>>,
}

pub struct ScheduleV {
    pub steps: Seq<StepV>,
    pub outside_root: Seq<Seq<char>>,
    pub trash_ids: Seq<u64>,
    pub errors: Seq<Seq<char>>,
}

pub open spec fn strs(v: Seq<String>) -> Seq<Seq<char>> {
    v.map_values(|s: String| s@)
}

pub open spec fn opt_str(o: Option<String>) -> Option<Seq<char>> {
    match o {
        Some(s) => Some(s@),
        None => None,
    }
}

pub open spec fn opt_fp(o: Option<SourceFingerprint>) -> Option<FingerprintView> {
    match o {
        Some(f) => Some(f@),
        None => None,
    }
}

/// A step id: twelve lowercase hexadecimal digits of six random bytes, followed by
/// `-u` in the steps of an undo.
pub open spec fn is_step_id(s: Seq<char>) -> bool {
    exists|b: Seq<u8>| b.len() == 6 && (s == hex_of(b) || s == hex_of(b) + "-u"@)
}

pub open spec fn ref_matches(steps: Seq<PlannedStep>, r: DestParentRef, v: ParentRefV) -> bool {
    match (r, v) {
        (
            DestParentRef::Existing { identity, parent_path, suffix },
            ParentRefV::Existing { dev, ino, parent_path: p, suffix: sx },
        ) => identity.dev@ == dev && identity.ino@ == ino && parent_path@ == p && strs(suffix@) == sx,
        (
            DestParentRef::MkdirStep { step_id, parent_path, suffix },
            ParentRefV::Mkdir { step, parent_path: p, suffix: sx },
        ) => 0 <= step < steps.len() && step_id@ == steps[step].step_id@ && parent_path@ == p
            && strs(suffix@) == sx,
        _ => false,
    }
}

pub open spec fn step_matches(steps: Seq<PlannedStep>, s: PlannedStep, v: StepV) -> bool {
    &&& is_step_id(s.step_id@)
    &&& s.op == v.op
    &&& opt_str(s.from) == v.from
    &&& opt_str(s.to) == v.to
    &&& s.id == v.id
    &&& opt_fp(s.fingerprint_from) == v.fingerprint
    &&& opt_str(s.mkdir_path) == v.mkdir_path
    &&& match (s.dest_parent_ref, v.parent) {
        (Some(r), Some(rv)) => ref_matches(steps, r, rv),
        (None, None) => true,
        _ => false,
    }
}

/// The planned steps are, one by one, the abstract steps `vs`.
pub open spec fn steps_match(steps: Seq<PlannedStep>, vs: Seq<StepV>) -> bool {
    &&& steps.len() == vs.len()
    &&& forall|i: int| 0 <= i < steps.len() ==> step_matches(steps, #[trigger] steps[i], vs[i])
}

pub open spec fn result_matches(r: ScheduleResult, v: ScheduleV) -> bool {
    &&& steps_match(r.steps@, v.steps)
    &&& strs(r.outside_root@) == v.outside_root
    &&& r.trash_ids@ == v.trash_ids
    &&& strs(r.errors@) == v.errors
}

pub proof fn lemma_ref_grow(steps: Seq<PlannedStep>, s: PlannedStep, r: DestParentRef, v: ParentRefV)
    requires
        ref_matches(steps, r, v),
    ensures
        ref_matches(steps.push(s), r, v),
{
    if let ParentRefV::Mkdir { step, .. } = v {
        assert(steps.push(s)[step] == steps[step]);
    }
}

pub proof fn lemma_steps_push(steps: Seq<PlannedStep>, vs: Seq<StepV>, s: PlannedStep, v: StepV)
    requires
        steps_match(steps, vs),
        step_matches(steps.push(s), s, v),
    ensures
        steps_match(steps.push(s), vs.push(v)),
{
    assert forall|i: int| 0 <= i < steps.len() + 1 implies step_matches(
        steps.push(s),
        #[trigger] steps.push(s)[i],
        vs.push(v)[i],
    ) by {
        if i < steps.len() {
            assert(step_matches(steps, steps[i], vs[i]));
            if let (Some(r), Some(rv)) = (steps[i].dest_parent_ref, vs[i].parent) {
                lemma_ref_grow(steps, s, r, rv);
            }
        }
    }
}

pub open spec fn with_suffix_v(r: ParentRefV, sx: Seq<Seq<char>>) -> ParentRefV {
    match r {
        ParentRefV::Existing { dev, ino, parent_path, .. } => ParentRefV::Existing {
            dev,
            ino,
            parent_path,
            suffix: sx,
        },
        ParentRefV::Mkdir { step, parent_path, .. } => ParentRefV::Mkdir {
            step,
            parent_path,
            suffix: sx,
        },
    }
}

/// `PathBuf::push` of one plain component: a separator is added unless the base
/// already ends with one.
pub open spec fn join_component(base: Seq<char>, c: Seq<char>) -> Seq<char> {
    if base.len() > 0 && base.last() == '/' {
        base + c
    } else {
        base.push('/') + c
    }
}

/// `base` joined with the plain component `c`.
pub fn join_path(base: &str, c: &str) -> (r: String)
    ensures
        r@ == join_component(base@, c@),
{
    let mut out = String::new();
    push_str(&mut out, base);
    let cs = crate::text::chars_of(base);
    if !(cs.len() > 0 && cs[cs.len() - 1] == '/') {
        push_str(&mut out, "/");
        proof {
            reveal_strlit("/");
        }
    }
    push_str(&mut out, c);
    proof {
        if !(base@.len() > 0 && base@.last() == '/') {
            assert(out@ =~= base@.push('/') + c@);
        } else {
            assert(out@ =~= base@ + c@);
        }
    }
    out
}

/// A planned step with a fresh random id.
fn step(
    op: PlannedKind,
    from: Option<String>,
    to: Option<String>,
    id: Option<u64>,
    fingerprint_from: Option<SourceFingerprint>,
    dest_parent_ref: Option<DestParentRef>,
    mkdir_path: Option<String>,
) -> (s: PlannedStep)
    ensures
        is_step_id(s.step_id@),
        s.op == op,
        s.from == from,
        s.to == to,
        s.id == id,
        s.fingerprint_from == fingerprint_from,
        s.dest_parent_ref == dest_parent_ref,
        s.mkdir_path == mkdir_path,
{
    PlannedStep {
        step_id: random_hex(6),
        op,
        from,
        to,
        id,
        fingerprint_from,
        dest_parent_ref,
        mkdir_path,
    }
}

/// The same reference with `suffix` in place of its suffix.
fn with_suffix(reference: DestParentRef, suffix: Vec<String>) -> (r: DestParentRef)
    ensures
        match (reference, r) {
            (
                DestParentRef::Existing { identity: i0, parent_path: p0, .. },
                DestParentRef::Existing { identity: i1, parent_path: p1, suffix: s1 },
            ) => i1 == i0 && p1 == p0 && s1 == suffix,
            (
                DestParentRef::MkdirStep { step_id: i0, parent_path: p0, .. },
                DestParentRef::MkdirStep { step_id: i1, parent_path: p1, suffix: s1 },
            ) => i1 == i0 && p1 == p0 && s1 == suffix,
            _ => false,
        },
{
    match reference {
        DestParentRef::Existing { identity, parent_path, .. } => DestParentRef::Existing {
            identity,
            parent_path,
            suffix,
        },
        DestParentRef::MkdirStep { step_id, parent_path, .. } => DestParentRef::MkdirStep {
            step_id,
            parent_path,
            suffix,
        },
    }
}

/// Directories already planned: each path with the index of its mkdir step.
pub open spec fn made_view(made: Seq<(String, usize)>) -> Seq<(Seq<char>, int)> {
    made.map_values(|e: (String, usize)| (e.0@, e.1 as int))
}

/// The first planned directory equal (as a path) to `p`, from index `t` on.
pub open spec fn find_made(made: Seq<(Seq<char>, int)>, p: Seq<char>, t: int) -> Option<int>
    decreases made.len() - t,
{
    if t < 0 || t >= made.len() {
        None
    } else if path_eq_of(made[t].0, p) {
        Some(made[t].1)
    } else {
        find_made(made, p, t + 1)
    }
}

pub struct MkState {
    pub steps: Seq<StepV>,
    pub made: Seq<(Seq<char>, int)>,
}

pub open spec fn mkdir_step_v(prev: ParentRefV, c: Seq<char>, path: Seq<char>) -> StepV {
    StepV {
        op: PlannedKind::Mkdir,
        from: None,
        to: None,
        id: None,
        fingerprint: None,
        parent: Some(with_suffix_v(prev, seq![c])),
        mkdir_path: Some(path),
    }
}

/// Walks the missing directories below `cur` from index `i`: each one already planned is
/// reused, each other gets a mkdir step. Returns the state and the reference to the
/// deepest directory.
pub open spec fn mk_components(
    st: MkState,
    cur: Seq<char>,
    missing: Seq<Seq<char>>,
    i: int,
    prev: ParentRefV,
) -> (MkState, ParentRefV)
    decreases missing.len() - i,
{
    if i < 0 || i >= missing.len() {
        (st, prev)
    } else {
        let next = join_component(cur, missing[i]);
        match find_made(st.made, next, 0) {
            Some(m) => mk_components(
                st,
                next,
                missing,
                i + 1,
                ParentRefV::Mkdir { step: m, parent_path: next, suffix: Seq::empty() },
            ),
            None => {
                let idx = st.steps.len() as int;
                let st2 = MkState {
                    steps: st.steps.push(mkdir_step_v(prev, missing[i], next)),
                    made: st.made.push((next, idx)),
                };
                mk_components(
                    st2,
                    next,
                    missing,
                    i + 1,
                    ParentRefV::Mkdir { step: idx, parent_path: next, suffix: Seq::empty() },
                )
            },
        }
    }
}

/// The directories a destination needs and the reference to its parent: an error met
/// probing, or the state after planning the missing directories and the reference
/// with the destination's own name as suffix.
pub open spec fn ensure_spec(st: MkState, parent: Result<ParentProbe, String>) -> Result<
    (MkState, ParentRefV),
    Seq<char>,
> {
    match parent {
        Err(e) => Err(e@),
        Ok(pp) => {
            let start = ParentRefV::Existing {
                dev: pp.identity.dev@,
                ino: pp.identity.ino@,
                parent_path: pp.existing@,
                suffix: Seq::empty(),
            };
            let (st2, prev) = mk_components(st, pp.existing@, strs(pp.missing@), 0, start);
            Ok((st2, with_suffix_v(prev, seq![pp.leaf@])))
        },
    }
}

/// Every planned directory points at an earlier step.
pub open spec fn made_ok(made: Seq<(String, usize)>, n: int) -> bool {
    forall|t: int| 0 <= t < made.len() ==> (#[trigger] made[t]).1 < n
}

/// The first planned directory equal to `p`.
fn lookup_made(made: &Vec<(String, usize)>, p: &str) -> (r: Option<usize>)
    ensures
        match (r, find_made(made_view(made@), p@, 0)) {
            (Some(t), Some(m)) => t < made.len() && made@[t as int].1 as int == m,
            (None, None) => true,
            _ => false,
        },
{
    let ghost mv = made_view(made@);
    let mut t: usize = 0;
    while t < made.len()
        invariant
            t <= made.len(),
            mv == made_view(made@),
            find_made(mv, p@, 0) == find_made(mv, p@, t as int),
        decreases made.len() - t,
    {
        if path_eq(made[t].0.as_str(), p) {
            return Some(t);
        }
        proof {
            assert(find_made(mv, p@, t as int) == find_made(mv, p@, t + 1));
        }
        t += 1;
    }
    None
}

pub fn copy_strings(v: &Vec<String>) -> (r: Vec<String>)
    ensures
        strs(r@) == strs(v@),
{
    let mut r: Vec<String> = Vec::new();
    let mut i: usize = 0;
    while i < v.len()
        invariant
            i <= v.len(),
            r.len() == i,
            strs(r@) == strs(v@.take(i as int)),
        decreases v.len() - i,
    {
        let ghost before = r@;
        r.push(v[i].clone());
        proof {
            assert(r@[i as int]@ == v@[i as int]@);
            assert forall|t: int| 0 <= t < i implies r@[t]@ == v@.take(i as int)[t]@ by {
                assert(r@[t] == before[t]);
                assert(strs(before)[t] == strs(v@.take(i as int))[t]);
            }
            assert(strs(r@) =~= strs(v@.take(i + 1)));
        }
        i += 1;
    }
    assert(v@.take(i as int) =~= v@);
    r
}

/// Plans the directories a destination needs (see `ensure_spec`), appending mkdir steps
/// and recording the planned directories.
fn ensure_mkdirs(
    steps: &mut Vec<PlannedStep>,
    made: &mut Vec<(String, usize)>,
    parent: &Result<ParentProbe, String>,
    Ghost(vs): Ghost<Seq<StepV>>,
) -> (r: Result<DestParentRef, String>)
    requires
        steps_match(old(steps)@, vs),
        made_ok(old(made)@, old(steps)@.len() as int),
    ensures
        match (r, ensure_spec(MkState { steps: vs, made: made_view(old(made)@) }, *parent)) {
            (Ok(rr), Ok((st2, rv))) => {
                &&& steps_match(final(steps)@, st2.steps)
                &&& made_view(final(made)@) == st2.made
                &&& made_ok(final(made)@, final(steps)@.len() as int)
                &&& ref_matches(final(steps)@, rr, rv)
            },
            (Err(e), Err(m)) => e@ == m,
            _ => false,
        },
{
    match parent {
        Err(e) => Err(e.clone()),
        Ok(pp) => {
            let ghost miss = strs(pp.missing@);
            let ghost start = ParentRefV::Existing {
                dev: pp.identity.dev@,
                ino: pp.identity.ino@,
                parent_path: pp.existing@,
                suffix: Seq::empty(),
            };
            let ghost st0 = MkState { steps: vs, made: made_view(made@) };
            let mut previous = DestParentRef::Existing {
                identity: pp.identity.duplicate(),
                parent_path: pp.existing.clone(),
                suffix: Vec::new(),
            };
            let ghost mut prev_v = start;
            let ghost mut st = st0;
            let mut current = pp.existing.clone();
            proof {
                assert(strs(Seq::<String>::empty()) =~= Seq::<Seq<char>>::empty());
            }
            let mut i: usize = 0;
            while i < pp.missing.len()
                invariant
                    i <= pp.missing.len(),
                    miss == strs(pp.missing@),
                    mk_components(st0, pp.existing@, miss, 0, start) == mk_components(
                        st,
                        current@,
                        miss,
                        i as int,
                        prev_v,
                    ),
                    steps_match(steps@, st.steps),
                    made_view(made@) == st.made,
                    made_ok(made@, steps@.len() as int),
                    ref_matches(steps@, previous, prev_v),
                decreases pp.missing.len() - i,
            {
                let component = &pp.missing[i];
                let next = join_path(current.as_str(), component.as_str());
                assert(component@ == miss[i as int]);
                match lookup_made(made, next.as_str()) {
                    Some(t) => {
                        let idx = made[t].1;
                        proof {
                            assert(made_view(made@)[t as int] == (made@[t as int].0@, idx as int));
                        }
                        previous = DestParentRef::MkdirStep {
                            step_id: steps[idx].step_id.clone(),
                            parent_path: next.clone(),
                            suffix: Vec::new(),
                        };
                        proof {
                            prev_v = ParentRefV::Mkdir { step: idx as int, parent_path: next@, suffix: Seq::empty() };
                            assert(strs(Seq::<String>::empty()) =~= Seq::<Seq<char>>::empty());
                        }
                    },
                    None => {
                        let mut sfx: Vec<String> = Vec::new();
                        sfx.push(component.clone());
                        let prev_taken = with_suffix(previous, sfx);
                        let planned = step(
                            PlannedKind::Mkdir,
                            None,
                            None,
                            None,
                            None,
                            Some(prev_taken),
                            Some(next.clone()),
                        );
                        let sid = planned.step_id.clone();
                        let idx = steps.len();
                        let ghost v = mkdir_step_v(prev_v, miss[i as int], next@);
                        proof {
                            assert(strs(sfx@) =~= seq![miss[i as int]]);
                            lemma_ref_grow(steps@, planned, prev_taken, with_suffix_v(prev_v, seq![miss[i as int]]));
                            assert(step_matches(steps@.push(planned), planned, v));
                            lemma_steps_push(steps@, st.steps, planned, v);
                        }
                        steps.push(planned);
                        made.push((next.clone(), idx));
                        previous = DestParentRef::MkdirStep {
                            step_id: sid,
                            parent_path: next.clone(),
                            suffix: Vec::new(),
                        };
                        proof {
                            st = MkState {
                                steps: st.steps.push(v),
                                made: st.made.push((next@, idx as int)),
                            };
                            assert(made_view(made@) =~= st.made);
                            prev_v = ParentRefV::Mkdir { step: idx as int, parent_path: next@, suffix: Seq::empty() };
                            assert(strs(Seq::<String>::empty()) =~= Seq::<Seq<char>>::empty());
                            assert(steps@[idx as int] == planned);
                        }
                    },
                }
                current = next;
                i += 1;
            }
            let mut sfx: Vec<String> = Vec::new();
            sfx.push(pp.leaf.clone());
            proof {
                assert(strs(sfx@) =~= seq![pp.leaf@]);
            }
            Ok(with_suffix(previous, sfx))
        },
    }
}


/// What the filesystem showed for one operation: its destination, and, for a rename,
/// the waiting path drawn for it (`stage.path`).
pub struct OpProbe {
    pub dest: PathProbe,
    pub stage: PathProbe,
}

/// Index of the last manifest entry with `id`.
pub open spec fn manifest_index(m: Seq<ManifestEntry>, id: u64) -> Option<int>
    decreases m.len(),
{
    if m.len() == 0 {
        None
    } else if m.last().id == id {
        Some(m.len() - 1)
    } else {
        manifest_index(m.drop_last(), id)
    }
}

/// Fingerprint of the last manifest entry with `id`.
pub open spec fn manifest_fp(m: Seq<ManifestEntry>, id: u64) -> Option<FingerprintView> {
    match manifest_index(m, id) {
        Some(i) => Some(m[i].fingerprint@),
        None => None,
    }
}

pub open spec fn needs_manifest(k: OpKind) -> bool {
    k != OpKind::Noop && k != OpKind::Skip
}

pub open spec fn has_dest(k: OpKind) -> bool {
    k == OpKind::Move || k == OpKind::Copy
}

/// The first operation, from `i` on, that needs a manifest entry and has none.
pub open spec fn first_missing(ops: Seq<Operation>, m: Seq<ManifestEntry>, i: int) -> Option<u64>
    decreases ops.len() - i,
{
    if i < 0 || i >= ops.len() {
        None
    } else if needs_manifest(ops[i].kind) && manifest_index(m, ops[i].id) is None {
        Some(ops[i].id)
    } else {
        first_missing(ops, m, i + 1)
    }
}

/// A destination outside the root: neither the root nor below it.
pub open spec fn spec_outside_root(root: Seq<char>, dest: Seq<char>) -> bool {
    dest != root && !starts_with(dest, root.push('/'))
}

/// Destinations outside the root, once each, in the order they first appear.
pub open spec fn outside_list(root: Seq<char>, ops: Seq<Operation>) -> Seq<Seq<char>>
    decreases ops.len(),
{
    if ops.len() == 0 {
        Seq::empty()
    } else {
        let prev = outside_list(root, ops.drop_last());
        let o = ops.last();
        if has_dest(o.kind) && spec_outside_root(root, o.to@) && !prev.contains(o.to@) {
            prev.push(o.to@)
        } else {
            prev
        }
    }
}

/// How many copy or move operations go to `d`.
pub open spec fn dest_count(ops: Seq<Operation>, d: Seq<char>) -> nat
    decreases ops.len(),
{
    if ops.len() == 0 {
        0
    } else {
        dest_count(ops.drop_last(), d) + if has_dest(ops.last().kind) && ops.last().to@ == d {
            1nat
        } else {
            0nat
        }
    }
}

/// Destinations of more than one copy or move among `all`, once each, in the order
/// they first appear in `ops` (a prefix of `all`).
pub open spec fn duplicate_list(all: Seq<Operation>, ops: Seq<Operation>) -> Seq<Seq<char>>
    decreases ops.len(),
{
    if ops.len() == 0 {
        Seq::empty()
    } else {
        let prev = duplicate_list(all, ops.drop_last());
        let o = ops.last();
        if has_dest(o.kind) && dest_count(all, o.to@) > 1 && !prev.contains(o.to@) {
            prev.push(o.to@)
        } else {
            prev
        }
    }
}

pub open spec fn duplicate_msg(d: Seq<char>) -> Seq<char> {
    "duplicate dest "@ + d
}

pub open spec fn missing_msg(id: u64) -> Seq<char> {
    "missing manifest "@ + decimal(id as nat)
}

pub open spec fn copy_exists_msg(id: u64, to: Seq<char>) -> Seq<char> {
    "copy dest exists {"@ + decimal(id as nat) + "} "@ + to
}

pub open spec fn dest_exists_msg(id: u64, to: Seq<char>) -> Seq<char> {
    "dest exists {"@ + decimal(id as nat) + "} "@ + to
}

pub open spec fn collision_msg(temp: Seq<char>) -> Seq<char> {
    "staging collision: "@ + temp
}

pub open spec fn cycle_msg(id: u64) -> Seq<char> {
    "unresolvable destination cycle involving {"@ + decimal(id as nat) + "}"@
}

/// Trash steps and trash ids for the trash operations among `ops`, in order.
pub open spec fn trash_steps(ops: Seq<Operation>, m: Seq<ManifestEntry>) -> Seq<StepV>
    decreases ops.len(),
{
    if ops.len() == 0 {
        Seq::empty()
    } else if ops.last().kind == OpKind::Trash {
        trash_steps(ops.drop_last(), m).push(
            StepV {
                op: PlannedKind::Trash,
                from: Some(ops.last().from@),
                to: None,
                id: Some(ops.last().id),
                fingerprint: manifest_fp(m, ops.last().id),
                parent: None,
                mkdir_path: None,
            },
        )
    } else {
        trash_steps(ops.drop_last(), m)
    }
}

pub open spec fn trash_ids(ops: Seq<Operation>) -> Seq<u64>
    decreases ops.len(),
{
    if ops.len() == 0 {
        Seq::empty()
    } else if ops.last().kind == OpKind::Trash {
        trash_ids(ops.drop_last()).push(ops.last().id)
    } else {
        trash_ids(ops.drop_last())
    }
}

/// A step that moves or copies a manifest source.
pub open spec fn transfer_step_v(
    op: PlannedKind,
    from: Seq<char>,
    to: Seq<char>,
    id: u64,
    m: Seq<ManifestEntry>,
    parent: ParentRefV,
) -> StepV {
    StepV {
        op,
        from: Some(from),
        to: Some(to),
        id: Some(id),
        fingerprint: manifest_fp(m, id),
        parent: Some(parent),
        mkdir_path: None,
    }
}

/// Copy mode, from operation `i` on: a copy whose destination exists is reported and
/// left out; every other copy gets its directories and a copy step. An error met
/// probing stops everything.
pub open spec fn copy_fold(
    ops: Seq<Operation>,
    m: Seq<ManifestEntry>,
    probes: Seq<OpProbe>,
    i: int,
    st: MkState,
    errs: Seq<Seq<char>>,
) -> Result<(MkState, Seq<Seq<char>>), Seq<char>>
    decreases ops.len() - i,
{
    if i < 0 || i >= ops.len() {
        Ok((st, errs))
    } else if ops[i].kind != OpKind::Copy {
        copy_fold(ops, m, probes, i + 1, st, errs)
    } else if probes[i].dest.exists {
        copy_fold(ops, m, probes, i + 1, st, errs.push(copy_exists_msg(ops[i].id, ops[i].to@)))
    } else {
        match ensure_spec(st, probes[i].dest.parent) {
            Err(e) => Err(e),
            Ok((st2, rv)) => copy_fold(
                ops,
                m,
                probes,
                i + 1,
                MkState {
                    steps: st2.steps.push(
                        transfer_step_v(PlannedKind::Copy, ops[i].from@, ops[i].to@, ops[i].id, m, rv),
                    ),
                    made: st2.made,
                },
                errs,
            ),
        }
    }
}

/// Whether some operation of kind `k` has source `p`.
pub open spec fn has_source(ops: Seq<Operation>, k: OpKind, p: Seq<char>) -> bool {
    exists|j: int| 0 <= j < ops.len() && ops[j].kind == k && #[trigger] ops[j].from@ == p
}

/// Renames whose destination exists and is not the source of a rename or a trash.
pub open spec fn dest_exists_errors(all: Seq<Operation>, probes: Seq<OpProbe>, n: int) -> Seq<Seq<char>>
    decreases n,
{
    if n <= 0 || n > all.len() {
        Seq::empty()
    } else {
        let prev = dest_exists_errors(all, probes, n - 1);
        let o = all[n - 1];
        if o.kind == OpKind::Move && probes[n - 1].dest.exists && !has_source(all, OpKind::Move, o.to@)
            && !has_source(all, OpKind::Trash, o.to@) {
            prev.push(dest_exists_msg(o.id, o.to@))
        } else {
            prev
        }
    }
}

/// Indices of the rename operations among the first `n`.
pub open spec fn move_indices(ops: Seq<Operation>, n: int) -> Seq<int>
    decreases n,
{
    if n <= 0 || n > ops.len() {
        Seq::empty()
    } else if ops[n - 1].kind == OpKind::Move {
        move_indices(ops, n - 1).push(n - 1)
    } else {
        move_indices(ops, n - 1)
    }
}

/// The renames to order, with the waiting paths drawn for them.
pub open spec fn move_requests(ops: Seq<Operation>, probes: Seq<OpProbe>) -> Seq<MoveRequest> {
    move_indices(ops, ops.len() as int).map_values(
        |j: int| MoveRequest { id: ops[j].id, from: ops[j].from, to: ops[j].to, temp: probes[j].stage.path },
    )
}

/// The greedy order of the renames (see `greedy_order`; there is exactly one).
pub open spec fn greedy_of(reqs: Seq<MoveRequest>) -> (Seq<MoveAction>, Option<u64>) {
    choose|p: (Seq<MoveAction>, Option<u64>)| greedy_order(reqs, p.0, p.1)
}

/// Renames, from action `t` of the greedy order on: a stage needs its waiting path to be
/// absent; each step gets its directories first. An error stops everything.
pub open spec fn move_fold(
    ops: Seq<Operation>,
    m: Seq<ManifestEntry>,
    probes: Seq<OpProbe>,
    acts: Seq<MoveAction>,
    t: int,
    st: MkState,
) -> Result<MkState, Seq<char>>
    decreases acts.len() - t,
{
    if t < 0 || t >= acts.len() {
        Ok(st)
    } else {
        let reqs = move_requests(ops, probes);
        let j = move_indices(ops, ops.len() as int);
        let loc = flow_after(reqs, acts.take(t)).locs;
        match acts[t] {
            MoveAction::Stage(k) => {
                let i = j[k as int];
                if probes[i].stage.exists {
                    Err(collision_msg(probes[i].stage.path@))
                } else {
                    match ensure_spec(st, probes[i].stage.parent) {
                        Err(e) => Err(e),
                        Ok((st2, rv)) => move_fold(
                            ops,
                            m,
                            probes,
                            acts,
                            t + 1,
                            MkState {
                                steps: st2.steps.push(
                                    transfer_step_v(
                                        PlannedKind::Stage,
                                        loc[k as int],
                                        probes[i].stage.path@,
                                        ops[i].id,
                                        m,
                                        rv,
                                    ),
                                ),
                                made: st2.made,
                            },
                        ),
                    }
                }
            },
            MoveAction::Commit(k) => {
                let i = j[k as int];
                match ensure_spec(st, probes[i].dest.parent) {
                    Err(e) => Err(e),
                    Ok((st2, rv)) => move_fold(
                        ops,
                        m,
                        probes,
                        acts,
                        t + 1,
                        MkState {
                            steps: st2.steps.push(
                                transfer_step_v(PlannedKind::Commit, loc[k as int], ops[i].to@, ops[i].id, m, rv),
                            ),
                            made: st2.made,
                        },
                    ),
                }
            },
        }
    }
}

pub open spec fn error_only(e: Seq<char>) -> ScheduleV {
    ScheduleV { steps: Seq::empty(), outside_root: Seq::empty(), trash_ids: Seq::empty(), errors: seq![e] }
}

/// The whole schedule (see `schedule`).
pub open spec fn spec_schedule(
    mode: SessionMode,
    root: Seq<char>,
    m: Seq<ManifestEntry>,
    ops: Seq<Operation>,
    probes: Seq<OpProbe>,
) -> ScheduleV {
    match first_missing(ops, m, 0) {
        Some(id) => error_only(missing_msg(id)),
        None => {
            let outside = outside_list(root, ops);
            let dups = duplicate_list(ops, ops).map_values(|d: Seq<char>| duplicate_msg(d));
            let tsteps = trash_steps(ops, m);
            let tids = trash_ids(ops);
            let st0 = MkState { steps: tsteps, made: Seq::empty() };
            match mode {
                SessionMode::Copy => match copy_fold(ops, m, probes, 0, st0, dups) {
                    Err(e) => error_only(e),
                    Ok((st, errs)) => ScheduleV { steps: st.steps, outside_root: outside, trash_ids: tids, errors: errs },
                },
                SessionMode::Move => {
                    let errs = dups + dest_exists_errors(ops, probes, ops.len() as int);
                    if errs.len() > 0 {
                        ScheduleV { steps: tsteps, outside_root: outside, trash_ids: tids, errors: errs }
                    } else {
                        let (acts, stuck) = greedy_of(move_requests(ops, probes));
                        match move_fold(ops, m, probes, acts, 0, st0) {
                            Err(e) => error_only(e),
                            Ok(st) => ScheduleV {
                                steps: st.steps,
                                outside_root: outside,
                                trash_ids: tids,
                                errors: match stuck {
                                    Some(id) => seq![cycle_msg(id)],
                                    None => Seq::empty(),
                                },
                            },
                        }
                    }
                },
            }
        },
    }
}


/// Manifest ids, each to the index of its last entry.
fn build_index(manifest: &[ManifestEntry]) -> (index: std::collections::HashMap<u64, usize>)
    ensures
        forall|id: u64|
            #![trigger manifest_index(manifest@, id)]
            match manifest_index(manifest@, id) {
                Some(i) => index@.contains_key(id) && index@[id] as int == i,
                None => !index@.contains_key(id),
            },
{
    broadcast use vstd::std_specs::hash::group_hash_axioms;

    let mut index: std::collections::HashMap<u64, usize> = std::collections::HashMap::new();
    let mut j: usize = 0;
    while j < manifest.len()
        invariant
            j <= manifest.len(),
            forall|id: u64|
                #![trigger manifest_index(manifest@.take(j as int), id)]
                match manifest_index(manifest@.take(j as int), id) {
                    Some(i) => index@.contains_key(id) && index@[id] as int == i,
                    None => !index@.contains_key(id),
                },
        decreases manifest.len() - j,
    {
        index.insert(manifest[j].id, j);
        proof {
            let t = manifest@.take(j + 1);
            assert(t.drop_last() == manifest@.take(j as int));
            assert(t.last() == manifest@[j as int]);
            assert forall|id: u64|
                #![trigger manifest_index(manifest@.take(j + 1), id)]
                match manifest_index(manifest@.take(j + 1), id) {
                    Some(i) => index@.contains_key(id) && index@[id] as int == i,
                    None => !index@.contains_key(id),
                } by {
                assert(manifest_index(manifest@.take(j as int), id) == manifest_index(t.drop_last(), id));
            }
        }
        j = j + 1;
    }
    assert(manifest@.take(j as int) == manifest@);
    index
}

/// The fingerprint of the last manifest entry with `id`.
fn fingerprint_of(
    manifest: &[ManifestEntry],
    index: &std::collections::HashMap<u64, usize>,
    id: u64,
) -> (r: Option<SourceFingerprint>)
    requires
        forall|id2: u64|
            #![trigger manifest_index(manifest@, id2)]
            match manifest_index(manifest@, id2) {
                Some(i) => index@.contains_key(id2) && index@[id2] as int == i,
                None => !index@.contains_key(id2),
            },
    ensures
        opt_fp(r) == manifest_fp(manifest@, id),
{
    broadcast use vstd::std_specs::hash::group_hash_axioms;

    proof {
        lemma_manifest_index_range(manifest@, id);
    }
    match index.get(&id) {
        Some(i) => Some(manifest[*i].fingerprint.duplicate()),
        None => None,
    }
}

proof fn lemma_manifest_index_range(m: Seq<ManifestEntry>, id: u64)
    ensures
        match manifest_index(m, id) {
            Some(i) => 0 <= i < m.len() && m[i].id == id,
            None => true,
        },
    decreases m.len(),
{
    if m.len() > 0 && m.last().id != id {
        lemma_manifest_index_range(m.drop_last(), id);
    }
}

/// The first operation that needs a manifest entry and has none.
fn find_missing(
    manifest: &[ManifestEntry],
    index: &std::collections::HashMap<u64, usize>,
    operations: &[Operation],
) -> (r: Option<u64>)
    requires
        forall|id2: u64|
            #![trigger manifest_index(manifest@, id2)]
            match manifest_index(manifest@, id2) {
                Some(i) => index@.contains_key(id2) && index@[id2] as int == i,
                None => !index@.contains_key(id2),
            },
    ensures
        r == first_missing(operations@, manifest@, 0),
{
    broadcast use vstd::std_specs::hash::group_hash_axioms;

    let mut i: usize = 0;
    while i < operations.len()
        invariant
            i <= operations.len(),
            first_missing(operations@, manifest@, 0) == first_missing(operations@, manifest@, i as int),
            forall|id2: u64|
                #![trigger manifest_index(manifest@, id2)]
                match manifest_index(manifest@, id2) {
                    Some(i) => index@.contains_key(id2) && index@[id2] as int == i,
                    None => !index@.contains_key(id2),
                },
        decreases operations.len() - i,
    {
        let o = &operations[i];
        if o.kind != OpKind::Noop && o.kind != OpKind::Skip && !index.contains_key(&o.id) {
            return Some(o.id);
        }
        i += 1;
    }
    None
}

/// `"prefix" + decimal(id) + "mid" + tail`.
fn id_message(prefix: &str, id: u64, mid: &str, tail: &str) -> (r: String)
    ensures
        r@ == prefix@ + decimal(id as nat) + mid@ + tail@,
{
    let mut out = String::new();
    push_str(&mut out, prefix);
    push_decimal(&mut out, id);
    push_str(&mut out, mid);
    push_str(&mut out, tail);
    out
}

/// `a + b`.
pub fn concat(a: &str, b: &str) -> (r: String)
    ensures
        r@ == a@ + b@,
{
    let mut out = String::new();
    push_str(&mut out, a);
    push_str(&mut out, b);
    proof {
        assert(out@ =~= a@ + b@);
    }
    out
}

/// Whether `destination` lies outside `root`: it is neither the root nor below it.
pub fn outside_root(root: &str, destination: &str) -> (b: bool)
    ensures
        b == spec_outside_root(root@, destination@),
{
    if str_eq(destination, root) {
        return false;
    }
    let prefix = concat(root, "/");
    proof {
        reveal_strlit("/");
        assert(prefix@ =~= root@.push('/'));
    }
    let d = crate::text::chars_of(destination);
    let p = crate::text::chars_of(prefix.as_str());
    if p.len() > d.len() {
        return true;
    }
    let r = crate::text::range_eq(&d, 0, p.len(), &p);
    proof {
        assert(d@.subrange(0, p.len() as int) =~= destination@.take(p.len() as int));
    }
    !r
}

fn contains_string(v: &Vec<String>, s: &String) -> (b: bool)
    ensures
        b == strs(v@).contains(s@),
{
    let mut i: usize = 0;
    while i < v.len()
        invariant
            i <= v.len(),
            forall|t: int| 0 <= t < i ==> v@[t]@ != s@,
        decreases v.len() - i,
    {
        if v[i] == *s {
            assert(strs(v@)[i as int] == s@);
            return true;
        }
        i += 1;
    }
    proof {
        if strs(v@).contains(s@) {
            let t = choose|t: int| 0 <= t < strs(v@).len() && strs(v@)[t] == s@;
            assert(v@[t]@ == s@);
        }
    }
    false
}

/// How many copy or move operations go to `d`.
fn count_dest(operations: &[Operation], d: &String) -> (c: usize)
    ensures
        c as nat == dest_count(operations@, d@),
{
    let mut c: usize = 0;
    let mut i: usize = 0;
    while i < operations.len()
        invariant
            i <= operations.len(),
            c as nat == dest_count(operations@.take(i as int), d@),
            c <= i,
        decreases operations.len() - i,
    {
        let o = &operations[i];
        proof {
            let t = operations@.take(i + 1);
            assert(t.drop_last() == operations@.take(i as int));
            assert(t.last() == operations@[i as int]);
        }
        if (o.kind == OpKind::Move || o.kind == OpKind::Copy) && o.to == *d {
            c += 1;
        }
        i += 1;
    }
    assert(operations@.take(i as int) == operations@);
    c
}

/// Destinations outside the root, and the duplicate-destination errors.
fn collect_dests(root: &str, operations: &[Operation]) -> (r: (Vec<String>, Vec<String>))
    ensures
        strs(r.0@) == outside_list(root@, operations@),
        strs(r.1@) == duplicate_list(operations@, operations@).map_values(
            |d: Seq<char>| duplicate_msg(d),
        ),
{
    let mut outside: Vec<String> = Vec::new();
    let mut dups: Vec<String> = Vec::new();
    let mut errors: Vec<String> = Vec::new();
    let mut i: usize = 0;
    while i < operations.len()
        invariant
            i <= operations.len(),
            strs(outside@) == outside_list(root@, operations@.take(i as int)),
            strs(dups@) == duplicate_list(operations@, operations@.take(i as int)),
            strs(errors@) == strs(dups@).map_values(|d: Seq<char>| duplicate_msg(d)),
        decreases operations.len() - i,
    {
        let o = &operations[i];
        proof {
            let t = operations@.take(i + 1);
            assert(t.drop_last() == operations@.take(i as int));
            assert(t.last() == operations@[i as int]);
        }
        if o.kind == OpKind::Move || o.kind == OpKind::Copy {
            if outside_root(root, o.to.as_str()) && !contains_string(&outside, &o.to) {
                let ghost before = outside@;
                outside.push(o.to.clone());
                proof {
                    assert(strs(outside@) =~= strs(before).push(o.to@));
                }
            }
            if !contains_string(&dups, &o.to) && count_dest(operations, &o.to) > 1 {
                let ghost before = dups@;
                let ghost ebefore = errors@;
                dups.push(o.to.clone());
                errors.push(concat("duplicate dest ", o.to.as_str()));
                proof {
                    assert(strs(dups@) =~= strs(before).push(o.to@));
                    assert(strs(errors@) =~= strs(ebefore).push(duplicate_msg(o.to@)));
                    assert(strs(errors@) =~= strs(dups@).map_values(|d: Seq<char>| duplicate_msg(d)));
                }
            }
        }
        i += 1;
    }
    assert(operations@.take(i as int) == operations@);
    (outside, errors)
}


pub open spec fn index_ok(manifest: Seq<ManifestEntry>, index: std::collections::HashMap<u64, usize>) -> bool {
    forall|id2: u64|
        #![trigger manifest_index(manifest, id2)]
        match manifest_index(manifest, id2) {
            Some(i) => index@.contains_key(id2) && index@[id2] as int == i,
            None => !index@.contains_key(id2),
        }
}

/// Trash steps and trash ids for the trash operations, in order.
fn trash_phase(
    manifest: &[ManifestEntry],
    index: &std::collections::HashMap<u64, usize>,
    operations: &[Operation],
) -> (r: (Vec<PlannedStep>, Vec<u64>))
    requires
        index_ok(manifest@, *index),
    ensures
        steps_match(r.0@, trash_steps(operations@, manifest@)),
        r.1@ == trash_ids(operations@),
{
    let mut steps: Vec<PlannedStep> = Vec::new();
    let mut ids: Vec<u64> = Vec::new();
    let mut i: usize = 0;
    while i < operations.len()
        invariant
            i <= operations.len(),
            index_ok(manifest@, *index),
            steps_match(steps@, trash_steps(operations@.take(i as int), manifest@)),
            ids@ == trash_ids(operations@.take(i as int)),
        decreases operations.len() - i,
    {
        let o = &operations[i];
        proof {
            let t = operations@.take(i + 1);
            assert(t.drop_last() == operations@.take(i as int));
            assert(t.last() == operations@[i as int]);
        }
        if o.kind == OpKind::Trash {
            let fp = fingerprint_of(manifest, index, o.id);
            let planned = step(PlannedKind::Trash, Some(o.from.clone()), None, Some(o.id), fp, None, None);
            let ghost v = StepV {
                op: PlannedKind::Trash,
                from: Some(o.from@),
                to: None,
                id: Some(o.id),
                fingerprint: manifest_fp(manifest@, o.id),
                parent: None,
                mkdir_path: None,
            };
            proof {
                assert(step_matches(steps@.push(planned), planned, v));
                lemma_steps_push(steps@, trash_steps(operations@.take(i as int), manifest@), planned, v);
            }
            steps.push(planned);
            ids.push(o.id);
        }
        i += 1;
    }
    assert(operations@.take(i as int) == operations@);
    (steps, ids)
}

/// Copy mode (see `copy_fold`): appends the directories and copy steps, and the errors
/// for copies whose destination exists.
fn copy_phase(
    manifest: &[ManifestEntry],
    index: &std::collections::HashMap<u64, usize>,
    operations: &[Operation],
    probes: &[OpProbe],
    steps: &mut Vec<PlannedStep>,
    made: &mut Vec<(String, usize)>,
    errors: &mut Vec<String>,
    Ghost(st): Ghost<MkState>,
) -> (r: Result<(), String>)
    requires
        index_ok(manifest@, *index),
        probes.len() == operations.len(),
        steps_match(old(steps)@, st.steps),
        made_view(old(made)@) == st.made,
        made_ok(old(made)@, old(steps)@.len() as int),
    ensures
        match (r, copy_fold(operations@, manifest@, probes@, 0, st, strs(old(errors)@))) {
            (Ok(()), Ok((st2, e2))) => steps_match(final(steps)@, st2.steps) && strs(final(errors)@) == e2,
            (Err(e), Err(m)) => e@ == m,
            _ => false,
        },
{
    let ghost target = copy_fold(operations@, manifest@, probes@, 0, st, strs(errors@));
    let ghost mut cur = st;
    let mut i: usize = 0;
    while i < operations.len()
        invariant
            i <= operations.len(),
            index_ok(manifest@, *index),
            probes.len() == operations.len(),
            steps_match(steps@, cur.steps),
            made_view(made@) == cur.made,
            made_ok(made@, steps@.len() as int),
            target == copy_fold(operations@, manifest@, probes@, i as int, cur, strs(errors@)),
            target == copy_fold(operations@, manifest@, probes@, 0, st, strs(old(errors)@)),
        decreases operations.len() - i,
    {
        let o = &operations[i];
        if o.kind == OpKind::Copy {
            if probes[i].dest.exists {
                let ghost before = errors@;
                errors.push(id_message("copy dest exists {", o.id, "} ", o.to.as_str()));
                proof {
                    assert(strs(errors@) =~= strs(before).push(copy_exists_msg(o.id, o.to@)));
                }
            } else {
                let ghost vs = cur.steps;
                let ghost mk = MkState { steps: vs, made: made_view(made@) };
                assert(mk == cur);
                match ensure_mkdirs(steps, made, &probes[i].dest.parent, Ghost(vs)) {
                    Err(e) => {
                        proof {
                            assert(ensure_spec(cur, probes@[i as int].dest.parent) is Err);
                            assert(copy_fold(operations@, manifest@, probes@, i as int, cur, strs(errors@))
                                == Err::<(MkState, Seq<Seq<char>>), Seq<char>>(e@));
                        }
                        return Err(e);
                    },
                    Ok(parent) => {
                        let ghost (st2, rv) = ensure_spec(cur, probes@[i as int].dest.parent)->Ok_0;
                        let fp = fingerprint_of(manifest, index, o.id);
                        let planned = step(
                            PlannedKind::Copy,
                            Some(o.from.clone()),
                            Some(o.to.clone()),
                            Some(o.id),
                            fp,
                            Some(parent),
                            None,
                        );
                        let ghost v = transfer_step_v(PlannedKind::Copy, o.from@, o.to@, o.id, manifest@, rv);
                        proof {
                            lemma_ref_grow(steps@, planned, parent, rv);
                            assert(step_matches(steps@.push(planned), planned, v));
                            lemma_steps_push(steps@, st2.steps, planned, v);
                        }
                        steps.push(planned);
                        proof {
                            cur = MkState { steps: st2.steps.push(v), made: st2.made };
                        }
                    },
                }
            }
        }
        i += 1;
    }
    Ok(())
}


/// Whether some operation of kind `k` has source `p`.
fn has_source_exec(operations: &[Operation], k: OpKind, p: &String) -> (b: bool)
    ensures
        b == has_source(operations@, k, p@),
{
    let mut i: usize = 0;
    while i < operations.len()
        invariant
            i <= operations.len(),
            forall|j: int| 0 <= j < i ==> !(operations@[j].kind == k && operations@[j].from@ == p@),
        decreases operations.len() - i,
    {
        if operations[i].kind == k && operations[i].from == *p {
            assert(operations@[i as int].from@ == p@);
            return true;
        }
        i += 1;
    }
    false
}

/// Errors for renames whose destination exists and is no rename's or trash's source.
fn dest_exists_check(operations: &[Operation], probes: &[OpProbe]) -> (r: Vec<String>)
    requires
        probes.len() == operations.len(),
    ensures
        strs(r@) == dest_exists_errors(operations@, probes@, operations@.len() as int),
{
    let mut errors: Vec<String> = Vec::new();
    let mut i: usize = 0;
    while i < operations.len()
        invariant
            i <= operations.len(),
            probes.len() == operations.len(),
            strs(errors@) == dest_exists_errors(operations@, probes@, i as int),
        decreases operations.len() - i,
    {
        let o = &operations[i];
        if o.kind == OpKind::Move && probes[i].dest.exists && !has_source_exec(operations, OpKind::Move, &o.to)
            && !has_source_exec(operations, OpKind::Trash, &o.to) {
            let ghost before = errors@;
            errors.push(id_message("dest exists {", o.id, "} ", o.to.as_str()));
            proof {
                assert(strs(errors@) =~= strs(before).push(dest_exists_msg(o.id, o.to@)));
            }
        }
        i += 1;
    }
    errors
}

/// The renames to order, with the operation index of each.
fn build_requests(operations: &[Operation], probes: &[OpProbe]) -> (r: (Vec<MoveRequest>, Vec<usize>))
    requires
        probes.len() == operations.len(),
    ensures
        r.0@ == move_requests(operations@, probes@),
        r.1@.len() == r.0@.len(),
        forall|k: int| 0 <= k < r.1@.len() ==> r.1@[k] as int == move_indices(operations@, operations@.len() as int)[k],
{
    let mut reqs: Vec<MoveRequest> = Vec::new();
    let mut idx: Vec<usize> = Vec::new();
    let mut i: usize = 0;
    while i < operations.len()
        invariant
            i <= operations.len(),
            probes.len() == operations.len(),
            idx@.len() == reqs@.len(),
            idx@.len() == move_indices(operations@, i as int).len(),
            forall|k: int| 0 <= k < idx@.len() ==> idx@[k] as int == move_indices(operations@, i as int)[k],
            forall|k: int| 0 <= k < idx@.len() ==> #[trigger] reqs@[k] == (MoveRequest {
                id: operations@[idx@[k] as int].id,
                from: operations@[idx@[k] as int].from,
                to: operations@[idx@[k] as int].to,
                temp: probes@[idx@[k] as int].stage.path,
            }),
        decreases operations.len() - i,
    {
        let o = &operations[i];
        if o.kind == OpKind::Move {
            reqs.push(MoveRequest {
                id: o.id,
                from: o.from.clone(),
                to: o.to.clone(),
                temp: probes[i].stage.path.clone(),
            });
            idx.push(i);
        }
        i += 1;
    }
    proof {
        let j = move_indices(operations@, operations@.len() as int);
        assert(reqs@ =~= j.map_values(
            |j: int| MoveRequest { id: operations@[j].id, from: operations@[j].from, to: operations@[j].to, temp: probes@[j].stage.path },
        ));
    }
    (reqs, idx)
}


/// Rename mode after the checks (see `move_fold`): orders the renames greedily and plans
/// each stage and commit after the directories it needs. Returns the id of a request
/// whose cycle could not be broken, if any.
fn move_phase(
    manifest: &[ManifestEntry],
    index: &std::collections::HashMap<u64, usize>,
    operations: &[Operation],
    probes: &[OpProbe],
    steps: &mut Vec<PlannedStep>,
    made: &mut Vec<(String, usize)>,
    Ghost(st): Ghost<MkState>,
) -> (r: Result<Option<u64>, String>)
    requires
        index_ok(manifest@, *index),
        probes.len() == operations.len(),
        steps_match(old(steps)@, st.steps),
        made_view(old(made)@) == st.made,
        made_ok(old(made)@, old(steps)@.len() as int),
    ensures
        match (r, move_fold(operations@, manifest@, probes@, greedy_of(move_requests(operations@, probes@)).0, 0, st)) {
            (Ok(stuck), Ok(st2)) => steps_match(final(steps)@, st2.steps) && stuck == greedy_of(
                move_requests(operations@, probes@),
            ).1,
            (Err(e), Err(m)) => e@ == m,
            _ => false,
        },
{
    let (reqs, idx) = build_requests(operations, probes);
    let order = order_moves(&reqs);
    let ghost acts = order.actions@;
    proof {
        let w = (order.actions@, order.stuck);
        assert(greedy_order(reqs@, w.0, w.1));
        let p = greedy_of(reqs@);
        lemma_greedy_unique(reqs@, p.0, p.1, order.actions@, order.stuck);
    }
    let ghost target = move_fold(operations@, manifest@, probes@, acts, 0, st);
    let mut staged: Vec<bool> = Vec::new();
    let mut k0: usize = 0;
    while k0 < reqs.len()
        invariant
            k0 <= reqs.len(),
            staged.len() == k0,
            forall|k: int| 0 <= k < k0 ==> !staged@[k],
        decreases reqs.len() - k0,
    {
        staged.push(false);
        k0 += 1;
    }
    proof {
        assert(acts.take(0) =~= Seq::<MoveAction>::empty());
    }
    let ghost mut cur = st;
    let mut t: usize = 0;
    while t < order.actions.len()
        invariant
            t <= order.actions.len(),
            acts == order.actions@,
            greedy_of(move_requests(operations@, probes@)) == (acts, order.stuck),
            crate::ordering::greedy_actions(reqs@, acts),
            reqs@ == move_requests(operations@, probes@),
            idx@.len() == reqs@.len(),
            forall|k: int| 0 <= k < idx@.len() ==> idx@[k] as int == move_indices(operations@, operations@.len() as int)[k],
            index_ok(manifest@, *index),
            probes.len() == operations.len(),
            steps_match(steps@, cur.steps),
            made_view(made@) == cur.made,
            made_ok(made@, steps@.len() as int),
            staged.len() == reqs.len(),
            forall|k: int|
                0 <= k < reqs@.len() && !(#[trigger] flow_after(reqs@, acts.take(t as int)).done[k])
                    ==> flow_after(reqs@, acts.take(t as int)).locs[k] == (if staged@[k] {
                    reqs@[k].temp@
                } else {
                    reqs@[k].from@
                }),
            target == move_fold(operations@, manifest@, probes@, acts, t as int, cur),
            target == move_fold(operations@, manifest@, probes@, acts, 0, st),
        decreases order.actions.len() - t,
    {
        let a = order.actions[t];
        let ghost f = flow_after(reqs@, acts.take(t as int));
        proof {
            lemma_greedy_step(reqs@, acts, t as int);
        }
        let k = match a {
            MoveAction::Stage(k) => k,
            MoveAction::Commit(k) => k,
        };
        assert(k as int == action_index(a));
        let i = idx[k];
        assert(i < operations.len()) by {
            crate::schedule::lemma_move_indices_range(operations@, operations@.len() as int);
        }
        let r = &reqs[k];
        let loc = if staged[k] {
            r.temp.clone()
        } else {
            r.from.clone()
        };
        assert(loc@ == f.locs[k as int]);
        let is_stage = match a {
            MoveAction::Stage(_) => true,
            MoveAction::Commit(_) => false,
        };
        let probe = if is_stage {
            &probes[i].stage
        } else {
            &probes[i].dest
        };
        proof {
            assert(move_indices(operations@, operations@.len() as int)[k as int] == i as int);
        }
        if is_stage && probe.exists {
            proof {
                assert(move_fold(operations@, manifest@, probes@, acts, t as int, cur)
                    == Err::<MkState, Seq<char>>(collision_msg(probe.path@)));
            }
            return Err(concat("staging collision: ", probe.path.as_str()));
        }
        let ghost vs = cur.steps;
        let ghost mk = MkState { steps: vs, made: made_view(made@) };
        assert(mk == cur);
        match ensure_mkdirs(steps, made, &probe.parent, Ghost(vs)) {
            Err(e) => {
                proof {
                    assert(ensure_spec(cur, probe.parent) is Err);
                    assert(move_fold(operations@, manifest@, probes@, acts, t as int, cur)
                        == Err::<MkState, Seq<char>>(e@));
                }
                return Err(e);
            },
            Ok(parent) => {
                let ghost (st2, rv) = ensure_spec(cur, probe.parent)->Ok_0;
                let fp = fingerprint_of(manifest, index, r.id);
                let (kind, to) = if is_stage {
                    (PlannedKind::Stage, r.temp.clone())
                } else {
                    (PlannedKind::Commit, r.to.clone())
                };
                let planned = step(kind, Some(loc), Some(to), Some(r.id), fp, Some(parent), None);
                let ghost v = transfer_step_v(kind, f.locs[k as int], to@, r.id, manifest@, rv);
                proof {
                    lemma_ref_grow(steps@, planned, parent, rv);
                    assert(step_matches(steps@.push(planned), planned, v));
                    lemma_steps_push(steps@, st2.steps, planned, v);
                }
                steps.push(planned);
                if is_stage {
                    staged.set(k, true);
                }
                proof {
                    cur = MkState { steps: st2.steps.push(v), made: st2.made };
                    let g = flow_after(reqs@, acts.take(t + 1));
                    assert(g == apply_action(reqs@, f, a));
                    assert forall|kk: int|
                        0 <= kk < reqs@.len() && !(#[trigger] flow_after(reqs@, acts.take(t + 1)).done[kk])
                            implies flow_after(reqs@, acts.take(t + 1)).locs[kk] == (if staged@[kk] {
                            reqs@[kk].temp@
                        } else {
                            reqs@[kk].from@
                        }) by {
                        if kk != k {
                            assert(g.locs[kk] == f.locs[kk]);
                            assert(g.done[kk] == f.done[kk]);
                        }
                    }
                }
            },
        }
        t += 1;
    }
    Ok(order.stuck)
}

proof fn lemma_move_indices_range(ops: Seq<Operation>, n: int)
    ensures
        forall|k: int| 0 <= k < move_indices(ops, n).len() ==> 0 <= #[trigger] move_indices(ops, n)[k] < n
            && move_indices(ops, n)[k] < ops.len() && ops[move_indices(ops, n)[k]].kind == OpKind::Move,
    decreases n,
{
    if n > 0 && n <= ops.len() {
        lemma_move_indices_range(ops, n - 1);
    }
}


fn error_result(e: String) -> (r: ScheduleResult)
    ensures
        result_matches(r, error_only(e@)),
{
    let mut errors: Vec<String> = Vec::new();
    errors.push(e);
    let r = ScheduleResult { steps: Vec::new(), outside_root: Vec::new(), trash_ids: Vec::new(), errors };
    proof {
        assert(strs(r.outside_root@) =~= Seq::<Seq<char>>::empty());
        assert(strs(r.errors@) =~= seq![e@]);
    }
    r
}

/// Orders the operations into journal steps.
///
/// Every operation that is not a no-op or a skip needs a manifest entry; the first one
/// without makes the schedule that single error. Otherwise destinations outside the
/// root are listed, each destination shared by several copies or moves is an error,
/// and each trash operation becomes a trash step, first, so that a later rename may
/// take its path.
///
/// Copy mode: a copy whose destination exists is an error and is left out; every other
/// copy becomes a copy step after the mkdir steps for the directories it lacks.
///
/// Rename mode: a rename whose destination exists, unless that path is itself the
/// source of a rename or a trash, is an error; with any error no rename is planned.
/// Otherwise the renames are ordered greedily (see `order_moves`): each becomes a
/// commit, and a cycle is broken by a stage to the waiting path drawn for one of its
/// renames, which must not exist. A cycle that cannot be broken ends the plan with an
/// error. Each stage and commit comes after the mkdir steps it needs.
///
/// An error met probing directories, or a waiting path that exists, makes the
/// schedule that single error. `probes[i]` is what the filesystem showed for
/// `operations[i]` (see `OpProbe`).
pub fn schedule(
    mode: SessionMode,
    root: &str,
    manifest: &[ManifestEntry],
    operations: &[Operation],
    probes: &[OpProbe],
) -> (r: ScheduleResult)
    requires
        probes.len() == operations.len(),
    ensures
        result_matches(r, spec_schedule(mode, root@, manifest@, operations@, probes@)),
{
    let index = build_index(manifest);
    if let Some(id) = find_missing(manifest, &index, operations) {
        let msg = id_message("missing manifest ", id, "", "");
        proof {
            reveal_strlit("");
            assert(msg@ =~= missing_msg(id));
        }
        return error_result(msg);
    }
    let (outside, dup_errors) = collect_dests(root, operations);
    let (tsteps, trash_ids) = trash_phase(manifest, &index, operations);
    let mut steps = tsteps;
    let mut made: Vec<(String, usize)> = Vec::new();
    let mut errors = dup_errors;
    let ghost st0 = MkState { steps: trash_steps(operations@, manifest@), made: Seq::empty() };
    proof {
        assert(made_view(made@) =~= Seq::<(Seq<char>, int)>::empty());
    }
    match mode {
        SessionMode::Copy => {
            match copy_phase(manifest, &index, operations, probes, &mut steps, &mut made, &mut errors, Ghost(st0)) {
                Err(e) => error_result(e),
                Ok(()) => ScheduleResult { steps, outside_root: outside, trash_ids, errors },
            }
        },
        SessionMode::Move => {
            let mut more = dest_exists_check(operations, probes);
            let ghost e0 = errors@;
            let ghost m0 = more@;
            errors.append(&mut more);
            proof {
                assert(strs(errors@) =~= strs(e0) + strs(m0));
            }
            if errors.len() > 0 {
                return ScheduleResult { steps, outside_root: outside, trash_ids, errors };
            }
            match move_phase(manifest, &index, operations, probes, &mut steps, &mut made, Ghost(st0)) {
                Err(e) => error_result(e),
                Ok(stuck) => {
                    let mut errors: Vec<String> = Vec::new();
                    if let Some(id) = stuck {
                        errors.push(id_message("unresolvable destination cycle involving {", id, "}", ""));
                        proof {
                            reveal_strlit("");
                            assert(strs(errors@) =~= seq![cycle_msg(id)]);
                        }
                    } else {
                        proof {
                            assert(strs(errors@) =~= Seq::<Seq<char>>::empty());
                        }
                    }
                    ScheduleResult { steps, outside_root: outside, trash_ids, errors }
                },
            }
        },
    }
}


/// The waiting path for a file at `from`: a sibling named `.remodeco-stage-`, the
/// session id, `-` and twelve random hexadecimal digits.
pub open spec fn stage_path_of(from: Seq<char>, session_id: Seq<char>, hex: Seq<char>) -> Seq<char> {
    let dir = match path_parent_of(from) {
        Some(p) => p,
        None => seq!['/'],
    };
    join_component(dir, ".remodeco-stage-"@ + session_id + "-"@ + hex)
}

/// Draws the waiting path for a rename of `from` (see `stage_path_of`).
pub fn stage_path(from: &str, session_id: &str) -> (r: String)
    ensures
        exists|b: Seq<u8>| b.len() == 6 && r@ == stage_path_of(from@, session_id@, hex_of(b)),
{
    let dir = match path_parent(from) {
        Some(p) => p,
        None => {
            let mut d = String::new();
            push_str(&mut d, "/");
            proof {
                reveal_strlit("/");
                assert(d@ =~= seq!['/']);
            }
            d
        },
    };
    let hex = random_hex(6);
    let mut name = String::new();
    push_str(&mut name, ".remodeco-stage-");
    push_str(&mut name, session_id);
    push_str(&mut name, "-");
    push_str(&mut name, hex.as_str());
    let r = join_path(dir.as_str(), name.as_str());
    proof {
        let b = choose|b: Seq<u8>| b.len() == 6 && hex@ == hex_of(b);
        assert(name@ =~= ".remodeco-stage-"@ + session_id@ + "-"@ + hex_of(b));
        assert(r@ == stage_path_of(from@, session_id@, hex_of(b)));
    }
    r
}

/// The reference to the parent of a destination, planning the directories it lacks
/// (see `ensure_spec`).
pub fn capture_destination_parent(
    steps: &mut Vec<PlannedStep>,
    made: &mut Vec<(String, usize)>,
    parent: &Result<ParentProbe, String>,
    Ghost(vs): Ghost<Seq<StepV>>,
) -> (r: Result<DestParentRef, String>)
    requires
        steps_match(old(steps)@, vs),
        made_ok(old(made)@, old(steps)@.len() as int),
    ensures
        match (r, ensure_spec(MkState { steps: vs, made: made_view(old(made)@) }, *parent)) {
            (Ok(rr), Ok((st2, rv))) => {
                &&& steps_match(final(steps)@, st2.steps)
                &&& made_view(final(made)@) == st2.made
                &&& made_ok(final(made)@, final(steps)@.len() as int)
                &&& ref_matches(final(steps)@, rr, rv)
            },
            (Err(e), Err(m)) => e@ == m,
            _ => false,
        },
{
    ensure_mkdirs(steps, made, parent, Ghost(vs))
}

/// `parts` joined with `sep` between them.
pub open spec fn join_with(parts: Seq<Seq<char>>, sep: Seq<char>) -> Seq<char>
    decreases parts.len(),
{
    if parts.len() == 0 {
        Seq::empty()
    } else if parts.len() == 1 {
        parts[0]
    } else {
        join_with(parts.drop_last(), sep) + sep + parts.last()
    }
}

/// The strings of `v` joined with `sep`.
pub fn join_strings(v: &Vec<String>, sep: &str) -> (r: String)
    ensures
        r@ == join_with(strs(v@), sep@),
{
    let mut out = String::new();
    let mut i: usize = 0;
    while i < v.len()
        invariant
            i <= v.len(),
            out@ == join_with(strs(v@.take(i as int)), sep@),
        decreases v.len() - i,
    {
        let ghost before = out@;
        if i > 0 {
            push_str(&mut out, sep);
        }
        push_str(&mut out, v[i].as_str());
        proof {
            let t = strs(v@.take(i + 1));
            assert(t.drop_last() =~= strs(v@.take(i as int)));
            assert(t.last() == v@[i as int]@);
            if i == 0 {
                assert(out@ =~= t[0]);
            } else {
                assert(out@ =~= before + sep@ + t.last());
            }
        }
        i += 1;
    }
    assert(v@.take(i as int) =~= v@);
    out
}

pub open spec fn decimals(ids: Seq<u64>) -> Seq<Seq<char>> {
    ids.map_values(|id: u64| decimal(id as nat))
}

/// The ids as decimals joined with `, `.
fn join_ids(ids: &Vec<u64>) -> (r: String)
    ensures
        r@ == join_with(decimals(ids@), ", "@),
{
    let mut parts: Vec<String> = Vec::new();
    let mut i: usize = 0;
    while i < ids.len()
        invariant
            i <= ids.len(),
            strs(parts@) == decimals(ids@.take(i as int)),
        decreases ids.len() - i,
    {
        let mut d = String::new();
        push_decimal(&mut d, ids[i]);
        let ghost before = parts@;
        parts.push(d);
        proof {
            assert(d@ =~= decimal(ids@[i as int] as nat));
            assert(strs(parts@) =~= strs(before).push(d@));
            assert(decimals(ids@.take(i + 1)) =~= decimals(ids@.take(i as int)).push(decimal(ids@[i as int] as nat)));
        }
        i += 1;
    }
    assert(ids@.take(i as int) =~= ids@);
    join_strings(&parts, ", ")
}

/// What `str::to_lowercase` returns for `s` (Unicode lowercase mapping).
pub uninterp spec fn lowercase_of(s: Seq<char>) -> Seq<char>;

/// ASCII letters made lowercase, every other character unchanged.
pub open spec fn ascii_lower(s: Seq<char>) -> Seq<char> {
    s.map_values(|c: char| if 'A' <= c && c <= 'Z' { ((c as u32) + 32) as char } else { c })
}

/// `str::to_lowercase`. The result is named by `lowercase_of`; on ASCII text it lowers
/// the letters A to Z and keeps the rest, as the documentation of the Unicode mapping
/// implies for that range.
#[verifier::external_body]
pub(crate) fn to_lowercase(s: &str) -> (r: String)
    ensures
        r@ == lowercase_of(s@),
        (forall|i: int| 0 <= i < s@.len() ==> (s@[i] as u32) < 128) ==> r@ == ascii_lower(s@),
{
    s.to_lowercase()
}

pub open spec fn or_question(o: Option<String>) -> Seq<char> {
    match o {
        Some(s) => s@,
        None => "?"@,
    }
}

pub open spec fn id_or_zero(o: Option<u64>) -> u64 {
    match o {
        Some(i) => i,
        None => 0,
    }
}

/// The name a planned kind prints as in debug output.
pub open spec fn kind_debug(k: PlannedKind) -> Seq<char> {
    match k {
        PlannedKind::Mkdir => "Mkdir"@,
        PlannedKind::Stage => "Stage"@,
        PlannedKind::Commit => "Commit"@,
        PlannedKind::Copy => "Copy"@,
        PlannedKind::Trash => "Trash"@,
        PlannedKind::Noop => "Noop"@,
    }
}

/// The text of a stage, commit or copy line before it is lowercased.
pub open spec fn transfer_text(s: PlannedStep) -> Seq<char> {
    kind_debug(s.op) + " {"@ + decimal(id_or_zero(s.id) as nat) + "} "@ + or_question(s.from) + " -> "@
        + or_question(s.to)
}

/// One line of the printed schedule.
pub open spec fn step_line(s: PlannedStep) -> Seq<char> {
    match s.op {
        PlannedKind::Mkdir => "mkdir "@ + or_question(s.mkdir_path),
        PlannedKind::Trash => "trash {"@ + decimal(id_or_zero(s.id) as nat) + "} "@ + or_question(s.from),
        _ => lowercase_of(transfer_text(s)),
    }
}

/// Whether every character of `t` is ASCII.
pub open spec fn is_ascii_text(t: Seq<char>) -> bool {
    forall|i: int| 0 <= i < t.len() ==> (#[trigger] t[i] as u32) < 128
}

/// One line of the printed schedule, with the lowercasing spelled out where the line is
/// ASCII (the letters A to Z lowered, the rest kept).
pub open spec fn known_step_line(s: PlannedStep) -> Seq<char> {
    match s.op {
        PlannedKind::Mkdir | PlannedKind::Trash => step_line(s),
        _ => if is_ascii_text(transfer_text(s)) {
            ascii_lower(transfer_text(s))
        } else {
            step_line(s)
        },
    }
}

/// The lines of the printed schedule: one per step, then the trash ids and the
/// destinations outside the root when there are any.
pub open spec fn schedule_lines(r: ScheduleResult) -> Seq<Seq<char>> {
    schedule_lines_with(r, |s: PlannedStep| step_line(s))
}

/// The printed schedule with the lowercasing spelled out for ASCII lines.
pub open spec fn known_schedule_lines(r: ScheduleResult) -> Seq<Seq<char>> {
    schedule_lines_with(r, |s: PlannedStep| known_step_line(s))
}

/// The lines of a schedule, each step written by `line`.
pub open spec fn schedule_lines_with(r: ScheduleResult, line: spec_fn(PlannedStep) -> Seq<char>) -> Seq<Seq<char>> {
    let base = r.steps@.map_values(|s: PlannedStep| line(s));
    let with_trash = if r.trash_ids@.len() > 0 {
        base.push("# trash ids: "@ + join_with(decimals(r.trash_ids@), ", "@))
    } else {
        base
    };
    if r.outside_root@.len() > 0 {
        with_trash.push("# outside root: "@ + join_with(strs(r.outside_root@), ", "@))
    } else {
        with_trash
    }
}

fn opt_text(o: &Option<String>) -> (r: String)
    ensures
        r@ == or_question(*o),
{
    match o {
        Some(s) => s.clone(),
        None => {
            let mut q = String::new();
            push_str(&mut q, "?");
            q
        },
    }
}

fn kind_name(k: PlannedKind) -> (r: &'static str)
    ensures
        r@ == kind_debug(k),
{
    match k {
        PlannedKind::Mkdir => "Mkdir",
        PlannedKind::Stage => "Stage",
        PlannedKind::Commit => "Commit",
        PlannedKind::Copy => "Copy",
        PlannedKind::Trash => "Trash",
        PlannedKind::Noop => "Noop",
    }
}

fn format_step(s: &PlannedStep) -> (r: String)
    ensures
        r@ == step_line(*s),
        r@ == known_step_line(*s),
{
    let id = match s.id {
        Some(i) => i,
        None => 0,
    };
    match s.op {
        PlannedKind::Mkdir => concat("mkdir ", opt_text(&s.mkdir_path).as_str()),
        PlannedKind::Trash => id_message("trash {", id, "} ", opt_text(&s.from).as_str()),
        _ => {
            let mut full = String::new();
            push_str(&mut full, kind_name(s.op));
            push_str(&mut full, " {");
            push_decimal(&mut full, id);
            push_str(&mut full, "} ");
            push_str(&mut full, opt_text(&s.from).as_str());
            push_str(&mut full, " -> ");
            push_str(&mut full, opt_text(&s.to).as_str());
            proof {
                assert(full@ =~= transfer_text(*s));
            }
            to_lowercase(full.as_str())
        },
    }
}

/// The schedule as printed for a dry run (see `schedule_lines`), one line each.
pub fn format_schedule(schedule: &ScheduleResult) -> (r: String)
    ensures
        r@ == join_with(schedule_lines(*schedule), seq!['\n']),
        r@ == join_with(known_schedule_lines(*schedule), seq!['\n']),
{
    let mut lines: Vec<String> = Vec::new();
    let mut i: usize = 0;
    while i < schedule.steps.len()
        invariant
            i <= schedule.steps.len(),
            lines.len() == i,
            strs(lines@) == schedule.steps@.take(i as int).map_values(|s: PlannedStep| step_line(s)),
            strs(lines@) == schedule.steps@.take(i as int).map_values(|s: PlannedStep| known_step_line(s)),
        decreases schedule.steps.len() - i,
    {
        let ghost before = lines@;
        lines.push(format_step(&schedule.steps[i]));
        proof {
            assert(strs(lines@) =~= strs(before).push(step_line(schedule.steps@[i as int])));
            assert(strs(lines@) =~= schedule.steps@.take(i + 1).map_values(|s: PlannedStep| step_line(s)));
            assert(strs(lines@) =~= schedule.steps@.take(i + 1).map_values(|s: PlannedStep| known_step_line(s)));
        }
        i += 1;
    }
    assert(schedule.steps@.take(i as int) =~= schedule.steps@);
    proof {
        let f = |s: PlannedStep| step_line(s);
        let g = |s: PlannedStep| known_step_line(s);
        assert(schedule.steps@.map_values(|s: PlannedStep| f(s)) =~= schedule.steps@.map_values(
            |s: PlannedStep| step_line(s),
        ));
        assert(schedule.steps@.map_values(|s: PlannedStep| g(s)) =~= schedule.steps@.map_values(
            |s: PlannedStep| known_step_line(s),
        ));
    }
    if schedule.trash_ids.len() > 0 {
        let ghost before = lines@;
        lines.push(concat("# trash ids: ", join_ids(&schedule.trash_ids).as_str()));
        proof {
            assert(strs(lines@) =~= strs(before).push("# trash ids: "@ + join_with(decimals(schedule.trash_ids@), ", "@)));
        }
    }
    if schedule.outside_root.len() > 0 {
        let ghost before = lines@;
        lines.push(concat("# outside root: ", join_strings(&schedule.outside_root, ", ").as_str()));
        proof {
            assert(strs(lines@) =~= strs(before).push("# outside root: "@ + join_with(strs(schedule.outside_root@), ", "@)));
        }
    }
    proof {
        reveal_strlit("\n");
    }
    let r = join_strings(&lines, "\n");
    proof {
        assert("\n"@ =~= seq!['\n']);
    }
    r
}

/// Two copy or move operations to one destination are refused: the schedule of such a
/// plan has errors, whatever the mode, the manifest and the filesystem show.
pub proof fn lemma_duplicate_destinations_rejected(
    mode: SessionMode,
    root: Seq<char>,
    m: Seq<ManifestEntry>,
    ops: Seq<Operation>,
    probes: Seq<OpProbe>,
    i: int,
    j: int,
)
    requires
        0 <= i < j < ops.len(),
        has_dest(ops[i].kind),
        has_dest(ops[j].kind),
        ops[i].to@ == ops[j].to@,
    ensures
        spec_schedule(mode, root, m, ops, probes).errors.len() > 0,
{
    lemma_dest_count_two(ops, ops[i].to@, i, j);
    lemma_duplicate_found(ops, ops, i);
    let dups = duplicate_list(ops, ops).map_values(|d: Seq<char>| duplicate_msg(d));
    assert(dups.len() > 0);
    match first_missing(ops, m, 0) {
        Some(_) => {},
        None => {
            let st0 = MkState { steps: trash_steps(ops, m), made: Seq::empty() };
            match mode {
                SessionMode::Copy => {
                    lemma_copy_fold_keeps_errors(ops, m, probes, 0, st0, dups);
                },
                SessionMode::Move => {
                    let errs = dups + dest_exists_errors(ops, probes, ops.len() as int);
                    assert(errs.len() >= dups.len());
                },
            }
        },
    }
}

proof fn lemma_dest_count_one(ops: Seq<Operation>, d: Seq<char>, i: int)
    requires
        0 <= i < ops.len(),
        has_dest(ops[i].kind),
        ops[i].to@ == d,
    ensures
        dest_count(ops, d) >= 1,
    decreases ops.len(),
{
    if i < ops.len() - 1 {
        assert(ops.drop_last()[i] == ops[i]);
        lemma_dest_count_one(ops.drop_last(), d, i);
    }
}

proof fn lemma_dest_count_two(ops: Seq<Operation>, d: Seq<char>, i: int, j: int)
    requires
        0 <= i < j < ops.len(),
        has_dest(ops[i].kind),
        has_dest(ops[j].kind),
        ops[i].to@ == d,
        ops[j].to@ == d,
    ensures
        dest_count(ops, d) >= 2,
    decreases ops.len(),
{
    assert(ops.drop_last()[i] == ops[i]);
    if j < ops.len() - 1 {
        assert(ops.drop_last()[j] == ops[j]);
        lemma_dest_count_two(ops.drop_last(), d, i, j);
    } else {
        lemma_dest_count_one(ops.drop_last(), d, i);
    }
}

proof fn lemma_duplicate_found(all: Seq<Operation>, ops: Seq<Operation>, k: int)
    requires
        0 <= k < ops.len(),
        has_dest(ops[k].kind),
        dest_count(all, ops[k].to@) > 1,
    ensures
        duplicate_list(all, ops).len() > 0,
    decreases ops.len(),
{
    if k < ops.len() - 1 {
        assert(ops.drop_last()[k] == ops[k]);
        lemma_duplicate_found(all, ops.drop_last(), k);
    } else {
        let prev = duplicate_list(all, ops.drop_last());
        if prev.contains(ops[k].to@) {
            assert(prev.len() > 0);
        }
    }
}

proof fn lemma_copy_fold_keeps_errors(
    ops: Seq<Operation>,
    m: Seq<ManifestEntry>,
    probes: Seq<OpProbe>,
    i: int,
    st: MkState,
    errs: Seq<Seq<char>>,
)
    ensures
        match copy_fold(ops, m, probes, i, st, errs) {
            Ok((_, e)) => e.len() >= errs.len(),
            Err(_) => true,
        },
    decreases ops.len() - i,
{
    if i < 0 || i >= ops.len() {
    } else if ops[i].kind != OpKind::Copy {
        lemma_copy_fold_keeps_errors(ops, m, probes, i + 1, st, errs);
    } else if probes[i].dest.exists {
        lemma_copy_fold_keeps_errors(ops, m, probes, i + 1, st, errs.push(copy_exists_msg(ops[i].id, ops[i].to@)));
    } else {
        match ensure_spec(st, probes[i].dest.parent) {
            Err(_) => {},
            Ok((st2, rv)) => {
                lemma_copy_fold_keeps_errors(
                    ops,
                    m,
                    probes,
                    i + 1,
                    MkState {
                        steps: st2.steps.push(
                            transfer_step_v(PlannedKind::Copy, ops[i].from@, ops[i].to@, ops[i].id, m, rv),
                        ),
                        made: st2.made,
                    },
                    errs,
                );
            },
        }
    }
}

/// Whether a step renames a file (to its waiting path or to its destination).
pub open spec fn is_rename_step(s: StepV) -> bool {
    s.op == PlannedKind::Stage || s.op == PlannedKind::Commit
}

/// The rename steps among `steps`, in order: their kind, source and destination.
pub open spec fn rename_moves(steps: Seq<StepV>) -> Seq<(PlannedKind, Option<Seq<char>>, Option<Seq<char>>)>
    decreases steps.len(),
{
    if steps.len() == 0 {
        Seq::empty()
    } else if is_rename_step(steps.last()) {
        rename_moves(steps.drop_last()).push((steps.last().op, steps.last().from, steps.last().to))
    } else {
        rename_moves(steps.drop_last())
    }
}

/// The rename that action `t` of a greedy run performs: the file of its request, from
/// where that file is after the earlier actions, to its waiting path or its destination.
pub open spec fn action_move(reqs: Seq<MoveRequest>, acts: Seq<MoveAction>, t: int) -> (
    PlannedKind,
    Option<Seq<char>>,
    Option<Seq<char>>,
) {
    let f = crate::ordering::flow_after(reqs, acts.take(t));
    match acts[t] {
        MoveAction::Stage(k) => (PlannedKind::Stage, Some(f.locs[k as int]), Some(reqs[k as int].temp@)),
        MoveAction::Commit(k) => (PlannedKind::Commit, Some(f.locs[k as int]), Some(reqs[k as int].to@)),
    }
}

/// The renames of a move schedule are the greedy run of its renames, action by action;
/// with distinct destinations and fresh waiting paths, no rename lands where another
/// file still is; and a schedule without errors places every file at its destination.
pub proof fn lemma_move_schedule_renames(
    root: Seq<char>,
    m: Seq<ManifestEntry>,
    ops: Seq<Operation>,
    probes: Seq<OpProbe>,
)
    requires
        ops.len() <= usize::MAX,
        greedy_order(
            move_requests(ops, probes),
            greedy_of(move_requests(ops, probes)).0,
            greedy_of(move_requests(ops, probes)).1,
        ),
        spec_schedule(SessionMode::Move, root, m, ops, probes).errors.len() == 0,
    ensures
        ({
            let reqs = move_requests(ops, probes);
            let acts = greedy_of(reqs).0;
            &&& rename_moves(spec_schedule(SessionMode::Move, root, m, ops, probes).steps) == Seq::new(
                acts.len(),
                |t: int| action_move(reqs, acts, t),
            )
            &&& crate::ordering::distinct_tos(reqs) && crate::ordering::fresh_temps(reqs) ==> forall|t: int|
                0 <= t < acts.len() ==> crate::ordering::lands_free(
                    reqs,
                    #[trigger] crate::ordering::flow_after(reqs, acts.take(t)),
                    acts[t],
                )
            &&& crate::ordering::all_done(crate::ordering::flow_after(reqs, acts), reqs.len() as int)
        }),
{
    let reqs = move_requests(ops, probes);
    let (acts, stuck) = greedy_of(reqs);
    lemma_move_indices_len(ops, ops.len() as int);
    assert(reqs.len() <= usize::MAX);
    let st0 = MkState { steps: trash_steps(ops, m), made: Seq::empty() };
    lemma_trash_steps_no_renames(ops, m);
    lemma_actions_in_range(reqs, acts, acts.len() as int);
    lemma_move_fold_renames(ops, m, probes, acts, 0, st0);
    assert(Seq::<(PlannedKind, Option<Seq<char>>, Option<Seq<char>>)>::empty() + Seq::new(
        (acts.len() - 0) as nat,
        |u: int| action_move(reqs, acts, 0 + u),
    ) =~= Seq::new(acts.len(), |t: int| action_move(reqs, acts, t)));
    if crate::ordering::distinct_tos(reqs) && crate::ordering::fresh_temps(reqs) {
        crate::ordering::lemma_greedy_never_overwrites(reqs, acts);
    }
}

proof fn lemma_move_indices_len(ops: Seq<Operation>, n: int)
    ensures
        move_indices(ops, n).len() <= ops.len(),
        0 <= n <= ops.len() ==> move_indices(ops, n).len() <= n,
    decreases n,
{
    if n > 0 && n <= ops.len() {
        lemma_move_indices_len(ops, n - 1);
    }
}

proof fn lemma_trash_steps_no_renames(ops: Seq<Operation>, m: Seq<ManifestEntry>)
    ensures
        rename_moves(trash_steps(ops, m)) == Seq::<(PlannedKind, Option<Seq<char>>, Option<Seq<char>>)>::empty(),
    decreases ops.len(),
{
    if ops.len() > 0 {
        lemma_trash_steps_no_renames(ops.drop_last(), m);
        let prev = trash_steps(ops.drop_last(), m);
        if ops.last().kind == OpKind::Trash {
            let x = trash_steps(ops, m).last();
            assert(trash_steps(ops, m).drop_last() =~= prev);
            assert(!is_rename_step(x));
        }
    }
}

/// Every action of a greedy run moves a request that exists.
proof fn lemma_actions_in_range(reqs: Seq<MoveRequest>, acts: Seq<MoveAction>, n: int)
    requires
        crate::ordering::greedy_actions(reqs, acts),
        reqs.len() <= usize::MAX,
        0 <= n <= acts.len(),
    ensures
        forall|t: int| 0 <= t < n ==> 0 <= action_index(#[trigger] acts[t]) < reqs.len(),
    decreases n,
{
    if n > 0 {
        lemma_actions_in_range(reqs, acts, n - 1);
        crate::ordering::lemma_greedy_prefix(reqs, acts, n);
        let pre = acts.take(n);
        assert(pre.drop_last() =~= acts.take(n - 1));
        assert(pre.last() == acts[n - 1]);
        crate::ordering::lemma_greedy_flow(reqs, acts.take(n - 1));
        crate::ordering::lemma_next_action_pending(reqs, crate::ordering::flow_after(reqs, acts.take(n - 1)));
    }
}

proof fn lemma_mk_components_renames(st: MkState, cur: Seq<char>, missing: Seq<Seq<char>>, i: int, prev: ParentRefV)
    ensures
        rename_moves(mk_components(st, cur, missing, i, prev).0.steps) == rename_moves(st.steps),
    decreases missing.len() - i,
{
    if 0 <= i < missing.len() {
        let next = join_component(cur, missing[i]);
        match find_made(st.made, next, 0) {
            Some(mi) => {
                lemma_mk_components_renames(
                    st,
                    next,
                    missing,
                    i + 1,
                    ParentRefV::Mkdir { step: mi, parent_path: next, suffix: Seq::empty() },
                );
            },
            None => {
                let idx = st.steps.len() as int;
                let st2 = MkState {
                    steps: st.steps.push(mkdir_step_v(prev, missing[i], next)),
                    made: st.made.push((next, idx)),
                };
                assert(st2.steps.drop_last() =~= st.steps);
                lemma_mk_components_renames(
                    st2,
                    next,
                    missing,
                    i + 1,
                    ParentRefV::Mkdir { step: idx, parent_path: next, suffix: Seq::empty() },
                );
            },
        }
    }
}

proof fn lemma_ensure_renames(st: MkState, parent: Result<ParentProbe, String>)
    ensures
        ensure_spec(st, parent) matches Ok((st2, _)) ==> rename_moves(st2.steps) == rename_moves(st.steps),
{
    match parent {
        Err(_) => {},
        Ok(pp) => {
            let start = ParentRefV::Existing {
                dev: pp.identity.dev@,
                ino: pp.identity.ino@,
                parent_path: pp.existing@,
                suffix: Seq::empty(),
            };
            lemma_mk_components_renames(st, pp.existing@, strs(pp.missing@), 0, start);
        },
    }
}

proof fn lemma_move_fold_renames(
    ops: Seq<Operation>,
    m: Seq<ManifestEntry>,
    probes: Seq<OpProbe>,
    acts: Seq<MoveAction>,
    t: int,
    st: MkState,
)
    requires
        0 <= t <= acts.len(),
        forall|u: int| 0 <= u < acts.len() ==> 0 <= action_index(#[trigger] acts[u]) < move_requests(ops, probes).len(),
    ensures
        move_fold(ops, m, probes, acts, t, st) matches Ok(fin) ==> rename_moves(fin.steps) == rename_moves(st.steps)
            + Seq::new((acts.len() - t) as nat, |u: int| action_move(move_requests(ops, probes), acts, t + u)),
    decreases acts.len() - t,
{
    let reqs = move_requests(ops, probes);
    if t >= acts.len() {
        assert(rename_moves(st.steps) + Seq::new((acts.len() - t) as nat, |u: int| action_move(reqs, acts, t + u))
            =~= rename_moves(st.steps));
    } else {
        let j = move_indices(ops, ops.len() as int);
        let loc = crate::ordering::flow_after(reqs, acts.take(t)).locs;
        assert(0 <= action_index(acts[t]) < reqs.len());
        let rest = |u: int| action_move(reqs, acts, t + 1 + u);
        let mine = action_move(reqs, acts, t);
        match acts[t] {
            MoveAction::Stage(k) => {
                let i = j[k as int];
                if !probes[i].stage.exists {
                    lemma_ensure_renames(st, probes[i].stage.parent);
                    match ensure_spec(st, probes[i].stage.parent) {
                        Err(_) => {},
                        Ok((st2, rv)) => {
                            let stp = transfer_step_v(PlannedKind::Stage, loc[k as int], probes[i].stage.path@, ops[i].id, m, rv);
                            let st3 = MkState { steps: st2.steps.push(stp), made: st2.made };
                            assert(st3.steps.drop_last() =~= st2.steps);
                            assert(reqs[k as int].temp@ == probes[i].stage.path@);
                            assert(rename_moves(st3.steps) == rename_moves(st.steps).push(mine));
                            lemma_move_fold_renames(ops, m, probes, acts, t + 1, st3);
                            assert(rename_moves(st.steps).push(mine) + Seq::new((acts.len() - (t + 1)) as nat, rest)
                                =~= rename_moves(st.steps) + Seq::new((acts.len() - t) as nat, |u: int| action_move(reqs, acts, t + u)));
                        },
                    }
                }
            },
            MoveAction::Commit(k) => {
                let i = j[k as int];
                lemma_ensure_renames(st, probes[i].dest.parent);
                match ensure_spec(st, probes[i].dest.parent) {
                    Err(_) => {},
                    Ok((st2, rv)) => {
                        let stp = transfer_step_v(PlannedKind::Commit, loc[k as int], ops[i].to@, ops[i].id, m, rv);
                        let st3 = MkState { steps: st2.steps.push(stp), made: st2.made };
                        assert(st3.steps.drop_last() =~= st2.steps);
                        assert(reqs[k as int].to@ == ops[i].to@);
                        assert(rename_moves(st3.steps) == rename_moves(st.steps).push(mine));
                        lemma_move_fold_renames(ops, m, probes, acts, t + 1, st3);
                        assert(rename_moves(st.steps).push(mine) + Seq::new((acts.len() - (t + 1)) as nat, rest)
                            =~= rename_moves(st.steps) + Seq::new((acts.len() - t) as nat, |u: int| action_move(reqs, acts, t + u)));
                    },
                }
            },
        }
    }
}

/// `steps` begins with `base` and adds only directory and rename steps after it.
pub open spec fn adds_dirs_and_renames(base: Seq<StepV>, steps: Seq<StepV>) -> bool {
    &&& base.len() <= steps.len()
    &&& steps.take(base.len() as int) == base
    &&& forall|t: int|
        base.len() <= t < steps.len() ==> (#[trigger] steps[t]).op == PlannedKind::Mkdir || is_rename_step(steps[t])
}

/// A move schedule without errors begins with its trash steps, one for each trash
/// operation and in their order; after them come only directory and rename steps (no
/// copy, and no further trash); the greedy run its renames follow (see
/// `lemma_move_schedule_renames`) commits every rename exactly once; and, with fresh
/// waiting paths, no rename after a commit starts from that commit's destination.
pub proof fn lemma_move_schedule_shape(
    root: Seq<char>,
    m: Seq<ManifestEntry>,
    ops: Seq<Operation>,
    probes: Seq<OpProbe>,
)
    requires
        ops.len() <= usize::MAX,
        greedy_order(
            move_requests(ops, probes),
            greedy_of(move_requests(ops, probes)).0,
            greedy_of(move_requests(ops, probes)).1,
        ),
        spec_schedule(SessionMode::Move, root, m, ops, probes).errors.len() == 0,
    ensures
        ({
            let steps = spec_schedule(SessionMode::Move, root, m, ops, probes).steps;
            let tsteps = trash_steps(ops, m);
            let reqs = move_requests(ops, probes);
            &&& adds_dirs_and_renames(tsteps, steps)
            &&& tsteps.len() == trash_ids(ops).len()
            &&& forall|t: int|
                0 <= t < tsteps.len() ==> (#[trigger] tsteps[t]).op == PlannedKind::Trash && tsteps[t].id == Some(
                    trash_ids(ops)[t],
                )
            &&& forall|k: int| 0 <= k < reqs.len() ==> #[trigger] crate::ordering::commit_count(greedy_of(reqs).0, k) == 1
            &&& crate::ordering::fresh_temps(reqs) ==> forall|t: int, u: int|
                0 <= t < u < greedy_of(reqs).0.len() && (#[trigger] greedy_of(reqs).0[t]) is Commit ==> (#[trigger] action_move(
                    reqs,
                    greedy_of(reqs).0,
                    u,
                )).1 != action_move(reqs, greedy_of(reqs).0, t).2
        }),
{
    let reqs = move_requests(ops, probes);
    let (acts, stuck) = greedy_of(reqs);
    lemma_move_indices_len(ops, ops.len() as int);
    let st0 = MkState { steps: trash_steps(ops, m), made: Seq::empty() };
    lemma_trash_steps_shape(ops, m);
    lemma_move_fold_adds(ops, m, probes, acts, 0, st0);
    assert(first_missing(ops, m, 0) is None);
    assert(stuck is None);
    crate::ordering::lemma_greedy_commits_each_once(reqs, acts);
    if crate::ordering::fresh_temps(reqs) {
        crate::ordering::lemma_committed_files_stay(reqs, acts);
        assert forall|t: int, u: int|
            0 <= t < u < acts.len() && (#[trigger] acts[t]) is Commit implies (#[trigger] action_move(reqs, acts, u)).1
                != action_move(reqs, acts, t).2 by {
            assert(crate::ordering::flow_after(reqs, acts.take(u)).locs[crate::ordering::action_index(acts[u])]
                != reqs[crate::ordering::action_index(acts[t])].to@);
        }
    }
}

proof fn lemma_trash_steps_shape(ops: Seq<Operation>, m: Seq<ManifestEntry>)
    ensures
        trash_steps(ops, m).len() == trash_ids(ops).len(),
        forall|t: int|
            0 <= t < trash_steps(ops, m).len() ==> (#[trigger] trash_steps(ops, m)[t]).op == PlannedKind::Trash
                && trash_steps(ops, m)[t].id == Some(trash_ids(ops)[t]),
    decreases ops.len(),
{
    if ops.len() > 0 {
        lemma_trash_steps_shape(ops.drop_last(), m);
    }
}

proof fn lemma_adds_trans(a: Seq<StepV>, b: Seq<StepV>, c: Seq<StepV>)
    requires
        adds_dirs_and_renames(a, b),
        adds_dirs_and_renames(b, c),
    ensures
        adds_dirs_and_renames(a, c),
{
    assert(c.take(a.len() as int) =~= b.take(a.len() as int)) by {
        assert forall|t: int| 0 <= t < a.len() implies c.take(a.len() as int)[t] == b.take(a.len() as int)[t] by {
            assert(c.take(b.len() as int)[t] == c[t]);
        }
    }
    assert forall|t: int| a.len() <= t < c.len() implies (#[trigger] c[t]).op == PlannedKind::Mkdir || is_rename_step(c[t]) by {
        if t < b.len() {
            assert(c.take(b.len() as int)[t] == c[t]);
            assert(b[t] == c[t]);
        }
    }
}

proof fn lemma_adds_push(a: Seq<StepV>, x: StepV)
    requires
        x.op == PlannedKind::Mkdir || is_rename_step(x),
    ensures
        adds_dirs_and_renames(a, a.push(x)),
{
    assert(a.push(x).take(a.len() as int) =~= a);
}

proof fn lemma_mk_components_adds(st: MkState, cur: Seq<char>, missing: Seq<Seq<char>>, i: int, prev: ParentRefV)
    ensures
        adds_dirs_and_renames(st.steps, mk_components(st, cur, missing, i, prev).0.steps),
    decreases missing.len() - i,
{
    if 0 <= i < missing.len() {
        let next = join_component(cur, missing[i]);
        match find_made(st.made, next, 0) {
            Some(mi) => {
                lemma_mk_components_adds(
                    st,
                    next,
                    missing,
                    i + 1,
                    ParentRefV::Mkdir { step: mi, parent_path: next, suffix: Seq::empty() },
                );
            },
            None => {
                let idx = st.steps.len() as int;
                let st2 = MkState {
                    steps: st.steps.push(mkdir_step_v(prev, missing[i], next)),
                    made: st.made.push((next, idx)),
                };
                lemma_adds_push(st.steps, mkdir_step_v(prev, missing[i], next));
                lemma_mk_components_adds(
                    st2,
                    next,
                    missing,
                    i + 1,
                    ParentRefV::Mkdir { step: idx, parent_path: next, suffix: Seq::empty() },
                );
                lemma_adds_trans(
                    st.steps,
                    st2.steps,
                    mk_components(
                        st2,
                        next,
                        missing,
                        i + 1,
                        ParentRefV::Mkdir { step: idx, parent_path: next, suffix: Seq::empty() },
                    ).0.steps,
                );
            },
        }
    } else {
        assert(st.steps.take(st.steps.len() as int) =~= st.steps);
    }
}

proof fn lemma_ensure_adds(st: MkState, parent: Result<ParentProbe, String>)
    ensures
        ensure_spec(st, parent) matches Ok((st2, _)) ==> adds_dirs_and_renames(st.steps, st2.steps),
{
    match parent {
        Err(_) => {},
        Ok(pp) => {
            let start = ParentRefV::Existing {
                dev: pp.identity.dev@,
                ino: pp.identity.ino@,
                parent_path: pp.existing@,
                suffix: Seq::empty(),
            };
            lemma_mk_components_adds(st, pp.existing@, strs(pp.missing@), 0, start);
        },
    }
}

proof fn lemma_move_fold_adds(
    ops: Seq<Operation>,
    m: Seq<ManifestEntry>,
    probes: Seq<OpProbe>,
    acts: Seq<MoveAction>,
    t: int,
    st: MkState,
)
    ensures
        move_fold(ops, m, probes, acts, t, st) matches Ok(fin) ==> adds_dirs_and_renames(st.steps, fin.steps),
    decreases acts.len() - t,
{
    if t < 0 || t >= acts.len() {
        assert(st.steps.take(st.steps.len() as int) =~= st.steps);
    } else {
        let reqs = move_requests(ops, probes);
        let j = move_indices(ops, ops.len() as int);
        let loc = crate::ordering::flow_after(reqs, acts.take(t)).locs;
        match acts[t] {
            MoveAction::Stage(k) => {
                let i = j[k as int];
                if !probes[i].stage.exists {
                    lemma_ensure_adds(st, probes[i].stage.parent);
                    match ensure_spec(st, probes[i].stage.parent) {
                        Err(_) => {},
                        Ok((st2, rv)) => {
                            let stp = transfer_step_v(PlannedKind::Stage, loc[k as int], probes[i].stage.path@, ops[i].id, m, rv);
                            let st3 = MkState { steps: st2.steps.push(stp), made: st2.made };
                            lemma_adds_push(st2.steps, stp);
                            lemma_adds_trans(st.steps, st2.steps, st3.steps);
                            lemma_move_fold_adds(ops, m, probes, acts, t + 1, st3);
                            if let Ok(fin) = move_fold(ops, m, probes, acts, t + 1, st3) {
                                lemma_adds_trans(st.steps, st3.steps, fin.steps);
                            }
                        },
                    }
                }
            },
            MoveAction::Commit(k) => {
                let i = j[k as int];
                lemma_ensure_adds(st, probes[i].dest.parent);
                match ensure_spec(st, probes[i].dest.parent) {
                    Err(_) => {},
                    Ok((st2, rv)) => {
                        let stp = transfer_step_v(PlannedKind::Commit, loc[k as int], ops[i].to@, ops[i].id, m, rv);
                        let st3 = MkState { steps: st2.steps.push(stp), made: st2.made };
                        lemma_adds_push(st2.steps, stp);
                        lemma_adds_trans(st.steps, st2.steps, st3.steps);
                        lemma_move_fold_adds(ops, m, probes, acts, t + 1, st3);
                        if let Ok(fin) = move_fold(ops, m, probes, acts, t + 1, st3) {
                            lemma_adds_trans(st.steps, st3.steps, fin.steps);
                        }
                    },
                }
            },
        }
    }
}

/// A parent reference that, if it names a planned directory, names a mkdir step before `bound`.
pub open spec fn ref_earlier(r: Option<ParentRefV>, bound: int, steps: Seq<StepV>) -> bool {
    r matches Some(ParentRefV::Mkdir { step, .. }) ==> 0 <= step < bound && steps[step].op == PlannedKind::Mkdir
}

/// Every step's parent reference to a planned directory names an earlier mkdir step.
pub open spec fn refs_earlier(steps: Seq<StepV>) -> bool {
    forall|t: int| 0 <= t < steps.len() ==> ref_earlier((#[trigger] steps[t]).parent, t, steps)
}

/// Every planned directory is a mkdir step of `steps`.
pub open spec fn made_in(made: Seq<(Seq<char>, int)>, steps: Seq<StepV>) -> bool {
    forall|t: int| 0 <= t < made.len() ==> ref_earlier(
        Some(ParentRefV::Mkdir { step: (#[trigger] made[t]).1, parent_path: made[t].0, suffix: Seq::empty() }),
        steps.len() as int,
        steps,
    )
}

/// In every schedule, each reference to a planned directory names a mkdir step that
/// comes earlier: a directory is always planned before what goes into it.
pub proof fn lemma_schedule_dirs_first(
    mode: SessionMode,
    root: Seq<char>,
    m: Seq<ManifestEntry>,
    ops: Seq<Operation>,
    probes: Seq<OpProbe>,
)
    ensures
        refs_earlier(spec_schedule(mode, root, m, ops, probes).steps),
{
    let tsteps = trash_steps(ops, m);
    lemma_trash_steps_refs(ops, m);
    let st0 = MkState { steps: tsteps, made: Seq::empty() };
    let (acts, stuck) = greedy_of(move_requests(ops, probes));
    lemma_move_fold_refs(ops, m, probes, acts, 0, st0);
    lemma_copy_fold_refs(ops, m, probes, 0, st0, duplicate_list(ops, ops).map_values(|d: Seq<char>| duplicate_msg(d)));
}

proof fn lemma_copy_fold_refs(
    ops: Seq<Operation>,
    m: Seq<ManifestEntry>,
    probes: Seq<OpProbe>,
    i: int,
    st: MkState,
    errs: Seq<Seq<char>>,
)
    requires
        refs_earlier(st.steps),
        made_in(st.made, st.steps),
    ensures
        copy_fold(ops, m, probes, i, st, errs) matches Ok((fin, _)) ==> refs_earlier(fin.steps),
    decreases ops.len() - i,
{
    if 0 <= i < ops.len() {
        if ops[i].kind != OpKind::Copy {
            lemma_copy_fold_refs(ops, m, probes, i + 1, st, errs);
        } else if probes[i].dest.exists {
            lemma_copy_fold_refs(ops, m, probes, i + 1, st, errs.push(copy_exists_msg(ops[i].id, ops[i].to@)));
        } else {
            lemma_ensure_refs(st, probes[i].dest.parent);
            match ensure_spec(st, probes[i].dest.parent) {
                Err(_) => {},
                Ok((st2, rv)) => {
                    let stp = transfer_step_v(PlannedKind::Copy, ops[i].from@, ops[i].to@, ops[i].id, m, rv);
                    lemma_refs_push(st2, stp);
                    lemma_copy_fold_refs(ops, m, probes, i + 1, MkState { steps: st2.steps.push(stp), made: st2.made }, errs);
                },
            }
        }
    }
}

proof fn lemma_trash_steps_refs(ops: Seq<Operation>, m: Seq<ManifestEntry>)
    ensures
        refs_earlier(trash_steps(ops, m)),
    decreases ops.len(),
{
    if ops.len() > 0 {
        lemma_trash_steps_refs(ops.drop_last(), m);
        let prev = trash_steps(ops.drop_last(), m);
        let cur = trash_steps(ops, m);
        assert forall|t: int| 0 <= t < cur.len() implies ref_earlier((#[trigger] cur[t]).parent, t, cur) by {
            if t < prev.len() {
                assert(cur[t] == prev[t]);
            }
        }
    }
}

proof fn lemma_find_made_in(made: Seq<(Seq<char>, int)>, p: Seq<char>, t: int)
    requires
        0 <= t,
    ensures
        find_made(made, p, t) matches Some(i) ==> exists|u: int| 0 <= u < made.len() && (#[trigger] made[u]).1 == i,
    decreases made.len() - t,
{
    if t < made.len() && !path_eq_of(made[t].0, p) {
        lemma_find_made_in(made, p, t + 1);
    }
}

/// Pushing a step whose reference names an earlier mkdir step keeps every reference
/// and every planned directory good.
proof fn lemma_refs_push(st: MkState, x: StepV)
    requires
        refs_earlier(st.steps),
        made_in(st.made, st.steps),
        ref_earlier(x.parent, st.steps.len() as int, st.steps),
    ensures
        refs_earlier(st.steps.push(x)),
        made_in(st.made, st.steps.push(x)),
{
    let s2 = st.steps.push(x);
    assert forall|t: int| 0 <= t < s2.len() implies ref_earlier((#[trigger] s2[t]).parent, t, s2) by {
        if t < st.steps.len() {
            assert(s2[t] == st.steps[t]);
            assert(ref_earlier(st.steps[t].parent, t, st.steps));
            if let Some(ParentRefV::Mkdir { step, .. }) = s2[t].parent {
                assert(s2[step] == st.steps[step]);
            }
        } else {
            if let Some(ParentRefV::Mkdir { step, .. }) = x.parent {
                assert(s2[step] == st.steps[step]);
            }
        }
    }
    assert forall|t: int| 0 <= t < st.made.len() implies ref_earlier(
        Some(ParentRefV::Mkdir { step: (#[trigger] st.made[t]).1, parent_path: st.made[t].0, suffix: Seq::empty() }),
        s2.len() as int,
        s2,
    ) by {
        assert(ref_earlier(
            Some(ParentRefV::Mkdir { step: st.made[t].1, parent_path: st.made[t].0, suffix: Seq::empty() }),
            st.steps.len() as int,
            st.steps,
        ));
        assert(s2[st.made[t].1] == st.steps[st.made[t].1]);
    }
}

proof fn lemma_mk_components_refs(st: MkState, cur: Seq<char>, missing: Seq<Seq<char>>, i: int, prev: ParentRefV)
    requires
        refs_earlier(st.steps),
        made_in(st.made, st.steps),
        ref_earlier(Some(prev), st.steps.len() as int, st.steps),
    ensures
        ({
            let (st2, r) = mk_components(st, cur, missing, i, prev);
            &&& refs_earlier(st2.steps)
            &&& made_in(st2.made, st2.steps)
            &&& ref_earlier(Some(r), st2.steps.len() as int, st2.steps)
        }),
    decreases missing.len() - i,
{
    if 0 <= i < missing.len() {
        let next = join_component(cur, missing[i]);
        match find_made(st.made, next, 0) {
            Some(mi) => {
                lemma_find_made_in(st.made, next, 0);
                let u = choose|u: int| 0 <= u < st.made.len() && (#[trigger] st.made[u]).1 == mi;
                assert(ref_earlier(
                    Some(ParentRefV::Mkdir { step: st.made[u].1, parent_path: st.made[u].0, suffix: Seq::empty() }),
                    st.steps.len() as int,
                    st.steps,
                ));
                lemma_mk_components_refs(
                    st,
                    next,
                    missing,
                    i + 1,
                    ParentRefV::Mkdir { step: mi, parent_path: next, suffix: Seq::empty() },
                );
            },
            None => {
                let idx = st.steps.len() as int;
                let x = mkdir_step_v(prev, missing[i], next);
                let st2 = MkState { steps: st.steps.push(x), made: st.made.push((next, idx)) };
                lemma_refs_push(st, x);
                assert(made_in(st2.made, st2.steps)) by {
                    assert forall|t: int| 0 <= t < st2.made.len() implies ref_earlier(
                        Some(ParentRefV::Mkdir { step: (#[trigger] st2.made[t]).1, parent_path: st2.made[t].0, suffix: Seq::empty() }),
                        st2.steps.len() as int,
                        st2.steps,
                    ) by {
                        if t < st.made.len() {
                            assert(st2.made[t] == st.made[t]);
                        }
                    }
                }
                lemma_mk_components_refs(
                    st2,
                    next,
                    missing,
                    i + 1,
                    ParentRefV::Mkdir { step: idx, parent_path: next, suffix: Seq::empty() },
                );
            },
        }
    }
}

proof fn lemma_ensure_refs(st: MkState, parent: Result<ParentProbe, String>)
    requires
        refs_earlier(st.steps),
        made_in(st.made, st.steps),
    ensures
        ensure_spec(st, parent) matches Ok((st2, r)) ==> {
            &&& refs_earlier(st2.steps)
            &&& made_in(st2.made, st2.steps)
            &&& ref_earlier(Some(r), st2.steps.len() as int, st2.steps)
        },
{
    match parent {
        Err(_) => {},
        Ok(pp) => {
            let start = ParentRefV::Existing {
                dev: pp.identity.dev@,
                ino: pp.identity.ino@,
                parent_path: pp.existing@,
                suffix: Seq::empty(),
            };
            lemma_mk_components_refs(st, pp.existing@, strs(pp.missing@), 0, start);
        },
    }
}

proof fn lemma_move_fold_refs(
    ops: Seq<Operation>,
    m: Seq<ManifestEntry>,
    probes: Seq<OpProbe>,
    acts: Seq<MoveAction>,
    t: int,
    st: MkState,
)
    requires
        refs_earlier(st.steps),
        made_in(st.made, st.steps),
    ensures
        move_fold(ops, m, probes, acts, t, st) matches Ok(fin) ==> refs_earlier(fin.steps),
    decreases acts.len() - t,
{
    if 0 <= t < acts.len() {
        let reqs = move_requests(ops, probes);
        let j = move_indices(ops, ops.len() as int);
        let loc = crate::ordering::flow_after(reqs, acts.take(t)).locs;
        match acts[t] {
            MoveAction::Stage(k) => {
                let i = j[k as int];
                if !probes[i].stage.exists {
                    lemma_ensure_refs(st, probes[i].stage.parent);
                    match ensure_spec(st, probes[i].stage.parent) {
                        Err(_) => {},
                        Ok((st2, rv)) => {
                            let stp = transfer_step_v(PlannedKind::Stage, loc[k as int], probes[i].stage.path@, ops[i].id, m, rv);
                            lemma_refs_push(st2, stp);
                            lemma_move_fold_refs(ops, m, probes, acts, t + 1, MkState { steps: st2.steps.push(stp), made: st2.made });
                        },
                    }
                }
            },
            MoveAction::Commit(k) => {
                let i = j[k as int];
                lemma_ensure_refs(st, probes[i].dest.parent);
                match ensure_spec(st, probes[i].dest.parent) {
                    Err(_) => {},
                    Ok((st2, rv)) => {
                        let stp = transfer_step_v(PlannedKind::Commit, loc[k as int], ops[i].to@, ops[i].id, m, rv);
                        lemma_refs_push(st2, stp);
                        lemma_move_fold_refs(ops, m, probes, acts, t + 1, MkState { steps: st2.steps.push(stp), made: st2.made });
                    },
                }
            },
        }
    }
}

/// Some operation of kind `k` has id `id`.
pub open spec fn op_with_id(ops: Seq<Operation>, k: OpKind, id: u64) -> bool {
    exists|i: int| 0 <= i < ops.len() && ops[i].kind == k && #[trigger] ops[i].id == id
}

/// After `base`, the directory steps carry no id, and each rename step carries the id of
/// a rename operation.
pub open spec fn added_ids_from_moves(base: int, steps: Seq<StepV>, ops: Seq<Operation>) -> bool {
    forall|t: int|
        base <= t < steps.len() ==> {
            &&& (#[trigger] steps[t]).op == PlannedKind::Mkdir ==> steps[t].id is None
            &&& is_rename_step(steps[t]) ==> (steps[t].id matches Some(id) && op_with_id(ops, OpKind::Move, id))
        }
}

/// A move schedule without errors plans steps for trash and rename operations only: each
/// trash step carries the id of a trash operation, each rename step the id of a rename
/// operation, and directory steps carry none.
pub proof fn lemma_move_schedule_ids(
    root: Seq<char>,
    m: Seq<ManifestEntry>,
    ops: Seq<Operation>,
    probes: Seq<OpProbe>,
)
    requires
        ops.len() <= usize::MAX,
        greedy_order(
            move_requests(ops, probes),
            greedy_of(move_requests(ops, probes)).0,
            greedy_of(move_requests(ops, probes)).1,
        ),
        spec_schedule(SessionMode::Move, root, m, ops, probes).errors.len() == 0,
    ensures
        ({
            let steps = spec_schedule(SessionMode::Move, root, m, ops, probes).steps;
            let n = trash_steps(ops, m).len() as int;
            &&& forall|t: int| 0 <= t < n ==> ((#[trigger] steps[t]).id matches Some(id) && op_with_id(ops, OpKind::Trash, id))
            &&& added_ids_from_moves(n, steps, ops)
        }),
{
    let reqs = move_requests(ops, probes);
    let (acts, stuck) = greedy_of(reqs);
    lemma_move_indices_len(ops, ops.len() as int);
    let tsteps = trash_steps(ops, m);
    let st0 = MkState { steps: tsteps, made: Seq::empty() };
    lemma_move_schedule_shape(root, m, ops, probes);
    lemma_trash_steps_ids(ops, m);
    lemma_actions_in_range(reqs, acts, acts.len() as int);
    lemma_move_indices_kind(ops, ops.len() as int);
    lemma_move_fold_ids(ops, m, probes, acts, 0, st0);
    let steps = spec_schedule(SessionMode::Move, root, m, ops, probes).steps;
    assert(added_ids_from_moves(tsteps.len() as int, tsteps, ops));
    assert(move_fold(ops, m, probes, acts, 0, st0) is Ok);
    assert forall|t: int| 0 <= t < tsteps.len() implies (#[trigger] steps[t]).id matches Some(id) && op_with_id(
        ops,
        OpKind::Trash,
        id,
    ) by {
        assert(steps.take(tsteps.len() as int)[t] == steps[t]);
        assert(tsteps[t] == steps[t]);
    }
}

proof fn lemma_trash_steps_ids(ops: Seq<Operation>, m: Seq<ManifestEntry>)
    ensures
        forall|t: int|
            0 <= t < trash_steps(ops, m).len() ==> ((#[trigger] trash_steps(ops, m)[t]).id matches Some(id) && op_with_id(ops, OpKind::Trash, id)),
    decreases ops.len(),
{
    if ops.len() > 0 {
        let pre = ops.drop_last();
        lemma_trash_steps_ids(pre, m);
        let cur = trash_steps(ops, m);
        let prev = trash_steps(pre, m);
        assert forall|t: int| 0 <= t < cur.len() implies (#[trigger] cur[t]).id matches Some(id) && op_with_id(
            ops,
            OpKind::Trash,
            id,
        ) by {
            if t < prev.len() {
                assert(cur[t] == prev[t]);
                let id = prev[t].id->0;
                let w = choose|i: int| 0 <= i < pre.len() && pre[i].kind == OpKind::Trash && #[trigger] pre[i].id == id;
                assert(ops[w] == pre[w]);
            } else {
                assert(ops[ops.len() - 1] == ops.last());
            }
        }
    }
}

proof fn lemma_move_indices_kind(ops: Seq<Operation>, n: int)
    ensures
        forall|k: int|
            0 <= k < move_indices(ops, n).len() ==> 0 <= #[trigger] move_indices(ops, n)[k] < ops.len() && ops[move_indices(
                ops,
                n,
            )[k]].kind == OpKind::Move,
    decreases n,
{
    if 0 < n <= ops.len() {
        lemma_move_indices_kind(ops, n - 1);
    }
}

proof fn lemma_mk_components_ids(st: MkState, cur: Seq<char>, missing: Seq<Seq<char>>, i: int, prev: ParentRefV, ops: Seq<Operation>)
    ensures
        forall|base: int|
            0 <= base <= st.steps.len() && #[trigger] added_ids_from_moves(base, st.steps, ops) ==> added_ids_from_moves(
                base,
                mk_components(st, cur, missing, i, prev).0.steps,
                ops,
            ),
    decreases missing.len() - i,
{
    if 0 <= i < missing.len() {
        let next = join_component(cur, missing[i]);
        match find_made(st.made, next, 0) {
            Some(mi) => {
                lemma_mk_components_ids(
                    st,
                    next,
                    missing,
                    i + 1,
                    ParentRefV::Mkdir { step: mi, parent_path: next, suffix: Seq::empty() },
                    ops,
                );
            },
            None => {
                let idx = st.steps.len() as int;
                let st2 = MkState {
                    steps: st.steps.push(mkdir_step_v(prev, missing[i], next)),
                    made: st.made.push((next, idx)),
                };
                lemma_mk_components_ids(
                    st2,
                    next,
                    missing,
                    i + 1,
                    ParentRefV::Mkdir { step: idx, parent_path: next, suffix: Seq::empty() },
                    ops,
                );
                assert forall|base: int|
                    0 <= base <= st.steps.len() && #[trigger] added_ids_from_moves(base, st.steps, ops) implies added_ids_from_moves(
                    base,
                    st2.steps,
                    ops,
                ) by {
                    assert forall|t: int| base <= t < st2.steps.len() implies {
                        &&& (#[trigger] st2.steps[t]).op == PlannedKind::Mkdir ==> st2.steps[t].id is None
                        &&& is_rename_step(st2.steps[t]) ==> (st2.steps[t].id matches Some(id) && op_with_id(ops, OpKind::Move, id))
                    } by {
                        if t < st.steps.len() {
                            assert(st2.steps[t] == st.steps[t]);
                        }
                    }
                }
            },
        }
    }
}

proof fn lemma_move_fold_ids(
    ops: Seq<Operation>,
    m: Seq<ManifestEntry>,
    probes: Seq<OpProbe>,
    acts: Seq<MoveAction>,
    t: int,
    st: MkState,
)
    requires
        0 <= t <= acts.len(),
        forall|u: int| 0 <= u < acts.len() ==> 0 <= action_index(#[trigger] acts[u]) < move_requests(ops, probes).len(),
        forall|k: int|
            0 <= k < move_indices(ops, ops.len() as int).len() ==> 0 <= #[trigger] move_indices(ops, ops.len() as int)[k]
                < ops.len() && ops[move_indices(ops, ops.len() as int)[k]].kind == OpKind::Move,
    ensures
        forall|base: int|
            0 <= base <= st.steps.len() && #[trigger] added_ids_from_moves(base, st.steps, ops) ==> (move_fold(
                ops,
                m,
                probes,
                acts,
                t,
                st,
            ) matches Ok(fin) ==> added_ids_from_moves(base, fin.steps, ops)),
    decreases acts.len() - t,
{
    if t < acts.len() {
        let reqs = move_requests(ops, probes);
        let j = move_indices(ops, ops.len() as int);
        let loc = crate::ordering::flow_after(reqs, acts.take(t)).locs;
        assert(0 <= action_index(acts[t]) < reqs.len());
        let (parent, kind) = match acts[t] {
            MoveAction::Stage(k) => (probes[j[k as int]].stage.parent, PlannedKind::Stage),
            MoveAction::Commit(k) => (probes[j[k as int]].dest.parent, PlannedKind::Commit),
        };
        let k = action_index(acts[t]);
        let i = j[k];
        assert(ops[i].kind == OpKind::Move);
        match parent {
            Err(_) => {},
            Ok(pp) => {
                let start = ParentRefV::Existing {
                    dev: pp.identity.dev@,
                    ino: pp.identity.ino@,
                    parent_path: pp.existing@,
                    suffix: Seq::empty(),
                };
                lemma_mk_components_ids(st, pp.existing@, strs(pp.missing@), 0, start, ops);
                lemma_mk_components_adds(st, pp.existing@, strs(pp.missing@), 0, start);
            },
        }
        match ensure_spec(st, parent) {
            Err(_) => {},
            Ok((st2, rv)) => {
                let to = match acts[t] {
                    MoveAction::Stage(_) => probes[i].stage.path@,
                    MoveAction::Commit(_) => ops[i].to@,
                };
                let stp = transfer_step_v(kind, loc[k], to, ops[i].id, m, rv);
                let st3 = MkState { steps: st2.steps.push(stp), made: st2.made };
                lemma_move_fold_ids(ops, m, probes, acts, t + 1, st3);
                assert forall|base: int|
                    0 <= base <= st.steps.len() && #[trigger] added_ids_from_moves(base, st.steps, ops) implies added_ids_from_moves(
                    base,
                    st3.steps,
                    ops,
                ) by {
                    assert(added_ids_from_moves(base, st2.steps, ops));
                    assert forall|u: int| base <= u < st3.steps.len() implies {
                        &&& (#[trigger] st3.steps[u]).op == PlannedKind::Mkdir ==> st3.steps[u].id is None
                        &&& is_rename_step(st3.steps[u]) ==> (st3.steps[u].id matches Some(id) && op_with_id(ops, OpKind::Move, id))
                    } by {
                        if u < st2.steps.len() {
                            assert(st3.steps[u] == st2.steps[u]);
                        } else {
                            assert(st3.steps[u] == stp);
                            assert(ops[i].id == ops[i].id);
                        }
                    }
                }
            },
        }
    }
}

/// A destination is reported outside the root exactly when it is neither the root nor
/// the root, a `/` and a rest: nothing below the root is ever reported, and everything
/// else is.
pub proof fn lemma_outside_root_exactly(root: Seq<char>, dest: Seq<char>)
    ensures
        spec_outside_root(root, dest) <==> !(dest == root || exists|rest: Seq<char>| dest == root + seq!['/'] + rest),
        !spec_outside_root(root, root),
        forall|rest: Seq<char>| !spec_outside_root(root, #[trigger] (root + seq!['/'] + rest)),
{
    let pre = root.push('/');
    assert(pre =~= root + seq!['/']);
    if starts_with(dest, pre) {
        let rest = dest.skip(pre.len() as int);
        assert(dest =~= root + seq!['/'] + rest);
    }
    if exists|rest: Seq<char>| dest == root + seq!['/'] + rest {
        let rest = choose|rest: Seq<char>| dest == root + seq!['/'] + rest;
        assert(dest.subrange(0, pre.len() as int) =~= pre);
    }
    assert forall|rest: Seq<char>| !spec_outside_root(root, #[trigger] (root + seq!['/'] + rest)) by {
        let d = root + seq!['/'] + rest;
        assert(d.subrange(0, pre.len() as int) =~= pre);
    }
}

/// The destinations a schedule reports outside the root are exactly those of its moves
/// and copies that lie outside it, each once.
pub proof fn lemma_outside_list_exactly(root: Seq<char>, ops: Seq<Operation>)
    ensures
        forall|d: Seq<char>|
            #[trigger] outside_list(root, ops).contains(d) <==> exists|i: int|
                0 <= i < ops.len() && has_dest(ops[i].kind) && #[trigger] ops[i].to@ == d && spec_outside_root(root, d),
        outside_list(root, ops).no_duplicates(),
    decreases ops.len(),
{
    if ops.len() > 0 {
        let pre = ops.drop_last();
        lemma_outside_list_exactly(root, pre);
        let prev = outside_list(root, pre);
        let o = ops.last();
        assert forall|d: Seq<char>|
            #[trigger] outside_list(root, ops).contains(d) <==> exists|i: int|
                0 <= i < ops.len() && has_dest(ops[i].kind) && #[trigger] ops[i].to@ == d && spec_outside_root(root, d) by {
            if outside_list(root, ops).contains(d) {
                if prev.contains(d) {
                    let i = choose|i: int|
                        0 <= i < pre.len() && has_dest(pre[i].kind) && #[trigger] pre[i].to@ == d && spec_outside_root(root, d);
                    assert(ops[i] == pre[i]);
                } else {
                    let t = choose|t: int| 0 <= t < outside_list(root, ops).len() && outside_list(root, ops)[t] == d;
                    assert(ops[ops.len() - 1] == o);
                }
            }
            if exists|i: int|
                0 <= i < ops.len() && has_dest(ops[i].kind) && #[trigger] ops[i].to@ == d && spec_outside_root(root, d) {
                let i = choose|i: int|
                    0 <= i < ops.len() && has_dest(ops[i].kind) && #[trigger] ops[i].to@ == d && spec_outside_root(root, d);
                if i < pre.len() {
                    assert(pre[i] == ops[i]);
                    assert(prev.contains(d));
                    let t = choose|t: int| 0 <= t < prev.len() && prev[t] == d;
                    assert(outside_list(root, ops)[t] == d);
                } else {
                    assert(ops[i] == o);
                    if !prev.contains(d) {
                        assert(outside_list(root, ops)[prev.len() as int] == d);
                    } else {
                        let t = choose|t: int| 0 <= t < prev.len() && prev[t] == d;
                        assert(outside_list(root, ops)[t] == d);
                    }
                }
            }
        }
    }
}

} // verus!
