//! The order in which renames run so that no rename lands on a file that has yet to
//! leave, with cycles broken by parking one file on a fresh path first.

use crate::text::str_eq;
use vstd::prelude::*;
use vstd::relations::injective_on;
use vstd::set_lib::{lemma_int_range, lemma_len_subset, lemma_map_size, lemma_map_size_bound, lemma_subset_equality, set_int_range};

verus! {

/// One rename to order: its id, its source, its destination, and a fresh path where
/// the source may wait while a cycle is broken.
pub struct MoveRequest {
    pub id: u64,
    pub from: String,
    pub to: String,
    pub temp: String,
}

#[derive(Clone, Copy, Debug, PartialEq, Eq, Structural)]
pub enum MoveAction {
    /// Move request `k` from where it is to its waiting path.
    Stage(usize),
    /// Move request `k` from where it is to its destination.
    Commit(usize),
}

/// The actions in order, and the id of the request whose cycle could not be broken
/// when the ordering stopped early.
pub struct MoveOrder {
    pub actions: Vec<MoveAction>,
    pub stuck: Option<u64>,
}

/// Where each request's file is, which requests reached their destination, and the
/// ids of the requests that have been staged.
pub struct Flow {
    pub locs: Seq<Seq<char>>,
    pub done: Seq<bool>,
    pub staged: Set<u64>,
}

pub open spec fn initial_flow(reqs: Seq<MoveRequest>) -> Flow {
    Flow {
        locs: Seq::new(reqs.len(), |k: int| reqs[k].from@),
        done: Seq::new(reqs.len(), |k: int| false),
        staged: Set::empty(),
    }
}

/// Some file still waiting to move sits on the destination of request `k`.
pub open spec fn blocked(reqs: Seq<MoveRequest>, f: Flow, k: int) -> bool {
    exists|j: int| 0 <= j < reqs.len() && !f.done[j] && #[trigger] f.locs[j] == reqs[k].to@
}

pub open spec fn committable(reqs: Seq<MoveRequest>, f: Flow, k: int) -> bool {
    0 <= k < reqs.len() && !f.done[k] && !blocked(reqs, f, k)
}

/// The first committable request at or after `start`, or -1.
pub open spec fn first_committable(reqs: Seq<MoveRequest>, f: Flow, start: int) -> int
    decreases reqs.len() - start,
{
    if start < 0 || start >= reqs.len() {
        -1
    } else if committable(reqs, f, start) {
        start
    } else {
        first_committable(reqs, f, start + 1)
    }
}

/// The first request at or after `start` that has not reached its destination, or -1.
pub open spec fn first_pending(f: Flow, n: int, start: int) -> int
    decreases n - start,
{
    if start < 0 || start >= n {
        -1
    } else if !f.done[start] {
        start
    } else {
        first_pending(f, n, start + 1)
    }
}

pub open spec fn all_done(f: Flow, n: int) -> bool {
    forall|k: int| 0 <= k < n ==> #[trigger] f.done[k]
}

/// The greedy choice: commit the first request whose destination is free; when every
/// destination is still occupied, stage the first request that has not finished.
pub open spec fn next_action(reqs: Seq<MoveRequest>, f: Flow) -> MoveAction {
    let c = first_committable(reqs, f, 0);
    if c >= 0 {
        MoveAction::Commit(c as usize)
    } else {
        MoveAction::Stage(first_pending(f, reqs.len() as int, 0) as usize)
    }
}

pub open spec fn apply_action(reqs: Seq<MoveRequest>, f: Flow, a: MoveAction) -> Flow {
    match a {
        MoveAction::Stage(k) => Flow {
            locs: f.locs.update(k as int, reqs[k as int].temp@),
            done: f.done,
            staged: f.staged.insert(reqs[k as int].id),
        },
        MoveAction::Commit(k) => Flow {
            locs: f.locs.update(k as int, reqs[k as int].to@),
            done: f.done.update(k as int, true),
            staged: f.staged,
        },
    }
}

/// The state after running `acts` from the start.
pub open spec fn flow_after(reqs: Seq<MoveRequest>, acts: Seq<MoveAction>) -> Flow
    decreases acts.len(),
{
    if acts.len() == 0 {
        initial_flow(reqs)
    } else {
        apply_action(reqs, flow_after(reqs, acts.drop_last()), acts.last())
    }
}

/// Every action is the greedy choice at its point, and no request is staged twice.
pub open spec fn greedy_actions(reqs: Seq<MoveRequest>, acts: Seq<MoveAction>) -> bool
    decreases acts.len(),
{
    acts.len() == 0 || {
        let f = flow_after(reqs, acts.drop_last());
        &&& greedy_actions(reqs, acts.drop_last())
        &&& !all_done(f, reqs.len() as int)
        &&& acts.last() == next_action(reqs, f)
        &&& match acts.last() {
            MoveAction::Stage(k) => !f.staged.contains(reqs[k as int].id),
            MoveAction::Commit(_) => true,
        }
    }
}

/// `acts` is the whole greedy run: it ends with every request at its destination, or,
/// with `stuck`, where the next choice would stage an already staged request again.
pub open spec fn greedy_order(reqs: Seq<MoveRequest>, acts: Seq<MoveAction>, stuck: Option<u64>) -> bool {
    let f = flow_after(reqs, acts);
    &&& greedy_actions(reqs, acts)
    &&& match stuck {
        None => all_done(f, reqs.len() as int),
        Some(id) => {
            &&& !all_done(f, reqs.len() as int)
            &&& next_action(reqs, f) matches MoveAction::Stage(k)
            &&& f.staged.contains(reqs[k as int].id)
            &&& id == reqs[k as int].id
        },
    }
}

pub open spec fn count_false(s: Seq<bool>) -> nat
    decreases s.len(),
{
    if s.len() == 0 {
        0
    } else {
        count_false(s.drop_last()) + if s.last() {
            0nat
        } else {
            1nat
        }
    }
}

proof fn lemma_count_false_update(s: Seq<bool>, i: int)
    requires
        0 <= i < s.len(),
        !s[i],
    ensures
        count_false(s.update(i, true)) + 1 == count_false(s),
    decreases s.len(),
{
    if i == s.len() - 1 {
        assert(s.update(i, true).drop_last() =~= s.drop_last());
    } else {
        lemma_count_false_update(s.drop_last(), i);
        assert(s.update(i, true).drop_last() =~= s.drop_last().update(i, true));
    }
}

proof fn lemma_first_committable_from(reqs: Seq<MoveRequest>, f: Flow, s: int, k: int)
    requires
        0 <= s <= k <= reqs.len(),
        forall|i: int| s <= i < k ==> !committable(reqs, f, i),
    ensures
        first_committable(reqs, f, s) == first_committable(reqs, f, k),
    decreases k - s,
{
    if s < k {
        lemma_first_committable_from(reqs, f, s + 1, k);
    }
}

proof fn lemma_first_pending_from(f: Flow, n: int, s: int, k: int)
    requires
        0 <= s <= k <= n,
        forall|i: int| s <= i < k ==> f.done[i],
    ensures
        first_pending(f, n, s) == first_pending(f, n, k),
    decreases k - s,
{
    if s < k {
        lemma_first_pending_from(f, n, s + 1, k);
    }
}

/// How the working vectors of `order_moves` stand for the flow `f`.
spec fn state_ok(
    reqs: Seq<MoveRequest>,
    blockers: Seq<Vec<usize>>,
    extra: Seq<(usize, usize)>,
    done: Seq<bool>,
    flag: Seq<bool>,
    staged_ids: Seq<u64>,
    f: Flow,
) -> bool {
    let n = reqs.len();
    &&& blockers.len() == n
    &&& done.len() == n
    &&& flag.len() == n
    &&& f.locs.len() == n
    &&& f.done == done
    &&& forall|k: int|
        0 <= k < n ==> #[trigger] f.locs[k] == (if done[k] {
            reqs[k].to@
        } else if flag[k] {
            reqs[k].temp@
        } else {
            reqs[k].from@
        })
    &&& forall|k: int| 0 <= k < n && #[trigger] flag[k] ==> f.staged.contains(reqs[k].id)
    &&& forall|id: u64| f.staged.contains(id) <==> staged_ids.contains(id)
    &&& forall|k: int, i: int|
        0 <= k < n && 0 <= i < blockers[k]@.len() ==> (#[trigger] blockers[k]@[i]) < n
    &&& forall|i: int| 0 <= i < extra.len() ==> (#[trigger] extra[i]).0 < n && extra[i].1 < n
    &&& forall|k: int, j: int|
        #![trigger blockers[k], f.locs[j]]
        0 <= k < n && 0 <= j < n && !done[j] && f.locs[j] == reqs[k].to@ ==> (
        blockers[k]@.contains(j as usize) || extra.contains((k as usize, j as usize)))
}

/// Whether the destination of request `k` is free of files that have yet to move.
fn is_free(
    reqs: &Vec<MoveRequest>,
    blockers: &Vec<Vec<usize>>,
    extra: &Vec<(usize, usize)>,
    done: &Vec<bool>,
    flag: &Vec<bool>,
    staged_ids: &Vec<u64>,
    k: usize,
    Ghost(f): Ghost<Flow>,
) -> (b: bool)
    requires
        state_ok(reqs@, blockers@, extra@, done@, flag@, staged_ids@, f),
        k < reqs.len(),
    ensures
        b == !blocked(reqs@, f, k as int),
{
    let to = reqs[k].to.as_str();
    let list = &blockers[k];
    let mut free = true;
    let mut i: usize = 0;
    while i < list.len() && free
        invariant
            state_ok(reqs@, blockers@, extra@, done@, flag@, staged_ids@, f),
            k < reqs.len(),
            to@ == reqs@[k as int].to@,
            list@ == blockers@[k as int]@,
            i <= list.len(),
            free ==> forall|t: int|
                0 <= t < i ==> done@[#[trigger] list@[t] as int] || f.locs[list@[t] as int] != to@,
            !free ==> blocked(reqs@, f, k as int),
        decreases list.len() - i,
    {
        let b = list[i];
        assert(b < reqs.len()) by {
            assert(blockers@[k as int]@[i as int] < reqs@.len());
        }
        if !done[b] {
            let loc = if flag[b] {
                reqs[b].temp.as_str()
            } else {
                reqs[b].from.as_str()
            };
            assert(loc@ == f.locs[b as int]);
            if str_eq(loc, to) {
                free = false;
                assert(!f.done[b as int] && f.locs[b as int] == reqs@[k as int].to@);
            }
        }
        i += 1;
    }
    let mut e: usize = 0;
    while e < extra.len() && free
        invariant
            state_ok(reqs@, blockers@, extra@, done@, flag@, staged_ids@, f),
            k < reqs.len(),
            to@ == reqs@[k as int].to@,
            e <= extra.len(),
            free ==> forall|t: int|
                0 <= t < e && (#[trigger] extra@[t]).0 == k ==> done@[extra@[t].1 as int]
                    || f.locs[extra@[t].1 as int] != to@,
            free ==> forall|t: int|
                0 <= t < blockers@[k as int]@.len() ==> done@[#[trigger] blockers@[k as int]@[t] as int]
                    || f.locs[blockers@[k as int]@[t] as int] != to@,
            !free ==> blocked(reqs@, f, k as int),
        decreases extra.len() - e,
    {
        let (kk, b) = extra[e];
        assert(extra@[e as int].1 < reqs@.len());
        if kk == k && !done[b] {
            let loc = if flag[b] {
                reqs[b].temp.as_str()
            } else {
                reqs[b].from.as_str()
            };
            assert(loc@ == f.locs[b as int]);
            if str_eq(loc, to) {
                free = false;
                assert(!f.done[b as int] && f.locs[b as int] == reqs@[k as int].to@);
            }
        }
        e += 1;
    }
    proof {
        if free && blocked(reqs@, f, k as int) {
            let j = choose|j: int|
                0 <= j < reqs@.len() && !f.done[j] && #[trigger] f.locs[j] == reqs@[k as int].to@;
            assert(blockers@[k as int]@.contains(j as usize) || extra@.contains(
                (k as usize, j as usize),
            ));
            if blockers@[k as int]@.contains(j as usize) {
                let t = choose|t: int|
                    0 <= t < blockers@[k as int]@.len() && blockers@[k as int]@[t] == j as usize;
                assert(done@[blockers@[k as int]@[t] as int] || f.locs[blockers@[k as int]@[t] as int]
                    != to@);
            } else {
                let t = choose|t: int| 0 <= t < extra@.len() && extra@[t] == (k as usize, j as usize);
                assert(extra@[t].0 == k);
            }
        }
    }
    free
}


proof fn lemma_push_contains<T>(s: Seq<T>, x: T)
    ensures
        s.push(x).contains(x),
        forall|y: T| s.contains(y) ==> s.push(x).contains(y),
{
    assert(s.push(x)[s.len() as int] == x);
    assert forall|y: T| s.contains(y) implies s.push(x).contains(y) by {
        let t = choose|t: int| 0 <= t < s.len() && s[t] == y;
        assert(s.push(x)[t] == y);
    }
}

/// Whether `id` occurs in `ids`.
fn contains_id(ids: &Vec<u64>, id: u64) -> (b: bool)
    ensures
        b == ids@.contains(id),
{
    let mut i: usize = 0;
    while i < ids.len()
        invariant
            i <= ids.len(),
            forall|t: int| 0 <= t < i ==> ids@[t] != id,
        decreases ids.len() - i,
    {
        if ids[i] == id {
            assert(ids@[i as int] == id);
            return true;
        }
        i += 1;
    }
    false
}

/// For each request `k`, the requests whose source is the destination of `k`.
fn initial_blockers(reqs: &Vec<MoveRequest>) -> (blockers: Vec<Vec<usize>>)
    ensures
        blockers.len() == reqs.len(),
        forall|k: int, i: int|
            0 <= k < reqs.len() && 0 <= i < blockers[k]@.len() ==> (#[trigger] blockers[k]@[i])
                < reqs.len(),
        forall|k: int, j: int|
            #![trigger blockers[k], reqs@[j]]
            0 <= k < reqs.len() && 0 <= j < reqs.len() && reqs@[j].from@ == reqs@[k].to@
                ==> blockers[k]@.contains(j as usize),
{
    let n = reqs.len();
    let mut blockers: Vec<Vec<usize>> = Vec::new();
    let mut k: usize = 0;
    while k < n
        invariant
            n == reqs.len(),
            k <= n,
            blockers.len() == k,
            forall|kk: int, i: int|
                0 <= kk < k && 0 <= i < blockers[kk]@.len() ==> (#[trigger] blockers[kk]@[i]) < n,
            forall|kk: int, j: int|
                #![trigger blockers[kk], reqs@[j]]
                0 <= kk < k && 0 <= j < n && reqs@[j].from@ == reqs@[kk].to@
                    ==> blockers[kk]@.contains(j as usize),
        decreases n - k,
    {
        let mut list: Vec<usize> = Vec::new();
        let mut j: usize = 0;
        while j < n
            invariant
                n == reqs.len(),
                k < n,
                j <= n,
                forall|i: int| 0 <= i < list.len() ==> list@[i] < n,
                forall|jj: int|
                    0 <= jj < j && #[trigger] reqs@[jj].from@ == reqs@[k as int].to@
                        ==> list@.contains(jj as usize),
            decreases n - j,
        {
            if str_eq(reqs[j].from.as_str(), reqs[k].to.as_str()) {
                proof {
                    lemma_push_contains(list@, j);
                }
                list.push(j);
            }
            j += 1;
        }
        blockers.push(list);
        assert(blockers@[k as int]@ == list@);
        k += 1;
    }
    blockers
}

/// Orders the renames greedily: each step commits the first request whose destination
/// no waiting file occupies; when there is none, the first unfinished request is moved
/// to its waiting path. It stops when every request is done, or when the request to
/// stage was staged before (its cycle cannot be broken).
pub fn order_moves(reqs: &Vec<MoveRequest>) -> (r: MoveOrder)
    ensures
        greedy_order(reqs@, r.actions@, r.stuck),
{
    let n = reqs.len();
    let mut blockers = initial_blockers(reqs);
    let mut done: Vec<bool> = Vec::new();
    let mut flag: Vec<bool> = Vec::new();
    let mut i: usize = 0;
    while i < n
        invariant
            i <= n,
            done.len() == i,
            flag.len() == i,
            forall|t: int| 0 <= t < i ==> !done@[t] && !flag@[t],
        decreases n - i,
    {
        done.push(false);
        flag.push(false);
        i += 1;
    }
    let mut staged_ids: Vec<u64> = Vec::new();
    let mut extra: Vec<(usize, usize)> = Vec::new();
    let mut actions: Vec<MoveAction> = Vec::new();
    let mut stuck: Option<u64> = None;
    let mut finished = false;
    let ghost mut f = initial_flow(reqs@);
    proof {
        assert(done@ =~= f.done);
        assert forall|k: int, j: int|
            #![trigger blockers[k], f.locs[j]]
            0 <= k < n && 0 <= j < n && !done@[j] && f.locs[j] == reqs@[k].to@ implies (
            blockers[k]@.contains(j as usize) || extra@.contains((k as usize, j as usize))) by {
            assert(reqs@[j].from@ == reqs@[k].to@);
        }
        assert(flow_after(reqs@, actions@) == f);
    }
    while !finished
        invariant
            n == reqs.len(),
            state_ok(reqs@, blockers@, extra@, done@, flag@, staged_ids@, f),
            f == flow_after(reqs@, actions@),
            greedy_actions(reqs@, actions@),
            finished ==> greedy_order(reqs@, actions@, stuck),
            !finished ==> stuck is None,
        decreases count_false(done@) + count_false(flag@) + (if finished {
            0nat
        } else {
            1nat
        }),
    {
        let mut c: usize = n;
        let mut k: usize = 0;
        while k < n && c == n
            invariant
                n == reqs.len(),
                state_ok(reqs@, blockers@, extra@, done@, flag@, staged_ids@, f),
                k <= n,
                c == n || (c == k && k < n && committable(reqs@, f, k as int)),
                forall|t: int| 0 <= t < k ==> !committable(reqs@, f, t),
            decreases n - k + (if c == n {
                1int
            } else {
                0int
            }),
        {
            if !done[k] && is_free(reqs, &blockers, &extra, &done, &flag, &staged_ids, k, Ghost(f)) {
                c = k;
            } else {
                k += 1;
            }
        }
        if c < n {
            proof {
                lemma_first_committable_from(reqs@, f, 0, c as int);
                lemma_count_false_update(done@, c as int);
            }
            let ghost old_actions = actions@;
            let ghost f0 = f;
            done.set(c, true);
            actions.push(MoveAction::Commit(c));
            proof {
                f = apply_action(reqs@, f0, MoveAction::Commit(c));
                assert(actions@.drop_last() =~= old_actions);
                assert(next_action(reqs@, f0) == MoveAction::Commit(c));
                assert(!all_done(f0, n as int)) by {
                    assert(!f0.done[c as int]);
                }
                assert(done@ =~= f.done);
                assert forall|kk: int, j: int|
                    #![trigger blockers[kk], f.locs[j]]
                    0 <= kk < n && 0 <= j < n && !done@[j] && f.locs[j] == reqs@[kk].to@ implies (
                    blockers[kk]@.contains(j as usize) || extra@.contains((kk as usize, j as usize))) by {
                    assert(j != c);
                    assert(f0.locs[j] == f.locs[j]);
                }
                assert forall|kk: int| 0 <= kk < n implies #[trigger] f.locs[kk] == (if done@[kk] {
                    reqs@[kk].to@
                } else if flag@[kk] {
                    reqs@[kk].temp@
                } else {
                    reqs@[kk].from@
                }) by {
                    if kk != c {
                        assert(f0.locs[kk] == f.locs[kk]);
                    }
                }
            }
        } else {
            proof {
                lemma_first_committable_from(reqs@, f, 0, n as int);
            }
            let mut p: usize = n;
            let mut q: usize = 0;
            while q < n && p == n
                invariant
                    n == reqs.len(),
                    done.len() == n,
                    q <= n,
                    p == n || (p == q && q < n && !done@[q as int]),
                    forall|t: int| 0 <= t < q ==> done@[t],
                decreases n - q + (if p == n {
                    1int
                } else {
                    0int
                }),
            {
                if !done[q] {
                    p = q;
                } else {
                    q += 1;
                }
            }
            if p == n {
                finished = true;
                proof {
                    assert(all_done(f, n as int));
                }
            } else {
                proof {
                    lemma_first_pending_from(f, n as int, 0, p as int);
                    assert(next_action(reqs@, f) == MoveAction::Stage(p));
                    assert(!all_done(f, n as int)) by {
                        assert(!f.done[p as int]);
                    }
                }
                let id = reqs[p].id;
                if contains_id(&staged_ids, id) {
                    stuck = Some(id);
                    finished = true;
                    proof {
                        assert(f.staged.contains(id));
                        assert(greedy_order(reqs@, actions@, stuck));
                    }
                } else {
                    let ghost old_actions = actions@;
                    let ghost f0 = f;
                    proof {
                        assert(!flag@[p as int]);
                        lemma_count_false_update(flag@, p as int);
                    }
                    let ghost old_ids = staged_ids@;
                    let ghost old_extra = extra@;
                    staged_ids.push(id);
                    flag.set(p, true);
                    let mut kk: usize = 0;
                    while kk < n
                        invariant
                            n == reqs.len(),
                            p < n,
                            kk <= n,
                            forall|i: int|
                                0 <= i < extra.len() ==> (#[trigger] extra@[i]).0 < n && extra@[i].1 < n,
                            forall|t: int|
                                0 <= t < kk && #[trigger] reqs@[t].to@ == reqs@[p as int].temp@
                                    ==> extra@.contains((t as usize, p)),
                            forall|e: (usize, usize)| old_extra.contains(e) ==> extra@.contains(e),
                        decreases n - kk,
                    {
                        if str_eq(reqs[kk].to.as_str(), reqs[p].temp.as_str()) {
                            proof {
                                lemma_push_contains(extra@, (kk, p));
                            }
                            extra.push((kk, p));
                        }
                        kk += 1;
                    }
                    actions.push(MoveAction::Stage(p));
                    proof {
                        f = apply_action(reqs@, f0, MoveAction::Stage(p));
                        assert(actions@.drop_last() =~= old_actions);
                        assert(done@ =~= f.done);
                        assert forall|k2: int, j: int|
                            #![trigger blockers[k2], f.locs[j]]
                            0 <= k2 < n && 0 <= j < n && !done@[j] && f.locs[j] == reqs@[k2].to@ implies (
                            blockers[k2]@.contains(j as usize) || extra@.contains(
                                (k2 as usize, j as usize),
                            )) by {
                            if j != p {
                                assert(f0.locs[j] == f.locs[j]);
                                if !blockers[k2]@.contains(j as usize) {
                                    assert(old_extra.contains((k2 as usize, j as usize)));
                                }
                            } else {
                                assert(reqs@[k2].to@ == reqs@[p as int].temp@);
                            }
                        }
                        assert forall|k2: int| 0 <= k2 < n implies #[trigger] f.locs[k2] == (if done@[k2] {
                            reqs@[k2].to@
                        } else if flag@[k2] {
                            reqs@[k2].temp@
                        } else {
                            reqs@[k2].from@
                        }) by {
                            if k2 != p {
                                assert(f0.locs[k2] == f.locs[k2]);
                            }
                        }
                        assert forall|id2: u64| f.staged.contains(id2) <==> staged_ids@.contains(id2) by {
                            if id2 != id {
                                assert(staged_ids@.contains(id2) ==> old_ids.contains(id2) || id2 == id) by {
                                    if staged_ids@.contains(id2) {
                                        let t = choose|t: int| 0 <= t < staged_ids@.len() && staged_ids@[t] == id2;
                                        if t < staged_ids@.len() - 1 {
                                            assert(old_ids[t] == id2);
                                        }
                                    }
                                }
                                assert(old_ids.contains(id2) ==> staged_ids@.contains(id2)) by {
                                    if old_ids.contains(id2) {
                                        let t = choose|t: int| 0 <= t < old_ids.len() && old_ids[t] == id2;
                                        assert(staged_ids@[t] == id2);
                                    }
                                }
                            } else {
                                assert(staged_ids@[staged_ids@.len() - 1] == id);
                            }
                        }
                    }
                }
            }
        }
    }
    MoveOrder { actions, stuck }
}


/// No two requests share a destination.
pub open spec fn distinct_tos(reqs: Seq<MoveRequest>) -> bool {
    forall|i: int, j: int| 0 <= i < reqs.len() && 0 <= j < reqs.len() && i != j ==> reqs[i].to@ != reqs[j].to@
}

/// No two requests share an id.
pub open spec fn distinct_ids(reqs: Seq<MoveRequest>) -> bool {
    forall|i: int, j: int| 0 <= i < reqs.len() && 0 <= j < reqs.len() && i != j ==> reqs[i].id != reqs[j].id
}

/// Every waiting path is its own, and is nobody's source or destination.
pub open spec fn fresh_temps(reqs: Seq<MoveRequest>) -> bool {
    forall|i: int, j: int|
        0 <= i < reqs.len() && 0 <= j < reqs.len() ==> {
            &&& reqs[i].temp@ != reqs[j].from@
            &&& reqs[i].temp@ != reqs[j].to@
            &&& (i != j ==> reqs[i].temp@ != reqs[j].temp@)
        }
}

/// The request an action moves.
pub open spec fn action_index(a: MoveAction) -> int {
    match a {
        MoveAction::Stage(k) => k as int,
        MoveAction::Commit(k) => k as int,
    }
}

/// Where an action puts its file.
pub open spec fn action_target(reqs: Seq<MoveRequest>, a: MoveAction) -> Seq<char> {
    match a {
        MoveAction::Stage(k) => reqs[k as int].temp@,
        MoveAction::Commit(k) => reqs[k as int].to@,
    }
}

/// No other request's file is where the action puts its file.
pub open spec fn lands_free(reqs: Seq<MoveRequest>, f: Flow, a: MoveAction) -> bool {
    forall|j: int|
        0 <= j < reqs.len() && j != action_index(a) ==> #[trigger] f.locs[j] != action_target(reqs, a)
}

/// Each file is at its destination once done, and at its source or its waiting path before.
pub open spec fn flow_inv(reqs: Seq<MoveRequest>, f: Flow) -> bool {
    &&& f.locs.len() == reqs.len()
    &&& f.done.len() == reqs.len()
    &&& forall|k: int|
        0 <= k < reqs.len() ==> if f.done[k] {
            #[trigger] f.locs[k] == reqs[k].to@
        } else {
            f.locs[k] == reqs[k].from@ || f.locs[k] == reqs[k].temp@
        }
}

/// With distinct ids, a staged request that is not done waits on its waiting path.
pub open spec fn staged_inv(reqs: Seq<MoveRequest>, f: Flow) -> bool {
    forall|k: int|
        0 <= k < reqs.len() && #[trigger] f.staged.contains(reqs[k].id) && !f.done[k]
            ==> f.locs[k] == reqs[k].temp@
}

proof fn lemma_first_committable_range(reqs: Seq<MoveRequest>, f: Flow, s: int)
    requires
        0 <= s,
    ensures
        first_committable(reqs, f, s) == -1 || (s <= first_committable(reqs, f, s) < reqs.len()
            && committable(reqs, f, first_committable(reqs, f, s))),
    decreases reqs.len() - s,
{
    if s < reqs.len() && !committable(reqs, f, s) {
        lemma_first_committable_range(reqs, f, s + 1);
    }
}

proof fn lemma_first_pending_range(f: Flow, n: int, s: int)
    requires
        0 <= s,
    ensures
        first_pending(f, n, s) == -1 || (s <= first_pending(f, n, s) < n && !f.done[first_pending(f, n, s)]),
        first_pending(f, n, s) == -1 ==> forall|i: int| s <= i < n ==> f.done[i],
    decreases n - s,
{
    if s < n && f.done[s] {
        lemma_first_pending_range(f, n, s + 1);
        assert(first_pending(f, n, s) == first_pending(f, n, s + 1));
    }
}

/// The action chosen in a state where some request is unfinished moves an unfinished request.
pub(crate) proof fn lemma_next_action_pending(reqs: Seq<MoveRequest>, f: Flow)
    requires
        f.done.len() == reqs.len(),
        !all_done(f, reqs.len() as int),
        reqs.len() <= usize::MAX,
    ensures
        0 <= action_index(next_action(reqs, f)) < reqs.len(),
        !f.done[action_index(next_action(reqs, f))],
        next_action(reqs, f) matches MoveAction::Commit(c) ==> committable(reqs, f, c as int),
        next_action(reqs, f) matches MoveAction::Stage(k) ==> k as int == first_pending(f, reqs.len() as int, 0)
            && forall|i: int| 0 <= i < reqs.len() && !f.done[i] ==> blocked(reqs, f, i),
{
    lemma_first_committable_range(reqs, f, 0);
    lemma_first_pending_range(f, reqs.len() as int, 0);
    if first_committable(reqs, f, 0) == -1 {
        assert forall|i: int| 0 <= i < reqs.len() && !f.done[i] implies blocked(reqs, f, i) by {
            if !blocked(reqs, f, i) {
                lemma_least_committable(reqs, f, i);
            }
        }
    }
}

proof fn lemma_least_committable(reqs: Seq<MoveRequest>, f: Flow, t: int)
    requires
        committable(reqs, f, t),
    ensures
        first_committable(reqs, f, 0) >= 0,
    decreases t,
{
    if exists|u: int| 0 <= u < t && committable(reqs, f, u) {
        let u = choose|u: int| 0 <= u < t && committable(reqs, f, u);
        lemma_least_committable(reqs, f, u);
    } else {
        lemma_first_committable_from(reqs, f, 0, t);
    }
}

/// Greedy runs stay within range and keep `flow_inv`, and, with distinct ids, `staged_inv`.
pub(crate) proof fn lemma_greedy_flow(reqs: Seq<MoveRequest>, acts: Seq<MoveAction>)
    requires
        greedy_actions(reqs, acts),
        reqs.len() <= usize::MAX,
    ensures
        flow_inv(reqs, flow_after(reqs, acts)),
        distinct_ids(reqs) ==> staged_inv(reqs, flow_after(reqs, acts)),
    decreases acts.len(),
{
    if acts.len() > 0 {
        lemma_greedy_flow(reqs, acts.drop_last());
        let f = flow_after(reqs, acts.drop_last());
        lemma_next_action_pending(reqs, f);
        let g = flow_after(reqs, acts);
        let k = action_index(acts.last());
        assert forall|j: int| 0 <= j < reqs.len() implies if g.done[j] {
            #[trigger] g.locs[j] == reqs[j].to@
        } else {
            g.locs[j] == reqs[j].from@ || g.locs[j] == reqs[j].temp@
        } by {
            if j != k {
                assert(g.locs[j] == f.locs[j]);
            }
        }
        if distinct_ids(reqs) {
            assert forall|j: int|
                0 <= j < reqs.len() && #[trigger] g.staged.contains(reqs[j].id) && !g.done[j]
                    implies g.locs[j] == reqs[j].temp@ by {
                if j != k {
                    assert(g.locs[j] == f.locs[j]);
                    assert(f.staged.contains(reqs[j].id));
                }
            }
        }
    } else {
        let f = initial_flow(reqs);
        assert(flow_inv(reqs, f));
    }
}

pub(crate) proof fn lemma_greedy_prefix(reqs: Seq<MoveRequest>, acts: Seq<MoveAction>, m: int)
    requires
        greedy_actions(reqs, acts),
        0 <= m <= acts.len(),
    ensures
        greedy_actions(reqs, acts.take(m)),
    decreases acts.len() - m,
{
    if m < acts.len() {
        lemma_greedy_prefix(reqs, acts.drop_last(), m);
        assert(acts.drop_last().take(m) =~= acts.take(m));
    } else {
        assert(acts.take(m) =~= acts);
    }
}

/// No action of a greedy run puts its file where another request's file is: with
/// distinct destinations and fresh waiting paths, nothing is ever overwritten.
pub proof fn lemma_greedy_never_overwrites(reqs: Seq<MoveRequest>, acts: Seq<MoveAction>)
    requires
        greedy_actions(reqs, acts),
        reqs.len() <= usize::MAX,
        distinct_tos(reqs),
        fresh_temps(reqs),
    ensures
        forall|t: int|
            0 <= t < acts.len() ==> lands_free(reqs, #[trigger] flow_after(reqs, acts.take(t)), acts[t]),
{
    assert forall|t: int| 0 <= t < acts.len() implies lands_free(
        reqs,
        #[trigger] flow_after(reqs, acts.take(t)),
        acts[t],
    ) by {
        lemma_greedy_prefix(reqs, acts, t + 1);
        let pre = acts.take(t + 1);
        assert(pre.drop_last() =~= acts.take(t));
        assert(pre.last() == acts[t]);
        let f = flow_after(reqs, acts.take(t));
        lemma_greedy_flow(reqs, acts.take(t));
        lemma_next_action_pending(reqs, f);
        let a = acts[t];
        assert forall|j: int| 0 <= j < reqs.len() && j != action_index(a) implies #[trigger] f.locs[j]
            != action_target(reqs, a) by {
            match a {
                MoveAction::Commit(c) => {
                    if !f.done[j] && f.locs[j] == reqs[c as int].to@ {
                        assert(blocked(reqs, f, c as int));
                    }
                },
                MoveAction::Stage(k) => {},
            }
        }
    }
}

/// A greedy run that finishes leaves every file at its destination.
pub proof fn lemma_greedy_places_all(reqs: Seq<MoveRequest>, acts: Seq<MoveAction>)
    requires
        greedy_order(reqs, acts, None),
        reqs.len() <= usize::MAX,
    ensures
        forall|k: int| 0 <= k < reqs.len() ==> #[trigger] flow_after(reqs, acts).locs[k] == reqs[k].to@,
{
    lemma_greedy_flow(reqs, acts);
    let f = flow_after(reqs, acts);
    assert forall|k: int| 0 <= k < reqs.len() implies #[trigger] flow_after(reqs, acts).locs[k]
        == reqs[k].to@ by {
        assert(f.done[k]);
    }
}

/// When every unfinished request is blocked and destinations are distinct, every
/// unfinished file sits on the destination of some unfinished request.
#[verifier::rlimit(30)]
proof fn lemma_blocked_everywhere(reqs: Seq<MoveRequest>, f: Flow, k: int)
    requires
        f.done.len() == reqs.len(),
        f.locs.len() == reqs.len(),
        distinct_tos(reqs),
        0 <= k < reqs.len(),
        !f.done[k],
        forall|i: int| 0 <= i < reqs.len() && !f.done[i] ==> blocked(reqs, f, i),
    ensures
        exists|i: int| 0 <= i < reqs.len() && !f.done[i] && reqs[i].to@ == f.locs[k],
{
    let n = reqs.len() as int;
    let pending = Set::new(|i: int| 0 <= i < n && !f.done[i]);
    let to_fn = |i: int| reqs[i].to@;
    let loc_fn = |i: int| f.locs[i];
    let tos = pending.map(to_fn);
    let locs = pending.map(loc_fn);
    lemma_int_range(0, n);
    assert(pending.subset_of(set_int_range(0, n)));
    lemma_len_subset(pending, set_int_range(0, n));
    assert(injective_on(to_fn, pending));
    lemma_map_size(pending, tos, to_fn);
    lemma_map_size_bound(pending, locs, loc_fn);
    assert forall|p: Seq<char>| tos.contains(p) implies locs.contains(p) by {
        let i = choose|i: int| pending.contains(i) && to_fn(i) == p;
        assert(blocked(reqs, f, i));
        let j = choose|j: int| 0 <= j < reqs.len() && !f.done[j] && #[trigger] f.locs[j] == reqs[i].to@;
        assert(pending.contains(j) && loc_fn(j) == p);
    }
    lemma_len_subset(tos, locs);
    lemma_subset_equality(tos, locs);
    assert(pending.contains(k));
    assert(locs.contains(loc_fn(k)));
    assert(tos.contains(f.locs[k]));
}

/// With distinct ids and destinations and fresh waiting paths, the greedy run never gets
/// stuck: every cycle is broken by staging one of its files once.
pub proof fn lemma_greedy_never_stuck(reqs: Seq<MoveRequest>, acts: Seq<MoveAction>, stuck: Option<u64>)
    requires
        greedy_order(reqs, acts, stuck),
        reqs.len() <= usize::MAX,
        distinct_ids(reqs),
        distinct_tos(reqs),
        fresh_temps(reqs),
    ensures
        stuck is None,
{
    if stuck is Some {
        let f = flow_after(reqs, acts);
        let n = reqs.len() as int;
        assert(!all_done(f, n));
        lemma_greedy_flow(reqs, acts);
        assert(staged_inv(reqs, f));
        lemma_next_action_pending(reqs, f);
        let a = next_action(reqs, f);
        assert(a is Stage);
        let k = action_index(a);
        assert(f.staged.contains(reqs[k].id));
        assert(!f.done[k]);
        assert(f.locs[k] == reqs[k].temp@);
        assert(forall|i: int| 0 <= i < reqs.len() && !f.done[i] ==> blocked(reqs, f, i));
        lemma_blocked_everywhere(reqs, f, k);
        let i = choose|i: int| 0 <= i < reqs.len() && !f.done[i] && reqs[i].to@ == f.locs[k];
        assert(reqs[k].temp@ != reqs[i].to@);
    }
}


proof fn lemma_greedy_prefix_agree(
    reqs: Seq<MoveRequest>,
    a1: Seq<MoveAction>,
    a2: Seq<MoveAction>,
    t: int,
)
    requires
        greedy_actions(reqs, a1),
        greedy_actions(reqs, a2),
        0 <= t <= a1.len(),
        t <= a2.len(),
    ensures
        a1.take(t) == a2.take(t),
    decreases t,
{
    if t > 0 {
        lemma_greedy_prefix_agree(reqs, a1, a2, t - 1);
        lemma_greedy_prefix(reqs, a1, t);
        lemma_greedy_prefix(reqs, a2, t);
        assert(a1.take(t).drop_last() =~= a1.take(t - 1));
        assert(a2.take(t).drop_last() =~= a2.take(t - 1));
        assert(a1.take(t).last() == a2.take(t).last());
        assert(a1.take(t) =~= a1.take(t - 1).push(a1.take(t).last()));
        assert(a2.take(t) =~= a2.take(t - 1).push(a2.take(t).last()));
    }
}

proof fn lemma_greedy_not_shorter(
    reqs: Seq<MoveRequest>,
    a1: Seq<MoveAction>,
    s1: Option<u64>,
    a2: Seq<MoveAction>,
)
    requires
        greedy_order(reqs, a1, s1),
        greedy_actions(reqs, a2),
    ensures
        a2.len() <= a1.len(),
{
    if a2.len() > a1.len() {
        let n = a1.len() as int;
        lemma_greedy_prefix_agree(reqs, a1, a2, n);
        assert(a1.take(n) =~= a1);
        lemma_greedy_prefix(reqs, a2, n + 1);
        let pre = a2.take(n + 1);
        assert(pre.drop_last() =~= a2.take(n));
        assert(flow_after(reqs, pre.drop_last()) == flow_after(reqs, a1));
    }
}

/// There is only one greedy order: its actions and its outcome are fixed by the requests.
pub proof fn lemma_greedy_unique(
    reqs: Seq<MoveRequest>,
    a1: Seq<MoveAction>,
    s1: Option<u64>,
    a2: Seq<MoveAction>,
    s2: Option<u64>,
)
    requires
        greedy_order(reqs, a1, s1),
        greedy_order(reqs, a2, s2),
    ensures
        a1 == a2,
        s1 == s2,
{
    lemma_greedy_not_shorter(reqs, a1, s1, a2);
    lemma_greedy_not_shorter(reqs, a2, s2, a1);
    lemma_greedy_prefix_agree(reqs, a1, a2, a1.len() as int);
    assert(a1.take(a1.len() as int) =~= a1);
    assert(a2.take(a2.len() as int) =~= a2);
    assert(a1 =~= a2);
}


/// One action of a greedy run: it moves an unfinished request, and the state after it
/// is the state before with the action applied.
pub proof fn lemma_greedy_step(reqs: Seq<MoveRequest>, acts: Seq<MoveAction>, t: int)
    requires
        greedy_actions(reqs, acts),
        0 <= t < acts.len(),
        reqs.len() <= usize::MAX,
    ensures
        flow_after(reqs, acts.take(t + 1)) == apply_action(reqs, flow_after(reqs, acts.take(t)), acts[t]),
        0 <= action_index(acts[t]) < reqs.len(),
        !flow_after(reqs, acts.take(t)).done[action_index(acts[t])],
        flow_after(reqs, acts.take(t)).done.len() == reqs.len(),
        flow_after(reqs, acts.take(t)).locs.len() == reqs.len(),
{
    lemma_greedy_prefix(reqs, acts, t + 1);
    let pre = acts.take(t + 1);
    assert(pre.drop_last() =~= acts.take(t));
    assert(pre.last() == acts[t]);
    lemma_greedy_flow(reqs, acts.take(t));
    lemma_next_action_pending(reqs, flow_after(reqs, acts.take(t)));
}

/// How many of `acts` commit request `k`.
pub open spec fn commit_count(acts: Seq<MoveAction>, k: int) -> nat
    decreases acts.len(),
{
    if acts.len() == 0 {
        0
    } else {
        commit_count(acts.drop_last(), k) + if acts.last() == MoveAction::Commit(k as usize) {
            1nat
        } else {
            0nat
        }
    }
}

/// A greedy run commits each request at most once: exactly once if it is done, and
/// not at all while it is not.
pub proof fn lemma_greedy_commits_once(reqs: Seq<MoveRequest>, acts: Seq<MoveAction>)
    requires
        greedy_actions(reqs, acts),
        reqs.len() <= usize::MAX,
    ensures
        forall|k: int|
            0 <= k < reqs.len() ==> #[trigger] commit_count(acts, k) == if flow_after(reqs, acts).done[k] {
                1nat
            } else {
                0nat
            },
    decreases acts.len(),
{
    if acts.len() > 0 {
        lemma_greedy_commits_once(reqs, acts.drop_last());
        lemma_greedy_flow(reqs, acts.drop_last());
        let f = flow_after(reqs, acts.drop_last());
        lemma_next_action_pending(reqs, f);
        let g = flow_after(reqs, acts);
        let a = acts.last();
        assert forall|k: int| 0 <= k < reqs.len() implies #[trigger] commit_count(acts, k) == if g.done[k] {
            1nat
        } else {
            0nat
        } by {
            assert(commit_count(acts.drop_last(), k) == if f.done[k] { 1nat } else { 0nat });
            match a {
                MoveAction::Commit(c) => {
                    if c as int == k {
                        assert(a == MoveAction::Commit(k as usize));
                    } else {
                        assert(a != MoveAction::Commit(k as usize));
                        assert(g.done[k] == f.done[k]);
                    }
                },
                MoveAction::Stage(_) => {
                    assert(g.done == f.done);
                },
            }
        }
    }
}

/// A finished greedy run commits every request exactly once.
pub proof fn lemma_greedy_commits_each_once(reqs: Seq<MoveRequest>, acts: Seq<MoveAction>)
    requires
        greedy_order(reqs, acts, None),
        reqs.len() <= usize::MAX,
    ensures
        forall|k: int| 0 <= k < reqs.len() ==> #[trigger] commit_count(acts, k) == 1,
{
    lemma_greedy_commits_once(reqs, acts);
    assert forall|k: int| 0 <= k < reqs.len() implies #[trigger] commit_count(acts, k) == 1 by {
        assert(flow_after(reqs, acts).done[k]);
    }
}

/// After request `k` is committed by action `t`, its destination holds no unfinished
/// file at any later point of the run, and `k` stays done.
proof fn lemma_free_after_commit(reqs: Seq<MoveRequest>, acts: Seq<MoveAction>, t: int, k: int, s: int)
    requires
        greedy_actions(reqs, acts),
        reqs.len() <= usize::MAX,
        fresh_temps(reqs),
        0 <= t < acts.len(),
        0 <= k < reqs.len(),
        acts[t] == MoveAction::Commit(k as usize),
        t < s <= acts.len(),
    ensures
        flow_after(reqs, acts.take(s)).done[k],
        forall|j: int|
            0 <= j < reqs.len() && !flow_after(reqs, acts.take(s)).done[j] ==> #[trigger] flow_after(
                reqs,
                acts.take(s),
            ).locs[j] != reqs[k].to@,
    decreases s - t,
{
    if s == t + 1 {
        lemma_greedy_prefix(reqs, acts, t + 1);
        let pre = acts.take(t + 1);
        assert(pre.drop_last() =~= acts.take(t));
        assert(pre.last() == acts[t]);
        let f = flow_after(reqs, acts.take(t));
        lemma_greedy_flow(reqs, acts.take(t));
        lemma_next_action_pending(reqs, f);
        assert(committable(reqs, f, k));
        let g = flow_after(reqs, acts.take(s));
        assert forall|j: int| 0 <= j < reqs.len() && !g.done[j] implies #[trigger] g.locs[j] != reqs[k].to@ by {
            assert(j != k);
            assert(g.locs[j] == f.locs[j]);
            assert(!f.done[j]);
            if f.locs[j] == reqs[k].to@ {
                assert(blocked(reqs, f, k));
            }
        }
    } else {
        lemma_free_after_commit(reqs, acts, t, k, s - 1);
        lemma_greedy_step(reqs, acts, s - 1);
        let f = flow_after(reqs, acts.take(s - 1));
        let g = flow_after(reqs, acts.take(s));
        let i = action_index(acts[s - 1]);
        assert(i != k);
        assert forall|j: int| 0 <= j < reqs.len() && !g.done[j] implies #[trigger] g.locs[j] != reqs[k].to@ by {
            if j != i {
                assert(g.locs[j] == f.locs[j]);
                assert(g.done[j] == f.done[j]);
            } else {
                match acts[s - 1] {
                    MoveAction::Stage(_) => {
                        assert(g.locs[j] == reqs[j].temp@);
                    },
                    MoveAction::Commit(_) => {
                        assert(g.done[j]);
                    },
                }
            }
        }
    }
}

/// Once a greedy run commits a request, no later action moves a file from that
/// request's destination: with fresh waiting paths, a committed file stays put.
pub proof fn lemma_committed_files_stay(reqs: Seq<MoveRequest>, acts: Seq<MoveAction>)
    requires
        greedy_actions(reqs, acts),
        reqs.len() <= usize::MAX,
        fresh_temps(reqs),
    ensures
        forall|t: int, u: int|
            0 <= t < u < acts.len() && #[trigger] acts[t] is Commit ==> #[trigger] flow_after(
                reqs,
                acts.take(u),
            ).locs[action_index(acts[u])] != reqs[action_index(acts[t])].to@,
{
    assert forall|t: int, u: int| 0 <= t < u < acts.len() && #[trigger] acts[t] is Commit implies #[trigger] flow_after(
        reqs,
        acts.take(u),
    ).locs[action_index(acts[u])] != reqs[action_index(acts[t])].to@ by {
        let k = action_index(acts[t]);
        lemma_greedy_step(reqs, acts, t);
        lemma_greedy_step(reqs, acts, u);
        lemma_free_after_commit(reqs, acts, t, k, u);
    }
}

} // verus!
