//! Where sessions live on disk, what session ids look like, and which unfinished
//! sessions a directory has.

use crate::hashing::{hex_of, random_hex};
use crate::model::{status_executable, status_unfinished, SessionRecord};
use crate::paths::{path_file_name, path_file_name_of};
use crate::schedule::{join_component, join_path, strs};
use crate::text::push_str;
use vstd::prelude::*;

verus! {

/// `data_dir/sessions`.
pub fn sessions_root(data_dir: &str) -> (r: String)
    ensures
        r@ == join_component(data_dir@, "sessions"@),
{
    join_path(data_dir, "sessions")
}

/// The directory of session `id`.
pub fn session_dir(data_dir: &str, id: &str) -> (r: String)
    ensures
        r@ == join_component(join_component(data_dir@, "sessions"@), id@),
{
    let root = sessions_root(data_dir);
    join_path(root.as_str(), id)
}

/// The lock file of session `id`.
pub fn session_lock_path(data_dir: &str, id: &str) -> (r: String)
    ensures
        r@ == join_component(join_component(join_component(data_dir@, "sessions"@), id@), "session.lock"@),
{
    let dir = session_dir(data_dir, id);
    join_path(dir.as_str(), "session.lock")
}

/// The lock held while a journal runs.
pub fn execute_lock_path(data_dir: &str) -> (r: String)
    ensures
        r@ == join_component(data_dir@, "execute.lock"@),
{
    join_path(data_dir, "execute.lock")
}

/// The file of journal `journal_id` of session `id`.
pub fn journal_path(data_dir: &str, id: &str, journal_id: &str) -> (r: String)
    ensures
        r@ == join_component(
            join_component(join_component(join_component(data_dir@, "sessions"@), id@), "journals"@),
            journal_id@ + ".json"@,
        ),
{
    let dir = session_dir(data_dir, id);
    let journals = join_path(dir.as_str(), "journals");
    let mut name = String::new();
    push_str(&mut name, journal_id);
    push_str(&mut name, ".json");
    join_path(journals.as_str(), name.as_str())
}

/// A session id is one path component: not empty, no `/` or `\`, not `.` or `..`.
pub open spec fn valid_session_id(raw: Seq<char>) -> bool {
    &&& raw.len() > 0
    &&& !raw.contains('/')
    &&& !raw.contains('\\')
    &&& raw != seq!['.']
    &&& raw != seq!['.', '.']
}

/// Accepts a session id from the command line (see `valid_session_id`), the one place
/// where an id from outside enters.
pub fn parse_session_id(raw: &str) -> (r: Result<String, String>)
    ensures
        match r {
            Ok(s) => valid_session_id(raw@) && s@ == raw@,
            Err(m) => !valid_session_id(raw@) && m@ == "must be a session id, not a path"@,
        },
{
    let cs = crate::text::chars_of(raw);
    let mut bad = cs.len() == 0;
    let mut i: usize = 0;
    while i < cs.len()
        invariant
            i <= cs.len(),
            cs@ == raw@,
            bad == (cs.len() == 0 || exists|t: int| 0 <= t < i && (cs@[t] == '/' || cs@[t] == '\\')),
        decreases cs.len() - i,
    {
        if cs[i] == '/' || cs[i] == '\\' {
            bad = true;
        }
        i += 1;
    }
    if !bad && cs.len() == 1 && cs[0] == '.' {
        bad = true;
    }
    if !bad && cs.len() == 2 && cs[0] == '.' && cs[1] == '.' {
        bad = true;
    }
    proof {
        if raw@.contains('/') {
            let t = choose|t: int| 0 <= t < raw@.len() && raw@[t] == '/';
            assert(cs@[t] == '/');
        }
        if raw@.contains('\\') {
            let t = choose|t: int| 0 <= t < raw@.len() && raw@[t] == '\\';
            assert(cs@[t] == '\\');
        }
        if bad && raw@.len() > 0 && raw@ != seq!['.'] && raw@ != seq!['.', '.'] {
            if exists|t: int| 0 <= t < i && (cs@[t] == '/' || cs@[t] == '\\') {
                let t = choose|t: int| 0 <= t < i && (cs@[t] == '/' || cs@[t] == '\\');
                assert(raw@.contains(raw@[t]));
            } else {
                assert(raw@ =~= seq!['.'] || raw@ =~= seq!['.', '.']);
            }
        }
    }
    if bad {
        let mut m = String::new();
        push_str(&mut m, "must be a session id, not a path");
        return Err(m);
    }
    let mut s = String::new();
    push_str(&mut s, raw);
    Ok(s)
}

/// Checks a session id before it names a directory (see `valid_session_id`).
pub fn validate_session_id(id: &str) -> (r: Result<(), String>)
    ensures
        r is Ok <==> valid_session_id(id@),
        r matches Err(m) ==> m@ == "invalid session id"@,
{
    match parse_session_id(id) {
        Ok(_) => Ok(()),
        Err(_) => {
            let mut m = String::new();
            push_str(&mut m, "invalid session id");
            Err(m)
        },
    }
}

/// Characters kept in the directory part of a session id: ASCII letters and digits and
/// `.`, `_`, `-`; any other becomes `_`.
pub open spec fn id_char(c: char) -> char {
    if ('a' <= c && c <= 'z') || ('A' <= c && c <= 'Z') || ('0' <= c && c <= '9') || c == '.' || c == '_' || c
        == '-' {
        c
    } else {
        '_'
    }
}

/// A new session id: the timestamp, the root's name made safe (`root` when it has
/// none), and four random hexadecimal digits, joined with `-`.
pub open spec fn session_id_of(stamp: Seq<char>, root: Seq<char>, hex: Seq<char>) -> Seq<char> {
    let name = match path_file_name_of(root) {
        Some(n) => n,
        None => "root"@,
    };
    let base = name.map_values(|c: char| id_char(c));
    stamp + seq!['-'] + (if base.len() == 0 {
        "root"@
    } else {
        base
    }) + seq!['-'] + hex
}

/// Makes a session id for a scan of `root` at time `stamp` (see `session_id_of`).
pub fn make_session_id(stamp: &str, root: &str) -> (r: String)
    ensures
        exists|b: Seq<u8>| b.len() == 2 && r@ == session_id_of(stamp@, root@, hex_of(b)),
{
    let name = match path_file_name(root) {
        Some(n) => n,
        None => {
            let mut n = String::new();
            push_str(&mut n, "root");
            n
        },
    };
    let cs = crate::text::chars_of(name.as_str());
    let mut base = String::new();
    let mut i: usize = 0;
    while i < cs.len()
        invariant
            i <= cs.len(),
            base@ == cs@.take(i as int).map_values(|c: char| id_char(c)),
        decreases cs.len() - i,
    {
        let c = cs[i];
        let k = if (c >= 'a' && c <= 'z') || (c >= 'A' && c <= 'Z') || (c >= '0' && c <= '9') || c == '.'
            || c == '_' || c == '-' {
            c
        } else {
            '_'
        };
        crate::text::push_char(&mut base, k);
        proof {
            assert(cs@.take(i + 1).map_values(|c: char| id_char(c)) =~= cs@.take(i as int).map_values(
                |c: char| id_char(c),
            ).push(id_char(c)));
        }
        i += 1;
    }
    assert(cs@.take(i as int) =~= cs@);
    let hex = random_hex(2);
    let mut out = String::new();
    push_str(&mut out, stamp);
    push_str(&mut out, "-");
    if cs.len() == 0 {
        push_str(&mut out, "root");
    } else {
        push_str(&mut out, base.as_str());
    }
    push_str(&mut out, "-");
    push_str(&mut out, hex.as_str());
    proof {
        reveal_strlit("-");
        let b = choose|b: Seq<u8>| b.len() == 2 && hex@ == hex_of(b);
        assert(out@ =~= session_id_of(stamp@, root@, hex_of(b)));
    }
    out
}

/// `a` comes strictly before `b` in character order (the order of their UTF-8 bytes).
pub open spec fn text_before(a: Seq<char>, b: Seq<char>) -> bool
    decreases a.len(),
{
    if a.len() == 0 {
        b.len() > 0
    } else if b.len() == 0 {
        false
    } else if a[0] != b[0] {
        a[0] < b[0]
    } else {
        text_before(a.drop_first(), b.drop_first())
    }
}

fn text_before_exec(a: &Vec<char>, b: &Vec<char>) -> (r: bool)
    ensures
        r == text_before(a@, b@),
{
    let mut i: usize = 0;
    assert(a@.skip(0) =~= a@);
    assert(b@.skip(0) =~= b@);
    while i < a.len() && i < b.len() && a[i] == b[i]
        invariant
            i <= a.len(),
            i <= b.len(),
            text_before(a@, b@) == text_before(a@.skip(i as int), b@.skip(i as int)),
        decreases a.len() - i,
    {
        proof {
            assert(a@.skip(i as int).drop_first() =~= a@.skip(i + 1));
            assert(b@.skip(i as int).drop_first() =~= b@.skip(i + 1));
        }
        i += 1;
    }
    if i == a.len() {
        i < b.len()
    } else if i == b.len() {
        false
    } else {
        a[i] < b[i]
    }
}

/// Sorted with the latest update first.
pub open spec fn latest_first(s: Seq<SessionRecord>) -> bool {
    forall|i: int, j: int| 0 <= i < j < s.len() ==> !text_before(s[i].updated_at@, s[j].updated_at@)
}

pub open spec fn wanted(s: SessionRecord, root: Option<Seq<char>>) -> bool {
    status_unfinished(s.status) && match root {
        Some(r) => s.root@ == r,
        None => true,
    }
}

proof fn lemma_text_before_total(a: Seq<char>, b: Seq<char>)
    ensures
        text_before(a, b) ==> !text_before(b, a),
        !text_before(a, b) && !text_before(b, a) ==> a == b,
    decreases a.len(),
{
    if a.len() > 0 && b.len() > 0 && a[0] == b[0] {
        lemma_text_before_total(a.drop_first(), b.drop_first());
        if !text_before(a, b) && !text_before(b, a) {
            assert(a =~= seq![a[0]] + a.drop_first());
            assert(b =~= seq![b[0]] + b.drop_first());
        }
    }
}

proof fn lemma_text_before_trans(a: Seq<char>, b: Seq<char>, c: Seq<char>)
    requires
        !text_before(a, b),
        !text_before(b, c),
    ensures
        !text_before(a, c),
    decreases a.len(),
{
    if a.len() > 0 && b.len() > 0 && c.len() > 0 && a[0] == b[0] && b[0] == c[0] {
        lemma_text_before_trans(a.drop_first(), b.drop_first(), c.drop_first());
    }
}

/// The sessions that `wanted` keeps, in order.
pub open spec fn unfinished_of(sessions: Seq<SessionRecord>, root: Option<Seq<char>>) -> Seq<SessionRecord> {
    sessions.filter(|s: SessionRecord| wanted(s, root))
}

proof fn lemma_filter_step<T>(a: Seq<T>, x: T, p: spec_fn(T) -> bool)
    ensures
        a.push(x).filter(p) == (if p(x) {
            a.filter(p).push(x)
        } else {
            a.filter(p)
        }),
{
    reveal(Seq::filter);
    assert(a.push(x).drop_last() =~= a);
}

/// The sessions updated at `t`, in order.
pub open spec fn updated_at_time(s: Seq<SessionRecord>, t: Seq<char>) -> Seq<SessionRecord> {
    s.filter(|x: SessionRecord| x.updated_at@ == t)
}

/// The unfinished sessions (of `root`, when given), latest update first; sessions
/// updated at the same time keep their order.
pub fn select_unfinished(sessions: Vec<SessionRecord>, root: Option<&str>) -> (r: Vec<SessionRecord>)
    ensures
        latest_first(r@),
        forall|t: Seq<char>| #[trigger] updated_at_time(r@, t) == updated_at_time(
            unfinished_of(
                sessions@,
                match root {
                    Some(x) => Some(x@),
                    None => None,
                },
            ),
            t,
        ),
        r@.to_multiset() == unfinished_of(
            sessions@,
            match root {
                Some(x) => Some(x@),
                None => None,
            },
        ).to_multiset(),
{
    let ghost want = match root {
        Some(x) => Some(x@),
        None => None,
    };
    let ghost src = sessions@;
    let mut out: Vec<SessionRecord> = Vec::new();
    let mut rest = sessions;
    let mut taken: Vec<SessionRecord> = Vec::new();
    proof {
        reveal(Seq::filter);
        assert(unfinished_of(src.take(0), want) =~= Seq::<SessionRecord>::empty());
    }
    let mut i: usize = 0;
    let n = rest.len();
    while rest.len() > 0
        invariant
            latest_first(out@),
            i + rest.len() == n,
            n == src.len(),
            rest@ == src.skip(i as int),
            out@.to_multiset() == unfinished_of(src.take(i as int), want).to_multiset(),
            forall|t: Seq<char>| #[trigger] updated_at_time(out@, t) == updated_at_time(unfinished_of(src.take(i as int), want), t),
            want == (match root {
                Some(x) => Some(x@),
                None => None::<Seq<char>>,
            }),
        decreases rest.len(),
    {
        broadcast use vstd::seq_lib::group_to_multiset_ensures;

        let s = rest.remove(0);
        proof {
            assert(s == src[i as int]);
            assert(src.take(i + 1) =~= src.take(i as int).push(s));
            vstd::seq_lib::lemma_seq_skip_nothing(src, 0);
        }
        let keep = s.status.unfinished() && match root {
            Some(x) => crate::text::str_eq(s.root.as_str(), x),
            None => true,
        };
        let ghost before = out@;
        if keep {
            let key = crate::text::chars_of(s.updated_at.as_str());
            let mut k: usize = out.len();
            while k > 0 && text_before_exec(&crate::text::chars_of(out[k - 1].updated_at.as_str()), &key)
                invariant
                    k <= out.len(),
                    out@ == before,
                    key@ == s.updated_at@,
                    forall|t: int| k <= t < out.len() ==> text_before(out@[t].updated_at@, s.updated_at@),
                decreases k,
            {
                k -= 1;
            }
            proof {
                assert forall|t: int| k <= t < out.len() implies text_before(out@[t].updated_at@, s.updated_at@) by {}
                if k > 0 {
                    assert(!text_before(out@[k - 1].updated_at@, s.updated_at@));
                }
            }
            out.insert(k, s);
            proof {
                assert forall|a: int, b: int| 0 <= a < b < out@.len() implies !text_before(
                    out@[a].updated_at@,
                    out@[b].updated_at@,
                ) by {
                    if a < k && b == k {
                        if a < k - 1 {
                            lemma_text_before_trans(before[a].updated_at@, before[k - 1].updated_at@, s.updated_at@);
                        }
                    } else if a == k && b > k {
                        lemma_text_before_total(before[b - 1].updated_at@, s.updated_at@);
                    } else if a < k && b > k {
                        assert(out@[a] == before[a]);
                        assert(out@[b] == before[b - 1]);
                    } else {
                    }
                }
                assert(out@.to_multiset() =~= before.to_multiset().insert(s)) by {
                    broadcast use vstd::seq_lib::group_to_multiset_ensures;
                    broadcast use vstd::multiset::group_multiset_axioms;
                    vstd::seq_lib::lemma_multiset_commutative(before.take(k as int), seq![s] + before.skip(k as int));
                    assert(out@ =~= before.take(k as int) + (seq![s] + before.skip(k as int)));
                    vstd::seq_lib::lemma_multiset_commutative(seq![s], before.skip(k as int));
                    vstd::seq_lib::lemma_multiset_commutative(before.take(k as int), before.skip(k as int));
                    assert(before =~= before.take(k as int) + before.skip(k as int));
                    assert(seq![s] =~= Seq::<SessionRecord>::empty().push(s));
                }
                // Every session after the insertion point was updated before `s`, so none
                // shares its time.
                let head = before.take(k as int);
                let tail = before.skip(k as int);
                assert(before =~= head + tail);
                assert(out@ =~= head + seq![s] + tail);
                assert forall|t: Seq<char>| #[trigger] updated_at_time(out@, t) == (if s.updated_at@ == t {
                    updated_at_time(before, t).push(s)
                } else {
                    updated_at_time(before, t)
                }) by {
                    let pred = |x: SessionRecord| x.updated_at@ == t;
                    Seq::filter_distributes_over_add(head + seq![s], tail, pred);
                    Seq::filter_distributes_over_add(head, tail, pred);
                    head.lemma_filter_push(s, pred);
                    assert(head + seq![s] =~= head.push(s));
                    if s.updated_at@ == t {
                        assert forall|q: int| 0 <= q < tail.len() implies !pred(#[trigger] tail[q]) by {
                            assert(tail[q] == before[k + q]);
                            assert(text_before(before[k + q].updated_at@, s.updated_at@));
                            lemma_text_before_total(s.updated_at@, s.updated_at@);
                        }
                        assert(tail.all(|x: SessionRecord| !pred(x)));
                        tail.lemma_all_neg_filter_empty(pred);
                        assert(tail.filter(pred) =~= Seq::<SessionRecord>::empty());
                        assert(head.filter(pred).push(s) + tail.filter(pred) =~= head.filter(pred).push(s));
                        assert(head.filter(pred) + tail.filter(pred) =~= head.filter(pred));
                    }
                }
            }
        }
        proof {
            lemma_filter_step(src.take(i as int), s, |s: SessionRecord| wanted(s, want));
            let u = unfinished_of(src.take(i as int), want);
            assert forall|t: Seq<char>| #[trigger] updated_at_time(out@, t) == updated_at_time(
                unfinished_of(src.take(i + 1), want),
                t,
            ) by {
                u.lemma_filter_push(s, |x: SessionRecord| x.updated_at@ == t);
            }
        }
        i += 1;
    }
    proof {
        assert(src.take(i as int) =~= src);
    }
    out
}

/// Splits unfinished sessions into those that may be resumed here (a draft, or an
/// execution that did not finish) and the others (an undo in progress), each in order.
pub fn split_resumable(sessions: Vec<SessionRecord>) -> (r: (Vec<SessionRecord>, Vec<SessionRecord>))
    ensures
        r.0@ == sessions@.filter(|s: SessionRecord| status_executable(s.status)),
        r.1@ == sessions@.filter(|s: SessionRecord| !status_executable(s.status)),
{
    let ghost src = sessions@;
    let ghost yes = |s: SessionRecord| status_executable(s.status);
    let ghost no = |s: SessionRecord| !status_executable(s.status);
    let mut kept: Vec<SessionRecord> = Vec::new();
    let mut skipped: Vec<SessionRecord> = Vec::new();
    let mut rest = sessions;
    let n = rest.len();
    let mut i: usize = 0;
    proof {
        reveal(Seq::filter);
        assert(src.take(0) =~= Seq::<SessionRecord>::empty());
        assert(rest@ =~= src.skip(0));
    }
    while rest.len() > 0
        invariant
            i + rest.len() == n,
            n == src.len(),
            rest@ == src.skip(i as int),
            kept@ == src.take(i as int).filter(yes),
            skipped@ == src.take(i as int).filter(no),
            yes == (|s: SessionRecord| status_executable(s.status)),
            no == (|s: SessionRecord| !status_executable(s.status)),
        decreases rest.len(),
    {
        let s = rest.remove(0);
        proof {
            assert(s == src[i as int]);
            assert(src.take(i + 1) =~= src.take(i as int).push(s));
            assert(rest@ =~= src.skip(i + 1));
            lemma_filter_step(src.take(i as int), s, yes);
            lemma_filter_step(src.take(i as int), s, no);
        }
        if s.status.executable() {
            kept.push(s);
        } else {
            skipped.push(s);
        }
        i += 1;
    }
    proof {
        assert(src.take(i as int) =~= src);
    }
    (kept, skipped)
}

} // verus!
