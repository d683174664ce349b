//! The decisions of a scan: which entries of a directory are skipped, and the natural
//! order in which the scanned files are listed.
use vstd::prelude::*;

use crate::model::SourceFingerprint;
use crate::natural::{lemma_natural_order_flips, lemma_natural_order_reflexive, natural_order, natural_rel, Rel};
use crate::paths::{path_strip_of, path_strip_prefix};
use crate::text::push_str;

verus! {

#[verifier::external_type_specification]
#[verifier::external_body]
pub struct ExGlobSet(globset::GlobSet);

#[verifier::external_type_specification]
#[verifier::external_body]
pub struct ExGlobError(globset::Error);

/// A scanned file and its metadata.
#[derive(Clone, Debug)]
pub struct ScanRow {
    pub from: String,
    pub fingerprint: SourceFingerprint,
}

/// The files of a scan, and how many special files it skipped.
#[derive(Clone, Debug)]
pub struct ScanResult {
    pub root: String,
    pub rows: Vec<ScanRow>,
    pub skipped_special: usize,
}

/// An exclude pattern and the matcher built from it.
pub struct Exclude {
    pattern: String,
    matcher: globset::GlobSet,
}

/// The longest exclude pattern, in characters. `GlobSet::new` builds the literal
/// strategies of a set with `AhoCorasick::new(..).unwrap()`, which fails only where an
/// automaton needs more than `i32::MAX - 1` states; a literal of a glob is a part of its
/// pattern, so patterns up to this length (at most four bytes a character) stay far below.
pub const LONGEST_PATTERN: usize = 0x1000_0000;

/// Whether `globset::Glob::new` accepts `pattern` and the one-glob set of it builds.
pub uninterp spec fn glob_valid_of(pattern: Seq<char>) -> bool;

/// Whether the glob set built from `pattern` matches `text`.
pub uninterp spec fn glob_match_of(pattern: Seq<char>, text: Seq<char>) -> bool;

impl Exclude {
    pub closed spec fn pattern_view(&self) -> Seq<char> {
        self.pattern@
    }

    /// `globset::Glob::new` on `pattern`, then `GlobSet::new` on that one glob (what
    /// `GlobSetBuilder::build` does). Both return their errors (a bad pattern, or a regex
    /// that does not build) instead of panicking; whether both succeed is named by
    /// `glob_valid_of`. The matcher keeps the pattern it came from. The bound on the
    /// pattern's length keeps the set's literal automata within their limits (see
    /// `LONGEST_PATTERN`), where the set would panic instead.
    #[verifier::external_body]
    pub(crate) fn compile(pattern: &str) -> (r: Result<Exclude, globset::Error>)
        requires
            pattern@.len() <= LONGEST_PATTERN,
        ensures
            r is Ok <==> glob_valid_of(pattern@),
            r matches Ok(e) ==> e.pattern_view() == pattern@,
    {
        let glob = globset::Glob::new(pattern)?;
        let matcher = globset::GlobSet::new([glob])?;
        Ok(Exclude { pattern: pattern.to_owned(), matcher })
    }

    /// `globset::GlobSet::is_match` on `text`; the answer is named by `glob_match_of` over
    /// the pattern the set was built from.
    #[verifier::external_body]
    pub(crate) fn is_match(&self, text: &str) -> (b: bool)
        ensures
            b == glob_match_of(self.pattern_view(), text@),
    {
        self.matcher.is_match(text)
    }
}

pub open spec fn patterns_of(e: Seq<Exclude>) -> Seq<Seq<char>> {
    e.map_values(|x: Exclude| x.pattern_view())
}

/// The matchers of `patterns`, or the first pattern that is not accepted.
pub fn compile_excludes(patterns: &Vec<String>) -> (r: Result<Vec<Exclude>, String>)
    requires
        forall|i: int| 0 <= i < patterns@.len() ==> (#[trigger] patterns@[i])@.len() <= LONGEST_PATTERN,
    ensures
        match r {
            Ok(v) => patterns_of(v@) == crate::schedule::strs(patterns@),
            Err(p) => exists|i: int|
                0 <= i < patterns@.len() && patterns@[i]@ == p@ && !glob_valid_of(p@) && (forall|k: int|
                    0 <= k < i ==> glob_valid_of(#[trigger] patterns@[k]@)),
        },
{
    let mut out: Vec<Exclude> = Vec::new();
    let mut i: usize = 0;
    while i < patterns.len()
        invariant
            i <= patterns@.len(),
            patterns_of(out@) == crate::schedule::strs(patterns@.take(i as int)),
            forall|k: int| 0 <= k < i ==> glob_valid_of(#[trigger] patterns@[k]@),
            forall|k: int| 0 <= k < patterns@.len() ==> (#[trigger] patterns@[k])@.len() <= LONGEST_PATTERN,
        decreases patterns.len() - i,
    {
        match Exclude::compile(patterns[i].as_str()) {
            Ok(e) => {
                out.push(e);
                proof {
                    assert(crate::schedule::strs(patterns@.take(i + 1)) =~= crate::schedule::strs(
                        patterns@.take(i as int),
                    ).push(patterns@[i as int]@));
                    assert(patterns_of(out@) =~= crate::schedule::strs(patterns@.take(i + 1)));
                }
            },
            Err(_) => {
                return Err(patterns[i].clone());
            },
        }
        i += 1;
    }
    assert(patterns@.take(i as int) =~= patterns@);
    Ok(out)
}

/// Whether some pattern matches the entry's name or its path below the root.
pub open spec fn excluded_by(patterns: Seq<Seq<char>>, name: Seq<char>, relative: Seq<char>) -> bool {
    exists|i: int| 0 <= i < patterns.len() && (glob_match_of(#[trigger] patterns[i], name) || glob_match_of(patterns[i], relative))
}

/// See `excluded_by`.
pub fn excluded(name: &str, relative: &str, matchers: &Vec<Exclude>) -> (b: bool)
    ensures
        b == excluded_by(patterns_of(matchers@), name@, relative@),
{
    let mut i: usize = 0;
    while i < matchers.len()
        invariant
            i <= matchers@.len(),
            forall|k: int|
                0 <= k < i ==> !glob_match_of(#[trigger] patterns_of(matchers@)[k], name@) && !glob_match_of(
                    patterns_of(matchers@)[k],
                    relative@,
                ),
        decreases matchers.len() - i,
    {
        if matchers[i].is_match(name) || matchers[i].is_match(relative) {
            assert(patterns_of(matchers@)[i as int] == matchers@[i as int].pattern_view());
            return true;
        }
        i += 1;
    }
    false
}

/// `s` with each backslash made a slash.
pub open spec fn forward_slashes(s: Seq<char>) -> Seq<char> {
    s.map_values(|c: char| if c == '\\' { '/' } else { c })
}

/// The entry's path below the root (the whole path when it is not below it), with
/// forward slashes.
pub open spec fn relative_of(absolute: Seq<char>, root: Seq<char>) -> Seq<char> {
    forward_slashes(
        match path_strip_of(absolute, root) {
            Some(r) => r,
            None => absolute,
        },
    )
}

/// See `relative_of`.
pub fn relative_path(absolute: &str, root: &str) -> (r: String)
    ensures
        r@ == relative_of(absolute@, root@),
{
    let rel = match path_strip_prefix(absolute, root) {
        Some(r) => r,
        None => {
            let mut s = String::new();
            push_str(&mut s, absolute);
            s
        },
    };
    let cs = crate::text::chars_of(rel.as_str());
    let mut out = String::new();
    let mut i: usize = 0;
    while i < cs.len()
        invariant
            i <= cs@.len(),
            out@ == forward_slashes(cs@.take(i as int)),
        decreases cs.len() - i,
    {
        let c = if cs[i] == '\\' {
            '/'
        } else {
            cs[i]
        };
        crate::text::push_char(&mut out, c);
        proof {
            assert(forward_slashes(cs@.take(i + 1)) =~= forward_slashes(cs@.take(i as int)).push(c));
        }
        i += 1;
    }
    assert(cs@.take(i as int) =~= cs@);
    out
}

/// An entry is skipped when it is hidden (its name starts with a dot) and hidden files
/// are not wanted, or when an exclude pattern matches it.
pub open spec fn skipped_entry(name: Seq<char>, relative: Seq<char>, hidden: bool, patterns: Seq<Seq<char>>) -> bool {
    (!hidden && name.len() > 0 && name[0] == '.') || excluded_by(patterns, name, relative)
}

/// See `skipped_entry`; `absolute` is the entry's path, `root` the scanned directory.
pub fn skip_entry(name: &str, absolute: &str, root: &str, hidden: bool, matchers: &Vec<Exclude>) -> (b: bool)
    ensures
        b == skipped_entry(name@, relative_of(absolute@, root@), hidden, patterns_of(matchers@)),
{
    let relative = relative_path(absolute, root);
    let cs = crate::text::chars_of(name);
    if !hidden && cs.len() > 0 && cs[0] == '.' {
        return true;
    }
    excluded(name, relative.as_str(), matchers)
}

/// `a` comes no later than `b` in natural order.
#[verifier::opaque]
pub open spec fn not_after(a: Seq<char>, b: Seq<char>) -> bool {
    natural_order(a, b) != Rel::Greater
}

/// Each row's path comes no later, in natural order, than the next row's.
pub open spec fn rows_sorted(rows: Seq<ScanRow>) -> bool {
    forall|i: int| 0 <= i < rows.len() - 1 ==> not_after(#[trigger] rows[i].from@, rows[i + 1].from@)
}

/// The rows whose path is `p`, in order.
pub open spec fn rows_at(rows: Seq<ScanRow>, p: Seq<char>) -> Seq<ScanRow> {
    rows.filter(|y: ScanRow| y.from@ == p)
}

/// The rows whose path is `p` after `row` was added at the end.
pub open spec fn rows_at_after(rows: Seq<ScanRow>, row: ScanRow, p: Seq<char>) -> Seq<ScanRow> {
    if row.from@ == p {
        rows_at(rows, p).push(row)
    } else {
        rows_at(rows, p)
    }
}

/// Puts `row` after the rows that do not come after it, and before those that do.
fn insert_sorted(out: &mut Vec<ScanRow>, row: ScanRow)
    requires
        rows_sorted(old(out)@),
    ensures
        final(out)@.to_multiset() == old(out)@.to_multiset().insert(row),
        rows_sorted(final(out)@),
        forall|p: Seq<char>| #[trigger] rows_at(final(out)@, p) == rows_at_after(old(out)@, row, p),
{
    let mut j: usize = out.len();
    while j > 0 && natural_rel(row.from.as_str(), out[j - 1].from.as_str()) == Rel::Less
        invariant
            j <= out@.len(),
            forall|k: int| j <= k < out@.len() ==> natural_order(row.from@, #[trigger] out@[k].from@) == Rel::Less,
        decreases j,
    {
        j -= 1;
    }
    let ghost before = out@;
    let ghost r = row;
    assert(j > 0 ==> not_after(before[j - 1].from@, r.from@)) by {
        reveal(not_after);
        if j > 0 {
            lemma_natural_order_flips(r.from@, before[j - 1].from@);
        }
    }
    assert(j < before.len() ==> not_after(r.from@, before[j as int].from@)) by {
        reveal(not_after);
    }
    out.insert(j, row);
    proof {
        vstd::seq_lib::to_multiset_insert(before, j as int, r);
        assert forall|k: int| 0 <= k < out@.len() - 1 implies not_after(
            #[trigger] out@[k].from@,
            out@[k + 1].from@,
        ) by {
            if k < j as int - 1 {
                assert(out@[k] == before[k] && out@[k + 1] == before[k + 1]);
            } else if k == j as int - 1 {
                assert(out@[k] == before[k] && out@[k + 1] == r);
            } else if k == j as int {
                assert(out@[k] == r && out@[k + 1] == before[k]);
            } else {
                assert(out@[k] == before[k - 1] && out@[k + 1] == before[k]);
            }
        }
        // Every row after the insertion point comes strictly after `row`, so none has its path.
        let head = before.take(j as int);
        let tail = before.skip(j as int);
        assert(before =~= head + tail);
        assert(out@ =~= head + seq![r] + tail);
        assert forall|p: Seq<char>| #[trigger] rows_at(out@, p) == rows_at_after(before, r, p) by {
            let pred = |y: ScanRow| y.from@ == p;
            Seq::filter_distributes_over_add(head + seq![r], tail, pred);
            Seq::filter_distributes_over_add(head, seq![r], pred);
            Seq::filter_distributes_over_add(head, tail, pred);
            head.lemma_filter_push(r, pred);
            assert(head + seq![r] =~= head.push(r));
            if r.from@ == p {
                assert forall|k: int| 0 <= k < tail.len() implies !pred(#[trigger] tail[k]) by {
                    assert(tail[k] == before[j + k]);
                    assert(natural_order(r.from@, before[j + k].from@) == Rel::Less);
                    lemma_natural_order_reflexive(r.from@);
                }
                assert(tail.all(|x: ScanRow| !pred(x)));
                tail.lemma_all_neg_filter_empty(pred);
                assert(tail.filter(pred) =~= Seq::<ScanRow>::empty());
                assert(head.filter(pred).push(r) + tail.filter(pred) =~= head.filter(pred).push(r));
                assert(head.filter(pred) + tail.filter(pred) =~= head.filter(pred));
            }
        }
    }
}

/// The rows in natural order of their paths; rows of equal paths keep their order.
pub fn sort_rows(rows: Vec<ScanRow>) -> (r: Vec<ScanRow>)
    ensures
        r@.to_multiset() == rows@.to_multiset(),
        rows_sorted(r@),
        forall|p: Seq<char>| #[trigger] rows_at(r@, p) == rows_at(rows@, p),
{
    let mut out: Vec<ScanRow> = Vec::new();
    let ghost input = rows@;
    let ghost mut done: int = 0;
    let mut rest = rows;
    proof {
        assert(input.take(0) =~= Seq::<ScanRow>::empty());
        assert(out@ =~= Seq::<ScanRow>::empty());
        assert(input.skip(0) =~= input);
    }
    while rest.len() > 0
        invariant
            0 <= done <= input.len(),
            rest@ == input.skip(done),
            out@.to_multiset() == input.take(done).to_multiset(),
            rows_sorted(out@),
            forall|p: Seq<char>| #[trigger] rows_at(out@, p) == rows_at(input.take(done), p),
        decreases rest.len(),
    {
        let row = rest.remove(0);
        proof {
            assert(row == input[done]);
            assert(rest@ =~= input.skip(done + 1));
            assert(input.take(done + 1) =~= input.take(done).push(input[done]));
            vstd::seq_lib::to_multiset_build(input.take(done), input[done]);
        }
        let ghost prev = out@;
        insert_sorted(&mut out, row);
        proof {
            assert forall|p: Seq<char>| #[trigger] rows_at(out@, p) == rows_at(input.take(done + 1), p) by {
                input.take(done).lemma_filter_push(row, |y: ScanRow| y.from@ == p);
                assert(rows_at(out@, p) == rows_at_after(prev, row, p));
            }
            done = done + 1;
        }
    }
    proof {
        assert(input.skip(done).len() == 0);
        assert(input.take(done) =~= input);
    }
    out
}

} // verus!
