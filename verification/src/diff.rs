//! Word-level differences between two paths, for highlighting what a rename changes.

use crate::schedule::strs;
use crate::text::{is_ws, is_ws_exec, push_str};
use similar::{Algorithm, ChangeTag, TextDiff};
use vstd::prelude::*;

verus! {

#[derive(Clone, Copy, Debug, PartialEq, Eq, Structural)]
pub enum DiffTag {
    Equal,
    Delete,
    Insert,
}

pub struct DiffPart {
    pub tag: DiffTag,
    pub text: String,
}

/// The class a character belongs to for splitting a path into tokens: separators,
/// white space, punctuation inside names, and everything else.
pub open spec fn class_of(c: char) -> u8 {
    if c == '/' {
        0
    } else if is_ws(c) {
        1
    } else if c == '.' || c == '_' || c == '-' {
        2
    } else {
        3
    }
}

/// See `class_of`.
pub fn token_class(character: char) -> (k: u8)
    ensures
        k == class_of(character),
{
    if character == '/' {
        0
    } else if is_ws_exec(character) {
        1
    } else if character == '.' || character == '_' || character == '-' {
        2
    } else {
        3
    }
}

/// All characters of `t` are of one class.
pub open spec fn uniform(t: Seq<char>) -> bool {
    t.len() > 0 && forall|i: int| 0 <= i < t.len() ==> class_of(#[trigger] t[i]) == class_of(t[0])
}

pub open spec fn concat_all(parts: Seq<Seq<char>>) -> Seq<char>
    decreases parts.len(),
{
    if parts.len() == 0 {
        Seq::empty()
    } else {
        concat_all(parts.drop_last()) + parts.last()
    }
}

/// `tokens` cut `value` into the maximal runs of characters of one class.
pub open spec fn is_tokenization(value: Seq<char>, tokens: Seq<Seq<char>>) -> bool {
    &&& concat_all(tokens) == value
    &&& forall|k: int| 0 <= k < tokens.len() ==> uniform(#[trigger] tokens[k])
    &&& forall|k: int|
        0 < k < tokens.len() ==> class_of((#[trigger] tokens[k])[0]) != class_of(tokens[k - 1].last())
}

/// The tokens of `value`: its characters read in order, each one extending the last
/// token when of the same class, else starting a new one.
pub open spec fn tokens_of(value: Seq<char>) -> Seq<Seq<char>>
    decreases value.len(),
{
    if value.len() == 0 {
        Seq::empty()
    } else {
        let rest = tokens_of(value.drop_last());
        let c = value.last();
        if rest.len() > 0 && class_of(rest.last().last()) == class_of(c) {
            rest.drop_last().push(rest.last().push(c))
        } else {
            rest.push(seq![c])
        }
    }
}

/// The tokens of a text are its maximal runs of characters of one class: they make
/// up the text, each is of one class, and neighbours differ in class.
pub proof fn lemma_tokens_are_runs(value: Seq<char>)
    ensures
        is_tokenization(value, tokens_of(value)),
    decreases value.len(),
{
    if value.len() > 0 {
        let v = value.drop_last();
        lemma_tokens_are_runs(v);
        let rest = tokens_of(v);
        let c = value.last();
        let t = tokens_of(value);
        if rest.len() > 0 && class_of(rest.last().last()) == class_of(c) {
            let l = rest.last();
            assert(rest =~= rest.drop_last().push(l));
            assert(t.drop_last() =~= rest.drop_last());
            assert(t.last() == l.push(c));
            assert(concat_all(t) =~= concat_all(rest.drop_last()) + l.push(c));
            assert(concat_all(rest) =~= concat_all(rest.drop_last()) + l);
            assert(value =~= v.push(c));
            assert(uniform(l));
            assert forall|i: int| 0 <= i < l.push(c).len() implies class_of(#[trigger] l.push(c)[i]) == class_of(
                l.push(c)[0],
            ) by {
                if i == l.len() {
                    assert(class_of(l[l.len() - 1]) == class_of(l[0]));
                }
            }
            assert forall|k: int| 0 <= k < t.len() implies uniform(#[trigger] t[k]) by {
                if k < t.len() - 1 {
                    assert(t[k] == rest[k]);
                }
            }
            assert forall|k: int| 0 < k < t.len() implies class_of((#[trigger] t[k])[0]) != class_of(
                t[k - 1].last(),
            ) by {
                if k < t.len() - 1 {
                    assert(t[k] == rest[k]);
                    assert(t[k - 1] == rest[k - 1]);
                } else {
                    assert(t[k][0] == l[0]);
                    assert(t[k - 1] == rest[k - 1]);
                }
            }
        } else {
            assert(t.drop_last() =~= rest);
            assert(concat_all(t) =~= concat_all(rest) + seq![c]);
            assert(value =~= v + seq![c]);
            assert forall|k: int| 0 <= k < t.len() implies uniform(#[trigger] t[k]) by {
                if k < t.len() - 1 {
                    assert(t[k] == rest[k]);
                }
            }
            assert forall|k: int| 0 < k < t.len() implies class_of((#[trigger] t[k])[0]) != class_of(
                t[k - 1].last(),
            ) by {
                if k < t.len() - 1 {
                    assert(t[k] == rest[k]);
                    assert(t[k - 1] == rest[k - 1]);
                }
            }
        }
        assert(concat_all(t) == value);
    } else {
        assert(value =~= Seq::<char>::empty());
    }
}

/// Splits `value` into its tokens (see `tokens_of`).
pub fn tokenize(value: &str) -> (tokens: Vec<String>)
    ensures
        strs(tokens@) == tokens_of(value@),
{
    let cs = crate::text::chars_of(value);
    let mut tokens: Vec<String> = Vec::new();
    if cs.len() == 0 {
        assert(strs(tokens@) =~= Seq::<Seq<char>>::empty());
        return tokens;
    }
    let mut start: usize = 0;
    let mut i: usize = 1;
    proof {
        assert(cs@.take(1).drop_last() =~= Seq::<char>::empty());
        assert(cs@.take(1).last() == cs@[0]);
        assert(cs@.subrange(0, 1) =~= seq![cs@[0]]);
        reveal_with_fuel(tokens_of, 2);
        assert(tokens_of(cs@.take(1)) =~= seq![cs@.subrange(0, 1)]);
    }
    while i < cs.len()
        invariant
            0 <= start < i <= cs.len(),
            cs@ == value@,
            tokens_of(cs@.take(i as int)) == strs(tokens@).push(cs@.subrange(start as int, i as int)),
        decreases cs.len() - i,
    {
        proof {
            let t = cs@.take(i + 1);
            assert(t.drop_last() =~= cs@.take(i as int));
            assert(t.last() == cs@[i as int]);
            assert(cs@.subrange(start as int, i as int).last() == cs@[i - 1]);
        }
        if token_class(cs[i]) != token_class(cs[i - 1]) {
            let piece = crate::text::string_from(&cs, start, i);
            let ghost before = strs(tokens@);
            tokens.push(piece);
            proof {
                assert(strs(tokens@) =~= before.push(piece@));
                assert(cs@.subrange(i as int, i + 1) =~= seq![cs@[i as int]]);
            }
            start = i;
        } else {
            proof {
                assert(cs@.subrange(start as int, i + 1) =~= cs@.subrange(start as int, i as int).push(cs@[i as int]));
                let pre = strs(tokens@).push(cs@.subrange(start as int, i as int));
                assert(pre.drop_last() =~= strs(tokens@));
            }
        }
        i += 1;
    }
    let piece = crate::text::string_from(&cs, start, cs.len());
    let ghost before = strs(tokens@);
    tokens.push(piece);
    proof {
        assert(strs(tokens@) =~= before.push(piece@));
        assert(cs@.take(cs.len() as int) =~= cs@);
    }
    tokens
}

/// The parts after adding `text` tagged `tag`: it extends the last part when that has
/// the same tag, else it becomes a new part.
pub open spec fn merged_parts(parts: Seq<(DiffTag, Seq<char>)>, tag: DiffTag, text: Seq<char>) -> Seq<(DiffTag, Seq<char>)> {
    if parts.len() > 0 && parts.last().0 == tag {
        parts.drop_last().push((tag, parts.last().1 + text))
    } else {
        parts.push((tag, text))
    }
}

pub open spec fn parts_view(parts: Seq<DiffPart>) -> Seq<(DiffTag, Seq<char>)> {
    parts.map_values(|p: DiffPart| (p.tag, p.text@))
}

/// See `merged_parts`.
pub fn push_merged(parts: &mut Vec<DiffPart>, tag: DiffTag, text: &str)
    ensures
        parts_view(final(parts)@) == merged_parts(parts_view(old(parts)@), tag, text@),
{
    let n = parts.len();
    if n > 0 && parts[n - 1].tag == tag {
        let mut last = parts.pop().unwrap();
        push_str(&mut last.text, text);
        parts.push(last);
        proof {
            assert(parts_view(parts@) =~= parts_view(old(parts)@).drop_last().push(
                (tag, parts_view(old(parts)@).last().1 + text@),
            ));
        }
    } else {
        let mut t = String::new();
        push_str(&mut t, text);
        parts.push(DiffPart { tag, text: t });
        proof {
            assert(parts_view(parts@) =~= parts_view(old(parts)@).push((tag, text@)));
        }
    }
}

/// The changes similar's Myers diff of the token lists `old` and `new` reports, in order.
pub uninterp spec fn myers_changes_of(old: Seq<Seq<char>>, new: Seq<Seq<char>>) -> Seq<(DiffTag, Seq<char>)>;

/// The values of the changes that belong to the old side (equal and deleted).
pub open spec fn old_side(c: Seq<(DiffTag, Seq<char>)>) -> Seq<Seq<char>>
    decreases c.len(),
{
    if c.len() == 0 {
        Seq::empty()
    } else if c.last().0 != DiffTag::Insert {
        old_side(c.drop_last()).push(c.last().1)
    } else {
        old_side(c.drop_last())
    }
}

/// The values of the changes that belong to the new side (equal and inserted).
pub open spec fn new_side(c: Seq<(DiffTag, Seq<char>)>) -> Seq<Seq<char>>
    decreases c.len(),
{
    if c.len() == 0 {
        Seq::empty()
    } else if c.last().0 != DiffTag::Delete {
        new_side(c.drop_last()).push(c.last().1)
    } else {
        new_side(c.drop_last())
    }
}

pub open spec fn changes_view(v: Seq<(DiffTag, String)>) -> Seq<(DiffTag, Seq<char>)> {
    v.map_values(|c: (DiffTag, String)| (c.0, c.1@))
}

/// `similar::TextDiff` with the Myers algorithm over the token slices, flattened with
/// `iter_all_changes`. The result is named by `myers_changes_of`; as with every diff of
/// that crate, the equal and deleted values are the old tokens in order, and the equal
/// and inserted values the new ones.
#[verifier::external_body]
fn myers_changes(old: &Vec<String>, new: &Vec<String>) -> (r: Vec<(DiffTag, String)>)
    ensures
        changes_view(r@) == myers_changes_of(strs(old@), strs(new@)),
        old_side(changes_view(r@)) == strs(old@),
        new_side(changes_view(r@)) == strs(new@),
{
    let old_refs: Vec<&str> = old.iter().map(|s| s.as_str()).collect();
    let new_refs: Vec<&str> = new.iter().map(|s| s.as_str()).collect();
    let mut config = TextDiff::configure();
    config.algorithm(Algorithm::Myers);
    let diff = config.diff_slices(&old_refs, &new_refs);
    diff.iter_all_changes().map(|change| {
        let tag = match change.tag() {
            ChangeTag::Equal => DiffTag::Equal,
            ChangeTag::Delete => DiffTag::Delete,
            ChangeTag::Insert => DiffTag::Insert,
        };
        (tag, change.value().to_owned())
    }).collect()
}

/// The parts of one side: each change of that side added in turn with `merged_parts`.
pub open spec fn side_parts(c: Seq<(DiffTag, Seq<char>)>, keep: DiffTag) -> Seq<(DiffTag, Seq<char>)>
    decreases c.len(),
{
    if c.len() == 0 {
        Seq::empty()
    } else if c.last().0 == keep || c.last().0 == DiffTag::Equal {
        merged_parts(side_parts(c.drop_last(), keep), c.last().0, c.last().1)
    } else {
        side_parts(c.drop_last(), keep)
    }
}

/// The parts with both sides in one line: every change added in turn.
pub open spec fn inline_parts(c: Seq<(DiffTag, Seq<char>)>) -> Seq<(DiffTag, Seq<char>)>
    decreases c.len(),
{
    if c.len() == 0 {
        Seq::empty()
    } else {
        merged_parts(inline_parts(c.drop_last()), c.last().0, c.last().1)
    }
}

pub open spec fn diff_changes(before: Seq<char>, after: Seq<char>) -> Seq<(DiffTag, Seq<char>)> {
    myers_changes_of(tokens_of(before), tokens_of(after))
}


/// The texts of the parts, one after the other.
pub open spec fn parts_text(p: Seq<(DiffTag, Seq<char>)>) -> Seq<char>
    decreases p.len(),
{
    if p.len() == 0 {
        Seq::empty()
    } else {
        parts_text(p.drop_last()) + p.last().1
    }
}

/// The texts of the parts not tagged `skip`, one after the other.
pub open spec fn text_without(p: Seq<(DiffTag, Seq<char>)>, skip: DiffTag) -> Seq<char>
    decreases p.len(),
{
    if p.len() == 0 {
        Seq::empty()
    } else if p.last().0 == skip {
        text_without(p.drop_last(), skip)
    } else {
        text_without(p.drop_last(), skip) + p.last().1
    }
}

proof fn lemma_merged_text(p: Seq<(DiffTag, Seq<char>)>, tag: DiffTag, t: Seq<char>, skip: DiffTag)
    ensures
        parts_text(merged_parts(p, tag, t)) == parts_text(p) + t,
        text_without(merged_parts(p, tag, t), skip) == text_without(p, skip) + (if tag == skip {
            Seq::<char>::empty()
        } else {
            t
        }),
{
    let m = merged_parts(p, tag, t);
    if p.len() > 0 && p.last().0 == tag {
        assert(m.drop_last() =~= p.drop_last());
        assert(p =~= p.drop_last().push(p.last()));
        assert(parts_text(m) =~= parts_text(p.drop_last()) + (p.last().1 + t));
        assert(parts_text(p) =~= parts_text(p.drop_last()) + p.last().1);
        if tag != skip {
            assert(text_without(m, skip) =~= text_without(p.drop_last(), skip) + (p.last().1 + t));
        } else {
            assert(text_without(m, skip) =~= text_without(p, skip) + Seq::<char>::empty());
        }
    } else {
        assert(m.drop_last() =~= p);
        if tag == skip {
            assert(text_without(m, skip) =~= text_without(p, skip) + Seq::<char>::empty());
        }
    }
}

proof fn lemma_side_text(c: Seq<(DiffTag, Seq<char>)>)
    ensures
        parts_text(side_parts(c, DiffTag::Delete)) == concat_all(old_side(c)),
        parts_text(side_parts(c, DiffTag::Insert)) == concat_all(new_side(c)),
        text_without(inline_parts(c), DiffTag::Insert) == concat_all(old_side(c)),
        text_without(inline_parts(c), DiffTag::Delete) == concat_all(new_side(c)),
    decreases c.len(),
{
    if c.len() > 0 {
        let d = c.drop_last();
        lemma_side_text(d);
        let (tag, t) = c.last();
        lemma_merged_text(side_parts(d, DiffTag::Delete), tag, t, DiffTag::Insert);
        lemma_merged_text(side_parts(d, DiffTag::Insert), tag, t, DiffTag::Insert);
        lemma_merged_text(inline_parts(d), tag, t, DiffTag::Insert);
        lemma_merged_text(inline_parts(d), tag, t, DiffTag::Delete);
        assert(old_side(c).drop_last() =~= old_side(d) || old_side(c) == old_side(d));
        if tag != DiffTag::Insert {
            assert(old_side(c).drop_last() =~= old_side(d));
        }
        if tag != DiffTag::Delete {
            assert(new_side(c).drop_last() =~= new_side(d));
        }
    } else {
        assert(parts_text(Seq::<(DiffTag, Seq<char>)>::empty()) =~= concat_all(Seq::<Seq<char>>::empty()));
    }
}

proof fn lemma_concat_tokens(v: Seq<char>)
    ensures
        concat_all(tokens_of(v)) == v,
{
    lemma_tokens_are_runs(v);
}

/// The parts of each side of the word diff of two paths: the old path's equal and
/// deleted tokens, the new path's equal and inserted ones, neighbours with the same tag
/// merged. Each side's parts spell out its path.
pub fn path_diff(before: &str, after: &str) -> (r: (Vec<DiffPart>, Vec<DiffPart>))
    ensures
        parts_view(r.0@) == side_parts(diff_changes(before@, after@), DiffTag::Delete),
        parts_view(r.1@) == side_parts(diff_changes(before@, after@), DiffTag::Insert),
        parts_text(parts_view(r.0@)) == before@,
        parts_text(parts_view(r.1@)) == after@,
{
    let old = tokenize(before);
    let new = tokenize(after);
    let changes = myers_changes(&old, &new);
    let ghost c = changes_view(changes@);
    let mut before_parts: Vec<DiffPart> = Vec::new();
    let mut after_parts: Vec<DiffPart> = Vec::new();
    proof {
        assert(parts_view(before_parts@) =~= Seq::<(DiffTag, Seq<char>)>::empty());
        assert(parts_view(after_parts@) =~= Seq::<(DiffTag, Seq<char>)>::empty());
    }
    let mut i: usize = 0;
    while i < changes.len()
        invariant
            i <= changes.len(),
            c == changes_view(changes@),
            parts_view(before_parts@) == side_parts(c.take(i as int), DiffTag::Delete),
            parts_view(after_parts@) == side_parts(c.take(i as int), DiffTag::Insert),
        decreases changes.len() - i,
    {
        proof {
            let t = c.take(i + 1);
            assert(t.drop_last() =~= c.take(i as int));
            assert(t.last() == c[i as int]);
        }
        let (tag, text) = (changes[i].0, changes[i].1.as_str());
        match tag {
            DiffTag::Equal => {
                push_merged(&mut before_parts, DiffTag::Equal, text);
                push_merged(&mut after_parts, DiffTag::Equal, text);
            },
            DiffTag::Delete => push_merged(&mut before_parts, DiffTag::Delete, text),
            DiffTag::Insert => push_merged(&mut after_parts, DiffTag::Insert, text),
        }
        i += 1;
    }
    proof {
        assert(c.take(i as int) =~= c);
        lemma_side_text(c);
        lemma_concat_tokens(before@);
        lemma_concat_tokens(after@);
    }
    (before_parts, after_parts)
}

/// Both sides of the word diff in one list of parts, in the order of the changes,
/// neighbours with the same tag merged. Without its inserted parts it spells the old
/// path; without its deleted parts, the new one.
pub fn path_diff_inline(before: &str, after: &str) -> (r: Vec<DiffPart>)
    ensures
        parts_view(r@) == inline_parts(diff_changes(before@, after@)),
        text_without(parts_view(r@), DiffTag::Insert) == before@,
        text_without(parts_view(r@), DiffTag::Delete) == after@,
{
    let old = tokenize(before);
    let new = tokenize(after);
    let changes = myers_changes(&old, &new);
    let ghost c = changes_view(changes@);
    let mut parts: Vec<DiffPart> = Vec::new();
    proof {
        assert(parts_view(parts@) =~= Seq::<(DiffTag, Seq<char>)>::empty());
    }
    let mut i: usize = 0;
    while i < changes.len()
        invariant
            i <= changes.len(),
            c == changes_view(changes@),
            parts_view(parts@) == inline_parts(c.take(i as int)),
        decreases changes.len() - i,
    {
        proof {
            let t = c.take(i + 1);
            assert(t.drop_last() =~= c.take(i as int));
            assert(t.last() == c[i as int]);
        }
        push_merged(&mut parts, changes[i].0, changes[i].1.as_str());
        i += 1;
    }
    proof {
        assert(c.take(i as int) =~= c);
        lemma_side_text(c);
        lemma_concat_tokens(before@);
        lemma_concat_tokens(after@);
    }
    parts
}

} // verus!
