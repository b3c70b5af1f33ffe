//! Splitting a line of input into the queries it holds.

use crate::text::texts_of;
use vstd::prelude::*;
use vstd::string::*;

verus! {

/// Whether `char::is_whitespace` holds of the character: whether it has the
/// Unicode property `White_Space`.
pub uninterp spec fn white_space(c: char) -> bool;

/// Calls `char::is_whitespace`. Believed of it: the answer depends on the
/// character alone, and is what `white_space` stands for.
#[verifier::external_body]
fn is_whitespace(c: char) -> (b: bool)
    ensures
        b == white_space(c),
{
    c.is_whitespace()
}

/// The queries of a line of input: its maximal runs of characters that are
/// no white space, in order.
///
/// Going through the line, white space adds nothing. Another character goes
/// on the run of the character before it, or begins a run where that one is
/// white space or missing.
pub open spec fn tags_in(line: Seq<char>) -> Seq<Seq<char>>
    decreases line.len(),
{
    if line.len() == 0 {
        Seq::empty()
    } else {
        let before = tags_in(line.drop_last());
        if white_space(line.last()) {
            before
        } else if line.len() >= 2 && !white_space(line[line.len() - 2]) {
            before.update(before.len() - 1, before.last().push(line.last()))
        } else {
            before.push(seq![line.last()])
        }
    }
}

/// Tells a character that is no white space.
pub open spec fn is_visible() -> spec_fn(char) -> bool {
    |c: char| !white_space(c)
}

/// `a` and `b` bound a maximal run of `line`: the characters from `a` up to
/// `b` are no white space, and white space or an end of the line stands on
/// either side.
pub open spec fn is_run(line: Seq<char>, a: int, b: int) -> bool {
    &&& 0 <= a < b <= line.len()
    &&& forall|i: int| a <= i < b ==> !white_space(#[trigger] line[i])
    &&& (a == 0 || white_space(line[a - 1]))
    &&& (b == line.len() || white_space(line[b]))
}

/// A line that ends in a character that is no white space has a query: its
/// last one, which is the run at its end.
proof fn lemma_open_run(line: Seq<char>)
    requires
        line.len() > 0,
        !white_space(line.last()),
    ensures
        tags_in(line).len() > 0,
        exists|a: int|
            0 <= a < line.len() && #[trigger] line.subrange(a, line.len() as int) == tags_in(
                line,
            ).last() && (a == 0 || white_space(line[a - 1])) && (forall|i: int|
                a <= i < line.len() ==> !white_space(#[trigger] line[i])),
    decreases line.len(),
{
    let n = line.len() as int;
    let front = line.drop_last();
    if n >= 2 && !white_space(line[n - 2]) {
        assert(front.last() == line[n - 2]);
        lemma_open_run(front);
        let a = choose|a: int|
            0 <= a < front.len() && #[trigger] front.subrange(a, front.len() as int) == tags_in(
                front,
            ).last() && (a == 0 || white_space(front[a - 1])) && (forall|i: int|
                a <= i < front.len() ==> !white_space(#[trigger] front[i]));
        assert(line.subrange(a, n) =~= front.subrange(a, n - 1).push(line.last()));
        assert forall|i: int| a <= i < n implies !white_space(#[trigger] line[i]) by {
            if i < n - 1 {
                assert(line[i] == front[i]);
            }
        }
        if a > 0 {
            assert(line[a - 1] == front[a - 1]);
        }
    } else {
        assert(line.subrange(n - 1, n) =~= seq![line.last()]);
    }
}

/// No query is empty.
pub proof fn lemma_tags_are_not_empty(line: Seq<char>)
    ensures
        forall|k: int| 0 <= k < tags_in(line).len() ==> (#[trigger] tags_in(line)[k]).len() > 0,
    decreases line.len(),
{
    if line.len() > 0 {
        let front = line.drop_last();
        lemma_tags_are_not_empty(front);
        if !white_space(line.last()) && line.len() >= 2 && !white_space(line[line.len() - 2]) {
            assert(front.last() == line[line.len() - 2]);
            lemma_open_run(front);
        }
    }
}

/// No query holds white space.
pub proof fn lemma_tags_hold_no_white_space(line: Seq<char>)
    ensures
        forall|k: int, j: int|
            0 <= k < tags_in(line).len() && 0 <= j < tags_in(line)[k].len() ==> !white_space(
                #[trigger] tags_in(line)[k][j],
            ),
    decreases line.len(),
{
    if line.len() > 0 {
        let front = line.drop_last();
        lemma_tags_hold_no_white_space(front);
        if !white_space(line.last()) && line.len() >= 2 && !white_space(line[line.len() - 2]) {
            assert(front.last() == line[line.len() - 2]);
            lemma_open_run(front);
        }
    }
}

/// A line has no query exactly when it is empty or all white space.
pub proof fn lemma_white_line_has_no_tags(line: Seq<char>)
    ensures
        tags_in(line).len() == 0 <==> forall|i: int|
            0 <= i < line.len() ==> white_space(#[trigger] line[i]),
    decreases line.len(),
{
    if line.len() > 0 {
        let n = line.len() as int;
        let front = line.drop_last();
        lemma_white_line_has_no_tags(front);
        if white_space(line.last()) {
            assert forall|i: int| 0 <= i < front.len() implies front[i] == line[i] by {}
            if tags_in(line).len() == 0 {
                assert forall|i: int| 0 <= i < n implies white_space(#[trigger] line[i]) by {
                    if i < n - 1 {
                        assert(white_space(front[i]));
                    }
                }
            }
            if forall|i: int| 0 <= i < n ==> white_space(#[trigger] line[i]) {
                assert forall|i: int| 0 <= i < front.len() implies white_space(
                    #[trigger] front[i],
                ) by {
                    assert(white_space(line[i]));
                }
            }
        } else {
            lemma_open_run(line);
            assert(!white_space(line[n - 1]));
        }
    }
}

/// No character but white space is lost, and none changes its place among
/// the others: the queries written one after another are the line without
/// its white space.
pub proof fn lemma_tags_keep_every_character(line: Seq<char>)
    ensures
        tags_in(line).flatten() == line.filter(is_visible()),
    decreases line.len(),
{
    reveal(Seq::filter);
    if line.len() == 0 {
        assert(tags_in(line).flatten() =~= Seq::<char>::empty());
    } else {
        let front = line.drop_last();
        let c = line.last();
        let before = tags_in(front);
        lemma_tags_keep_every_character(front);
        if white_space(c) {
        } else if line.len() >= 2 && !white_space(line[line.len() - 2]) {
            assert(front.last() == line[line.len() - 2]);
            lemma_open_run(front);
            let closed = before.drop_last();
            let open = before.last();
            assert(before =~= closed.push(open));
            assert(before.update(before.len() - 1, open.push(c)) =~= closed.push(open.push(c)));
            closed.lemma_flatten_push(open);
            closed.lemma_flatten_push(open.push(c));
            assert(closed.flatten() + open.push(c) =~= (closed.flatten() + open).push(c));
        } else {
            before.lemma_flatten_push(seq![c]);
            assert(before.flatten() + seq![c] =~= before.flatten().push(c));
        }
    }
}

/// Every query is a maximal run of the line, and every query but the last
/// ends before the end of the line.
pub proof fn lemma_tags_are_runs(line: Seq<char>, k: int)
    requires
        0 <= k < tags_in(line).len(),
    ensures
        exists|a: int, b: int|
            is_run(line, a, b) && #[trigger] line.subrange(a, b) == tags_in(line)[k] && (k
                < tags_in(line).len() - 1 ==> b < line.len()),
    decreases line.len(),
{
    let n = line.len() as int;
    let front = line.drop_last();
    let before = tags_in(front);
    if !white_space(line.last()) && k == tags_in(line).len() - 1 {
        lemma_open_run(line);
        let a = choose|a: int|
            0 <= a < n && #[trigger] line.subrange(a, n) == tags_in(line).last() && (a == 0
                || white_space(line[a - 1])) && (forall|i: int|
                a <= i < n ==> !white_space(#[trigger] line[i]));
        assert(is_run(line, a, n));
    } else {
        // the query was closed before the last character
        if !white_space(line.last()) && n >= 2 && !white_space(line[n - 2]) {
            assert(front.last() == line[n - 2]);
            lemma_open_run(front);
        }
        assert(0 <= k < before.len() && before[k] == tags_in(line)[k]);
        lemma_tags_are_runs(front, k);
        let (a, b) = choose|a: int, b: int|
            is_run(front, a, b) && #[trigger] front.subrange(a, b) == before[k] && (k
                < before.len() - 1 ==> b < front.len());
        assert(line.subrange(a, b) =~= front.subrange(a, b));
        assert forall|i: int| a <= i < b implies !white_space(#[trigger] line[i]) by {
            assert(line[i] == front[i]);
        }
        if a > 0 {
            assert(line[a - 1] == front[a - 1]);
        }
        if b < front.len() {
            assert(line[b] == front[b]);
        } else {
            // the run reaches the end of `front`, so the last character
            // of the line is white space
            assert(front[b - 1] == front.last());
            if n >= 2 {
                assert(front.last() == line[n - 2]);
            }
            assert(line[b] == line.last());
        }
        assert(is_run(line, a, b));
    }
}

/// The characters of a string.
fn chars_of(text: &str) -> (chars: Vec<char>)
    ensures
        chars@ == text@,
{
    let mut chars: Vec<char> = Vec::new();
    for c in it: text.chars()
        invariant
            it.seq() == text@,
            chars@ == text@.take(it.index()),
    {
        proof {
            let i = it.index();
            assert(text@.take(i + 1) =~= text@.take(i).push(text@[i]));
        }
        chars.push(c);
    }
    proof {
        assert(text@.take(text@.len() as int) =~= text@);
    }
    chars
}

/// Splits a line of input at its white space: the queries are the maximal
/// runs of other characters, in order.
pub fn split_tags(line: &str) -> (tags: Vec<String>)
    ensures
        texts_of(tags@) == tags_in(line@),
{
    let ghost s = line@;
    let chars = chars_of(line);
    let n = chars.len();
    let mut tags: Vec<String> = Vec::new();
    let mut start: usize = 0;
    let mut in_run = false;
    let mut i: usize = 0;
    proof {
        assert(s.take(0) =~= Seq::<char>::empty());
        assert(texts_of(tags@) =~= tags_in(s.take(0)));
    }
    while i < n
        invariant
            start <= i <= n,
            n == chars@.len(),
            chars@ == s,
            s == line@,
            in_run ==> start < i && !white_space(s[i - 1]) && tags_in(s.take(i as int))
                == texts_of(tags@).push(s.subrange(start as int, i as int)),
            !in_run ==> (i == 0 || white_space(s[i - 1])) && tags_in(s.take(i as int))
                == texts_of(tags@),
        decreases n - i,
    {
        let ghost closed = texts_of(tags@);
        let ghost run = s.subrange(start as int, i as int);
        proof {
            let next = s.take(i + 1);
            assert(next.drop_last() =~= s.take(i as int));
            assert(next.last() == s[i as int]);
            if i > 0 {
                assert(next[next.len() - 2] == s[i - 1]);
            }
        }
        if is_whitespace(chars[i]) {
            if in_run {
                let ghost before = tags@;
                let tag = line.substring_char(start, i).to_owned();
                tags.push(tag);
                assert(texts_of(tags@) =~= texts_of(before).push(tag@));
                in_run = false;
            }
        } else {
            if in_run {
                proof {
                    assert(closed.push(run).last() == run);
                    assert(run.push(s[i as int]) =~= s.subrange(start as int, i + 1));
                    assert(closed.push(run).update(closed.len() as int, run.push(s[i as int]))
                        =~= closed.push(s.subrange(start as int, i + 1)));
                }
            } else {
                start = i;
                in_run = true;
                assert(s.subrange(i as int, i + 1) =~= seq![s[i as int]]);
            }
        }
        i += 1;
    }
    proof {
        assert(s.take(n as int) =~= s);
    }
    if in_run {
        let ghost before = tags@;
        let tag = line.substring_char(start, n).to_owned();
        tags.push(tag);
        assert(texts_of(tags@) =~= texts_of(before).push(tag@));
    }
    tags
}

} // verus!
