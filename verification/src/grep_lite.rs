//! Search with context: the lines of a text in which a regular expression
//! finds a match, each with the lines around it.

use regex::Regex;
use vstd::prelude::*;

verus! {

/// Number of lines that are shown in front of a matching line, and behind it.
pub const CONTEXT_LINES: usize = 2;

/// A compiled regular expression of the `regex` crate.
#[verifier::external_type_specification]
#[verifier::external_body]
pub struct ExRegex(regex::Regex);

/// What a regular expression holds: the texts in which `regex::Regex::find`
/// finds a match for it.
pub uninterp spec fn found_in(re: Regex) -> Set<Seq<char>>;

/// Calls `regex::Regex::find` and says whether it found a match in `line`:
/// whether `line` is one of the texts that `re` holds. Which texts these are
/// is not said here; the claim is that one expression gives one answer for
/// one text.
#[verifier::external_body]
fn finds(re: &Regex, line: &str) -> (found: bool)
    ensures
        found == found_in(*re).contains(line@),
{
    re.find(line).is_some()
}

/// The first line of the context of the line `tag`.
pub open spec fn context_start(tag: int, ctx_lines: int) -> int {
    if tag >= ctx_lines {
        tag - ctx_lines
    } else {
        0
    }
}

/// The line behind the last line of the context of the line `tag` in a text
/// of `len` lines.
pub open spec fn context_end(len: int, tag: int, ctx_lines: int) -> int {
    if tag + ctx_lines < len {
        tag + ctx_lines + 1
    } else {
        len
    }
}

/// Whether `context` is the context of the line `tag` of `lines`: the lines
/// from `ctx_lines` in front of `tag` to `ctx_lines` behind it, as far as the
/// text has them, in their order, each with its number, counted from 0.
pub open spec fn is_context(
    lines: Seq<String>,
    tag: int,
    ctx_lines: int,
    context: Seq<(usize, String)>,
) -> bool {
    let start = context_start(tag, ctx_lines);
    let end = context_end(lines.len() as int, tag, ctx_lines);
    &&& context.len() == if start < end {
        end - start
    } else {
        0
    }
    &&& forall|k: int|
        0 <= k < context.len() ==> (#[trigger] context[k]).0 == start + k && context[k].1@
            == lines[start + k]@
}

/// Whether `tags` are numbers of lines of a text of `len` lines, in rising
/// order.
pub open spec fn are_tags(tags: Seq<usize>, len: int) -> bool {
    &&& forall|j: int| 0 <= j < tags.len() ==> tags[j] < len
    &&& forall|i: int, j: int| 0 <= i < j < tags.len() ==> tags[i] < tags[j]
}

/// The numbers of those of the first `n` of `lines` that are among `found`,
/// in rising order.
pub open spec fn matching(lines: Seq<String>, found: Set<Seq<char>>, n: nat) -> Seq<usize>
    decreases n,
{
    if n == 0 {
        Seq::empty()
    } else {
        let front = matching(lines, found, (n - 1) as nat);
        if found.contains(lines[n - 1]@) {
            front.push((n - 1) as usize)
        } else {
            front
        }
    }
}

/// The lines that `matching` gives are lines of the text in rising order,
/// and they are the lines that are among `found`, all of them and no other.
pub proof fn lemma_matching(lines: Seq<String>, found: Set<Seq<char>>, n: nat)
    requires
        n <= lines.len(),
        lines.len() <= usize::MAX,
    ensures
        are_tags(matching(lines, found, n), n as int),
        forall|i: int|
            0 <= i < n ==> (matching(lines, found, n).contains(i as usize) <==> found.contains(
                (#[trigger] lines[i])@,
            )),
    decreases n,
{
    if n > 0 {
        let front = matching(lines, found, (n - 1) as nat);
        let whole = matching(lines, found, n);
        lemma_matching(lines, found, (n - 1) as nat);
        assert forall|i: int| 0 <= i < n implies (whole.contains(i as usize) <==> found.contains(
            (#[trigger] lines[i])@,
        )) by {
            if found.contains(lines[n - 1]@) {
                assert(whole == front.push((n - 1) as usize));
                assert(whole[front.len() as int] == (n - 1) as usize);
                if i < n - 1 {
                    if front.contains(i as usize) {
                        let j = choose|j: int| 0 <= j < front.len() && front[j] == i as usize;
                        assert(whole[j] == i as usize);
                    }
                    if whole.contains(i as usize) {
                        let j = choose|j: int| 0 <= j < whole.len() && whole[j] == i as usize;
                        assert(front[j] == i as usize);
                    }
                }
            } else {
                if i == n - 1 && whole.contains(i as usize) {
                    let j = choose|j: int| 0 <= j < whole.len() && whole[j] == i as usize;
                    assert(whole[j] < n - 1);
                }
            }
        }
    }
}

/// Whether `contexts` holds, for each of `tags`, the context of that line.
pub open spec fn are_contexts(
    lines: Seq<String>,
    tags: Seq<usize>,
    ctx_lines: int,
    contexts: Seq<Vec<(usize, String)>>,
) -> bool {
    &&& contexts.len() == tags.len()
    &&& forall|j: int|
        0 <= j < tags.len() ==> is_context(
            lines,
            tags[j] as int,
            ctx_lines,
            (#[trigger] contexts[j])@,
        )
}

/// The numbers of the lines in which `re` finds a match, in rising order.
pub fn matching_lines(lines: &Vec<String>, re: &Regex) -> (tags: Vec<usize>)
    ensures
        tags@ == matching(lines@, found_in(*re), lines@.len()),
        are_tags(tags@, lines@.len() as int),
{
    let mut tags: Vec<usize> = Vec::new();
    let mut i: usize = 0;
    while i < lines.len()
        invariant
            i <= lines@.len(),
            tags@ == matching(lines@, found_in(*re), i as nat),
        decreases lines@.len() - i,
    {
        if finds(re, lines[i].as_str()) {
            tags.push(i);
        }
        i += 1;
    }
    proof {
        lemma_matching(lines@, found_in(*re), lines@.len());
    }
    tags
}

/// The context of the line `tag` of `lines`.
fn context(lines: &Vec<String>, tag: usize, ctx_lines: usize) -> (context: Vec<(usize, String)>)
    ensures
        is_context(lines@, tag as int, ctx_lines as int, context@),
{
    let start = tag.saturating_sub(ctx_lines);
    let end = if tag < lines.len() && ctx_lines < lines.len() - tag {
        tag + ctx_lines + 1
    } else {
        lines.len()
    };
    let mut context: Vec<(usize, String)> = Vec::new();
    let mut i: usize = start;
    while i < end
        invariant
            start <= i,
            start < end ==> i <= end,
            start >= end ==> i == start,
            end <= lines@.len(),
            context@.len() == i - start,
            forall|k: int|
                0 <= k < context@.len() ==> (#[trigger] context@[k]).0 == start + k
                    && context@[k].1@ == lines@[start + k]@,
        decreases end - i,
    {
        context.push((i, lines[i].clone()));
        i += 1;
    }
    context
}

/// For each of the lines `tags`, its context: the lines from `ctx_lines` in
/// front of it to `ctx_lines` behind it.
pub fn contexts(lines: &Vec<String>, tags: &Vec<usize>, ctx_lines: usize) -> (contexts: Vec<
    Vec<(usize, String)>,
>)
    ensures
        are_contexts(lines@, tags@, ctx_lines as int, contexts@),
{
    let mut contexts: Vec<Vec<(usize, String)>> = Vec::new();
    let mut j: usize = 0;
    while j < tags.len()
        invariant
            j <= tags@.len(),
            are_contexts(lines@, tags@.take(j as int), ctx_lines as int, contexts@),
        decreases tags@.len() - j,
    {
        contexts.push(context(lines, tags[j], ctx_lines));
        j += 1;
    }
    assert(tags@.take(j as int) == tags@);
    contexts
}

/// Searches `lines` for `re`: for each line in which `re` finds a match, in
/// the order of the text, that line with the two lines in front of it and
/// the two behind it. Lines that lie in the contexts of two matches are in
/// both.
pub fn process_lines(lines: &Vec<String>, re: &Regex) -> (found: Vec<Vec<(usize, String)>>)
    ensures
        are_contexts(
            lines@,
            matching(lines@, found_in(*re), lines@.len()),
            CONTEXT_LINES as int,
            found@,
        ),
{
    let tags = matching_lines(lines, re);
    contexts(lines, &tags, CONTEXT_LINES)
}

} // verus!
