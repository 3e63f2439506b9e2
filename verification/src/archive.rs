//! The active and the archived region of a journal text, and the moves of
//! one line between them.

use crate::scan::{first_index, lemma_first_index_is};
use crate::text::{
    chars_of, copy_line, is_blank, line_is_blank, lines_of, nonblank_line, same_chars,
    split_lines, string_of, strings_of, texts_of, trim_end, trimmed_end, views_of,
};
use vstd::prelude::*;

verus! {

/// Why a line could not be moved.
#[derive(Clone, Copy, Debug, PartialEq, Eq, Structural)]
pub enum ArchiveError {
    /// The index names no line of the region, or a blank one.
    LineNotFound,
    /// The line at the index is not the text that the caller expected.
    TextMismatch,
}

/// The heading line that opens the archived region.
pub open spec fn heading() -> Seq<char> {
    "## Archived"@
}

/// Whether `line`, but for trailing whitespace, is the heading.
pub open spec fn is_heading(line: Seq<char>) -> bool {
    trim_end(line) == heading()
}

/// `is_heading` as a value.
pub open spec fn heading_line() -> spec_fn(Seq<char>) -> bool {
    |line: Seq<char>| is_heading(line)
}

/// The condition that holds of every line but a heading.
pub open spec fn not_heading() -> spec_fn(Seq<char>) -> bool {
    |line: Seq<char>| !is_heading(line)
}

/// The lines before the first heading: all of them where there is none.
pub open spec fn active_lines(lines: Seq<Seq<char>>) -> Seq<Seq<char>> {
    lines.subrange(0, first_index(lines, heading_line()) as int)
}

/// The lines behind the first heading, without the further headings among
/// them: none where there is no heading.
pub open spec fn archived_lines(lines: Seq<Seq<char>>) -> Seq<Seq<char>> {
    let h = first_index(lines, heading_line()) as int;
    if h < lines.len() {
        lines.subrange(h + 1, lines.len() as int).filter(not_heading())
    } else {
        Seq::empty()
    }
}

/// The number of lines of `lines` that are not blank.
pub open spec fn nonblank_count(lines: Seq<Seq<char>>) -> nat {
    lines.filter(nonblank_line()).len()
}

/// The position of the line that `n` non-blank lines precede and that is not
/// blank itself, or the length of `lines` where there are too few.
pub open spec fn nth_nonblank(lines: Seq<Seq<char>>, n: nat) -> nat
    decreases lines.len(),
{
    if lines.len() == 0 {
        0
    } else if is_blank(lines[0]) {
        1 + nth_nonblank(lines.drop_first(), n)
    } else if n == 0 {
        0
    } else {
        1 + nth_nonblank(lines.drop_first(), (n - 1) as nat)
    }
}

/// `nth_nonblank` finds a line exactly where more than `n` lines are not
/// blank; the line is then not blank, and `n` non-blank lines precede it.
pub proof fn lemma_nth_nonblank(lines: Seq<Seq<char>>, n: nat)
    ensures
        nth_nonblank(lines, n) <= lines.len(),
        nth_nonblank(lines, n) < lines.len() <==> n < nonblank_count(lines),
        nth_nonblank(lines, n) < lines.len() ==> {
            &&& !is_blank(lines[nth_nonblank(lines, n) as int])
            &&& nonblank_count(lines.subrange(0, nth_nonblank(lines, n) as int)) == n
        },
    decreases lines.len(),
{
    let none = Seq::<Seq<char>>::empty();
    assert(nonblank_count(none) == 0) by {
        reveal(Seq::filter);
    }
    if lines.len() == 0 {
        assert(lines =~= none);
    } else {
        let first = lines[0];
        let rest = lines.drop_first();
        let m: nat = if is_blank(first) || n == 0 {
            n
        } else {
            (n - 1) as nat
        };
        lemma_nth_nonblank(rest, m);
        assert(lines =~= seq![first] + rest);
        rest.lemma_filter_prepend(first, nonblank_line());
        let t = nth_nonblank(lines, n) as int;
        if is_blank(first) || n > 0 {
            if t < lines.len() {
                let before = rest.subrange(0, t - 1);
                assert(lines.subrange(0, t) =~= seq![first] + before);
                before.lemma_filter_prepend(first, nonblank_line());
            }
        } else {
            assert(lines.subrange(0, 0) =~= none);
        }
    }
}

/// Each line of `lines` followed by a line feed.
pub open spec fn lines_text(lines: Seq<Seq<char>>) -> Seq<char>
    decreases lines.len(),
{
    if lines.len() == 0 {
        Seq::empty()
    } else {
        lines_text(lines.drop_last()) + lines.last() + seq!['\n']
    }
}

/// The text of a journal with the given regions: the active lines; then,
/// where anything is archived, an empty line (only behind active lines), the
/// heading and the archived lines.
pub open spec fn region_text(active: Seq<Seq<char>>, archived: Seq<Seq<char>>) -> Seq<char> {
    if archived.len() == 0 {
        lines_text(active)
    } else {
        lines_text(active) + (if active.len() > 0 {
            seq!['\n']
        } else {
            Seq::empty()
        }) + heading() + seq!['\n'] + lines_text(archived)
    }
}

/// The outcome of removing the `n`-th non-blank active line of `text` (counted
/// from zero) and adding it to the end of the archived lines: `text` itself
/// where there is no such line.
pub open spec fn archive_line_text(text: Seq<char>, n: nat) -> Seq<char> {
    let lines = lines_of(text);
    let active = active_lines(lines);
    let archived = archived_lines(lines);
    let t = nth_nonblank(active, n) as int;
    if t < active.len() {
        region_text(active.remove(t), archived.push(active[t]))
    } else {
        text
    }
}

/// Why the line at `index` of `region` cannot be moved, if it cannot: the
/// index is out of range, the line differs from `expected`, or it is blank.
pub open spec fn match_failure(region: Seq<Seq<char>>, index: nat, expected: Seq<char>) -> Option<
    ArchiveError,
> {
    if index >= region.len() {
        Some(ArchiveError::LineNotFound)
    } else if region[index as int] != expected {
        Some(ArchiveError::TextMismatch)
    } else if is_blank(expected) {
        Some(ArchiveError::LineNotFound)
    } else {
        None
    }
}

/// The text in which the active line at `index` of `text` has moved to the
/// end of the archived lines.
pub open spec fn archived_text(text: Seq<char>, index: nat) -> Seq<char> {
    let lines = lines_of(text);
    let active = active_lines(lines);
    let archived = archived_lines(lines);
    region_text(active.remove(index as int), archived.push(active[index as int]))
}

/// The text in which the archived line at `index` of `text` has moved to the
/// end of the active lines.
pub open spec fn restored_text(text: Seq<char>, index: nat) -> Seq<char> {
    let lines = lines_of(text);
    let active = active_lines(lines);
    let archived = archived_lines(lines);
    region_text(active.push(archived[index as int]), archived.remove(index as int))
}

/// Whether `line`, cut behind its first `n` characters, is `word`.
fn prefix_is(line: &Vec<char>, n: usize, word: &Vec<char>) -> (r: bool)
    requires
        n <= line.len(),
    ensures
        r == (line@.subrange(0, n as int) == word@),
{
    if n != word.len() {
        return false;
    }
    let mut i: usize = 0;
    while i < n
        invariant
            n == word.len(),
            n <= line.len(),
            i <= n,
            forall|j: int| 0 <= j < i ==> line@[j] == word@[j],
        decreases n - i,
    {
        if line[i] != word[i] {
            proof {
                assert(line@.subrange(0, n as int)[i as int] == line@[i as int]);
            }
            return false;
        }
        i = i + 1;
    }
    proof {
        assert(line@.subrange(0, n as int) =~= word@);
    }
    true
}

/// Whether `line` is a heading, given the heading's characters.
fn line_is_heading(line: &Vec<char>, head: &Vec<char>) -> (r: bool)
    requires
        head@ == heading(),
    ensures
        r == is_heading(line@),
{
    proof {
        crate::text::lemma_trim_end(line@);
    }
    let n: usize = trimmed_end(line);
    prefix_is(line, n, head)
}

/// The active and the archived lines among `lines`.
pub fn split_regions(lines: &Vec<Vec<char>>) -> (regions: (Vec<Vec<char>>, Vec<Vec<char>>))
    ensures
        views_of(regions.0@) == active_lines(views_of(lines@)),
        views_of(regions.1@) == archived_lines(views_of(lines@)),
{
    let head = chars_of("## Archived");
    let mut active: Vec<Vec<char>> = Vec::new();
    let mut archived: Vec<Vec<char>> = Vec::new();
    let mut in_archived = false;
    let ghost all = views_of(lines@);
    let ghost mut h: int = 0;
    let mut i: usize = 0;
    proof {
        assert(views_of(active@) =~= all.subrange(0, 0));
    }
    while i < lines.len()
        invariant
            i <= lines.len(),
            all == views_of(lines@),
            head@ == heading(),
            !in_archived ==> {
                &&& forall|j: int| 0 <= j < i ==> !is_heading(#[trigger] all[j])
                &&& views_of(active@) == all.subrange(0, i as int)
                &&& archived.len() == 0
            },
            in_archived ==> {
                &&& 0 <= h < i
                &&& first_index(all, heading_line()) == h
                &&& views_of(active@) == all.subrange(0, h)
                &&& views_of(archived@) == all.subrange(h + 1, i as int).filter(not_heading())
            },
        decreases lines.len() - i,
    {
        let ghost old_active = views_of(active@);
        let ghost old_archived = views_of(archived@);
        assert(all[i as int] == lines@[i as int]@);
        if line_is_heading(&lines[i], &head) {
            if !in_archived {
                proof {
                    h = i as int;
                    lemma_first_index_is(all, heading_line(), h);
                    assert(all.subrange(h + 1, i + 1) =~= Seq::<Seq<char>>::empty());
                    reveal(Seq::filter);
                    assert(views_of(archived@) =~= Seq::<Seq<char>>::empty());
                }
                in_archived = true;
            } else {
                proof {
                    all.subrange(h + 1, i as int).lemma_filter_push(all[i as int], not_heading());
                    assert(all.subrange(h + 1, i as int).push(all[i as int]) =~= all.subrange(
                        h + 1,
                        i + 1,
                    ));
                }
            }
        } else if in_archived {
            archived.push(copy_line(&lines[i]));
            proof {
                all.subrange(h + 1, i as int).lemma_filter_push(all[i as int], not_heading());
                assert(all.subrange(h + 1, i as int).push(all[i as int]) =~= all.subrange(
                    h + 1,
                    i + 1,
                ));
                assert(views_of(archived@) =~= old_archived.push(all[i as int]));
            }
        } else {
            active.push(copy_line(&lines[i]));
            proof {
                assert(views_of(active@) =~= old_active.push(all[i as int]));
                assert(all.subrange(0, i as int).push(all[i as int]) =~= all.subrange(0, i + 1));
            }
        }
        i = i + 1;
    }
    proof {
        if !in_archived {
            lemma_first_index_is(all, heading_line(), all.len() as int);
        }
    }
    (active, archived)
}

/// The active and the archived lines of `text`: the lines before the first
/// heading, and those behind it without the further headings.
pub fn split_archived(text: &str) -> (regions: (Vec<String>, Vec<String>))
    ensures
        texts_of(regions.0@) == active_lines(lines_of(text@)),
        texts_of(regions.1@) == archived_lines(lines_of(text@)),
{
    let chars = chars_of(text);
    let lines = split_lines(&chars);
    let (active, archived) = split_regions(&lines);
    (strings_of(&active), strings_of(&archived))
}

/// Adds each line of `lines`, followed by a line feed, to `out`.
fn push_lines(out: &mut Vec<char>, lines: &Vec<Vec<char>>)
    ensures
        final(out)@ == old(out)@ + lines_text(views_of(lines@)),
{
    let ghost all = views_of(lines@);
    let ghost start = out@;
    let mut i: usize = 0;
    proof {
        assert(all.subrange(0, 0) =~= Seq::<Seq<char>>::empty());
        assert(start + lines_text(all.subrange(0, 0)) =~= start);
    }
    while i < lines.len()
        invariant
            i <= lines.len(),
            all == views_of(lines@),
            out@ == start + lines_text(all.subrange(0, i as int)),
        decreases lines.len() - i,
    {
        let line = &lines[i];
        let ghost before = out@;
        let mut j: usize = 0;
        while j < line.len()
            invariant
                j <= line.len(),
                out@ == before + line@.subrange(0, j as int),
            decreases line.len() - j,
        {
            out.push(line[j]);
            proof {
                assert(line@.subrange(0, j as int).push(line@[j as int]) =~= line@.subrange(
                    0,
                    j + 1,
                ));
            }
            j = j + 1;
        }
        out.push('\n');
        proof {
            let next = all.subrange(0, i + 1);
            assert(next.drop_last() =~= all.subrange(0, i as int));
            assert(next.last() == line@);
            assert(line@.subrange(0, line.len() as int) =~= line@);
            assert(out@ =~= start + lines_text(next));
        }
        i = i + 1;
    }
    proof {
        assert(all.subrange(0, lines.len() as int) =~= all);
    }
}

/// The text of a journal with the given regions.
pub fn render_regions(active: &Vec<Vec<char>>, archived: &Vec<Vec<char>>) -> (out: Vec<char>)
    ensures
        out@ == region_text(views_of(active@), views_of(archived@)),
{
    let mut out: Vec<char> = Vec::new();
    push_lines(&mut out, active);
    proof {
        assert(out@ =~= lines_text(views_of(active@)));
    }
    if archived.len() > 0 {
        let ghost body = out@;
        if active.len() > 0 {
            out.push('\n');
        }
        let ghost gap = out@;
        let head = chars_of("## Archived");
        let mut i: usize = 0;
        while i < head.len()
            invariant
                i <= head.len(),
                out@ == gap + head@.subrange(0, i as int),
            decreases head.len() - i,
        {
            out.push(head[i]);
            proof {
                assert(head@.subrange(0, i as int).push(head@[i as int]) =~= head@.subrange(
                    0,
                    i + 1,
                ));
            }
            i = i + 1;
        }
        out.push('\n');
        proof {
            assert(head@.subrange(0, head.len() as int) =~= head@);
        }
        push_lines(&mut out, archived);
        proof {
            assert(out@ =~= region_text(views_of(active@), views_of(archived@)));
        }
    }
    out
}

/// The position of the `n`-th non-blank line of `lines`, counted from zero,
/// or the number of lines where there are too few.
pub fn find_nonblank(lines: &Vec<Vec<char>>, n: usize) -> (t: usize)
    ensures
        t == nth_nonblank(views_of(lines@), n as nat),
{
    let ghost all = views_of(lines@);
    let mut seen: usize = 0;
    let mut i: usize = 0;
    proof {
        assert(all.subrange(0, all.len() as int) =~= all);
    }
    while i < lines.len()
        invariant
            i <= lines.len(),
            seen <= n,
            all == views_of(lines@),
            nth_nonblank(all, n as nat) == i + nth_nonblank(
                all.subrange(i as int, all.len() as int),
                (n - seen) as nat,
            ),
        decreases lines.len() - i,
    {
        proof {
            let rest = all.subrange(i as int, all.len() as int);
            assert(rest[0] == lines@[i as int]@);
            assert(rest.drop_first() =~= all.subrange(i + 1, all.len() as int));
        }
        if !line_is_blank(&lines[i]) {
            if seen == n {
                return i;
            }
            seen = seen + 1;
        }
        i = i + 1;
    }
    i
}

/// The number of lines of `lines` that are not blank.
pub fn count_nonblank(lines: &Vec<Vec<char>>) -> (n: usize)
    ensures
        n == nonblank_count(views_of(lines@)),
{
    let ghost all = views_of(lines@);
    let mut n: usize = 0;
    let mut i: usize = 0;
    proof {
        reveal(Seq::filter);
        assert(all.subrange(0, 0) =~= Seq::<Seq<char>>::empty());
    }
    while i < lines.len()
        invariant
            i <= lines.len(),
            n <= i,
            all == views_of(lines@),
            n == nonblank_count(all.subrange(0, i as int)),
        decreases lines.len() - i,
    {
        proof {
            all.subrange(0, i as int).lemma_filter_push(all[i as int], nonblank_line());
            assert(all.subrange(0, i as int).push(all[i as int]) =~= all.subrange(0, i + 1));
            assert(all[i as int] == lines@[i as int]@);
        }
        if !line_is_blank(&lines[i]) {
            n = n + 1;
        }
        i = i + 1;
    }
    proof {
        assert(all.subrange(0, lines.len() as int) =~= all);
    }
    n
}

/// The number of active lines of `text` that are not blank. What is archived
/// does not count.
pub fn count_items(text: &str) -> (n: usize)
    ensures
        n == nonblank_count(active_lines(lines_of(text@))),
{
    let chars = chars_of(text);
    let lines = split_lines(&chars);
    let (active, _archived) = split_regions(&lines);
    count_nonblank(&active)
}

/// Moves the `line_idx`-th non-blank active line of `text`, counted from
/// zero, to the end of the archived lines. Where there is no such line the
/// text comes back unchanged.
pub fn archive_line(text: &str, line_idx: usize) -> (out: String)
    ensures
        out@ == archive_line_text(text@, line_idx as nat),
{
    let chars = chars_of(text);
    let lines = split_lines(&chars);
    let (mut active, mut archived) = split_regions(&lines);
    let t: usize = find_nonblank(&active, line_idx);
    if t >= active.len() {
        return string_of(&chars);
    }
    let ghost old_active = views_of(active@);
    let ghost old_archived = views_of(archived@);
    let line = active.remove(t);
    archived.push(line);
    proof {
        assert(views_of(active@) =~= old_active.remove(t as int));
        assert(views_of(archived@) =~= old_archived.push(old_active[t as int]));
    }
    let out = render_regions(&active, &archived);
    string_of(&out)
}

/// Moves the active line at `line_idx` of `text` to the end of the archived
/// lines, if it is `line_text` and not blank. The index counts every active
/// line, blank ones too.
pub fn archive_line_matching(text: &str, line_idx: usize, line_text: &str) -> (out: Result<
    String,
    ArchiveError,
>)
    ensures
        match out {
            Ok(moved) => {
                &&& match_failure(active_lines(lines_of(text@)), line_idx as nat, line_text@)
                    is None
                &&& moved@ == archived_text(text@, line_idx as nat)
            },
            Err(e) => match_failure(active_lines(lines_of(text@)), line_idx as nat, line_text@)
                == Some(e),
        },
{
    let chars = chars_of(text);
    let lines = split_lines(&chars);
    let (mut active, mut archived) = split_regions(&lines);
    let expected = chars_of(line_text);
    if line_idx >= active.len() {
        return Err(ArchiveError::LineNotFound);
    }
    if !same_chars(&active[line_idx], &expected) {
        return Err(ArchiveError::TextMismatch);
    }
    if line_is_blank(&expected) {
        return Err(ArchiveError::LineNotFound);
    }
    let ghost old_active = views_of(active@);
    let ghost old_archived = views_of(archived@);
    let line = active.remove(line_idx);
    archived.push(line);
    proof {
        assert(views_of(active@) =~= old_active.remove(line_idx as int));
        assert(views_of(archived@) =~= old_archived.push(old_active[line_idx as int]));
    }
    let out = render_regions(&active, &archived);
    Ok(string_of(&out))
}

/// Moves the archived line at `line_idx` of `text` to the end of the active
/// lines, if it is `line_text` and not blank. The index counts every archived
/// line, blank ones too.
pub fn restore_line_matching(text: &str, line_idx: usize, line_text: &str) -> (out: Result<
    String,
    ArchiveError,
>)
    ensures
        match out {
            Ok(moved) => {
                &&& match_failure(archived_lines(lines_of(text@)), line_idx as nat, line_text@)
                    is None
                &&& moved@ == restored_text(text@, line_idx as nat)
            },
            Err(e) => match_failure(archived_lines(lines_of(text@)), line_idx as nat, line_text@)
                == Some(e),
        },
{
    let chars = chars_of(text);
    let lines = split_lines(&chars);
    let (mut active, mut archived) = split_regions(&lines);
    let expected = chars_of(line_text);
    if line_idx >= archived.len() {
        return Err(ArchiveError::LineNotFound);
    }
    if !same_chars(&archived[line_idx], &expected) {
        return Err(ArchiveError::TextMismatch);
    }
    if line_is_blank(&expected) {
        return Err(ArchiveError::LineNotFound);
    }
    let ghost old_active = views_of(active@);
    let ghost old_archived = views_of(archived@);
    let line = archived.remove(line_idx);
    active.push(line);
    proof {
        assert(views_of(archived@) =~= old_archived.remove(line_idx as int));
        assert(views_of(active@) =~= old_active.push(old_archived[line_idx as int]));
    }
    let out = render_regions(&active, &archived);
    Ok(string_of(&out))
}

} // verus!
