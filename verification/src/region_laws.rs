//! What holds between writing regions to a text and reading them back, and
//! what a move of a line does to the regions.

use crate::archive::{
    active_lines, archived_lines, archived_text, heading, heading_line, is_heading, lines_text,
    nonblank_count, not_heading, region_text, restored_text,
};
use crate::scan::{first_index, lemma_first_index, lemma_first_index_is};
use crate::text::{
    are_plain_lines, is_blank, is_plain_line, is_whitespace, lemma_newline_index_is, lines_of,
    nonblank_line, trim_end,
};
use vstd::prelude::*;

verus! {

/// The empty line that a text holds between its active lines and the
/// heading: none where either region is empty.
pub open spec fn gap(active: Seq<Seq<char>>, archived: Seq<Seq<char>>) -> Seq<Seq<char>> {
    if active.len() > 0 && archived.len() > 0 {
        seq![Seq::<char>::empty()]
    } else {
        Seq::empty()
    }
}

/// Whether no line of `lines` is a heading.
pub open spec fn holds_no_heading(lines: Seq<Seq<char>>) -> bool {
    forall|i: int| 0 <= i < lines.len() ==> !is_heading(#[trigger] lines[i])
}

/// The heading is a plain line and a heading; the empty line is no heading.
pub proof fn lemma_heading()
    ensures
        is_plain_line(heading()),
        is_heading(heading()),
        !is_heading(Seq::empty()),
        is_blank(Seq::empty()),
{
    reveal_strlit("## Archived");
    let h = heading();
    assert(h.len() == 11);
    assert(h.last() == 'd');
    assert(!is_whitespace('d'));
    assert(trim_end(h) == h);
    assert(trim_end(Seq::<char>::empty()).len() == 0);
}

/// The text of lines is the first line, a line feed and the text of the
/// other lines.
pub proof fn lemma_lines_text_first(lines: Seq<Seq<char>>)
    requires
        lines.len() > 0,
    ensures
        lines_text(lines) == lines[0] + seq!['\n'] + lines_text(lines.drop_first()),
    decreases lines.len(),
{
    let front = lines.drop_last();
    let others = lines.drop_first();
    if lines.len() == 1 {
        assert(lines_text(front) =~= Seq::<char>::empty());
        assert(lines_text(others) =~= Seq::<char>::empty());
        assert(lines_text(lines) =~= lines[0] + seq!['\n'] + lines_text(others));
    } else {
        lemma_lines_text_first(front);
        assert(others.drop_last() =~= front.drop_first());
        assert(lines_text(lines) =~= lines[0] + seq!['\n'] + lines_text(others));
    }
}

/// The text of two runs of lines is the text of the first and the text of
/// the second.
pub proof fn lemma_lines_text_of_two(a: Seq<Seq<char>>, b: Seq<Seq<char>>)
    ensures
        lines_text(a + b) == lines_text(a) + lines_text(b),
    decreases b.len(),
{
    if b.len() == 0 {
        assert(a + b =~= a);
        assert(lines_text(a) + lines_text(b) =~= lines_text(a));
    } else {
        lemma_lines_text_of_two(a, b.drop_last());
        assert((a + b).drop_last() =~= a + b.drop_last());
        assert(lines_text(a + b) =~= lines_text(a) + lines_text(b));
    }
}

/// The lines of the text of plain lines are those lines.
pub proof fn lemma_lines_of_lines_text(lines: Seq<Seq<char>>)
    requires
        are_plain_lines(lines),
    ensures
        lines_of(lines_text(lines)) == lines,
    decreases lines.len(),
{
    if lines.len() == 0 {
        assert(lines_of(lines_text(lines)) =~= lines);
    } else {
        let first = lines[0];
        let others = lines.drop_first();
        assert(is_plain_line(first));
        assert forall|i: int| 0 <= i < others.len() implies is_plain_line(
            #[trigger] others[i],
        ) by {
            assert(others[i] == lines[i + 1]);
        }
        lemma_lines_of_lines_text(others);
        lemma_lines_text_first(lines);
        let text = lines_text(lines);
        let k = first.len() as int;
        assert forall|i: int| 0 <= i < k implies #[trigger] text[i] != '\n' by {
            assert(text[i] == first[i]);
        }
        lemma_newline_index_is(text, k);
        assert(text.subrange(0, k) =~= first);
        assert(text.subrange(k + 1, text.len() as int) =~= lines_text(others));
        assert(lines_of(text) =~= seq![first] + others);
        assert(seq![first] + others =~= lines);
    }
}

/// The text of regions is the text of the active lines, the gap, the
/// heading and the archived lines, where anything is archived.
pub proof fn lemma_region_text_lines(active: Seq<Seq<char>>, archived: Seq<Seq<char>>)
    requires
        archived.len() > 0,
    ensures
        region_text(active, archived) == lines_text(
            active + gap(active, archived) + seq![heading()] + archived,
        ),
{
    let g = gap(active, archived);
    let h = seq![heading()];
    lemma_lines_text_of_two(active + g + h, archived);
    lemma_lines_text_of_two(active + g, h);
    lemma_lines_text_of_two(active, g);
    reveal_with_fuel(lines_text, 2);
    assert(h.drop_last() =~= Seq::<Seq<char>>::empty());
    assert(lines_text(h) =~= heading() + seq!['\n']);
    if g.len() > 0 {
        assert(g.drop_last() =~= Seq::<Seq<char>>::empty());
        assert(lines_text(g) =~= seq!['\n']);
    } else {
        assert(lines_text(g) =~= Seq::<char>::empty());
    }
    assert(region_text(active, archived) =~= lines_text(active) + lines_text(g) + lines_text(h)
        + lines_text(archived));
}

/// Lines without a heading stay as they are when the headings are taken
/// out.
pub proof fn lemma_lines_without_heading_stay(lines: Seq<Seq<char>>)
    requires
        holds_no_heading(lines),
    ensures
        lines.filter(not_heading()) == lines,
    decreases lines.len(),
{
    reveal(Seq::filter);
    if lines.len() > 0 {
        let front = lines.drop_last();
        assert forall|i: int| 0 <= i < front.len() implies !is_heading(#[trigger] front[i]) by {
            assert(front[i] == lines[i]);
        }
        lemma_lines_without_heading_stay(front);
        assert(!is_heading(lines.last()));
        assert(front.push(lines.last()) =~= lines);
    }
}

/// The regions of any lines hold no heading.
pub proof fn lemma_regions_hold_no_heading(lines: Seq<Seq<char>>)
    ensures
        holds_no_heading(active_lines(lines)),
        holds_no_heading(archived_lines(lines)),
{
    lemma_first_index(lines, heading_line());
    let h = first_index(lines, heading_line()) as int;
    let active = active_lines(lines);
    assert forall|i: int| 0 <= i < active.len() implies !is_heading(#[trigger] active[i]) by {
        assert(active[i] == lines[i]);
    }
    if h < lines.len() {
        let behind = lines.subrange(h + 1, lines.len() as int);
        let archived = archived_lines(lines);
        assert forall|i: int| 0 <= i < archived.len() implies !is_heading(
            #[trigger] archived[i],
        ) by {
            behind.lemma_filter_pred(not_heading(), i);
        }
    }
}

/// A text that was written from regions reads back as those regions: the
/// archived lines as they were, the active lines with the gap behind them.
pub proof fn lemma_regions_of_region_text(active: Seq<Seq<char>>, archived: Seq<Seq<char>>)
    requires
        are_plain_lines(active),
        are_plain_lines(archived),
        holds_no_heading(active),
        holds_no_heading(archived),
    ensures
        active_lines(lines_of(region_text(active, archived))) == active + gap(active, archived),
        archived_lines(lines_of(region_text(active, archived))) == archived,
{
    lemma_heading();
    let g = gap(active, archived);
    if archived.len() == 0 {
        lemma_lines_of_lines_text(active);
        assert forall|i: int| 0 <= i < active.len() implies !heading_line()(
            #[trigger] active[i],
        ) by {}
        lemma_first_index_is(active, heading_line(), active.len() as int);
        assert(active.subrange(0, active.len() as int) =~= active);
        assert(active + g =~= active);
        assert(archived =~= Seq::<Seq<char>>::empty());
    } else {
        let lines = active + g + seq![heading()] + archived;
        lemma_region_text_lines(active, archived);
        assert forall|i: int| 0 <= i < lines.len() implies is_plain_line(#[trigger] lines[i]) by {
            if i < active.len() {
                assert(lines[i] == active[i]);
            } else if i < active.len() + g.len() {
                assert(lines[i] == Seq::<char>::empty());
            } else if i == active.len() + g.len() {
                assert(lines[i] == heading());
            } else {
                assert(lines[i] == archived[i - active.len() - g.len() - 1]);
            }
        }
        lemma_lines_of_lines_text(lines);
        let h = (active.len() + g.len()) as int;
        assert(lines[h] == heading());
        assert forall|i: int| 0 <= i < h implies !heading_line()(#[trigger] lines[i]) by {
            if i < active.len() {
                assert(lines[i] == active[i]);
            } else {
                assert(lines[i] == Seq::<char>::empty());
            }
        }
        lemma_first_index_is(lines, heading_line(), h);
        assert(lines.subrange(0, h) =~= active + g);
        assert(lines.subrange(h + 1, lines.len() as int) =~= archived);
        lemma_lines_without_heading_stay(archived);
    }
}

/// The number of lines that are not blank, of two runs of lines: the sum.
pub proof fn lemma_nonblank_count_of_two(a: Seq<Seq<char>>, b: Seq<Seq<char>>)
    ensures
        nonblank_count(a + b) == nonblank_count(a) + nonblank_count(b),
{
    Seq::filter_distributes_over_add(a, b, nonblank_line());
}

/// The gap holds no line that is not blank.
pub proof fn lemma_gap_is_blank(active: Seq<Seq<char>>, archived: Seq<Seq<char>>)
    ensures
        nonblank_count(active + gap(active, archived)) == nonblank_count(active),
{
    let g = gap(active, archived);
    lemma_nonblank_count_of_two(active, g);
    reveal_with_fuel(Seq::filter, 2);
    if g.len() > 0 {
        assert(g.drop_last() =~= Seq::<Seq<char>>::empty());
        assert(is_blank(g.last()));
    }
}

/// One line of `lines` that is not blank counts as one.
pub proof fn lemma_nonblank_count_of_removed(lines: Seq<Seq<char>>, index: int)
    requires
        0 <= index < lines.len(),
        !is_blank(lines[index]),
    ensures
        nonblank_count(lines.remove(index)) + 1 == nonblank_count(lines),
{
    let a = lines.subrange(0, index);
    let b = lines.subrange(index + 1, lines.len() as int);
    let one = seq![lines[index]];
    assert(lines =~= a + one + b);
    lemma_nonblank_count_of_two(a + one, b);
    lemma_nonblank_count_of_two(a, one);
    lemma_nonblank_count_of_two(a, b);
    reveal_with_fuel(Seq::filter, 2);
    assert(one.drop_last() =~= Seq::<Seq<char>>::empty());
    assert(nonblank_count(one) == 1);
}

/// Where the active line at `index` of a text of plain lines is not blank,
/// the text with that line archived holds it as its last archived line, the
/// other active lines as they were, and one item less.
pub proof fn lemma_archived_text(text: Seq<char>, index: nat)
    requires
        are_plain_lines(lines_of(text)),
        index < active_lines(lines_of(text)).len(),
        !is_blank(active_lines(lines_of(text))[index as int]),
    ensures
        ({
            let active = active_lines(lines_of(text));
            let archived = archived_lines(lines_of(text));
            let left = active.remove(index as int);
            let moved = archived.push(active[index as int]);
            let after = lines_of(archived_text(text, index));
            &&& active_lines(after) == left + gap(left, moved)
            &&& archived_lines(after) == moved
            &&& nonblank_count(active_lines(after)) + 1 == nonblank_count(active)
        }),
{
    let lines = lines_of(text);
    let active = active_lines(lines);
    let archived = archived_lines(lines);
    let left = active.remove(index as int);
    let moved = archived.push(active[index as int]);
    lemma_regions_are_plain(lines);
    lemma_regions_hold_no_heading(lines);
    assert forall|i: int| 0 <= i < left.len() implies is_plain_line(#[trigger] left[i])
        && !is_heading(left[i]) by {
        if i < index {
            assert(left[i] == active[i]);
        } else {
            assert(left[i] == active[i + 1]);
        }
    }
    assert forall|i: int| 0 <= i < moved.len() implies is_plain_line(#[trigger] moved[i])
        && !is_heading(moved[i]) by {
        if i < archived.len() {
            assert(moved[i] == archived[i]);
        }
    }
    lemma_regions_of_region_text(left, moved);
    lemma_gap_is_blank(left, moved);
    lemma_nonblank_count_of_removed(active, index as int);
}

/// Where the archived line at `index` of a text of plain lines is not
/// blank, the text with that line restored holds it as its last active
/// line, the other archived lines as they were, and one item more.
pub proof fn lemma_restored_text(text: Seq<char>, index: nat)
    requires
        are_plain_lines(lines_of(text)),
        index < archived_lines(lines_of(text)).len(),
        !is_blank(archived_lines(lines_of(text))[index as int]),
    ensures
        ({
            let active = active_lines(lines_of(text));
            let archived = archived_lines(lines_of(text));
            let grown = active.push(archived[index as int]);
            let left = archived.remove(index as int);
            let after = lines_of(restored_text(text, index));
            &&& active_lines(after) == grown + gap(grown, left)
            &&& archived_lines(after) == left
            &&& nonblank_count(active_lines(after)) == nonblank_count(active) + 1
        }),
{
    let lines = lines_of(text);
    let active = active_lines(lines);
    let archived = archived_lines(lines);
    let grown = active.push(archived[index as int]);
    let left = archived.remove(index as int);
    lemma_regions_are_plain(lines);
    lemma_regions_hold_no_heading(lines);
    assert forall|i: int| 0 <= i < left.len() implies is_plain_line(#[trigger] left[i])
        && !is_heading(left[i]) by {
        if i < index {
            assert(left[i] == archived[i]);
        } else {
            assert(left[i] == archived[i + 1]);
        }
    }
    assert forall|i: int| 0 <= i < grown.len() implies is_plain_line(#[trigger] grown[i])
        && !is_heading(grown[i]) by {
        if i < active.len() {
            assert(grown[i] == active[i]);
        }
    }
    lemma_regions_of_region_text(grown, left);
    lemma_gap_is_blank(grown, left);
    active.lemma_filter_push(archived[index as int], nonblank_line());
}

/// The regions of plain lines hold plain lines.
pub proof fn lemma_regions_are_plain(lines: Seq<Seq<char>>)
    requires
        are_plain_lines(lines),
    ensures
        are_plain_lines(active_lines(lines)),
        are_plain_lines(archived_lines(lines)),
{
    lemma_first_index(lines, heading_line());
    let h = first_index(lines, heading_line()) as int;
    let active = active_lines(lines);
    assert forall|i: int| 0 <= i < active.len() implies is_plain_line(#[trigger] active[i]) by {
        assert(active[i] == lines[i]);
    }
    if h < lines.len() {
        let behind = lines.subrange(h + 1, lines.len() as int);
        let archived = archived_lines(lines);
        assert forall|i: int| 0 <= i < archived.len() implies is_plain_line(
            #[trigger] archived[i],
        ) by {
            assert(archived.contains(archived[i]));
            behind.lemma_filter_contains_rev(not_heading(), archived[i]);
            let j = choose|j: int| 0 <= j < behind.len() && behind[j] == archived[i];
            assert(behind[j] == lines[h + 1 + j]);
        }
    }
}

} // verus!
