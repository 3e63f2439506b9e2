//! What holds between splitting a text into items and joining items to a
//! text.

use crate::items::{
    block_item, divider, divider_line, is_divider, items_of, items_of_lines, join_lines, join_with,
    joined_text, separator,
};
use crate::scan::{first_index, lemma_first_index_is};
use crate::text::{
    are_plain_lines, is_blank, is_plain_line, is_whitespace, lemma_newline_index,
    lemma_newline_index_is, lines_of, newline_index, nonblank_line, strip_cr, trim, trim_end,
    trim_start,
};
use vstd::prelude::*;

verus! {

/// Whether no line feed of `s` stands directly behind a carriage return.
pub open spec fn no_crlf(s: Seq<char>) -> bool {
    forall|i: int| 0 < i < s.len() && #[trigger] s[i] == '\n' ==> s[i - 1] != '\r'
}

/// Whether `s` is an item as a text holds it: not empty, with no whitespace
/// at its end, no carriage return before a line feed, a first line that is
/// not blank, and no divider line.
pub open spec fn is_item(s: Seq<char>) -> bool {
    &&& s.len() > 0
    &&& !is_whitespace(s.last())
    &&& no_crlf(s)
    &&& !is_blank(lines_of(s)[0])
    &&& forall|i: int| 0 <= i < lines_of(s).len() ==> !is_divider(#[trigger] lines_of(s)[i])
}

/// Of two or more parts, the join is the first part, the separator and the
/// join of the others.
pub proof fn lemma_join_with_first(parts: Seq<Seq<char>>, sep: Seq<char>)
    requires
        parts.len() >= 2,
    ensures
        join_with(parts, sep) == parts[0] + sep + join_with(parts.drop_first(), sep),
    decreases parts.len(),
{
    let front = parts.drop_last();
    let tail = parts.drop_first();
    assert(tail.drop_last() =~= front.drop_first());
    if parts.len() == 2 {
        assert(join_with(front, sep) == parts[0]);
        assert(join_with(tail, sep) == parts[1]);
    } else {
        lemma_join_with_first(front, sep);
        assert(join_with(parts, sep) =~= parts[0] + sep + join_with(tail, sep));
    }
}

/// A join is at least as long as its last part.
pub proof fn lemma_join_with_len(parts: Seq<Seq<char>>, sep: Seq<char>)
    requires
        parts.len() > 0,
    ensures
        join_with(parts, sep).len() >= parts.last().len(),
{
}

/// The lines of a text, a line feed and a second text are the lines of the
/// first and the lines of the second, where the first does not end in a line
/// ending and holds no carriage return before a line feed.
pub proof fn lemma_lines_of_two(s: Seq<char>, rest: Seq<char>)
    requires
        s.len() > 0,
        s.last() != '\n',
        s.last() != '\r',
        no_crlf(s),
    ensures
        lines_of(s + seq!['\n'] + rest) == lines_of(s) + lines_of(rest),
        join_lines(lines_of(s)) == s,
        lines_of(s).len() > 0,
    decreases s.len(),
{
    let t = s + seq!['\n'] + rest;
    let k = newline_index(s) as int;
    lemma_newline_index(s);
    assert forall|i: int| 0 <= i < k implies #[trigger] t[i] != '\n' by {
        assert(t[i] == s[i]);
    }
    lemma_newline_index_is(t, k);
    let head = s.subrange(0, k);
    assert(t.subrange(0, k) =~= head);
    if k > 0 {
        assert(head.last() == s[k - 1]);
    }
    assert(strip_cr(head) == head);
    if k >= s.len() {
        assert(head =~= s);
        assert(t.subrange(k + 1, t.len() as int) =~= rest);
        assert(lines_of(s) =~= seq![s]);
    } else {
        let tail = s.subrange(k + 1, s.len() as int);
        assert(tail.len() > 0);
        assert(tail.last() == s.last());
        assert forall|i: int| 0 < i < tail.len() && #[trigger] tail[i] == '\n' implies tail[i
            - 1] != '\r' by {
            assert(s[k + 1 + i] == '\n');
        }
        lemma_lines_of_two(tail, rest);
        assert(t.subrange(k + 1, t.len() as int) =~= tail + seq!['\n'] + rest);
        assert(lines_of(s) == seq![head] + lines_of(tail));
        assert(lines_of(t) =~= lines_of(s) + lines_of(rest));
        let ls = lines_of(s);
        assert(ls.drop_first() =~= lines_of(tail));
        lemma_join_with_first(ls, seq!['\n']);
        assert(join_lines(ls) =~= s);
    }
}

/// The padding of a block: one empty line, or nothing.
pub open spec fn padding(present: bool) -> Seq<Seq<char>> {
    if present {
        seq![Seq::<char>::empty()]
    } else {
        Seq::empty()
    }
}

/// The item of a block that holds the lines of an item, with or without an
/// empty line before and behind them, is that item.
pub proof fn lemma_block_of_item(s: Seq<char>, before: bool, behind: bool)
    requires
        is_item(s),
    ensures
        block_item(padding(before) + lines_of(s) + padding(behind)) == s,
{
    let ls = lines_of(s);
    lemma_lines_of_two(s, Seq::empty());
    let block = padding(before) + ls + padding(behind);
    let k: int = if before {
        1
    } else {
        0
    };
    assert(block[k] == ls[0]);
    if before {
        assert(is_blank(block[0]));
    }
    lemma_first_index_is(block, nonblank_line(), k);
    let kept = block.subrange(k, block.len() as int);
    assert(kept =~= ls + padding(behind));
    assert(trim_end(s) == s);
    if behind {
        let joined = s + seq!['\n'];
        assert(kept.drop_last() =~= ls);
        assert(join_lines(kept) =~= joined);
        assert(joined.drop_last() =~= s);
        assert(is_whitespace(joined.last()));
        assert(trim_end(joined) == trim_end(s));
    } else {
        assert(kept =~= ls);
    }
}

/// The dash is no whitespace and no line ending; line feed and carriage
/// return are whitespace.
proof fn lemma_dash_is_no_whitespace()
    ensures
        !is_whitespace('-'),
        '-' != '\r',
        '-' != '\n',
        is_whitespace('\n'),
        is_whitespace('\r'),
{
}

/// The three dashes as a sequence.
pub open spec fn dashes() -> Seq<char> {
    seq!['-', '-', '-']
}

/// The line of three dashes is a divider, and the empty line is none.
pub proof fn lemma_divider_lines()
    ensures
        is_divider(dashes()),
        !is_divider(Seq::empty()),
        separator() == seq!['\n', '\n'] + dashes() + seq!['\n', '\n'],
{
    reveal_strlit("---");
    reveal_strlit("\n\n---\n\n");
    lemma_dash_is_no_whitespace();
    assert(divider() =~= dashes());
    assert(separator() =~= seq!['\n', '\n'] + dashes() + seq!['\n', '\n']);
    assert(trim(dashes()) == dashes());
    assert(trim(Seq::<char>::empty()).len() == 0);
}

/// The lines of what follows the first line feed of a separator: an empty
/// line, the divider, an empty line, and the lines of the text behind.
pub proof fn lemma_lines_behind_separator(rest: Seq<char>)
    ensures
        lines_of(seq!['\n'] + dashes() + seq!['\n', '\n'] + rest) == seq![
            Seq::<char>::empty(),
            dashes(),
            Seq::<char>::empty(),
        ] + lines_of(rest),
{
    let t1 = seq!['\n'] + dashes() + seq!['\n', '\n'] + rest;
    let t2 = dashes() + seq!['\n', '\n'] + rest;
    let t3 = seq!['\n'] + rest;
    lemma_newline_index_is(t1, 0);
    assert(t1.subrange(0, 0) =~= Seq::<char>::empty());
    assert(t1.subrange(1, t1.len() as int) =~= t2);
    lemma_newline_index_is(t2, 3);
    assert(t2.subrange(0, 3) =~= dashes());
    assert(t2.subrange(4, t2.len() as int) =~= t3);
    lemma_newline_index_is(t3, 0);
    assert(t3.subrange(0, 0) =~= Seq::<char>::empty());
    assert(t3.subrange(1, t3.len() as int) =~= rest);
    assert(lines_of(t3) == seq![Seq::<char>::empty()] + lines_of(rest));
    assert(lines_of(t2) == seq![dashes()] + lines_of(t3));
    assert(lines_of(t1) == seq![Seq::<char>::empty()] + lines_of(t2));
    assert(lines_of(t1) =~= seq![Seq::<char>::empty(), dashes(), Seq::<char>::empty()]
        + lines_of(rest));
}

/// No line of the padded lines of an item is a divider.
proof fn lemma_item_holds_no_divider(s: Seq<char>, before: bool, behind: bool)
    requires
        is_item(s),
    ensures
        forall|j: int|
            0 <= j < (padding(before) + lines_of(s) + padding(behind)).len() ==> !divider_line()(
                #[trigger] (padding(before) + lines_of(s) + padding(behind))[j],
            ),
{
    lemma_divider_lines();
    let own = lines_of(s);
    let pad = padding(before);
    let block = pad + own + padding(behind);
    assert forall|j: int| 0 <= j < block.len() implies !divider_line()(#[trigger] block[j]) by {
        if pad.len() <= j < pad.len() + own.len() {
            assert(block[j] == own[j - pad.len()]);
        }
    }
}

/// The one item among the lines of an item and a line feed, with or without
/// an empty line before them, is that item.
proof fn lemma_items_of_last(first: Seq<char>, before: bool)
    requires
        is_item(first),
    ensures
        items_of_lines(padding(before) + lines_of(first + seq!['\n'])) == seq![first],
{
    let text = first + seq!['\n'];
    assert(text =~= first + seq!['\n'] + Seq::<char>::empty());
    lemma_lines_of_two(first, Seq::empty());
    assert(lines_of(text) =~= lines_of(first));
    let lines = padding(before) + lines_of(first) + padding(false);
    assert(lines =~= padding(before) + lines_of(text));
    lemma_item_holds_no_divider(first, before, false);
    lemma_first_index_is(lines, divider_line(), lines.len() as int);
    assert(lines.subrange(0, lines.len() as int) =~= lines);
    lemma_block_of_item(first, before, false);
    assert(items_of_lines(lines) =~= seq![first]);
}

/// The items among the lines of an item, the separator and a further text
/// are that item and the items of the further text behind an empty line.
proof fn lemma_items_of_first(first: Seq<char>, next: Seq<char>, before: bool)
    requires
        is_item(first),
    ensures
        items_of_lines(padding(before) + lines_of(first + separator() + next)) == seq![first]
            + items_of_lines(padding(true) + lines_of(next)),
{
    lemma_divider_lines();
    let own = lines_of(first);
    let pad = padding(before);
    let behind = seq!['\n'] + dashes() + seq!['\n', '\n'] + next;
    let text = first + separator() + next;
    assert(text =~= first + seq!['\n'] + behind);
    lemma_lines_of_two(first, behind);
    lemma_lines_behind_separator(next);
    let empty_line = Seq::<char>::empty();
    let lines = pad + lines_of(text);
    let block = pad + own + padding(true);
    let tail = padding(true) + lines_of(next);
    assert(lines =~= block + seq![dashes()] + tail);
    let d: int = block.len() as int;
    assert(lines[d] == dashes());
    lemma_item_holds_no_divider(first, before, true);
    assert forall|j: int| 0 <= j < d implies !divider_line()(#[trigger] lines[j]) by {
        assert(lines[j] == block[j]);
    }
    lemma_first_index_is(lines, divider_line(), d);
    assert(lines.subrange(0, d) =~= block);
    assert(lines.subrange(d + 1, lines.len() as int) =~= tail);
    lemma_block_of_item(first, before, true);
}

/// The items among the lines of a joined text, with or without an empty line
/// before them, are the items that were joined.
pub proof fn lemma_items_of_joined(items: Seq<Seq<char>>, before: bool)
    requires
        items.len() > 0,
        forall|i: int| 0 <= i < items.len() ==> is_item(#[trigger] items[i]),
    ensures
        items_of_lines(padding(before) + lines_of(joined_text(items))) == items,
        joined_text(items) == join_with(items, separator()) + seq!['\n'],
    decreases items.len(),
{
    let first = items[0];
    assert(is_item(first));
    assert(is_item(items.last()));
    lemma_join_with_len(items, separator());
    if items.len() == 1 {
        lemma_items_of_last(first, before);
        assert(items =~= seq![first]);
    } else {
        let others = items.drop_first();
        assert forall|i: int| 0 <= i < others.len() implies is_item(#[trigger] others[i]) by {
            assert(others[i] == items[i + 1]);
        }
        lemma_items_of_joined(others, true);
        lemma_join_with_first(items, separator());
        assert(joined_text(items) =~= first + separator() + joined_text(others));
        lemma_items_of_first(first, joined_text(others), before);
        assert(seq![first] + others =~= items);
    }
}

/// Joining items and splitting the text again gives the items back, for
/// every list of items as a text holds them.
pub proof fn lemma_split_of_joined(items: Seq<Seq<char>>)
    requires
        forall|i: int| 0 <= i < items.len() ==> is_item(#[trigger] items[i]),
    ensures
        items_of(joined_text(items)) == items,
{
    if items.len() == 0 {
        let none = Seq::<Seq<char>>::empty();
        assert(joined_text(items) =~= Seq::<char>::empty());
        assert(lines_of(joined_text(items)) =~= none);
        assert(first_index(none, divider_line()) == 0);
        assert(none.subrange(0, 0) =~= none);
        assert(first_index(none, nonblank_line()) == 0);
        assert(join_lines(none) =~= Seq::<char>::empty());
        assert(block_item(none) =~= Seq::<char>::empty());
        assert(items_of_lines(none) =~= none);
        assert(items =~= none);
    } else {
        lemma_items_of_joined(items, false);
        assert(padding(false) + lines_of(joined_text(items)) =~= lines_of(joined_text(items)));
    }
}

/// What `trim_end` leaves is empty or ends in a character that is not
/// whitespace.
pub proof fn lemma_trim_end_is_trimmed(s: Seq<char>)
    ensures
        trim_end(s).len() > 0 ==> !is_whitespace(trim_end(s).last()),
        trim_end(trim_end(s)) == trim_end(s),
{
    crate::text::lemma_trim_end(s);
}

/// Every item among `lines` holds something and ends in a character that is
/// not whitespace.
pub proof fn lemma_items_of_lines_are_trimmed(lines: Seq<Seq<char>>)
    ensures
        forall|i: int|
            0 <= i < items_of_lines(lines).len() ==> {
                &&& (#[trigger] items_of_lines(lines)[i]).len() > 0
                &&& !is_whitespace(items_of_lines(lines)[i].last())
            },
    decreases lines.len(),
{
    let d = first_index(lines, divider_line()) as int;
    crate::scan::lemma_first_index(lines, divider_line());
    let block = lines.subrange(0, d);
    let k = first_index(block, nonblank_line()) as int;
    crate::scan::lemma_first_index(block, nonblank_line());
    lemma_trim_end_is_trimmed(join_lines(block.subrange(k, block.len() as int)));
    let item = block_item(block);
    let all = items_of_lines(lines);
    let rest = if d < lines.len() {
        items_of_lines(lines.subrange(d + 1, lines.len() as int))
    } else {
        Seq::empty()
    };
    if d < lines.len() {
        lemma_items_of_lines_are_trimmed(lines.subrange(d + 1, lines.len() as int));
    }
    assert forall|i: int| 0 <= i < all.len() implies {
        &&& (#[trigger] all[i]).len() > 0
        &&& !is_whitespace(all[i].last())
    } by {
        if item.len() > 0 {
            if i > 0 {
                assert(all[i] == rest[i - 1]);
            }
        } else {
            assert(all[i] == rest[i]);
        }
    }
}

/// Every item of a text holds something and ends in a character that is not
/// whitespace: no item is blank.
pub proof fn lemma_items_are_trimmed(text: Seq<char>)
    ensures
        forall|i: int|
            0 <= i < items_of(text).len() ==> {
                &&& (#[trigger] items_of(text)[i]).len() > 0
                &&& !is_whitespace(items_of(text)[i].last())
            },
{
    lemma_items_of_lines_are_trimmed(lines_of(text));
}

/// The position of the last line of `lines` that is not blank, or -1.
pub open spec fn last_nonblank(lines: Seq<Seq<char>>) -> int
    decreases lines.len(),
{
    if lines.len() == 0 {
        -1
    } else if !is_blank(lines.last()) {
        lines.len() - 1
    } else {
        last_nonblank(lines.drop_last())
    }
}

/// Blank text at the end does not change what `trim_end` leaves.
pub proof fn lemma_trim_end_of_blank_end(a: Seq<char>, w: Seq<char>)
    requires
        is_blank(w),
    ensures
        trim_end(a + w) == trim_end(a),
    decreases w.len(),
{
    if w.len() == 0 {
        assert(a + w =~= a);
    } else {
        let v = w.drop_last();
        assert((a + w).drop_last() =~= a + v);
        assert((a + w).last() == w.last());
        assert(is_whitespace(w.last()));
        assert forall|i: int| 0 <= i < v.len() implies is_whitespace(#[trigger] v[i]) by {
            assert(v[i] == w[i]);
        }
        lemma_trim_end_of_blank_end(a, v);
    }
}

/// Behind any text, `trim_end` of a text that is not blank cuts within that
/// text.
pub proof fn lemma_trim_end_of_end(a: Seq<char>, b: Seq<char>)
    requires
        !is_blank(b),
    ensures
        trim_end(a + b) == a + trim_end(b),
        !is_blank(trim_end(b)),
    decreases b.len(),
{
    let k = choose|k: int| 0 <= k < b.len() && !is_whitespace(b[k]);
    assert((a + b).last() == b.last());
    if is_whitespace(b.last()) {
        let c = b.drop_last();
        assert(c[k] == b[k]);
        assert((a + b).drop_last() =~= a + c);
        lemma_trim_end_of_end(a, c);
    } else {
        assert(!is_whitespace(trim_end(b)[b.len() - 1]));
    }
}

/// Blank text at the start does not change what `trim_start` leaves.
pub proof fn lemma_trim_start_of_blank_start(w: Seq<char>, a: Seq<char>)
    requires
        is_blank(w),
    ensures
        trim_start(w + a) == trim_start(a),
    decreases w.len(),
{
    if w.len() == 0 {
        assert(w + a =~= a);
    } else {
        let v = w.drop_first();
        assert((w + a).drop_first() =~= v + a);
        assert((w + a)[0] == w[0]);
        assert(is_whitespace(w[0]));
        assert forall|i: int| 0 <= i < v.len() implies is_whitespace(#[trigger] v[i]) by {
            assert(v[i] == w[i + 1]);
        }
        lemma_trim_start_of_blank_start(v, a);
    }
}

/// A line and the same line without its trailing whitespace are both
/// dividers, or neither is.
pub proof fn lemma_divider_of_trimmed(line: Seq<char>)
    requires
        !is_blank(line),
    ensures
        is_divider(trim_end(line)) == is_divider(line),
{
    crate::text::lemma_trim_end(line);
    crate::text::lemma_trim_start(line);
    let a = crate::text::trim_start_skip(line);
    let b = crate::text::trim_end_len(line);
    let n = line.len() as int;
    let k = choose|k: int| 0 <= k < line.len() && !is_whitespace(line[k]);
    assert(a <= k < b);
    let core = line.subrange(a, b);
    let head = line.subrange(0, a);
    let tail = line.subrange(b, n);
    assert(core.last() == line[b - 1]);
    assert(core[0] == line[a]);
    assert(trim_end(core) == core);
    assert(trim_start(core) == core);
    assert(line.subrange(a, n) =~= core + tail);
    lemma_trim_end_of_blank_end(core, tail);
    assert(trim(line) == core);
    assert(line.subrange(0, b) =~= head + core);
    lemma_trim_start_of_blank_start(head, core);
    assert(trim(trim_end(line)) == core);
}

/// The lines of plain lines joined are those lines, where the last of them
/// is not empty.
pub proof fn lemma_lines_of_joined(lines: Seq<Seq<char>>)
    requires
        lines.len() > 0,
        are_plain_lines(lines),
        lines.last().len() > 0,
    ensures
        lines_of(join_lines(lines)) == lines,
        join_lines(lines).len() > 0,
    decreases lines.len(),
{
    let first = lines[0];
    assert(is_plain_line(first));
    if lines.len() == 1 {
        lemma_newline_index_is(first, first.len() as int);
        assert(lines =~= seq![first]);
    } else {
        let others = lines.drop_first();
        assert forall|i: int| 0 <= i < others.len() implies is_plain_line(
            #[trigger] others[i],
        ) by {
            assert(others[i] == lines[i + 1]);
        }
        assert(others.last() == lines.last());
        lemma_lines_of_joined(others);
        lemma_join_with_first(lines, seq!['\n']);
        let rest = join_lines(others);
        let text = join_lines(lines);
        assert(text =~= first + seq!['\n'] + rest);
        let k = first.len() as int;
        assert forall|i: int| 0 <= i < k implies #[trigger] text[i] != '\n' by {
            assert(text[i] == first[i]);
        }
        lemma_newline_index_is(text, k);
        assert(text.subrange(0, k) =~= first);
        assert(text.subrange(k + 1, text.len() as int) =~= rest);
        assert(lines_of(text) =~= seq![first] + others);
        assert(seq![first] + others =~= lines);
    }
}

/// In plain lines joined, no line feed stands directly behind a carriage
/// return, and no carriage return stands at the end.
pub proof fn lemma_joined_holds_no_crlf(lines: Seq<Seq<char>>)
    requires
        are_plain_lines(lines),
    ensures
        no_crlf(join_lines(lines)),
        join_lines(lines).len() > 0 ==> join_lines(lines).last() != '\r',
    decreases lines.len(),
{
    if lines.len() == 0 {
    } else if lines.len() == 1 {
        assert(is_plain_line(lines[0]));
    } else {
        let front = lines.drop_last();
        let last = lines.last();
        assert(is_plain_line(last));
        assert forall|i: int| 0 <= i < front.len() implies is_plain_line(#[trigger] front[i]) by {
            assert(front[i] == lines[i]);
        }
        lemma_joined_holds_no_crlf(front);
        let before = join_lines(front);
        let text = join_lines(lines);
        assert(text =~= before + seq!['\n'] + last);
        let n = before.len() as int;
        assert forall|i: int| 0 < i < text.len() && #[trigger] text[i] == '\n' implies text[i - 1]
            != '\r' by {
            if i < n {
                assert(text[i] == before[i] && text[i - 1] == before[i - 1]);
            } else if i == n {
                assert(text[i - 1] == before.last());
            } else {
                assert(text[i] == last[i - n - 1]);
            }
        }
    }
}

/// What `trim_end` leaves of lines joined: the lines up to the last one that
/// is not blank, that one without its trailing whitespace.
pub proof fn lemma_trimmed_join(lines: Seq<Seq<char>>)
    requires
        exists|i: int| 0 <= i < lines.len() && !is_blank(#[trigger] lines[i]),
    ensures
        0 <= last_nonblank(lines) < lines.len(),
        !is_blank(lines[last_nonblank(lines)]),
        trim_end(join_lines(lines)) == join_lines(
            lines.subrange(0, last_nonblank(lines)).push(trim_end(lines[last_nonblank(lines)])),
        ),
    decreases lines.len(),
{
    let k = choose|i: int| 0 <= i < lines.len() && !is_blank(#[trigger] lines[i]);
    let last = lines.last();
    let front = lines.drop_last();
    let n = lines.len() as int;
    if !is_blank(last) {
        let kept = lines.subrange(0, n - 1).push(trim_end(last));
        assert(kept.drop_last() =~= front);
        if n == 1 {
            lemma_trim_end_of_end(Seq::empty(), last);
            assert(Seq::<char>::empty() + last =~= last);
            assert(Seq::<char>::empty() + trim_end(last) =~= trim_end(last));
        } else {
            let head = join_lines(front) + seq!['\n'];
            lemma_trim_end_of_end(head, last);
            assert(join_lines(lines) =~= head + last);
            assert(join_lines(kept) =~= head + trim_end(last));
        }
    } else {
        assert(k < n - 1);
        assert(front[k] == lines[k]);
        lemma_trimmed_join(front);
        let j = last_nonblank(front);
        assert(front.subrange(0, j) =~= lines.subrange(0, j));
        let end = seq!['\n'] + last;
        assert forall|i: int| 0 <= i < end.len() implies is_whitespace(#[trigger] end[i]) by {
            if i > 0 {
                assert(end[i] == last[i - 1]);
            }
        }
        assert(join_lines(lines) =~= join_lines(front) + end);
        lemma_trim_end_of_blank_end(join_lines(front), end);
    }
}

/// The item of a block of plain lines without a divider is an item as a
/// text holds it, where it is not empty.
pub proof fn lemma_block_item_is_item(block: Seq<Seq<char>>)
    requires
        are_plain_lines(block),
        forall|i: int| 0 <= i < block.len() ==> !is_divider(#[trigger] block[i]),
        block_item(block).len() > 0,
    ensures
        is_item(block_item(block)),
{
    let k = first_index(block, nonblank_line()) as int;
    crate::scan::lemma_first_index(block, nonblank_line());
    let kept = block.subrange(k, block.len() as int);
    let item = block_item(block);
    if k >= block.len() {
        assert(kept =~= Seq::<Seq<char>>::empty());
        assert(false);
    }
    assert(kept[0] == block[k]);
    assert(!is_blank(kept[0]));
    lemma_trimmed_join(kept);
    let j = last_nonblank(kept);
    let end = trim_end(kept[j]);
    let lines = kept.subrange(0, j).push(end);
    assert(item == join_lines(lines));
    lemma_trim_end_of_end(Seq::empty(), kept[j]);
    crate::text::lemma_trim_end(kept[j]);
    lemma_trim_end_is_trimmed(kept[j]);
    crate::text::lemma_blank_trim(kept[j]);
    assert(end.len() > 0);
    assert(kept[j] == block[k + j]);
    assert(is_plain_line(block[k + j]));
    lemma_divider_of_trimmed(kept[j]);
    assert(is_whitespace('\r'));
    assert forall|i: int| 0 <= i < lines.len() implies is_plain_line(#[trigger] lines[i])
        && !is_divider(lines[i]) by {
        if i < j {
            assert(lines[i] == block[k + i]);
        } else {
            assert forall|m: int| 0 <= m < end.len() implies #[trigger] end[m] != '\n' by {
                assert(end[m] == kept[j][m]);
            }
        }
    }
    lemma_lines_of_joined(lines);
    lemma_joined_holds_no_crlf(lines);
    lemma_trim_end_is_trimmed(join_lines(kept));
    assert(!is_blank(lines[0])) by {
        if j > 0 {
            assert(lines[0] == kept[0]);
        }
    }
}

/// Every item among plain lines is an item as a text holds it.
pub proof fn lemma_items_of_lines_are_items(lines: Seq<Seq<char>>)
    requires
        are_plain_lines(lines),
    ensures
        forall|i: int|
            0 <= i < items_of_lines(lines).len() ==> is_item(#[trigger] items_of_lines(lines)[i]),
    decreases lines.len(),
{
    let d = first_index(lines, divider_line()) as int;
    crate::scan::lemma_first_index(lines, divider_line());
    let block = lines.subrange(0, d);
    let item = block_item(block);
    let all = items_of_lines(lines);
    let rest = if d < lines.len() {
        items_of_lines(lines.subrange(d + 1, lines.len() as int))
    } else {
        Seq::empty()
    };
    if d < lines.len() {
        let behind = lines.subrange(d + 1, lines.len() as int);
        assert forall|i: int| 0 <= i < behind.len() implies is_plain_line(
            #[trigger] behind[i],
        ) by {
            assert(behind[i] == lines[d + 1 + i]);
        }
        lemma_items_of_lines_are_items(behind);
    }
    if item.len() > 0 {
        assert forall|i: int| 0 <= i < block.len() implies is_plain_line(#[trigger] block[i])
            && !is_divider(block[i]) by {
            assert(block[i] == lines[i]);
        }
        lemma_block_item_is_item(block);
    }
    assert forall|i: int| 0 <= i < all.len() implies is_item(#[trigger] all[i]) by {
        if item.len() > 0 {
            if i > 0 {
                assert(all[i] == rest[i - 1]);
            }
        } else {
            assert(all[i] == rest[i]);
        }
    }
}

/// Splitting, joining and splitting again gives what the first splitting
/// gave, for every text of which no line ends in a carriage return that is
/// left when its line ending is taken off.
pub proof fn lemma_split_is_stable(text: Seq<char>)
    requires
        forall|i: int|
            0 <= i < lines_of(text).len() && (#[trigger] lines_of(text)[i]).len() > 0
                ==> lines_of(text)[i].last() != '\r',
    ensures
        items_of(joined_text(items_of(text))) == items_of(text),
{
    let lines = lines_of(text);
    crate::text::lemma_lines_are_plain(text);
    lemma_items_of_lines_are_items(lines);
    lemma_split_of_joined(items_of(text));
}

} // verus!
