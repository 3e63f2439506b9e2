//! Items in a flat text: blocks of lines that divider lines separate.

use crate::scan::{first_index, lemma_first_index_is};
use crate::text::{
    chars_of, is_blank, lemma_trim_end, lemma_trim_start, line_is_blank, lines_of, nonblank_line,
    slice_of, split_lines, string_of, strings_of, texts_of, trim, trim_end, trimmed_end,
    trimmed_start, views_of,
};
use vstd::prelude::*;
use vstd::string::StringExecFns;

verus! {

/// What a divider line holds between its whitespace.
pub open spec fn divider() -> Seq<char> {
    "---"@
}

/// What stands between two items of a text: an empty line, the divider and
/// another empty line.
pub open spec fn separator() -> Seq<char> {
    "\n\n---\n\n"@
}

/// Whether `line`, but for whitespace around it, is the divider.
pub open spec fn is_divider(line: Seq<char>) -> bool {
    trim(line) == divider()
}

/// `is_divider` as a value.
pub open spec fn divider_line() -> spec_fn(Seq<char>) -> bool {
    |line: Seq<char>| is_divider(line)
}

/// The parts one after another, with `sep` between each two.
pub open spec fn join_with(parts: Seq<Seq<char>>, sep: Seq<char>) -> Seq<char>
    decreases parts.len(),
{
    if parts.len() == 0 {
        Seq::empty()
    } else if parts.len() == 1 {
        parts[0]
    } else {
        join_with(parts.drop_last(), sep) + sep + parts.last()
    }
}

/// The lines one after another, with a line feed between each two.
pub open spec fn join_lines(lines: Seq<Seq<char>>) -> Seq<char> {
    join_with(lines, seq!['\n'])
}

/// The item that a block of lines holds: the lines from the first non-blank
/// one on, joined, without trailing whitespace. It is empty exactly where
/// every line of the block is blank.
pub open spec fn block_item(block: Seq<Seq<char>>) -> Seq<char> {
    let k = first_index(block, nonblank_line()) as int;
    trim_end(join_lines(block.subrange(k, block.len() as int)))
}

/// The items among `lines`: the item of each block that a divider line or an
/// end of the text bounds, but for the empty ones.
pub open spec fn items_of_lines(lines: Seq<Seq<char>>) -> Seq<Seq<char>>
    decreases lines.len(),
{
    let d = first_index(lines, divider_line()) as int;
    let item = block_item(lines.subrange(0, d));
    let rest = if d < lines.len() {
        items_of_lines(lines.subrange(d + 1, lines.len() as int))
    } else {
        Seq::empty()
    };
    if item.len() > 0 {
        seq![item] + rest
    } else {
        rest
    }
}

/// The items of `text`, in the order of the text.
pub open spec fn items_of(text: Seq<char>) -> Seq<Seq<char>> {
    items_of_lines(lines_of(text))
}

/// The text that holds `items`: the items with the separator between each
/// two and a line feed at the end; nothing where that would be empty.
pub open spec fn joined_text(items: Seq<Seq<char>>) -> Seq<char> {
    let body = join_with(items, separator());
    if body.len() > 0 {
        body + seq!['\n']
    } else {
        body
    }
}

/// `existing` with `item` added behind it: `existing` itself where `item` is
/// blank; else `existing` without the whitespace around it, the separator
/// where anything is left of it, `item` without its trailing whitespace, and
/// a line feed.
pub open spec fn appended_text(existing: Seq<char>, item: Seq<char>) -> Seq<char> {
    let added = trim_end(item);
    let kept = trim(existing);
    if added.len() == 0 {
        existing
    } else if kept.len() == 0 {
        added + seq!['\n']
    } else {
        kept + separator() + added + seq!['\n']
    }
}

/// Whether `line` is a divider line.
pub fn line_is_divider(line: &Vec<char>) -> (r: bool)
    ensures
        r == is_divider(line@),
{
    let k: usize = trimmed_start(line);
    let rest = slice_of(line, k, line.len());
    let n: usize = trimmed_end(&rest);
    proof {
        lemma_trim_start(line@);
        lemma_trim_end(rest@);
        reveal_strlit("---");
        let t = trim(line@);
        assert(t == rest@.subrange(0, n as int));
        if n == 3 {
            assert(t[0] == rest@[0] && t[1] == rest@[1] && t[2] == rest@[2]);
            if rest@[0] == '-' && rest@[1] == '-' && rest@[2] == '-' {
                assert(t =~= divider());
            }
        }
    }
    n == 3 && rest[0] == '-' && rest[1] == '-' && rest[2] == '-'
}

/// Adds the characters of `part` to `out`.
fn push_chars(out: &mut Vec<char>, part: &Vec<char>)
    ensures
        final(out)@ == old(out)@ + part@,
{
    let ghost start = out@;
    let mut j: usize = 0;
    proof {
        assert(start + part@.subrange(0, 0) =~= start);
    }
    while j < part.len()
        invariant
            j <= part.len(),
            out@ == start + part@.subrange(0, j as int),
        decreases part.len() - j,
    {
        out.push(part[j]);
        proof {
            assert(part@.subrange(0, j as int).push(part@[j as int]) =~= part@.subrange(
                0,
                j + 1,
            ));
        }
        j = j + 1;
    }
    proof {
        assert(part@.subrange(0, part.len() as int) =~= part@);
    }
}

/// The item that the lines from `from` up to `to` hold.
fn item_of_block(lines: &Vec<Vec<char>>, from: usize, to: usize) -> (item: Vec<char>)
    requires
        from <= to <= lines.len(),
    ensures
        item@ == block_item(views_of(lines@).subrange(from as int, to as int)),
{
    let ghost block = views_of(lines@).subrange(from as int, to as int);
    let mut k: usize = from;
    while k < to && line_is_blank(&lines[k])
        invariant
            from <= k <= to <= lines.len(),
            block == views_of(lines@).subrange(from as int, to as int),
            forall|j: int| 0 <= j < k - from ==> is_blank(#[trigger] block[j]),
        decreases to - k,
    {
        k = k + 1;
    }
    proof {
        lemma_first_index_is(block, nonblank_line(), k - from);
    }
    let ghost kept = block.subrange(k - from, block.len() as int);
    let mut joined: Vec<char> = Vec::new();
    let mut j: usize = k;
    proof {
        assert(kept.subrange(0, 0) =~= Seq::<Seq<char>>::empty());
    }
    while j < to
        invariant
            k <= j <= to <= lines.len(),
            from <= k,
            block == views_of(lines@).subrange(from as int, to as int),
            kept == block.subrange(k - from, block.len() as int),
            joined@ == join_lines(kept.subrange(0, j - k)),
        decreases to - j,
    {
        let ghost before = joined@;
        if j > k {
            joined.push('\n');
        }
        push_chars(&mut joined, &lines[j]);
        proof {
            let next = kept.subrange(0, j - k + 1);
            assert(next.drop_last() =~= kept.subrange(0, j - k));
            assert(next.last() == lines@[j as int]@);
            if j > k {
                assert(joined@ =~= before + seq!['\n'] + lines@[j as int]@);
            } else {
                assert(joined@ =~= lines@[j as int]@);
            }
        }
        j = j + 1;
    }
    proof {
        assert(kept.subrange(0, to - k) =~= kept);
        lemma_trim_end(joined@);
    }
    let n: usize = trimmed_end(&joined);
    slice_of(&joined, 0, n)
}

/// The items among `lines`.
pub fn items_in(lines: &Vec<Vec<char>>) -> (items: Vec<Vec<char>>)
    ensures
        views_of(items@) == items_of_lines(views_of(lines@)),
{
    let ghost all = views_of(lines@);
    let n: usize = lines.len();
    let mut items: Vec<Vec<char>> = Vec::new();
    let mut start: usize = 0;
    let mut i: usize = 0;
    proof {
        assert(all.subrange(0, n as int) =~= all);
        assert(views_of(items@) + items_of_lines(all) =~= items_of_lines(all));
    }
    while i < n
        invariant
            n == lines.len(),
            start <= i <= n,
            all == views_of(lines@),
            forall|j: int| start <= j < i ==> !is_divider(#[trigger] all[j]),
            views_of(items@) + items_of_lines(all.subrange(start as int, n as int))
                == items_of_lines(all),
        decreases n - i,
    {
        assert(all[i as int] == lines@[i as int]@);
        if line_is_divider(&lines[i]) {
            let ghost tail = all.subrange(start as int, n as int);
            let ghost before = views_of(items@);
            let item = item_of_block(lines, start, i);
            proof {
                assert forall|j: int| 0 <= j < i - start implies !divider_line()(
                    #[trigger] tail[j],
                ) by {
                    assert(tail[j] == all[start + j]);
                }
                lemma_first_index_is(tail, divider_line(), i - start);
                assert(tail.subrange(0, i - start) =~= all.subrange(start as int, i as int));
                assert(tail.subrange(i - start + 1, tail.len() as int) =~= all.subrange(
                    i + 1,
                    n as int,
                ));
            }
            if item.len() > 0 {
                items.push(item);
                proof {
                    assert(views_of(items@) =~= before + seq![item@]);
                    assert(views_of(items@) + items_of_lines(all.subrange(i + 1, n as int))
                        =~= before + items_of_lines(tail));
                }
            }
            start = i + 1;
        }
        i = i + 1;
    }
    let ghost tail = all.subrange(start as int, n as int);
    let ghost before = views_of(items@);
    let item = item_of_block(lines, start, n);
    proof {
        assert forall|j: int| 0 <= j < n - start implies !divider_line()(#[trigger] tail[j]) by {
            assert(tail[j] == all[start + j]);
        }
        lemma_first_index_is(tail, divider_line(), n - start);
        assert(tail.subrange(0, n - start) =~= tail);
    }
    if item.len() > 0 {
        items.push(item);
        proof {
            assert(views_of(items@) =~= before + seq![item@]);
            assert(views_of(items@) =~= before + items_of_lines(tail));
        }
    } else {
        proof {
            assert(before + items_of_lines(tail) =~= before);
        }
    }
    items
}

/// The items of `text`, in the order of the text. A line that holds only the
/// divider ends an item; blank lines before an item and whitespace behind it
/// are left out, and so is an item of which nothing remains.
pub fn split_items(text: &str) -> (items: Vec<String>)
    ensures
        texts_of(items@) == items_of(text@),
{
    let chars = chars_of(text);
    let lines = split_lines(&chars);
    let items = items_in(&lines);
    strings_of(&items)
}

/// The number of items of `text`.
pub fn count_split_items(text: &str) -> (n: usize)
    ensures
        n == items_of(text@).len(),
{
    let chars = chars_of(text);
    let lines = split_lines(&chars);
    let items = items_in(&lines);
    proof {
        assert(views_of(items@).len() == items@.len());
    }
    items.len()
}

/// The text that holds `items`, with the separator between each two and a
/// line feed at the end. No item, or nothing but one empty item, gives the
/// empty text.
pub fn join_items(items: &Vec<String>) -> (text: String)
    ensures
        text@ == joined_text(texts_of(items@)),
{
    let ghost all = texts_of(items@);
    let mut text = String::new();
    let mut i: usize = 0;
    proof {
        assert(all.subrange(0, 0) =~= Seq::<Seq<char>>::empty());
    }
    while i < items.len()
        invariant
            i <= items.len(),
            all == texts_of(items@),
            text@ == join_with(all.subrange(0, i as int), separator()),
        decreases items.len() - i,
    {
        let ghost before = text@;
        if i > 0 {
            text.append("\n\n---\n\n");
        }
        text.append(items[i].as_str());
        proof {
            let next = all.subrange(0, i + 1);
            assert(next.drop_last() =~= all.subrange(0, i as int));
            assert(next.last() == items@[i as int]@);
            if i > 0 {
                assert(text@ =~= before + separator() + items@[i as int]@);
            } else {
                assert(text@ =~= items@[i as int]@);
            }
        }
        i = i + 1;
    }
    proof {
        assert(all.subrange(0, items.len() as int) =~= all);
    }
    if text.as_str().unicode_len() > 0 {
        text.append("\n");
        proof {
            reveal_strlit("\n");
            assert("\n"@ =~= seq!['\n']);
        }
    }
    text
}

/// `existing` with `new_item` added as its last item. A blank `new_item`
/// leaves `existing` as it is.
pub fn append_item(existing: &str, new_item: &str) -> (text: String)
    ensures
        text@ == appended_text(existing@, new_item@),
{
    let item = chars_of(new_item);
    let old_chars = chars_of(existing);
    let n: usize = trimmed_end(&item);
    if n == 0 {
        return string_of(&old_chars);
    }
    let k: usize = trimmed_start(&old_chars);
    let rest = slice_of(&old_chars, k, old_chars.len());
    let m: usize = trimmed_end(&rest);
    proof {
        lemma_trim_end(item@);
        lemma_trim_start(old_chars@);
        lemma_trim_end(rest@);
    }
    let mut out = slice_of(&rest, 0, m);
    if m > 0 {
        let sep = chars_of("\n\n---\n\n");
        push_chars(&mut out, &sep);
    }
    let added = slice_of(&item, 0, n);
    push_chars(&mut out, &added);
    out.push('\n');
    proof {
        assert(out@ =~= appended_text(existing@, new_item@));
    }
    string_of(&out)
}

} // verus!
