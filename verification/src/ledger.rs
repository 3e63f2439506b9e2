//! The items of one day, changed by index, and the trash that keeps what
//! was deleted.

use crate::items::{
    append_item, appended_text, count_split_items, items_of, join_items, joined_text, split_items,
};
use crate::journal::{extension, filename_of, StoredFile};
use crate::text::{chars_of, slice_of, string_of, texts_of};
use vstd::prelude::*;
use vstd::string::StringExecFns;

verus! {

/// The items of a day.
#[derive(Clone, Debug)]
pub struct DayItems {
    pub date: String,
    pub items: Vec<String>,
    pub count: usize,
}

/// The number of items of a day.
#[derive(Clone, Debug)]
pub struct DayCount {
    pub date: String,
    pub count: usize,
}

/// A day after a change, and the text of its file.
#[derive(Clone, Debug)]
pub struct DayChange {
    pub day: DayItems,
    pub text: String,
}

/// A day after a deletion, the text of its file, and the new text of the
/// trash file where an item was deleted.
#[derive(Clone, Debug)]
pub struct Deletion {
    pub day: DayItems,
    pub text: String,
    pub trash: Option<String>,
}

/// `items` with the one at `index` replaced by `item`: `items` itself where
/// there is none at `index`.
pub open spec fn updated_items(items: Seq<Seq<char>>, index: nat, item: Seq<char>) -> Seq<
    Seq<char>,
> {
    if index < items.len() {
        items.update(index as int, item)
    } else {
        items
    }
}

/// `items` without the one at `index`: `items` itself where there is none
/// at `index`.
pub open spec fn remaining_items(items: Seq<Seq<char>>, index: nat) -> Seq<Seq<char>> {
    if index < items.len() {
        items.remove(index as int)
    } else {
        items
    }
}

/// The record of a deleted item: the time in square brackets on a line of
/// its own, then the item.
pub open spec fn trash_record(stamp: Seq<char>, item: Seq<char>) -> Seq<char> {
    seq!['['] + stamp + seq![']', '\n'] + item
}

/// The trash after the deletion of the item at `index`, if there is one.
pub open spec fn trash_after(
    items: Seq<Seq<char>>,
    index: nat,
    trash_text: Seq<char>,
    stamp: Seq<char>,
) -> Option<Seq<char>> {
    if index < items.len() {
        Some(appended_text(trash_text, trash_record(stamp, items[index as int])))
    } else {
        None
    }
}

/// The day of the file `name`: the name without the extension `.md`, or
/// the whole name where it has another ending.
pub open spec fn date_of(name: Seq<char>) -> Seq<char> {
    if name.len() >= 3 && name.subrange(name.len() - 3, name.len() as int) == extension() {
        name.subrange(0, name.len() - 3)
    } else {
        name
    }
}

/// The number of items that a listed file holds: none where it could not be
/// read.
pub open spec fn day_count(file: StoredFile) -> nat {
    match file.text {
        Some(text) => items_of(text@).len(),
        None => 0,
    }
}

/// The day of a day's file is that day.
pub proof fn lemma_date_of_filename(date: Seq<char>)
    ensures
        date_of(filename_of(date)) == date,
{
    reveal_strlit(".md");
    let name = filename_of(date);
    assert(name.subrange(name.len() - 3, name.len() as int) =~= extension());
    assert(name.subrange(0, name.len() - 3) =~= date);
}

/// Whether `deletion` is what deleting the item at `index` of the day's
/// `text` at the time `stamp` gives: the day with the remaining items, the
/// text that holds them joined anew, and the trash with the record added.
pub open spec fn is_deletion(
    deletion: Deletion,
    date: Seq<char>,
    text: Seq<char>,
    index: nat,
    trash_text: Seq<char>,
    stamp: Seq<char>,
) -> bool {
    &&& deletion.day.date@ == date
    &&& texts_of(deletion.day.items@) == remaining_items(items_of(text), index)
    &&& deletion.day.count == deletion.day.items@.len()
    &&& deletion.text@ == joined_text(texts_of(deletion.day.items@))
    &&& match deletion.trash {
        Some(trash) => Some(trash@) == trash_after(items_of(text), index, trash_text, stamp),
        None => trash_after(items_of(text), index, trash_text, stamp) is None,
    }
}

/// The record of `item`, deleted at the time `stamp`.
pub fn trash_entry(stamp: &str, item: &str) -> (record: String)
    ensures
        record@ == trash_record(stamp@, item@),
{
    let mut record = String::new();
    record.append("[");
    record.append(stamp);
    record.append("]\n");
    record.append(item);
    proof {
        reveal_strlit("[");
        reveal_strlit("]\n");
        assert(record@ =~= trash_record(stamp@, item@));
    }
    record
}

/// The day of the file `name`.
pub fn date_of_filename(name: &str) -> (date: String)
    ensures
        date@ == date_of(name@),
{
    let chars = chars_of(name);
    let n: usize = chars.len();
    proof {
        reveal_strlit(".md");
        if n >= 3 {
            let tail = chars@.subrange(n - 3, n as int);
            assert(tail[0] == chars@[n - 3] && tail[1] == chars@[n - 2] && tail[2] == chars@[n
                - 1]);
            if chars@[n - 3] == '.' && chars@[n - 2] == 'm' && chars@[n - 1] == 'd' {
                assert(tail =~= extension());
            }
        }
    }
    if n >= 3 && chars[n - 3] == '.' && chars[n - 2] == 'm' && chars[n - 1] == 'd' {
        string_of(&slice_of(&chars, 0, n - 3))
    } else {
        string_of(&chars)
    }
}

/// Replaces the item at `index` of the day's `text` by `new_text`. Where
/// there is no such item, the items stay as they are. The text that comes
/// back holds the items joined anew.
pub fn update_item_for_date(date: &str, text: &str, index: usize, new_text: &str) -> (change:
    DayChange)
    ensures
        change.day.date@ == date@,
        texts_of(change.day.items@) == updated_items(items_of(text@), index as nat, new_text@),
        change.day.count == change.day.items@.len(),
        change.text@ == joined_text(texts_of(change.day.items@)),
{
    let mut items = split_items(text);
    let ghost before = texts_of(items@);
    if index < items.len() {
        items.set(index, new_text.to_owned());
        proof {
            assert(texts_of(items@) =~= before.update(index as int, new_text@));
        }
    }
    let joined = join_items(&items);
    let count: usize = items.len();
    DayChange { day: DayItems { date: date.to_owned(), items, count }, text: joined }
}

/// Deletes the item at `index` of the day's `text`, and adds its record,
/// with the time `stamp`, to `trash_text`. Where there is no such item, the
/// items stay as they are and there is no new trash.
pub fn delete_item_at(date: &str, text: &str, index: usize, trash_text: &str, stamp: &str) -> (deletion:
    Deletion)
    ensures
        is_deletion(deletion, date@, text@, index as nat, trash_text@, stamp@),
{
    let mut items = split_items(text);
    let ghost before = texts_of(items@);
    let mut trash: Option<String> = None;
    if index < items.len() {
        let item = items.remove(index);
        proof {
            assert(item@ == before[index as int]);
            assert(texts_of(items@) =~= before.remove(index as int));
        }
        let record = trash_entry(stamp, item.as_str());
        trash = Some(append_item(trash_text, record.as_str()));
    }
    let joined = join_items(&items);
    let count: usize = items.len();
    Deletion { day: DayItems { date: date.to_owned(), items, count }, text: joined, trash }
}

/// The day and the number of items of each listed file, in the order of the
/// listing. A file that could not be read has no item.
pub fn list_day_counts(files: &Vec<StoredFile>) -> (days: Vec<DayCount>)
    ensures
        days@.len() == files@.len(),
        forall|i: int|
            0 <= i < files@.len() ==> {
                &&& (#[trigger] days@[i]).date@ == date_of(files@[i].name@)
                &&& days@[i].count == day_count(files@[i])
            },
{
    let mut days: Vec<DayCount> = Vec::new();
    let mut i: usize = 0;
    while i < files.len()
        invariant
            i <= files.len(),
            days@.len() == i,
            forall|j: int|
                0 <= j < i ==> {
                    &&& (#[trigger] days@[j]).date@ == date_of(files@[j].name@)
                    &&& days@[j].count == day_count(files@[j])
                },
        decreases files.len() - i,
    {
        let file = &files[i];
        let count: usize = match &file.text {
            Some(text) => count_split_items(text.as_str()),
            None => 0,
        };
        days.push(DayCount { date: date_of_filename(file.name.as_str()), count });
        i = i + 1;
    }
    days
}

/// The local time of the machine, written by `pattern`: `chrono`'s
/// `Local::now`, `DateTime::format` and `to_string`. Which time comes back
/// is the clock's. Its shape is the pattern's: `format` writes the year in
/// four digits, or with a sign where it needs more, and month, day, hour
/// and minute in two digits each, within the ranges that `chrono` gives
/// them. `format` takes any pattern, and `to_string` panics on one that it
/// cannot read: only the two patterns of this library are let in. A clock
/// set before 1970 makes `Local::now` panic.
#[verifier::external_body]
fn local_time_text(pattern: &str) -> (text: String)
    requires
        pattern@ == day_pattern() || pattern@ == stamp_pattern(),
    ensures
        pattern@ == day_pattern() ==> is_day_text(text@),
        pattern@ == stamp_pattern() ==> is_stamp_text(text@),
{
    chrono::Local::now().format(pattern).to_string()
}

/// The day that it is now on this machine, as the journal names its days:
/// the year, a dash, the two digits of the month, a dash and the two digits
/// of the day. The year has four digits, or a sign and more where four do
/// not hold it. Which day comes back is the clock's: nothing more is known
/// of it in advance.
pub fn today_string() -> (date: String)
    ensures
        is_day_text(date@),
{
    local_time_text("%Y-%m-%d")
}

/// Deletes the item at `index` of the day's `text`, and adds its record,
/// with the time that it is now, to `trash_text`. Where there is no such
/// item, the items stay as they are and there is no new trash. The time is
/// the clock's, written as day, hour and minute.
pub fn delete_item_for_date(date: &str, text: &str, index: usize, trash_text: &str) -> (deletion:
    Deletion)
    ensures
        exists|stamp: Seq<char>|
            is_stamp_text(stamp) && is_deletion(
                deletion,
                date@,
                text@,
                index as nat,
                trash_text@,
                stamp,
            ),
{
    let stamp = local_time_text("%Y-%m-%d %H:%M");
    let deletion = delete_item_at(date, text, index, trash_text, stamp.as_str());
    proof {
        assert(is_stamp_text(stamp@) && is_deletion(
            deletion,
            date@,
            text@,
            index as nat,
            trash_text@,
            stamp@,
        ));
    }
    deletion
}

/// The pattern of a day: year, month and day.
pub open spec fn day_pattern() -> Seq<char> {
    "%Y-%m-%d"@
}

/// The pattern of a time of deletion: the day, then hour and minute.
pub open spec fn stamp_pattern() -> Seq<char> {
    "%Y-%m-%d %H:%M"@
}

/// Whether `c` is one of the ten digits.
pub open spec fn is_digit(c: char) -> bool {
    48 <= c as u32 <= 57
}

/// Whether the two characters of `s` from `at` on are digits, and the number
/// that they write lies from `low` to `high`.
pub open spec fn is_number_at(s: Seq<char>, at: int, low: int, high: int) -> bool {
    &&& is_digit(s[at])
    &&& is_digit(s[at + 1])
    &&& low <= (s[at] as u32 - 48) * 10 + (s[at + 1] as u32 - 48) <= high
}

/// Whether `s` writes a year: in four digits, or with a sign before four
/// digits or more.
pub open spec fn is_year_text(s: Seq<char>) -> bool {
    ||| s.len() == 4 && forall|i: int| 0 <= i < s.len() ==> is_digit(#[trigger] s[i])
    ||| {
        &&& s.len() >= 5
        &&& s[0] == '+' || s[0] == '-'
        &&& forall|i: int| 1 <= i < s.len() ==> is_digit(#[trigger] s[i])
    }
}

/// Whether `s` writes a day: the year, a dash, the month from 01 to 12, a
/// dash and the day of the month from 01 to 31.
pub open spec fn is_day_text(s: Seq<char>) -> bool {
    let n = s.len() as int;
    &&& n >= 10
    &&& is_year_text(s.subrange(0, n - 6))
    &&& s[n - 6] == '-'
    &&& is_number_at(s, n - 5, 1, 12)
    &&& s[n - 3] == '-'
    &&& is_number_at(s, n - 2, 1, 31)
}

/// Whether `s` writes a time of deletion: the day, a space, the hour from 00
/// to 23, a colon and the minute from 00 to 59.
pub open spec fn is_stamp_text(s: Seq<char>) -> bool {
    let n = s.len() as int;
    &&& n >= 16
    &&& is_day_text(s.subrange(0, n - 6))
    &&& s[n - 6] == ' '
    &&& is_number_at(s, n - 5, 0, 23)
    &&& s[n - 3] == ':'
    &&& is_number_at(s, n - 2, 0, 59)
}

} // verus!
