//! The daily files of a journal: their names, the listing of a directory,
//! and the counts over all of them.

use crate::archive::{active_lines, count_items, nonblank_count};
use crate::order::{insert_sorted, sorted};
use crate::text::{chars_of, lines_of, same_chars, strings_of, texts_of, views_of};
use vstd::prelude::*;
use vstd::string::StringExecFns;

verus! {

/// The name of the file that holds what was deleted. It is no daily file.
pub const TRASH_FILENAME: &'static str = "trash.md";

/// The extension of a daily file, with its dot.
pub open spec fn extension() -> Seq<char> {
    ".md"@
}

/// The name of the trash file.
pub open spec fn trash_name() -> Seq<char> {
    "trash.md"@
}

/// The name of the file of the day `date`.
pub open spec fn filename_of(date: Seq<char>) -> Seq<char> {
    date + extension()
}

/// Whether `name` is something, a dot and `md`.
pub open spec fn is_markdown_name(name: Seq<char>) -> bool {
    name.len() > 3 && name.subrange(name.len() - 3, name.len() as int) == extension()
}

/// Whether a listing holds `name`: a markdown name that is not the trash
/// file's.
pub open spec fn is_daily_name(name: Seq<char>) -> bool {
    is_markdown_name(name) && name != trash_name()
}

/// `is_daily_name` as a value.
pub open spec fn daily_name() -> spec_fn(Seq<char>) -> bool {
    |name: Seq<char>| is_daily_name(name)
}

/// The name of the file of the day `date`: the date and `.md`.
pub fn journal_filename(date: &str) -> (name: String)
    ensures
        name@ == filename_of(date@),
{
    let mut name = date.to_owned();
    name.append(".md");
    name
}

/// Whether `name` is a markdown name.
pub fn name_is_markdown(name: &Vec<char>) -> (r: bool)
    ensures
        r == is_markdown_name(name@),
{
    let n: usize = name.len();
    proof {
        reveal_strlit(".md");
        if n > 3 {
            let tail = name@.subrange(n - 3, n as int);
            assert(tail[0] == name@[n - 3] && tail[1] == name@[n - 2] && tail[2] == name@[n - 1]);
            if name@[n - 3] == '.' && name@[n - 2] == 'm' && name@[n - 1] == 'd' {
                assert(tail =~= extension());
            }
        }
    }
    n > 3 && name[n - 3] == '.' && name[n - 2] == 'm' && name[n - 1] == 'd'
}

/// A list that holds the daily names of `entries`, each as often as they
/// do, holds nothing but daily names of `entries`.
pub proof fn lemma_listing_holds_daily_names(files: Seq<Seq<char>>, entries: Seq<Seq<char>>)
    requires
        files.to_multiset() == entries.filter(daily_name()).to_multiset(),
    ensures
        forall|i: int|
            0 <= i < files.len() ==> is_daily_name(#[trigger] files[i]) && entries.contains(
                files[i],
            ),
{
    let kept = entries.filter(daily_name());
    files.to_multiset_ensures();
    kept.to_multiset_ensures();
    assert forall|i: int| 0 <= i < files.len() implies is_daily_name(#[trigger] files[i])
        && entries.contains(files[i]) by {
        assert(files.contains(files[i]));
        assert(files.to_multiset().count(files[i]) > 0);
        assert(kept.to_multiset().count(files[i]) > 0);
        assert(kept.contains(files[i]));
        let k = choose|k: int| 0 <= k < kept.len() && kept[k] == files[i];
        entries.lemma_filter_pred(daily_name(), k);
        entries.lemma_filter_contains_rev(daily_name(), files[i]);
    }
}

/// The daily files among the entries of a directory, in ascending order:
/// the names with the extension `md` but the trash file's, each as often as
/// the entries hold it.
pub fn list_markdown_files(entries: &Vec<String>) -> (files: Vec<String>)
    ensures
        sorted(texts_of(files@)),
        texts_of(files@).to_multiset() == texts_of(entries@).filter(daily_name()).to_multiset(),
        forall|i: int| 0 <= i < files@.len() ==> is_daily_name(#[trigger] files@[i]@),
{
    let ghost all = texts_of(entries@);
    let trash = chars_of(TRASH_FILENAME);
    let mut kept: Vec<Vec<char>> = Vec::new();
    let mut i: usize = 0;
    proof {
        reveal(Seq::filter);
        assert(all.subrange(0, 0) =~= Seq::<Seq<char>>::empty());
        assert(views_of(kept@) =~= Seq::<Seq<char>>::empty());
    }
    while i < entries.len()
        invariant
            i <= entries.len(),
            all == texts_of(entries@),
            trash@ == trash_name(),
            sorted(views_of(kept@)),
            views_of(kept@).to_multiset() == all.subrange(0, i as int).filter(
                daily_name(),
            ).to_multiset(),
        decreases entries.len() - i,
    {
        let name = chars_of(entries[i].as_str());
        proof {
            let seen = all.subrange(0, i as int);
            assert(all[i as int] == name@);
            seen.lemma_filter_push(name@, daily_name());
            assert(seen.push(name@) =~= all.subrange(0, i + 1));
            seen.filter(daily_name()).to_multiset_ensures();
        }
        if name_is_markdown(&name) && !same_chars(&name, &trash) {
            insert_sorted(&mut kept, name);
        }
        i = i + 1;
    }
    let files = strings_of(&kept);
    proof {
        assert(all.subrange(0, entries.len() as int) =~= all);
        lemma_listing_holds_daily_names(texts_of(files@), all);
        assert forall|i: int| 0 <= i < files@.len() implies is_daily_name(
            #[trigger] files@[i]@,
        ) by {
            assert(texts_of(files@)[i] == files@[i]@);
        }
    }
    files
}

/// Whether `names` holds `name`.
pub open spec fn holds_name(names: Seq<Seq<char>>, name: Seq<char>) -> bool {
    exists|i: int| 0 <= i < names.len() && #[trigger] names[i] == name
}

/// The files that a journal knows: the listed ones as they are where the
/// active file is among them; else the listed ones and the active file, in
/// ascending order.
pub fn known_file_names(files: &Vec<String>, active_filename: &str) -> (known: Vec<String>)
    ensures
        holds_name(texts_of(files@), active_filename@) ==> texts_of(known@) == texts_of(files@),
        !holds_name(texts_of(files@), active_filename@) ==> {
            &&& sorted(texts_of(known@))
            &&& texts_of(known@).to_multiset() == texts_of(files@).to_multiset().insert(
                active_filename@,
            )
        },
{
    let ghost all = texts_of(files@);
    let active = chars_of(active_filename);
    let mut names: Vec<Vec<char>> = Vec::new();
    let mut ordered: Vec<Vec<char>> = Vec::new();
    let mut listed = false;
    let mut i: usize = 0;
    proof {
        assert(all.subrange(0, 0) =~= Seq::<Seq<char>>::empty());
        assert(views_of(ordered@) =~= Seq::<Seq<char>>::empty());
    }
    while i < files.len()
        invariant
            i <= files.len(),
            all == texts_of(files@),
            active@ == active_filename@,
            views_of(names@) == all.subrange(0, i as int),
            sorted(views_of(ordered@)),
            views_of(ordered@).to_multiset() == all.subrange(0, i as int).to_multiset(),
            listed == holds_name(all.subrange(0, i as int), active_filename@),
        decreases files.len() - i,
    {
        let name = chars_of(files[i].as_str());
        let ghost seen = all.subrange(0, i as int);
        let ghost next = all.subrange(0, i + 1);
        let ghost before = views_of(names@);
        let same = same_chars(&name, &active);
        proof {
            assert(all[i as int] == name@);
            assert(seen.push(name@) =~= next);
            seen.to_multiset_ensures();
            if holds_name(seen, active_filename@) {
                let k = choose|k: int| 0 <= k < seen.len() && #[trigger] seen[k]
                    == active_filename@;
                assert(next[k] == active_filename@);
            }
            if same {
                assert(next[i as int] == active_filename@);
            }
            if holds_name(next, active_filename@) && !same {
                let k = choose|k: int| 0 <= k < next.len() && #[trigger] next[k]
                    == active_filename@;
                assert(seen[k] == active_filename@);
            }
        }
        listed = listed || same;
        names.push(crate::text::copy_line(&name));
        insert_sorted(&mut ordered, name);
        proof {
            assert(views_of(names@) =~= before.push(all[i as int]));
        }
        i = i + 1;
    }
    proof {
        assert(all.subrange(0, files.len() as int) =~= all);
    }
    if listed {
        strings_of(&names)
    } else {
        insert_sorted(&mut ordered, active);
        strings_of(&ordered)
    }
}

/// The counts of a journal: the items of the active file, the items of all
/// known files, and the number of known files.
#[derive(Clone, Copy, Debug, PartialEq, Eq, Structural)]
pub struct Counts {
    pub current: usize,
    pub total: usize,
    pub files: usize,
}

/// A daily file as it was found: its name, and its text where it could be
/// read.
#[derive(Clone, Debug)]
pub struct StoredFile {
    pub name: String,
    pub text: Option<String>,
}

/// The active file of a day: its name, its text and the counts.
#[derive(Clone, Debug)]
pub struct ActiveFile {
    pub filename: String,
    pub text: String,
    pub counts: Counts,
}

/// The number of items of `text`: its active lines that are not blank.
pub open spec fn item_count(text: Seq<char>) -> nat {
    nonblank_count(active_lines(lines_of(text)))
}

/// What `file` adds to the total: the items of `active_text` where it is the
/// active file, else the items of its own text, and nothing where that could
/// not be read.
pub open spec fn counted(file: StoredFile, active_filename: Seq<char>, active_text: Seq<char>)
    -> nat {
    if file.name@ == active_filename {
        item_count(active_text)
    } else {
        match file.text {
            Some(text) => item_count(text@),
            None => 0,
        }
    }
}

/// What the files of a listing add to the total.
pub open spec fn listed_total(
    files: Seq<StoredFile>,
    active_filename: Seq<char>,
    active_text: Seq<char>,
) -> nat
    decreases files.len(),
{
    if files.len() == 0 {
        0
    } else {
        listed_total(files.drop_last(), active_filename, active_text) + counted(
            files.last(),
            active_filename,
            active_text,
        )
    }
}

/// Whether one of `files` has the name `name`.
pub open spec fn is_listed(files: Seq<StoredFile>, name: Seq<char>) -> bool {
    exists|i: int| 0 <= i < files.len() && (#[trigger] files[i]).name@ == name
}

/// The items of all known files: of the listed ones, and of the active
/// file where the listing does not hold it.
pub open spec fn total_items(
    files: Seq<StoredFile>,
    active_filename: Seq<char>,
    active_text: Seq<char>,
) -> nat {
    listed_total(files, active_filename, active_text) + if is_listed(files, active_filename) {
        0
    } else {
        item_count(active_text)
    }
}

/// The number of known files: the listed ones, and the active file where
/// the listing does not hold it.
pub open spec fn known_files(files: Seq<StoredFile>, active_filename: Seq<char>) -> nat {
    files.len() + if is_listed(files, active_filename) {
        0nat
    } else {
        1nat
    }
}

/// Whether the counts fit the machine's integers.
pub open spec fn counts_fit(
    files: Seq<StoredFile>,
    active_filename: Seq<char>,
    active_text: Seq<char>,
) -> bool {
    &&& total_items(files, active_filename, active_text) <= usize::MAX
    &&& known_files(files, active_filename) <= usize::MAX
}

/// The counts of a journal with the listing `files` and the given active
/// file.
pub open spec fn counts_of(
    files: Seq<StoredFile>,
    active_filename: Seq<char>,
    active_text: Seq<char>,
) -> Counts {
    Counts {
        current: item_count(active_text) as usize,
        total: total_items(files, active_filename, active_text) as usize,
        files: known_files(files, active_filename) as usize,
    }
}

/// The names of the files of a listing.
pub open spec fn names_of(files: Seq<StoredFile>) -> Seq<Seq<char>> {
    Seq::new(files.len(), |i: int| files[i].name@)
}

/// The number of known files is the number of known names.
pub proof fn lemma_known_files(files: Seq<StoredFile>, active_filename: Seq<char>, known: Seq<
    Seq<char>,
>)
    requires
        holds_name(names_of(files), active_filename) ==> known == names_of(files),
        !holds_name(names_of(files), active_filename) ==> known.to_multiset() == names_of(
            files,
        ).to_multiset().insert(active_filename),
    ensures
        known.len() == known_files(files, active_filename),
{
    let names = names_of(files);
    known.to_multiset_ensures();
    names.to_multiset_ensures();
    if is_listed(files, active_filename) {
        let k = choose|k: int| 0 <= k < files.len() && (#[trigger] files[k]).name@
            == active_filename;
        assert(names[k] == active_filename);
    }
    if holds_name(names, active_filename) {
        let k = choose|k: int| 0 <= k < names.len() && #[trigger] names[k] == active_filename;
        assert(files[k].name@ == active_filename);
    }
}

/// A listing adds at least what its beginning adds.
pub proof fn lemma_listed_total_grows(
    files: Seq<StoredFile>,
    n: int,
    active_filename: Seq<char>,
    active_text: Seq<char>,
)
    requires
        0 <= n <= files.len(),
    ensures
        listed_total(files.subrange(0, n), active_filename, active_text) <= listed_total(
            files,
            active_filename,
            active_text,
        ),
    decreases files.len() - n,
{
    if n < files.len() {
        lemma_listed_total_grows(files.drop_last(), n, active_filename, active_text);
        assert(files.drop_last().subrange(0, n) =~= files.subrange(0, n));
    } else {
        assert(files.subrange(0, n) =~= files);
    }
}

/// The counts of a journal, where they fit the machine's integers. The
/// active file counts with `active_text`, whatever the listing holds under
/// its name; a file that could not be read counts as empty.
pub fn checked_counts_for_root(
    files: &Vec<StoredFile>,
    active_filename: &str,
    active_text: &str,
) -> (counts: Option<Counts>)
    ensures
        counts_fit(files@, active_filename@, active_text@) ==> counts == Some(
            counts_of(files@, active_filename@, active_text@),
        ),
        !counts_fit(files@, active_filename@, active_text@) ==> counts is None,
{
    let active = chars_of(active_filename);
    let current: usize = count_items(active_text);
    let mut total: usize = 0;
    let mut listed = false;
    let mut i: usize = 0;
    let ghost all = files@;
    proof {
        assert(all.subrange(0, 0) =~= Seq::<StoredFile>::empty());
    }
    while i < files.len()
        invariant
            i <= files.len(),
            all == files@,
            active@ == active_filename@,
            current == item_count(active_text@),
            total == listed_total(all.subrange(0, i as int), active_filename@, active_text@),
            listed == is_listed(all.subrange(0, i as int), active_filename@),
        decreases files.len() - i,
    {
        let file = &files[i];
        let name = chars_of(file.name.as_str());
        let is_active = same_chars(&name, &active);
        let add: usize = if is_active {
            current
        } else {
            match &file.text {
                Some(text) => count_items(text.as_str()),
                None => 0,
            }
        };
        proof {
            let seen = all.subrange(0, i as int);
            let next = all.subrange(0, i + 1);
            assert(next.drop_last() =~= seen);
            assert(next.last() == all[i as int]);
            assert(add == counted(all[i as int], active_filename@, active_text@));
            lemma_listed_total_grows(all, i + 1, active_filename@, active_text@);
            if is_listed(seen, active_filename@) {
                let k = choose|k: int| 0 <= k < seen.len() && (#[trigger] seen[k]).name@
                    == active_filename@;
                assert(next[k].name@ == active_filename@);
            }
            if is_active {
                assert(next[i as int].name@ == active_filename@);
            }
            if is_listed(next, active_filename@) && !is_active {
                let k = choose|k: int| 0 <= k < next.len() && (#[trigger] next[k]).name@
                    == active_filename@;
                assert(seen[k].name@ == active_filename@);
            }
        }
        if add > usize::MAX - total {
            return None;
        }
        total = total + add;
        listed = listed || is_active;
        i = i + 1;
    }
    proof {
        assert(all.subrange(0, files.len() as int) =~= all);
    }
    let mut known: usize = files.len();
    if !listed {
        if current > usize::MAX - total || known == usize::MAX {
            return None;
        }
        total = total + current;
        known = known + 1;
    }
    Some(Counts { current, total, files: known })
}

/// The counts of a journal: the items of the active text, the items of all
/// known files, and the number of known files.
pub fn counts_for_root(files: &Vec<StoredFile>, active_filename: &str, active_text: &str) -> (counts:
    Counts)
    requires
        counts_fit(files@, active_filename@, active_text@),
    ensures
        counts == counts_of(files@, active_filename@, active_text@),
{
    checked_counts_for_root(files, active_filename, active_text).unwrap()
}

/// The active file of the day `date`, given its text and the listing of the
/// journal.
pub fn get_active_file_for_date(date: &str, text: String, files: &Vec<StoredFile>) -> (active:
    ActiveFile)
    requires
        counts_fit(files@, filename_of(date@), text@),
    ensures
        active.filename@ == filename_of(date@),
        active.text == text,
        active.counts == counts_of(files@, filename_of(date@), text@),
{
    let filename = journal_filename(date);
    let counts = counts_for_root(files, filename.as_str(), text.as_str());
    ActiveFile { filename, text, counts }
}

} // verus!
