//! Characters, whitespace, trimming and lines: the text model on which the
//! rest of the library is stated.

use vstd::prelude::*;
use vstd::std_specs::iter::IteratorSpec;

verus! {

/// Whether `c` has the Unicode property White_Space.
pub open spec fn is_whitespace(c: char) -> bool {
    let n = c as u32;
    ||| 0x09 <= n <= 0x0D
    ||| n == 0x20
    ||| n == 0x85
    ||| n == 0xA0
    ||| n == 0x1680
    ||| 0x2000 <= n <= 0x200A
    ||| n == 0x2028
    ||| n == 0x2029
    ||| n == 0x202F
    ||| n == 0x205F
    ||| n == 0x3000
}

/// Whether every character of `s` is whitespace (the empty text is blank).
pub open spec fn is_blank(s: Seq<char>) -> bool {
    forall|i: int| 0 <= i < s.len() ==> is_whitespace(#[trigger] s[i])
}

/// The condition that holds of every line but a blank one.
pub open spec fn nonblank_line() -> spec_fn(Seq<char>) -> bool {
    |line: Seq<char>| !is_blank(line)
}

/// `s` without its trailing whitespace.
pub open spec fn trim_end(s: Seq<char>) -> Seq<char>
    decreases s.len(),
{
    if s.len() > 0 && is_whitespace(s.last()) {
        trim_end(s.drop_last())
    } else {
        s
    }
}

/// `s` without its leading whitespace.
pub open spec fn trim_start(s: Seq<char>) -> Seq<char>
    decreases s.len(),
{
    if s.len() > 0 && is_whitespace(s[0]) {
        trim_start(s.drop_first())
    } else {
        s
    }
}

/// `s` without its leading and trailing whitespace.
pub open spec fn trim(s: Seq<char>) -> Seq<char> {
    trim_end(trim_start(s))
}

/// The number of characters that `trim_end` keeps.
pub open spec fn trim_end_len(s: Seq<char>) -> int {
    trim_end(s).len() as int
}

/// The number of leading whitespace characters of `s`.
pub open spec fn trim_start_skip(s: Seq<char>) -> int {
    s.len() - trim_start(s).len()
}

/// `trim_end` keeps a prefix, and cuts exactly behind the last character that
/// is not whitespace.
pub proof fn lemma_trim_end(s: Seq<char>)
    ensures
        0 <= trim_end_len(s) <= s.len(),
        trim_end(s) == s.subrange(0, trim_end_len(s)),
        trim_end_len(s) > 0 ==> !is_whitespace(s[trim_end_len(s) - 1]),
        forall|i: int| trim_end_len(s) <= i < s.len() ==> is_whitespace(#[trigger] s[i]),
    decreases s.len(),
{
    if s.len() > 0 && is_whitespace(s.last()) {
        let t = s.drop_last();
        lemma_trim_end(t);
        assert(t.subrange(0, trim_end_len(t)) =~= s.subrange(0, trim_end_len(t)));
        assert forall|i: int| trim_end_len(s) <= i < s.len() implies is_whitespace(
            #[trigger] s[i],
        ) by {
            if i < s.len() - 1 {
                assert(t[i] == s[i]);
            }
        }
    } else {
        assert(s.subrange(0, s.len() as int) =~= s);
    }
}

/// `trim_start` keeps a suffix, and cuts exactly before the first character
/// that is not whitespace.
pub proof fn lemma_trim_start(s: Seq<char>)
    ensures
        0 <= trim_start_skip(s) <= s.len(),
        trim_start(s) == s.subrange(trim_start_skip(s), s.len() as int),
        trim_start_skip(s) < s.len() ==> !is_whitespace(s[trim_start_skip(s)]),
        forall|i: int| 0 <= i < trim_start_skip(s) ==> is_whitespace(#[trigger] s[i]),
    decreases s.len(),
{
    if s.len() > 0 && is_whitespace(s[0]) {
        let t = s.drop_first();
        lemma_trim_start(t);
        let k = trim_start_skip(t);
        assert(t.subrange(k, t.len() as int) =~= s.subrange(k + 1, s.len() as int));
        assert forall|i: int| 0 <= i < trim_start_skip(s) implies is_whitespace(
            #[trigger] s[i],
        ) by {
            if i > 0 {
                assert(t[i - 1] == s[i]);
            }
        }
    } else {
        assert(s.subrange(0, s.len() as int) =~= s);
    }
}

/// A text is blank exactly when trimming leaves nothing of it.
pub proof fn lemma_blank_trim(s: Seq<char>)
    ensures
        is_blank(s) <==> trim_end(s).len() == 0,
        is_blank(s) <==> trim(s).len() == 0,
{
    lemma_trim_end(s);
    lemma_trim_start(s);
    let t = trim_start(s);
    lemma_trim_end(t);
    let k = trim_start_skip(s);
    if is_blank(s) {
        if trim_end_len(s) > 0 {
            assert(is_whitespace(s[trim_end_len(s) - 1]));
        }
        if k < s.len() {
            assert(is_whitespace(s[k]));
        }
    }
    if trim(s).len() == 0 && !is_blank(s) {
        assert(k < s.len());
        assert(t[0] == s[k]);
        assert(forall|i: int| 0 <= i < t.len() ==> is_whitespace(#[trigger] t[i]));
    }
}

/// Whether `c` is whitespace.
pub fn char_is_whitespace(c: char) -> (b: bool)
    ensures
        b == is_whitespace(c),
{
    let n: u32 = c as u32;
    (0x09 <= n && n <= 0x0D) || n == 0x20 || n == 0x85 || n == 0xA0 || n == 0x1680 || (0x2000 <= n
        && n <= 0x200A) || n == 0x2028 || n == 0x2029 || n == 0x202F || n == 0x205F || n == 0x3000
}

/// The characters of `text`, in order.
pub fn chars_of(text: &str) -> (out: Vec<char>)
    ensures
        out@ == text@,
{
    broadcast use vstd::string::group_string_axioms;

    let mut out: Vec<char> = Vec::new();
    let mut it = text.chars();
    loop
        invariant
            out@ + it.remaining() == text@,
            it.obeys_prophetic_iter_laws(),
            it.decrease() is Some,
        ensures
            out@ == text@,
        decreases it.decrease()->0,
    {
        match it.next() {
            Some(c) => {
                out.push(c);
            },
            None => {
                break ;
            },
        }
    }
    out
}

/// The length of `line` without its trailing whitespace.
pub fn trimmed_end(line: &Vec<char>) -> (n: usize)
    ensures
        n == trim_end_len(line@),
{
    let mut n: usize = line.len();
    proof {
        assert(line@.subrange(0, n as int) =~= line@);
    }
    while n > 0 && char_is_whitespace(line[n - 1])
        invariant
            n <= line.len(),
            trim_end(line@) == trim_end(line@.subrange(0, n as int)),
        decreases n,
    {
        proof {
            assert(line@.subrange(0, n as int).drop_last() =~= line@.subrange(0, n - 1));
        }
        n = n - 1;
    }
    n
}

/// The number of leading whitespace characters of `line`.
pub fn trimmed_start(line: &Vec<char>) -> (k: usize)
    ensures
        k == trim_start_skip(line@),
{
    let mut k: usize = 0;
    proof {
        assert(line@.subrange(0, line.len() as int) =~= line@);
    }
    while k < line.len() && char_is_whitespace(line[k])
        invariant
            k <= line.len(),
            trim_start(line@) == trim_start(line@.subrange(k as int, line.len() as int)),
        decreases line.len() - k,
    {
        proof {
            assert(line@.subrange(k as int, line.len() as int).drop_first() =~= line@.subrange(
                k + 1,
                line.len() as int,
            ));
        }
        k = k + 1;
    }
    proof {
        lemma_trim_start(line@.subrange(k as int, line.len() as int));
    }
    k
}

/// Whether `line` holds nothing but whitespace.
pub fn line_is_blank(line: &Vec<char>) -> (b: bool)
    ensures
        b == is_blank(line@),
{
    proof {
        lemma_blank_trim(line@);
    }
    trimmed_end(line) == 0
}

/// `String::push` appends the one character to the end of the string.
pub assume_specification[ String::push ](s: &mut String, c: char)
    ensures
        final(s)@ == old(s)@.push(c),
;

/// The string that holds exactly `chars`.
pub fn string_of(chars: &Vec<char>) -> (out: String)
    ensures
        out@ == chars@,
{
    let mut out = String::new();
    let mut i: usize = 0;
    while i < chars.len()
        invariant
            i <= chars.len(),
            out@ == chars@.subrange(0, i as int),
        decreases chars.len() - i,
    {
        out.push(chars[i]);
        proof {
            assert(chars@.subrange(0, i as int).push(chars@[i as int]) =~= chars@.subrange(
                0,
                i + 1,
            ));
        }
        i = i + 1;
    }
    proof {
        assert(chars@.subrange(0, chars.len() as int) =~= chars@);
    }
    out
}

/// The position of the first line feed in `s`, or the length of `s` where it
/// holds none.
pub open spec fn newline_index(s: Seq<char>) -> nat
    decreases s.len(),
{
    if s.len() == 0 || s[0] == '\n' {
        0
    } else {
        1 + newline_index(s.drop_first())
    }
}

/// `line` without one trailing carriage return.
pub open spec fn strip_cr(line: Seq<char>) -> Seq<char> {
    if line.len() > 0 && line.last() == '\r' {
        line.drop_last()
    } else {
        line
    }
}

/// The lines of `s`. A line ends at a line feed; a carriage return directly
/// before that line feed belongs to the line ending too. The last line needs
/// no line ending, and is then kept as it stands. An empty text has no line.
pub open spec fn lines_of(s: Seq<char>) -> Seq<Seq<char>>
    decreases s.len(),
{
    let k = newline_index(s) as int;
    if s.len() == 0 {
        Seq::empty()
    } else if k >= s.len() {
        seq![s]
    } else {
        seq![strip_cr(s.subrange(0, k))] + lines_of(s.subrange(k + 1, s.len() as int))
    }
}

/// `newline_index` is the least position of a line feed.
pub proof fn lemma_newline_index(s: Seq<char>)
    ensures
        newline_index(s) <= s.len(),
        newline_index(s) < s.len() ==> s[newline_index(s) as int] == '\n',
        forall|i: int| 0 <= i < newline_index(s) ==> #[trigger] s[i] != '\n',
    decreases s.len(),
{
    if s.len() == 0 || s[0] == '\n' {
    } else {
        let t = s.drop_first();
        lemma_newline_index(t);
        assert forall|i: int| 0 <= i < newline_index(s) implies #[trigger] s[i] != '\n' by {
            if i > 0 {
                assert(t[i - 1] == s[i]);
            }
        }
    }
}

/// A position that no line feed precedes, and that holds one or is the end,
/// is `newline_index`.
pub proof fn lemma_newline_index_is(s: Seq<char>, k: int)
    requires
        0 <= k <= s.len(),
        k < s.len() ==> s[k] == '\n',
        forall|i: int| 0 <= i < k ==> #[trigger] s[i] != '\n',
    ensures
        newline_index(s) == k,
{
    lemma_newline_index(s);
    let n = newline_index(s) as int;
    if n < k {
        assert(s[n] != '\n');
    }
    if k < n {
        assert(s[k] != '\n');
    }
}

/// No line holds a line feed.
pub proof fn lemma_lines_hold_no_newline(s: Seq<char>)
    ensures
        forall|i: int, j: int|
            0 <= i < lines_of(s).len() && 0 <= j < lines_of(s)[i].len() ==> lines_of(s)[i][j]
                != '\n',
    decreases s.len(),
{
    let k = newline_index(s) as int;
    lemma_newline_index(s);
    if s.len() == 0 {
    } else if k >= s.len() {
    } else {
        let rest = s.subrange(k + 1, s.len() as int);
        lemma_lines_hold_no_newline(rest);
        let head = strip_cr(s.subrange(0, k));
        assert forall|i: int, j: int|
            0 <= i < lines_of(s).len() && 0 <= j < lines_of(s)[i].len() implies lines_of(s)[i][j]
            != '\n' by {
            if i == 0 {
                assert(head[j] == s[j]);
            } else {
                assert(lines_of(s)[i] == lines_of(rest)[i - 1]);
            }
        }
    }
}

/// The characters of `chars` from `from` up to `to`, as a vector of their own.
pub fn slice_of(chars: &Vec<char>, from: usize, to: usize) -> (out: Vec<char>)
    requires
        from <= to <= chars.len(),
    ensures
        out@ == chars@.subrange(from as int, to as int),
{
    let mut out: Vec<char> = Vec::new();
    let mut i: usize = from;
    while i < to
        invariant
            from <= i <= to <= chars.len(),
            out@ == chars@.subrange(from as int, i as int),
        decreases to - i,
    {
        out.push(chars[i]);
        proof {
            assert(chars@.subrange(from as int, i as int).push(chars@[i as int])
                =~= chars@.subrange(from as int, i + 1));
        }
        i = i + 1;
    }
    out
}

/// The lines of `lines`, each as a sequence of characters.
pub open spec fn views_of(lines: Seq<Vec<char>>) -> Seq<Seq<char>> {
    Seq::new(lines.len(), |i: int| lines[i]@)
}

/// The text of each string of `lines`.
pub open spec fn texts_of(lines: Seq<String>) -> Seq<Seq<char>> {
    Seq::new(lines.len(), |i: int| lines[i]@)
}

/// Whether `a` and `b` hold the same characters.
pub fn same_chars(a: &Vec<char>, b: &Vec<char>) -> (r: bool)
    ensures
        r == (a@ == b@),
{
    if a.len() != b.len() {
        return false;
    }
    let mut i: usize = 0;
    while i < a.len()
        invariant
            a.len() == b.len(),
            i <= a.len(),
            forall|j: int| 0 <= j < i ==> a@[j] == b@[j],
        decreases a.len() - i,
    {
        if a[i] != b[i] {
            return false;
        }
        i = i + 1;
    }
    proof {
        assert(a@ =~= b@);
    }
    true
}

/// A copy of `line`.
pub fn copy_line(line: &Vec<char>) -> (out: Vec<char>)
    ensures
        out@ == line@,
{
    let out = slice_of(line, 0, line.len());
    proof {
        assert(line@.subrange(0, line.len() as int) =~= line@);
    }
    out
}

/// The lines of `lines` as strings.
pub fn strings_of(lines: &Vec<Vec<char>>) -> (out: Vec<String>)
    ensures
        texts_of(out@) == views_of(lines@),
{
    let mut out: Vec<String> = Vec::new();
    let mut i: usize = 0;
    while i < lines.len()
        invariant
            i <= lines.len(),
            out.len() == i,
            forall|j: int| 0 <= j < i ==> out@[j]@ == lines@[j]@,
        decreases lines.len() - i,
    {
        out.push(string_of(&lines[i]));
        i = i + 1;
    }
    proof {
        assert(texts_of(out@) =~= views_of(lines@));
    }
    out
}

/// The lines of `chars`.
pub fn split_lines(chars: &Vec<char>) -> (lines: Vec<Vec<char>>)
    ensures
        views_of(lines@) == lines_of(chars@),
{
    let n: usize = chars.len();
    let mut lines: Vec<Vec<char>> = Vec::new();
    let mut start: usize = 0;
    let mut i: usize = 0;
    proof {
        assert(chars@.subrange(0, n as int) =~= chars@);
        assert(views_of(lines@) + lines_of(chars@) =~= lines_of(chars@));
    }
    while i < n
        invariant
            n == chars.len(),
            start <= i <= n,
            forall|j: int| start <= j < i ==> chars@[j] != '\n',
            views_of(lines@) + lines_of(chars@.subrange(start as int, n as int)) == lines_of(
                chars@,
            ),
        decreases n - i,
    {
        if chars[i] == '\n' {
            let ghost tail = chars@.subrange(start as int, n as int);
            let ghost before = views_of(lines@);
            let end: usize = if i > start && chars[i - 1] == '\r' {
                i - 1
            } else {
                i
            };
            let line = slice_of(chars, start, end);
            proof {
                lemma_newline_index_is(tail, i - start);
                assert(tail.subrange(0, i - start) =~= chars@.subrange(start as int, i as int));
                assert(tail.subrange(i - start + 1, tail.len() as int) =~= chars@.subrange(
                    i + 1,
                    n as int,
                ));
                assert(line@ =~= strip_cr(chars@.subrange(start as int, i as int)));
            }
            lines.push(line);
            proof {
                assert(views_of(lines@) =~= before + seq![line@]);
                assert(views_of(lines@) + lines_of(chars@.subrange(i + 1, n as int)) =~= before
                    + lines_of(tail));
            }
            start = i + 1;
        }
        i = i + 1;
    }
    if start < n {
        let ghost tail = chars@.subrange(start as int, n as int);
        let ghost before = views_of(lines@);
        let line = slice_of(chars, start, n);
        proof {
            lemma_newline_index_is(tail, n - start);
        }
        lines.push(line);
        proof {
            assert(views_of(lines@) =~= before + seq![tail]);
        }
    } else {
        proof {
            assert(views_of(lines@) + Seq::<Seq<char>>::empty() =~= views_of(lines@));
        }
    }
    lines
}

/// Whether `line` holds no line feed and does not end in a carriage return.
pub open spec fn is_plain_line(line: Seq<char>) -> bool {
    &&& forall|i: int| 0 <= i < line.len() ==> #[trigger] line[i] != '\n'
    &&& line.len() > 0 ==> line.last() != '\r'
}

/// Whether every line of `lines` is plain.
pub open spec fn are_plain_lines(lines: Seq<Seq<char>>) -> bool {
    forall|i: int| 0 <= i < lines.len() ==> is_plain_line(#[trigger] lines[i])
}

/// The lines of a text are plain, where none of them ends in a carriage
/// return.
pub proof fn lemma_lines_are_plain(text: Seq<char>)
    requires
        forall|i: int|
            0 <= i < lines_of(text).len() && (#[trigger] lines_of(text)[i]).len() > 0
                ==> lines_of(text)[i].last() != '\r',
    ensures
        are_plain_lines(lines_of(text)),
{
    let lines = lines_of(text);
    lemma_lines_hold_no_newline(text);
    assert forall|i: int| 0 <= i < lines.len() implies is_plain_line(#[trigger] lines[i]) by {
        assert forall|m: int| 0 <= m < lines[i].len() implies #[trigger] lines[i][m] != '\n' by {
            assert(lines_of(text)[i][m] != '\n');
        }
    }
}

} // verus!
