//! The titles that show the number of items.

use crate::text::string_of;
use vstd::prelude::*;

verus! {

/// The character of the digit `d`.
pub open spec fn digit_char(d: nat) -> char {
    ((48 + d) as u8) as char
}

/// The decimal digits of `n`, the highest first and without leading zeros.
pub open spec fn decimal(n: nat) -> Seq<char>
    decreases n,
{
    if n < 10 {
        seq![digit_char(n)]
    } else {
        decimal(n / 10).push(digit_char(n % 10))
    }
}

/// What a window title begins with.
pub open spec fn title_prefix() -> Seq<char> {
    "Inbox — "@
}

/// Adds the decimal digits of `n` to `out`.
fn push_decimal(out: &mut Vec<char>, n: usize)
    ensures
        final(out)@ == old(out)@ + decimal(n as nat),
    decreases n,
{
    if n >= 10 {
        push_decimal(out, n / 10);
    }
    let d: u8 = (n % 10) as u8;
    out.push((48u8 + d) as char);
    proof {
        if n >= 10 {
            assert(out@ =~= old(out)@ + decimal(n as nat));
        } else {
            assert(out@ =~= old(out)@ + decimal(n as nat));
        }
    }
}

/// The title of the tray icon: it shows no count, and is empty.
pub fn format_tray_title(count: usize) -> (title: String)
    ensures
        title@ == Seq::<char>::empty(),
{
    String::new()
}

/// The title of the window: `Inbox`, a dash and the count in decimal.
pub fn format_window_title(count: usize) -> (title: String)
    ensures
        title@ == title_prefix() + decimal(count as nat),
{
    let mut out = crate::text::chars_of("Inbox — ");
    push_decimal(&mut out, count);
    string_of(&out)
}

} // verus!
