//! The decisions behind the two command lines: flag exclusion, profile
//! name resolution, interactive selections, and the rendered profile
//! listing.  Reading flags, prompting and printing stay with the caller.

use vstd::prelude::*;

verus! {

use vstd::string::StrSliceExecFns;
use vstd::string::StringExecFns;

use crate::settings::Settings;

/// What an interactive 1-based selection means.
pub enum SelectOutcome {
    /// The user chose index zero: cancel quietly.
    Cancelled,
    /// A valid 1-based index: the chosen entry.
    Chosen(String),
    /// An index past the end of the list.
    Invalid,
}

/// More than one of the exclusive operation flags is set.
pub fn multi_operation_checker(list: bool, setdefault: bool, print: bool) -> (r: bool)
    ensures
        r == ((list && setdefault) || (list && print) || (setdefault && print)),
{
    let mut count: u32 = 0;
    if list {
        count = count + 1;
    }
    if setdefault {
        count = count + 1;
    }
    if print {
        count = count + 1;
    }
    count > 1
}

/// The profile name the build mode uses: the explicit argument when one
/// was given, else the default profile; `None` when the winner is empty,
/// which aborts the build.
pub fn resolve_profile_name(arg: Option<String>, fallback: String) -> (r: Option<String>)
    ensures
        match arg {
            Some(name) => if name@.len() > 0 {
                r matches Some(chosen) && chosen@ == name@
            } else {
                r is None
            },
            None => if fallback@.len() > 0 {
                r matches Some(chosen) && chosen@ == fallback@
            } else {
                r is None
            },
        },
{
    let name = match arg {
        Some(name) => name,
        None => fallback,
    };
    if name.as_str().is_empty() {
        None
    } else {
        Some(name)
    }
}

/// The default profile recorded in the settings.
pub fn get_default_profile(settings: &Settings) -> (r: String)
    ensures
        r@ == settings.wsinit.spec_default(),
{
    settings.wsinit.get_default()
}

/// Interpret a 1-based selection from the profile listing: zero cancels,
/// an index within the list picks that profile, anything else is invalid.
pub fn select_profile(profiles: &Vec<String>, num: usize) -> (r: SelectOutcome)
    ensures
        match r {
            SelectOutcome::Cancelled => num == 0,
            SelectOutcome::Chosen(name) => 1 <= num <= profiles@.len() && name@ == profiles@[num
                - 1]@,
            SelectOutcome::Invalid => num > profiles@.len(),
        },
{
    if num == 0 {
        SelectOutcome::Cancelled
    } else if num <= profiles.len() {
        SelectOutcome::Chosen(profiles[num - 1].clone())
    } else {
        SelectOutcome::Invalid
    }
}

/// The trimmed answer is a single `y` or `Y`.
pub open spec fn is_yes_answer(a: Seq<char>) -> bool {
    a.len() == 1 && (a[0] == 'y' || a[0] == 'Y')
}

/// Whether an existing profile file may be overwritten: yes when forced
/// or when nothing exists; otherwise only on an explicit `y` or `Y`.
pub fn overwrite_allowed(force: bool, exists: bool, answer: &str) -> (r: bool)
    ensures
        r == (force || (!exists) || is_yes_answer(answer@)),
{
    if force || !exists {
        return true;
    }
    if answer.unicode_len() != 1 {
        return false;
    }
    let c = answer.get_char(0);
    c == 'y' || c == 'Y'
}

/// The decimal digits of `n`, most significant first.
pub open spec fn spec_digits(n: nat) -> Seq<char>
    decreases n,
{
    if n < 10 {
        seq![digit_char(n)]
    } else {
        spec_digits(n / 10) + seq![digit_char(n % 10)]
    }
}

/// The character for one decimal digit.
pub open spec fn digit_char(d: nat) -> char {
    if d == 0 {
        '0'
    } else if d == 1 {
        '1'
    } else if d == 2 {
        '2'
    } else if d == 3 {
        '3'
    } else if d == 4 {
        '4'
    } else if d == 5 {
        '5'
    } else if d == 6 {
        '6'
    } else if d == 7 {
        '7'
    } else if d == 8 {
        '8'
    } else {
        '9'
    }
}

/// Append the character of one decimal digit.
fn append_digit(s: &mut String, d: usize)
    requires
        d < 10,
    ensures
        final(s)@ == old(s)@ + seq![digit_char(d as nat)],
{
    proof {
        reveal_strlit("0");
        reveal_strlit("1");
        reveal_strlit("2");
        reveal_strlit("3");
        reveal_strlit("4");
        reveal_strlit("5");
        reveal_strlit("6");
        reveal_strlit("7");
        reveal_strlit("8");
        reveal_strlit("9");
    }
    match d {
        0 => s.append("0"),
        1 => s.append("1"),
        2 => s.append("2"),
        3 => s.append("3"),
        4 => s.append("4"),
        5 => s.append("5"),
        6 => s.append("6"),
        7 => s.append("7"),
        8 => s.append("8"),
        _ => s.append("9"),
    }
    assert(s@ =~= old(s)@ + seq![digit_char(d as nat)]);
}

/// Append the decimal digits of `n`.
fn append_digits(s: &mut String, n: usize)
    ensures
        final(s)@ == old(s)@ + spec_digits(n as nat),
    decreases n,
{
    if n < 10 {
        append_digit(s, n);
    } else {
        append_digits(s, n / 10);
        append_digit(s, n % 10);
        assert(s@ =~= old(s)@ + (spec_digits((n / 10) as nat) + seq![digit_char((n % 10) as nat)]));
    }
}

/// The decimal representation of `n`.
pub fn usize_to_string(n: usize) -> (r: String)
    ensures
        r@ == spec_digits(n as nat),
{
    let mut s = String::new();
    append_digits(&mut s, n);
    assert(s@ =~= spec_digits(n as nat));
    s
}

/// The listing of the stored profiles, numbered from one: each line is
/// `<number>: <filename>` in listing order.
pub fn profile_list_lines(profiles: &Vec<String>) -> (r: Vec<String>)
    ensures
        r@.len() == profiles@.len(),
        forall|i: int|
            0 <= i < r@.len() ==> (#[trigger] r@[i])@ == spec_digits((i + 1) as nat) + ": "@
                + profiles@[i]@,
{
    let mut r: Vec<String> = Vec::new();
    let mut i: usize = 0;
    while i < profiles.len()
        invariant
            i <= profiles@.len(),
            r@.len() == i,
            forall|j: int|
                0 <= j < i ==> (#[trigger] r@[j])@ == spec_digits((j + 1) as nat) + ": "@
                    + profiles@[j]@,
        decreases profiles@.len() - i,
    {
        let line = usize_to_string(i + 1).concat(": ").concat(profiles[i].as_str());
        r.push(line);
        i = i + 1;
    }
    r
}

} // verus!
