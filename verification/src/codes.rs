//! Key and relative-axis codes, looked up by the names evdev gives them.
use vstd::prelude::*;

verus! {

/// Highest key code whose name the lookup table holds.
pub const MAX_KEY_CODE: u16 = 767;

/// Highest relative-axis code whose name the lookup table holds.
pub const MAX_AXIS_CODE: u16 = 15;

/// The text that evdev's `Debug` gives the key code `code`.
pub uninterp spec fn key_code_name(code: u16) -> Seq<char>;

/// The text that evdev's `Debug` gives the relative-axis code `code`.
pub uninterp spec fn axis_code_name(code: u16) -> Seq<char>;

/// Formats `evdev::KeyCode::new(code)` with `Debug`. evdev prints the name of the
/// constant with that value (such as `KEY_A` or `BTN_LEFT`), or `unknown key: N`.
/// Claimed: the text is a function of the code alone, named `key_code_name`.
#[verifier::external_body]
fn key_name(code: u16) -> (r: String)
    ensures
        r@ == key_code_name(code),
{
    format!("{:?}", evdev::KeyCode::new(code))
}

/// Formats `evdev::RelativeAxisCode(code)` with `Debug` (such as `REL_X`).
/// Claimed: the text is a function of the code alone, named `axis_code_name`.
#[verifier::external_body]
fn axis_name(code: u16) -> (r: String)
    ensures
        r@ == axis_code_name(code),
{
    format!("{:?}", evdev::RelativeAxisCode(code))
}

/// The largest key code in `0..=n` named `s`.
pub open spec fn last_key_named(s: Seq<char>, n: int) -> Option<u16>
    decreases n + 1,
{
    if n < 0 {
        None
    } else if key_code_name(n as u16) == s {
        Some(n as u16)
    } else {
        last_key_named(s, n - 1)
    }
}

/// The largest axis code in `0..=n` named `s`.
pub open spec fn last_axis_named(s: Seq<char>, n: int) -> Option<u16>
    decreases n + 1,
{
    if n < 0 {
        None
    } else if axis_code_name(n as u16) == s {
        Some(n as u16)
    } else {
        last_axis_named(s, n - 1)
    }
}

/// The key code that the name `s` stands for: among the codes `0..=767`, the
/// largest one that evdev prints as `s`.
pub open spec fn key_code_for(s: Seq<char>) -> Option<u16> {
    last_key_named(s, MAX_KEY_CODE as int)
}

/// The relative-axis code that the name `s` stands for: among the codes `0..=15`,
/// the largest one that evdev prints as `s`.
pub open spec fn axis_code_for(s: Seq<char>) -> Option<u16> {
    last_axis_named(s, MAX_AXIS_CODE as int)
}

/// A name that is no known code.
pub enum CodeError {
    UnknownKeyCode(String),
    UnknownAxisCode(String),
}

pub fn parse_key_code(s: &str) -> (r: Result<u16, CodeError>)
    ensures
        match r {
            Ok(c) => key_code_for(s@) == Some(c),
            Err(e) => key_code_for(s@) is None && (e matches CodeError::UnknownKeyCode(t) && t@ == s@),
        },
{
    let mut i: u16 = MAX_KEY_CODE;
    loop
        invariant
            i <= MAX_KEY_CODE,
            key_code_for(s@) == last_key_named(s@, i as int),
        decreases i,
    {
        let name = key_name(i);
        if str_eq_string(&name, s) {
            return Ok(i);
        }
        if i == 0 {
            return Err(CodeError::UnknownKeyCode(s.to_owned()));
        }
        i = i - 1;
    }
}

pub fn parse_axis_code(s: &str) -> (r: Result<u16, CodeError>)
    ensures
        match r {
            Ok(c) => axis_code_for(s@) == Some(c),
            Err(e) => axis_code_for(s@) is None && (e matches CodeError::UnknownAxisCode(t) && t@ == s@),
        },
{
    let mut i: u16 = MAX_AXIS_CODE;
    loop
        invariant
            i <= MAX_AXIS_CODE,
            axis_code_for(s@) == last_axis_named(s@, i as int),
        decreases i,
    {
        let name = axis_name(i);
        if str_eq_string(&name, s) {
            return Ok(i);
        }
        if i == 0 {
            return Err(CodeError::UnknownAxisCode(s.to_owned()));
        }
        i = i - 1;
    }
}

fn str_eq_string(a: &String, b: &str) -> (r: bool)
    ensures
        r == (a@ == b@),
{
    crate::names::str_eq(a.as_str(), b)
}

/// Every code in the table is found again from its own name: the lookup gives
/// back a code with that name, no smaller than the one named.
pub proof fn lemma_key_name_round_trip(c: u16)
    requires
        c <= MAX_KEY_CODE,
    ensures
        key_code_for(key_code_name(c)) matches Some(d) && key_code_name(d) == key_code_name(c) && c <= d,
{
    lemma_last_key_named(key_code_name(c), MAX_KEY_CODE as int, c);
}

proof fn lemma_last_key_named(s: Seq<char>, n: int, c: u16)
    requires
        c <= n <= MAX_KEY_CODE,
        key_code_name(c) == s,
    ensures
        last_key_named(s, n) matches Some(d) && key_code_name(d) == s && c <= d,
    decreases n + 1,
{
    if n >= 0 && key_code_name(n as u16) != s {
        if c as int == n {
        } else {
            lemma_last_key_named(s, n - 1, c);
        }
    }
}

/// Every relative-axis code in the table is found again from its own name.
pub proof fn lemma_axis_name_round_trip(c: u16)
    requires
        c <= MAX_AXIS_CODE,
    ensures
        axis_code_for(axis_code_name(c)) matches Some(d) && axis_code_name(d) == axis_code_name(c) && c <= d,
{
    lemma_last_axis_named(axis_code_name(c), MAX_AXIS_CODE as int, c);
}

proof fn lemma_last_axis_named(s: Seq<char>, n: int, c: u16)
    requires
        c <= n <= MAX_AXIS_CODE,
        axis_code_name(c) == s,
    ensures
        last_axis_named(s, n) matches Some(d) && axis_code_name(d) == s && c <= d,
    decreases n + 1,
{
    if n >= 0 && axis_code_name(n as u16) != s {
        if c as int == n {
        } else {
            lemma_last_axis_named(s, n - 1, c);
        }
    }
}

} // verus!
