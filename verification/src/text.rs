//! Reading numbers and fields out of text.
use vstd::prelude::*;
use vstd::string::StrSliceExecFns;

verus! {

/// The value of a digit in `radix` (0-9, then a-z or A-Z for 10 and up).
pub open spec fn digit_of(c: char, radix: nat) -> Option<nat> {
    let v: int = if '0' <= c <= '9' {
        c as int - '0' as int
    } else if 'a' <= c <= 'z' {
        c as int - 'a' as int + 10
    } else if 'A' <= c <= 'Z' {
        c as int - 'A' as int + 10
    } else {
        radix as int
    };
    if v < radix {
        Some(v as nat)
    } else {
        None
    }
}

/// The number that a string of digits writes, if every character is a digit.
pub open spec fn digits_value(s: Seq<char>, radix: nat) -> Option<nat>
    decreases s.len(),
{
    if s.len() == 0 {
        Some(0)
    } else {
        match (digits_value(s.drop_last(), radix), digit_of(s.last(), radix)) {
            (Some(v), Some(d)) => Some(v * radix + d),
            _ => None,
        }
    }
}

/// Integer parsing as `from_str_radix` documents it for unsigned types: an
/// optional `+`, then one or more digits, and a value no larger than `max`.
pub open spec fn parse_radix(s: Seq<char>, radix: nat, max: nat) -> Option<nat> {
    let d = if s.len() > 0 && s[0] == '+' {
        s.skip(1)
    } else {
        s
    };
    if d.len() == 0 {
        None
    } else {
        match digits_value(d, radix) {
            Some(v) => if v <= max {
                Some(v)
            } else {
                None
            },
            None => None,
        }
    }
}

proof fn lemma_digits_grow(s: Seq<char>, radix: nat, i: int)
    requires
        1 <= radix,
        0 <= i <= s.len(),
        digits_value(s.take(i), radix) is Some,
        digits_value(s, radix) is Some,
    ensures
        digits_value(s, radix).unwrap() >= digits_value(s.take(i), radix).unwrap(),
    decreases s.len() - i,
{
    if i < s.len() {
        assert(s.take(i + 1).drop_last() =~= s.take(i));
        assert(s.take(i + 1).last() == s[i]);
        lemma_digits_prefix_some(s, radix, i + 1);
        let v = digits_value(s.take(i), radix).unwrap();
        let d = digit_of(s[i], radix).unwrap();
        assert(v * radix + d >= v) by (nonlinear_arith)
            requires
                radix >= 1,
        ;
        lemma_digits_grow(s, radix, i + 1);
    } else {
        assert(s.take(i) =~= s);
    }
}

proof fn lemma_digits_prefix_some(s: Seq<char>, radix: nat, i: int)
    requires
        0 <= i <= s.len(),
        digits_value(s, radix) is Some,
    ensures
        digits_value(s.take(i), radix) is Some,
    decreases s.len() - i,
{
    if i < s.len() {
        assert(s.take(i + 1).drop_last() =~= s.take(i));
        lemma_digits_prefix_some(s, radix, i + 1);
    } else {
        assert(s.take(i) =~= s);
    }
}

fn digit_value(c: char, radix: u32) -> (r: Option<u32>)
    requires
        2 <= radix <= 36,
    ensures
        match r {
            Some(d) => digit_of(c, radix as nat) == Some(d as nat),
            None => digit_of(c, radix as nat) is None,
        },
{
    let u = c as u32;
    let v: u32 = if '0' <= c && c <= '9' {
        u - ('0' as u32)
    } else if 'a' <= c && c <= 'z' {
        u - ('a' as u32) + 10
    } else if 'A' <= c && c <= 'Z' {
        u - ('A' as u32) + 10
    } else {
        radix
    };
    if v < radix {
        Some(v)
    } else {
        None
    }
}

/// Parses `s[from..to]` as an unsigned number in `radix`, no larger than `max`.
pub fn parse_radix_range(s: &Vec<char>, from: usize, to: usize, radix: u32, max: u32) -> (r: Option<u32>)
    requires
        2 <= radix <= 36,
        from <= to <= s@.len(),
    ensures
        match r {
            Some(v) => parse_radix(s@.subrange(from as int, to as int), radix as nat, max as nat) == Some(v as nat),
            None => parse_radix(s@.subrange(from as int, to as int), radix as nat, max as nat) is None,
        },
{
    let ghost t = s@.subrange(from as int, to as int);
    let mut start: usize = from;
    if from < to && s[from] == '+' {
        start = from + 1;
    }
    let ghost d = if t.len() > 0 && t[0] == '+' {
        t.skip(1)
    } else {
        t
    };
    assert(d =~= s@.subrange(start as int, to as int));
    if start == to {
        return None;
    }
    let mut acc: u64 = 0;
    let mut j: usize = start;
    assert(d.take(0) =~= Seq::<char>::empty());
    while j < to
        invariant
            start <= j <= to,
            from <= start,
            to <= s@.len(),
            t == s@.subrange(from as int, to as int),
            d == s@.subrange(start as int, to as int),
            d.len() > 0,
            d == (if t.len() > 0 && t[0] == '+' {
                t.skip(1)
            } else {
                t
            }),
            2 <= radix <= 36,
            acc <= max,
            digits_value(d.take(j - start), radix as nat) == Some(acc as nat),
        decreases to - j,
    {
        let c = s[j];
        assert(c == d[j - start]);
        proof {
            assert(d.take(j - start + 1).drop_last() =~= d.take(j - start));
            assert(d.take(j - start + 1).last() == c);
        }
        match digit_value(c, radix) {
            Some(dv) => {
                assert(acc * (radix as u64) <= 0xffff_ffffu64 * 36) by (nonlinear_arith)
                    requires
                        acc <= 0xffff_ffffu64,
                        radix <= 36,
                ;
                let next: u64 = acc * (radix as u64) + (dv as u64);
                assert(digits_value(d.take(j - start + 1), radix as nat) == Some(next as nat));
                if next > max as u64 {
                    proof {
                        if digits_value(d, radix as nat) is Some {
                            lemma_digits_grow(d, radix as nat, j - start + 1);
                        }
                    }
                    return None;
                }
                acc = next;
            },
            None => {
                assert(digits_value(d.take(j - start + 1), radix as nat) is None);
                proof {
                    if digits_value(d, radix as nat) is Some {
                        lemma_digits_prefix_some(d, radix as nat, j - start + 1);
                    }
                }
                return None;
            },
        }
        j = j + 1;
    }
    assert(d.take(j - start) =~= d);
    Some(acc as u32)
}

/// Parses `s` as an unsigned number in `radix`, no larger than `max`.
pub fn parse_radix_str(s: &str, radix: u32, max: u32) -> (r: Option<u32>)
    requires
        2 <= radix <= 36,
    ensures
        match r {
            Some(v) => parse_radix(s@, radix as nat, max as nat) == Some(v as nat),
            None => parse_radix(s@, radix as nat, max as nat) is None,
        },
{
    let cs = chars_of(s);
    assert(cs@.subrange(0, cs@.len() as int) =~= s@);
    parse_radix_range(&cs, 0, cs.len(), radix, max)
}

/// The characters of `s`.
pub fn chars_of(s: &str) -> (r: Vec<char>)
    ensures
        r@ == s@,
{
    broadcast use vstd::string::group_string_axioms;

    let mut out: Vec<char> = Vec::new();
    for c in it: s.chars()
        invariant
            it.seq() == s@,
            out@ == s@.take(it.index() as int),
    {
        out.push(c);
        assert(out@ =~= s@.take(it.index() as int + 1));
    }
    assert(out@ =~= s@);
    out
}

/// Unicode `White_Space`, the property `char::is_whitespace` tests.
pub open spec fn is_white(c: char) -> bool {
    ||| '\t' <= c <= '\r'
    ||| c == ' '
    ||| c == '\u{85}'
    ||| c == '\u{a0}'
    ||| c == '\u{1680}'
    ||| '\u{2000}' <= c <= '\u{200a}'
    ||| c == '\u{2028}'
    ||| c == '\u{2029}'
    ||| c == '\u{202f}'
    ||| c == '\u{205f}'
    ||| c == '\u{3000}'
}

fn white(c: char) -> (r: bool)
    ensures
        r == is_white(c),
{
    ('\t' <= c && c <= '\r') || c == ' ' || c == '\u{85}' || c == '\u{a0}' || c == '\u{1680}' || (
    '\u{2000}' <= c && c <= '\u{200a}') || c == '\u{2028}' || c == '\u{2029}' || c == '\u{202f}'
        || c == '\u{205f}' || c == '\u{3000}'
}

/// The first index from `i` on that is not white space (or the length).
pub open spec fn skip_white(s: Seq<char>, i: int) -> int
    decreases s.len() - i,
{
    if i >= s.len() {
        s.len() as int
    } else if is_white(s[i]) {
        skip_white(s, i + 1)
    } else {
        i
    }
}

/// The first index from `i` on that is white space (or the length).
pub open spec fn word_end(s: Seq<char>, i: int) -> int
    decreases s.len() - i,
{
    if i >= s.len() {
        s.len() as int
    } else if is_white(s[i]) {
        i
    } else {
        word_end(s, i + 1)
    }
}

/// The range of the word that `split_whitespace().nth(n)` yields, counting
/// words from index `from`.
pub open spec fn nth_word(s: Seq<char>, n: nat, from: int) -> Option<(int, int)>
    decreases n,
{
    let st = skip_white(s, from);
    if st >= s.len() {
        None
    } else if n == 0 {
        Some((st, word_end(s, st)))
    } else {
        nth_word(s, (n - 1) as nat, word_end(s, st))
    }
}

/// The first index from `i` on holding `c` (or the length).
pub open spec fn find_char(s: Seq<char>, c: char, i: int) -> int
    decreases s.len() - i,
{
    if i >= s.len() {
        s.len() as int
    } else if s[i] == c {
        i
    } else {
        find_char(s, c, i + 1)
    }
}

/// The first index from `i` on where `p` occurs (or the length).
pub open spec fn find_text(s: Seq<char>, p: Seq<char>, i: int) -> int
    decreases s.len() - i,
{
    if i >= s.len() {
        s.len() as int
    } else if i + p.len() <= s.len() && s.subrange(i, i + p.len()) == p {
        i
    } else {
        find_text(s, p, i + 1)
    }
}

/// Index `i` starts a line.
pub open spec fn line_start(s: Seq<char>, i: int) -> bool {
    i == 0 || s[i - 1] == '\n'
}

/// The start of the first line from index `i` on that begins with `p` (or the length).
pub open spec fn prefixed_line(s: Seq<char>, p: Seq<char>, i: int) -> int
    decreases s.len() - i,
{
    if i >= s.len() {
        s.len() as int
    } else if line_start(s, i) && i + p.len() <= s.len() && s.subrange(i, i + p.len()) == p {
        i
    } else {
        prefixed_line(s, p, i + 1)
    }
}

/// The end of the text `s[lo..j]` with trailing white space removed.
pub open spec fn trim_end(s: Seq<char>, lo: int, j: int) -> int
    decreases j - lo,
{
    if j <= lo {
        lo
    } else if is_white(s[j - 1]) {
        trim_end(s, lo, j - 1)
    } else {
        j
    }
}

proof fn lemma_skip_white(s: Seq<char>, i: int)
    requires
        0 <= i <= s.len(),
    ensures
        i <= skip_white(s, i) <= s.len(),
    decreases s.len() - i,
{
    if i < s.len() && is_white(s[i]) {
        lemma_skip_white(s, i + 1);
    }
}

proof fn lemma_word_end(s: Seq<char>, i: int)
    requires
        0 <= i <= s.len(),
    ensures
        i <= word_end(s, i) <= s.len(),
    decreases s.len() - i,
{
    if i < s.len() && !is_white(s[i]) {
        lemma_word_end(s, i + 1);
    }
}

fn skip_white_exec(s: &Vec<char>, i: usize, to: usize) -> (r: usize)
    requires
        i <= to <= s@.len(),
    ensures
        r == skip_white(s@.subrange(0, to as int), i as int),
{
    let ghost t = s@.subrange(0, to as int);
    let mut k = i;
    while k < to && white(s[k])
        invariant
            i <= k <= to,
            to <= s@.len(),
            t == s@.subrange(0, to as int),
            skip_white(t, i as int) == skip_white(t, k as int),
        decreases to - k,
    {
        k = k + 1;
    }
    k
}

fn word_end_exec(s: &Vec<char>, i: usize, to: usize) -> (r: usize)
    requires
        i <= to <= s@.len(),
    ensures
        r == word_end(s@.subrange(0, to as int), i as int),
{
    let ghost t = s@.subrange(0, to as int);
    let mut k = i;
    while k < to && !white(s[k])
        invariant
            i <= k <= to,
            to <= s@.len(),
            t == s@.subrange(0, to as int),
            word_end(t, i as int) == word_end(t, k as int),
        decreases to - k,
    {
        k = k + 1;
    }
    k
}

/// The range of word `n` of `s[..to]`, counting from index `from`.
fn nth_word_exec(s: &Vec<char>, n: usize, from: usize, to: usize) -> (r: Option<(usize, usize)>)
    requires
        from <= to <= s@.len(),
    ensures
        match r {
            Some((a, b)) => nth_word(s@.subrange(0, to as int), n as nat, from as int) == Some(
                (a as int, b as int),
            ) && a <= b <= to,
            None => nth_word(s@.subrange(0, to as int), n as nat, from as int) is None,
        },
{
    let ghost t = s@.subrange(0, to as int);
    let mut left = n;
    let mut pos = from;
    loop
        invariant
            from <= pos <= to,
            to <= s@.len(),
            t == s@.subrange(0, to as int),
            left <= n,
            nth_word(t, n as nat, from as int) == nth_word(t, left as nat, pos as int),
        decreases left,
    {
        let st = skip_white_exec(s, pos, to);
        proof {
            lemma_skip_white(t, pos as int);
        }
        if st >= to {
            return None;
        }
        let e = word_end_exec(s, st, to);
        proof {
            lemma_word_end(t, st as int);
        }
        if left == 0 {
            return Some((st, e));
        }
        left = left - 1;
        pos = e;
    }
}

pub fn find_char_exec(s: &Vec<char>, c: char, i: usize) -> (r: usize)
    requires
        i <= s@.len(),
    ensures
        r == find_char(s@, c, i as int),
        i <= r <= s@.len(),
{
    let mut k = i;
    while k < s.len() && s[k] != c
        invariant
            i <= k <= s@.len(),
            find_char(s@, c, i as int) == find_char(s@, c, k as int),
        decreases s@.len() - k,
    {
        k = k + 1;
    }
    k
}

/// `p` occurs in `s` at index `i`.
fn occurs_at(s: &Vec<char>, p: &Vec<char>, i: usize) -> (r: bool)
    requires
        i <= s@.len(),
    ensures
        r == (i + p@.len() <= s@.len() && s@.subrange(i as int, i + p@.len()) == p@),
{
    if p.len() > s.len() - i {
        return false;
    }
    let mut k: usize = 0;
    while k < p.len()
        invariant
            k <= p@.len(),
            i + p@.len() <= s@.len(),
            s@.len() == s.len(),
            forall|m: int| 0 <= m < k ==> s@[i + m] == p@[m],
        decreases p@.len() - k,
    {
        if s[i + k] != p[k] {
            assert(s@.subrange(i as int, i + p@.len())[k as int] != p@[k as int]);
            return false;
        }
        k = k + 1;
    }
    assert(s@.subrange(i as int, i + p@.len()) =~= p@);
    true
}

fn find_text_exec(s: &Vec<char>, p: &Vec<char>) -> (r: usize)
    ensures
        r == find_text(s@, p@, 0),
        r <= s@.len(),
{
    let mut k: usize = 0;
    while k < s.len() && !occurs_at(s, p, k)
        invariant
            k <= s@.len(),
            find_text(s@, p@, 0) == find_text(s@, p@, k as int),
        decreases s@.len() - k,
    {
        k = k + 1;
    }
    k
}

fn prefixed_line_exec(s: &Vec<char>, p: &Vec<char>) -> (r: usize)
    ensures
        r == prefixed_line(s@, p@, 0),
        r <= s@.len(),
{
    let mut k: usize = 0;
    while k < s.len() && !((k == 0 || s[k - 1] == '\n') && occurs_at(s, p, k))
        invariant
            k <= s@.len(),
            prefixed_line(s@, p@, 0) == prefixed_line(s@, p@, k as int),
        decreases s@.len() - k,
    {
        k = k + 1;
    }
    k
}

fn trim_end_exec(s: &Vec<char>, lo: usize, j: usize) -> (r: usize)
    requires
        lo <= j <= s@.len(),
    ensures
        r == trim_end(s@, lo as int, j as int),
        lo <= r <= j,
{
    let mut k = j;
    while k > lo && white(s[k - 1])
        invariant
            lo <= k <= j,
            j <= s@.len(),
            trim_end(s@, lo as int, j as int) == trim_end(s@, lo as int, k as int),
        decreases k,
    {
        k = k - 1;
    }
    k
}

/// The characters `s[a..b]`.
pub fn slice_chars(s: &Vec<char>, a: usize, b: usize) -> (r: Vec<char>)
    requires
        a <= b <= s@.len(),
    ensures
        r@ == s@.subrange(a as int, b as int),
{
    let mut out: Vec<char> = Vec::new();
    let mut k = a;
    while k < b
        invariant
            a <= k <= b,
            b <= s@.len(),
            out@ == s@.subrange(a as int, k as int),
        decreases b - k,
    {
        out.push(s[k]);
        k = k + 1;
        assert(out@ =~= s@.subrange(a as int, k as int));
    }
    out
}

/// The parent process id that a `/proc/<pid>/status` text gives: the second
/// word of the first line that starts with `PPid:`, read as a decimal `u32`;
/// 0 when there is no such line or word, or it is no such number.
pub open spec fn ppid_of(s: Seq<char>) -> u32 {
    let k = prefixed_line(s, "PPid:"@, 0);
    if k >= s.len() {
        0
    } else {
        let line = s.subrange(k, find_char(s, '\n', k));
        match nth_word(line, 1, 0) {
            Some((a, b)) => match parse_radix(line.subrange(a, b), 10, u32::MAX as nat) {
                Some(v) => v as u32,
                None => 0,
            },
            None => 0,
        }
    }
}

/// The window id in an `xprop -spy` line: the first word after the first
/// `0x`, read in hexadecimal.
pub open spec fn window_id_of(s: Seq<char>) -> Option<u32> {
    let k = find_text(s, "0x"@, 0);
    if k >= s.len() {
        None
    } else {
        let rest = s.subrange(k + 2, s.len() as int);
        match nth_word(rest, 0, 0) {
            Some((a, b)) => match parse_radix(rest.subrange(a, b), 16, u32::MAX as nat) {
                Some(v) => Some(v as u32),
                None => None,
            },
            None => None,
        }
    }
}

/// The process id in `xprop ... _NET_WM_PID` output: the text between the
/// first and second `=` (or the end), trimmed, read as a decimal `u32`.
pub open spec fn wm_pid_of(s: Seq<char>) -> Option<u32> {
    let e1 = find_char(s, '=', 0);
    if e1 >= s.len() {
        None
    } else {
        let piece = s.subrange(e1 + 1, find_char(s, '=', e1 + 1));
        let a = skip_white(piece, 0);
        let b = trim_end(piece, a, piece.len() as int);
        match parse_radix(piece.subrange(a, b), 10, u32::MAX as nat) {
            Some(v) => Some(v as u32),
            None => None,
        }
    }
}

pub fn parent_pid_of(status: &str) -> (r: u32)
    ensures
        r == ppid_of(status@),
{
    let s = chars_of(status);
    let p = chars_of("PPid:");
    let k = prefixed_line_exec(&s, &p);
    if k >= s.len() {
        return 0;
    }
    let e = find_char_exec(&s, '\n', k);
    let line = slice_chars(&s, k, e);
    assert(line@.subrange(0, line@.len() as int) =~= line@);
    match nth_word_exec(&line, 1, 0, line.len()) {
        Some((a, b)) => match parse_radix_range(&line, a, b, 10, u32::MAX) {
            Some(v) => v,
            None => 0,
        },
        None => 0,
    }
}

pub fn window_id_of_line(line: &str) -> (r: Option<u32>)
    ensures
        r == window_id_of(line@),
{
    let s = chars_of(line);
    let p = chars_of("0x");
    let k = find_text_exec(&s, &p);
    if k >= s.len() {
        return None;
    }
    proof {
        reveal_strlit("0x");
        lemma_find_text(s@, p@, 0);
    }
    let rest = slice_chars(&s, k + 2, s.len());
    assert(rest@.subrange(0, rest@.len() as int) =~= rest@);
    match nth_word_exec(&rest, 0, 0, rest.len()) {
        Some((a, b)) => parse_radix_range(&rest, a, b, 16, u32::MAX),
        None => None,
    }
}

proof fn lemma_find_text(s: Seq<char>, p: Seq<char>, i: int)
    requires
        0 <= i <= s.len(),
    ensures
        i <= find_text(s, p, i) <= s.len(),
        find_text(s, p, i) < s.len() ==> find_text(s, p, i) + p.len() <= s.len(),
    decreases s.len() - i,
{
    if i < s.len() && !(i + p.len() <= s.len() && s.subrange(i, i + p.len()) == p) {
        lemma_find_text(s, p, i + 1);
    }
}

pub fn wm_pid_of_text(text: &str) -> (r: Option<u32>)
    ensures
        r == wm_pid_of(text@),
{
    let s = chars_of(text);
    let e1 = find_char_exec(&s, '=', 0);
    if e1 >= s.len() {
        return None;
    }
    let e2 = find_char_exec(&s, '=', e1 + 1);
    let piece = slice_chars(&s, e1 + 1, e2);
    assert(piece@.subrange(0, piece@.len() as int) =~= piece@);
    let a = skip_white_exec(&piece, 0, piece.len());
    proof {
        lemma_skip_white(piece@, 0);
    }
    let b = trim_end_exec(&piece, a, piece.len());
    parse_radix_range(&piece, a, b, 10, u32::MAX)
}

/// The decimal digit for `d < 10`.
pub open spec fn digit_char(d: nat) -> char {
    if d == 0 {
        '0'
    } else if d == 1 {
        '1'
    } else if d == 2 {
        '2'
    } else if d == 3 {
        '3'
    } else if d == 4 {
        '4'
    } else if d == 5 {
        '5'
    } else if d == 6 {
        '6'
    } else if d == 7 {
        '7'
    } else if d == 8 {
        '8'
    } else {
        '9'
    }
}

/// `v` written in decimal, without leading zeros.
pub open spec fn decimal(v: nat) -> Seq<char>
    decreases v,
{
    if v < 10 {
        seq![digit_char(v)]
    } else {
        decimal(v / 10).push(digit_char(v % 10))
    }
}

proof fn lemma_digit_char(d: nat)
    requires
        d < 10,
    ensures
        digit_of(digit_char(d), 10) == Some(d),
        '0' <= digit_char(d) <= '9',
{
}

proof fn lemma_decimal(v: nat)
    ensures
        decimal(v).len() > 0,
        digits_value(decimal(v), 10) == Some(v),
        forall|i: int| 0 <= i < decimal(v).len() ==> '0' <= #[trigger] decimal(v)[i] <= '9',
    decreases v,
{
    if v < 10 {
        lemma_digit_char(v);
        assert(decimal(v).drop_last() =~= Seq::<char>::empty());
        assert(digits_value(Seq::<char>::empty(), 10) == Some(0nat));
    } else {
        lemma_decimal(v / 10);
        lemma_digit_char(v % 10);
        let d = decimal(v);
        assert(d.drop_last() =~= decimal(v / 10));
        assert(d.last() == digit_char(v % 10));
        assert((v / 10) * 10 + v % 10 == v);
        assert forall|i: int| 0 <= i < d.len() implies '0' <= #[trigger] d[i] <= '9' by {
            if i < d.len() - 1 {
                assert(d[i] == decimal(v / 10)[i]);
            }
        }
    }
}

proof fn lemma_skip_white_at(s: Seq<char>, i: int, j: int)
    requires
        0 <= i <= j < s.len(),
        forall|q: int| i <= q < j ==> is_white(#[trigger] s[q]),
        !is_white(s[j]),
    ensures
        skip_white(s, i) == j,
    decreases j - i,
{
    if i < j {
        lemma_skip_white_at(s, i + 1, j);
    }
}

proof fn lemma_word_end_at(s: Seq<char>, i: int, j: int)
    requires
        0 <= i <= j <= s.len(),
        forall|q: int| i <= q < j ==> !is_white(#[trigger] s[q]),
        j == s.len() || is_white(s[j]),
    ensures
        word_end(s, i) == j,
    decreases j - i,
{
    if i < j {
        lemma_word_end_at(s, i + 1, j);
    }
}

proof fn lemma_find_char_at(s: Seq<char>, c: char, i: int, j: int)
    requires
        0 <= i <= j < s.len(),
        forall|q: int| i <= q < j ==> #[trigger] s[q] != c,
        s[j] == c,
    ensures
        find_char(s, c, i) == j,
    decreases j - i,
{
    if i < j {
        lemma_find_char_at(s, c, i + 1, j);
    }
}

proof fn lemma_prefixed_line_after(s: Seq<char>, p: Seq<char>, i: int, j: int)
    requires
        0 <= i <= j < s.len(),
        forall|q: int|
            i <= q < j ==> !(line_start(s, q) && q + p.len() <= s.len() && #[trigger] s.subrange(q, q + p.len()) == p),
        line_start(s, j),
        j + p.len() <= s.len(),
        s.subrange(j, j + p.len()) == p,
    ensures
        prefixed_line(s, p, i) == j,
    decreases j - i,
{
    if i < j {
        lemma_prefixed_line_after(s, p, i + 1, j);
    }
}

/// The parent pid is read from the `PPid:` line of a status text as the
/// decimal number written there: for every pid `v` that fits in a `u32`, a
/// status whose first `PPid:` line is `PPid:<tab>v` gives `v`, whatever lines
/// come before it (none of them a `PPid:` line) or after it.
pub proof fn lemma_parent_pid_read_as_written(pre: Seq<char>, v: nat, post: Seq<char>)
    requires
        v <= u32::MAX,
        pre.len() == 0 || pre.last() == '\n',
        forall|i: int|
            0 <= i < pre.len() && (i == 0 || pre[i - 1] == '\n') && i + 5 <= pre.len() ==> #[trigger] pre.subrange(i, i + 5)
                != "PPid:"@,
    ensures
        ppid_of(pre + "PPid:\t"@ + decimal(v) + "\n"@ + post) == v,
{
    reveal_strlit("PPid:\t");
    reveal_strlit("PPid:");
    reveal_strlit("\n");
    lemma_decimal(v);
    let d = decimal(v);
    let l = "PPid:\t"@ + d;
    let s = pre + l + "\n"@ + post;
    let k = pre.len() as int;
    assert(l.len() == 6 + d.len());
    assert forall|q: int| 0 <= q < l.len() implies #[trigger] s[k + q] == l[q] by {}
    assert(s[k + l.len()] == '\n');
    // The first PPid: line starts right after `pre`.
    assert(s.subrange(k, k + 5) =~= "PPid:"@) by {
        assert forall|q: int| 0 <= q < 5 implies s.subrange(k, k + 5)[q] == "PPid:"@[q] by {
            assert(s[k + q] == l[q]);
        }
    }
    assert forall|q: int|
        0 <= q < k implies !(line_start(s, q) && q + 5 <= s.len() && #[trigger] s.subrange(q, q + 5) == "PPid:"@) by {
        if line_start(s, q) && q + 5 <= s.len() && s.subrange(q, q + 5) == "PPid:"@ {
            assert(q == 0 || pre[q - 1] == '\n') by {
                if q > 0 {
                    assert(s[q - 1] == pre[q - 1]);
                }
            }
            if q + 5 <= k {
                assert(s.subrange(q, q + 5) =~= pre.subrange(q, q + 5));
            } else {
                let off = k - 1 - q;
                assert(0 <= off < 5);
                assert(s[k - 1] == '\n');
                assert(s.subrange(q, q + 5)[off] == s[k - 1]);
                assert("PPid:"@[off] != '\n');
            }
        }
    }
    if k > 0 {
        assert(s[k - 1] == pre.last());
    }
    lemma_prefixed_line_after(s, "PPid:"@, 0, k);
    // The line ends at the next newline.
    assert forall|q: int| k <= q < k + l.len() implies #[trigger] s[q] != '\n' by {
        assert(s[q] == l[q - k]);
        if q - k >= 6 {
            assert(l[q - k] == d[q - k - 6]);
        }
    }
    lemma_find_char_at(s, '\n', k, k + l.len());
    let line = s.subrange(k, k + l.len());
    assert(line =~= l);
    // Its second word is the number.
    assert(!is_white(l[0]));
    lemma_skip_white_at(l, 0, 0);
    assert forall|q: int| 0 <= q < 5 implies !is_white(#[trigger] l[q]) by {}
    assert(is_white(l[5]));
    lemma_word_end_at(l, 0, 5);
    assert(l[6] == d[0]);
    lemma_skip_white_at(l, 5, 6);
    assert forall|q: int| 6 <= q < l.len() implies !is_white(#[trigger] l[q]) by {
        assert(l[q] == d[q - 6]);
    }
    lemma_word_end_at(l, 6, l.len() as int);
    assert(nth_word(l, 0, 5) == Some((6int, l.len() as int)));
    assert(nth_word(l, 1, 0) == Some((6int, l.len() as int)));
    assert(l.subrange(6, l.len() as int) =~= d);
    assert(d[0] != '+');
    assert(parse_radix(d, 10, u32::MAX as nat) == Some(v));
    assert(s =~= pre + "PPid:\t"@ + decimal(v) + "\n"@ + post);
    assert(prefixed_line(s, "PPid:"@, 0) == k);
    assert(find_char(s, '\n', k) == k + l.len());
    assert(ppid_of(s) == v as u32);
}

/// The lowercase hexadecimal digit for `d < 16`.
pub open spec fn hex_digit_char(d: nat) -> char {
    if d < 10 {
        digit_char(d)
    } else if d == 10 {
        'a'
    } else if d == 11 {
        'b'
    } else if d == 12 {
        'c'
    } else if d == 13 {
        'd'
    } else if d == 14 {
        'e'
    } else {
        'f'
    }
}

/// `v` written in lowercase hexadecimal, without leading zeros.
pub open spec fn hexadecimal(v: nat) -> Seq<char>
    decreases v,
{
    if v < 16 {
        seq![hex_digit_char(v)]
    } else {
        hexadecimal(v / 16).push(hex_digit_char(v % 16))
    }
}

proof fn lemma_hex_digit_char(d: nat)
    requires
        d < 16,
    ensures
        digit_of(hex_digit_char(d), 16) == Some(d),
        !is_white(hex_digit_char(d)),
        hex_digit_char(d) != '+',
{
    if d < 10 {
        lemma_digit_char(d);
    }
}

proof fn lemma_hexadecimal(v: nat)
    ensures
        hexadecimal(v).len() > 0,
        digits_value(hexadecimal(v), 16) == Some(v),
        forall|i: int| 0 <= i < hexadecimal(v).len() ==> !is_white(#[trigger] hexadecimal(v)[i]),
        hexadecimal(v)[0] != '+',
    decreases v,
{
    if v < 16 {
        lemma_hex_digit_char(v);
        assert(hexadecimal(v).drop_last() =~= Seq::<char>::empty());
        assert(digits_value(Seq::<char>::empty(), 16) == Some(0nat));
    } else {
        lemma_hexadecimal(v / 16);
        lemma_hex_digit_char(v % 16);
        let d = hexadecimal(v);
        assert(d.drop_last() =~= hexadecimal(v / 16));
        assert(d.last() == hex_digit_char(v % 16));
        assert((v / 16) * 16 + v % 16 == v);
        assert forall|i: int| 0 <= i < d.len() implies !is_white(#[trigger] d[i]) by {
            if i < d.len() - 1 {
                assert(d[i] == hexadecimal(v / 16)[i]);
            }
        }
        assert(d[0] == hexadecimal(v / 16)[0]);
    }
}

proof fn lemma_find_text_at(s: Seq<char>, p: Seq<char>, i: int, j: int)
    requires
        0 <= i <= j < s.len(),
        forall|q: int| i <= q < j ==> !(q + p.len() <= s.len() && #[trigger] s.subrange(q, q + p.len()) == p),
        j + p.len() <= s.len(),
        s.subrange(j, j + p.len()) == p,
    ensures
        find_text(s, p, i) == j,
    decreases j - i,
{
    if i < j {
        lemma_find_text_at(s, p, i + 1, j);
    }
}

/// The window id of an `xprop -spy` line is the hexadecimal number written
/// after its first `0x`: for every id `v` that fits in a `u32`, a line
/// `<pre>0x<v in hex>` followed by nothing or by white space and more text
/// gives `v`, where `pre` holds no `0x`.
pub proof fn lemma_window_id_read_as_written(pre: Seq<char>, v: nat, post: Seq<char>)
    requires
        v <= u32::MAX,
        forall|q: int| 0 <= q && q + 2 <= pre.len() ==> #[trigger] pre.subrange(q, q + 2) != "0x"@,
        post.len() == 0 || is_white(post[0]),
    ensures
        window_id_of(pre + "0x"@ + hexadecimal(v) + post) == Some(v as u32),
{
    reveal_strlit("0x");
    lemma_hexadecimal(v);
    let h = hexadecimal(v);
    let s = pre + "0x"@ + h + post;
    let k = pre.len() as int;
    assert(s[k] == '0' && s[k + 1] == 'x');
    assert(s.subrange(k, k + 2) =~= "0x"@);
    assert forall|q: int| 0 <= q < k implies !(q + 2 <= s.len() && #[trigger] s.subrange(q, q + 2) == "0x"@) by {
        if q + 2 <= s.len() && s.subrange(q, q + 2) == "0x"@ {
            if q + 2 <= k {
                assert(s.subrange(q, q + 2) =~= pre.subrange(q, q + 2));
            } else {
                assert(q == k - 1);
                assert(s.subrange(q, q + 2)[1] == s[k]);
                assert(s[k] == '0');
                assert("0x"@[1] == 'x');
            }
        }
    }
    lemma_find_text_at(s, "0x"@, 0, k);
    let rest = s.subrange(k + 2, s.len() as int);
    assert(rest =~= h + post);
    assert(rest[0] == h[0]);
    lemma_skip_white_at(rest, 0, 0);
    assert forall|q: int| 0 <= q < h.len() implies !is_white(#[trigger] rest[q]) by {
        assert(rest[q] == h[q]);
    }
    if post.len() > 0 {
        assert(rest[h.len() as int] == post[0]);
    }
    lemma_word_end_at(rest, 0, h.len() as int);
    assert(nth_word(rest, 0, 0) == Some((0int, h.len() as int)));
    assert(rest.subrange(0, h.len() as int) =~= h);
    assert(parse_radix(h, 16, u32::MAX as nat) == Some(v));
}

/// The pid in `xprop ... _NET_WM_PID` output is the decimal number after the
/// `=`: for every pid `v` that fits in a `u32`, the text
/// `<pre>= <v in decimal>` gives `v`, where `pre` holds no `=`.
pub proof fn lemma_wm_pid_read_as_written(pre: Seq<char>, v: nat)
    requires
        v <= u32::MAX,
        forall|q: int| 0 <= q < pre.len() ==> #[trigger] pre[q] != '=',
    ensures
        wm_pid_of(pre + "= "@ + decimal(v)) == Some(v as u32),
{
    reveal_strlit("= ");
    lemma_decimal(v);
    let d = decimal(v);
    let s = pre + "= "@ + d;
    let k = pre.len() as int;
    assert(s[k] == '=');
    assert forall|q: int| 0 <= q < k implies #[trigger] s[q] != '=' by {
        assert(s[q] == pre[q]);
    }
    lemma_find_char_at(s, '=', 0, k);
    assert forall|q: int| k + 1 <= q < s.len() implies #[trigger] s[q] != '=' by {
        if q > k + 1 {
            assert(s[q] == d[q - k - 2]);
        }
    }
    assert(find_char(s, '=', k + 1) == s.len()) by {
        lemma_find_char_end(s, '=', k + 1);
    }
    let piece = s.subrange(k + 1, s.len() as int);
    assert(piece =~= seq![' '] + d);
    assert(is_white(piece[0]));
    assert(piece[1] == d[0]);
    assert(!is_white(d[0]));
    lemma_skip_white_at(piece, 0, 1);
    assert(piece[piece.len() - 1] == d[d.len() - 1]);
    assert(!is_white(d[d.len() - 1]));
    assert(trim_end(piece, 1, piece.len() as int) == piece.len());
    assert(piece.subrange(1, piece.len() as int) =~= d);
    assert(d[0] != '+');
    assert(parse_radix(d, 10, u32::MAX as nat) == Some(v));
}

proof fn lemma_find_char_end(s: Seq<char>, c: char, i: int)
    requires
        0 <= i <= s.len(),
        forall|q: int| i <= q < s.len() ==> #[trigger] s[q] != c,
    ensures
        find_char(s, c, i) == s.len(),
    decreases s.len() - i,
{
    if i < s.len() {
        lemma_find_char_end(s, c, i + 1);
    }
}

} // verus!
