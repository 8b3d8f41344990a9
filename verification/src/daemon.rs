//! What the background drive reads back from the system: the process id it
//! recorded, and whether a path is mounted.

use vstd::prelude::*;

use crate::text::{chars_of, is_space, is_whitespace, lemma_trimmed, trimmed};

verus! {

/// Whether `c` is an ASCII decimal digit.
pub open spec fn is_digit(c: char) -> bool {
    '0' <= c && c <= '9'
}

/// The value of the decimal digits `ds`.
pub open spec fn decimal(ds: Seq<char>) -> int
    decreases ds.len(),
{
    if ds.len() == 0 {
        0
    } else {
        decimal(ds.drop_last()) * 10 + (ds.last() as int - '0' as int)
    }
}

/// `text` without a leading sign.
pub open spec fn unsigned_part(text: Seq<char>) -> Seq<char> {
    if text.len() > 0 && (text[0] == '-' || text[0] == '+') {
        text.skip(1)
    } else {
        text
    }
}

/// The `i32` that `text` spells, as `str::parse::<i32>` reads it: an
/// optional `+` or `-`, then at least one decimal digit and nothing else,
/// with a value that fits.
pub open spec fn parse_i32(text: Seq<char>) -> Option<i32> {
    let negative = text.len() > 0 && text[0] == '-';
    let digits = unsigned_part(text);
    let value = if negative {
        -decimal(digits)
    } else {
        decimal(digits)
    };
    if digits.len() > 0 && (forall|k: int| 0 <= k < digits.len() ==> is_digit(#[trigger] digits[k]))
        && i32::MIN <= value <= i32::MAX {
        Some(value as i32)
    } else {
        None
    }
}

/// A longer run of digits is worth at least as much as its beginning.
proof fn lemma_decimal_grows(ds: Seq<char>, k: int)
    requires
        0 <= k <= ds.len(),
        forall|i: int| 0 <= i < ds.len() ==> is_digit(#[trigger] ds[i]),
    ensures
        decimal(ds.take(k)) <= decimal(ds),
        decimal(ds.take(k)) >= 0,
    decreases ds.len() - k,
{
    if k < ds.len() {
        lemma_decimal_grows(ds, k + 1);
        assert(ds.take(k + 1).drop_last() =~= ds.take(k));
        assert(is_digit(ds[k]));
    } else {
        assert(ds.take(k) =~= ds);
        lemma_decimal_nonneg(ds);
    }
}

/// Digits are never worth less than nothing.
proof fn lemma_decimal_nonneg(ds: Seq<char>)
    requires
        forall|i: int| 0 <= i < ds.len() ==> is_digit(#[trigger] ds[i]),
    ensures
        decimal(ds) >= 0,
    decreases ds.len(),
{
    if ds.len() > 0 {
        assert(is_digit(ds[ds.len() - 1]));
        lemma_decimal_nonneg(ds.drop_last());
    }
}

/// The `i32` that `text` spells, read as `str::parse::<i32>` does.
pub fn parse_i32_chars(text: &Vec<char>) -> (r: Option<i32>)
    ensures
        r == parse_i32(text@),
{
    let len = text.len();
    let negative = len > 0 && text[0] == '-';
    let start: usize = if len > 0 && (text[0] == '-' || text[0] == '+') { 1 } else { 0 };
    let ghost digits = text@.skip(start as int);
    assert(digits =~= unsigned_part(text@));
    if start >= len {
        return None;
    }
    let mut value: i64 = 0;
    let mut i = start;
    while i < len
        invariant
            len == text@.len(),
            start <= i <= len,
            digits == text@.skip(start as int),
            digits == unsigned_part(text@),
            negative == (text@.len() > 0 && text@[0] == '-'),
            forall|k: int| 0 <= k < i - start ==> is_digit(#[trigger] digits[k]),
            value == decimal(digits.take(i - start)),
            0 <= value <= 0x8000_0000,
        decreases len - i,
    {
        let c = text[i];
        if !('0' <= c && c <= '9') {
            assert(!is_digit(digits[i - start]));
            return None;
        }
        proof {
            assert(digits.take(i - start + 1).drop_last() =~= digits.take(i - start));
            assert(digits.take(i - start + 1).last() == c);
        }
        let d = ((c as u32) - ('0' as u32)) as i64;
        value = value * 10 + d;
        if value > 0x8000_0000 {
            proof {
                if forall|k: int| 0 <= k < digits.len() ==> is_digit(#[trigger] digits[k]) {
                    lemma_decimal_grows(digits, i - start + 1);
                }
            }
            return None;
        }
        i = i + 1;
    }
    assert(digits.take(len - start) =~= digits);
    if negative {
        Some((-value) as i32)
    } else if value <= 0x7fff_ffff {
        Some(value as i32)
    } else {
        None
    }
}

/// The process id that the contents of the pid file record: the text
/// without surrounding white space, read as an `i32`.
pub fn parse_pid(text: &str) -> (r: Option<i32>)
    ensures
        r == parse_i32(trimmed(text@)),
{
    let chars = chars_of(text);
    let len = chars.len();
    let mut i: usize = 0;
    while i < len && is_whitespace(chars[i])
        invariant
            len == chars@.len(),
            i <= len,
            forall|k: int| 0 <= k < i ==> is_space(#[trigger] chars@[k]),
        decreases len - i,
    {
        i = i + 1;
    }
    let mut j: usize = len;
    while j > i && is_whitespace(chars[j - 1])
        invariant
            len == chars@.len(),
            i <= j <= len,
            forall|k: int| j <= k < len ==> is_space(#[trigger] chars@[k]),
        decreases j,
    {
        j = j - 1;
    }
    let mut core: Vec<char> = Vec::new();
    let mut k = i;
    while k < j
        invariant
            i <= k <= j <= len,
            len == chars@.len(),
            core@ == chars@.subrange(i as int, k as int),
        decreases j - k,
    {
        core.push(chars[k]);
        k = k + 1;
        proof {
            assert(core@ =~= chars@.subrange(i as int, k as int));
        }
    }
    proof {
        lemma_trimmed(text@, i as int, j as int);
    }
    parse_i32_chars(&core)
}

/// Whether `s[from..to]` is white space that does not end a line.
pub open spec fn blank_run(s: Seq<char>, from: int, to: int) -> bool {
    &&& 0 <= from <= to <= s.len()
    &&& forall|k: int| from <= k < to ==> is_space(#[trigger] s[k]) && s[k] != '\n'
}

/// Whether `s[from..to]` is a non-empty run without white space.
pub open spec fn word_run(s: Seq<char>, from: int, to: int) -> bool {
    &&& 0 <= from < to <= s.len()
    &&& forall|k: int| from <= k < to ==> !is_space(#[trigger] s[k])
}

/// Whether a line of `s` starts at `p`.
pub open spec fn starts_line(s: Seq<char>, p: int) -> bool {
    p == 0 || (0 < p <= s.len() && s[p - 1] == '\n')
}

/// Whether `s[c..d]` is the second white-space-separated field of the line
/// of `s` that starts at `p`.
pub open spec fn second_field(s: Seq<char>, p: int, c: int, d: int) -> bool {
    exists|a: int, b: int|
        #![trigger word_run(s, a, b), blank_run(s, b, c)]
        blank_run(s, p, a) && word_run(s, a, b) && blank_run(s, b, c) && b < c && word_run(s, c, d)
            && (d == s.len() || is_space(s[d]))
}

/// Whether the mount table `table` lists `target` as a mountpoint: some
/// line's second field is `target`.
pub open spec fn lists_mountpoint(table: Seq<char>, target: Seq<char>) -> bool {
    exists|p: int, c: int, d: int|
        #![trigger second_field(table, p, c, d)]
        starts_line(table, p) && second_field(table, p, c, d) && table.subrange(c, d) == target
}

/// The end of the white space that starts at `from` and does not end the
/// line.
fn skip_blank(s: &Vec<char>, from: usize) -> (to: usize)
    requires
        from <= s@.len(),
    ensures
        blank_run(s@, from as int, to as int),
        to == s@.len() || !is_space(s@[to as int]) || s@[to as int] == '\n',
{
    let mut i = from;
    while i < s.len() && is_whitespace(s[i]) && s[i] != '\n'
        invariant
            from <= i <= s@.len(),
            blank_run(s@, from as int, i as int),
        decreases s@.len() - i,
    {
        i = i + 1;
    }
    i
}

/// The end of the run without white space that starts at `from`.
fn skip_word(s: &Vec<char>, from: usize) -> (to: usize)
    requires
        from <= s@.len(),
    ensures
        from <= to <= s@.len(),
        forall|k: int| from <= k < to ==> !is_space(#[trigger] s@[k]),
        to == s@.len() || is_space(s@[to as int]),
{
    let mut i = from;
    while i < s.len() && !is_whitespace(s[i])
        invariant
            from <= i <= s@.len(),
            forall|k: int| from <= k < i ==> !is_space(#[trigger] s@[k]),
        decreases s@.len() - i,
    {
        i = i + 1;
    }
    i
}

/// The position of the first line end at or after `from`, or the length of
/// `s` if there is none.
fn line_end(s: &Vec<char>, from: usize) -> (to: usize)
    requires
        from <= s@.len(),
    ensures
        from <= to <= s@.len(),
        forall|k: int| from <= k < to ==> #[trigger] s@[k] != '\n',
        to == s@.len() || s@[to as int] == '\n',
{
    let mut i = from;
    while i < s.len() && s[i] != '\n'
        invariant
            from <= i <= s@.len(),
            forall|k: int| from <= k < i ==> #[trigger] s@[k] != '\n',
        decreases s@.len() - i,
    {
        i = i + 1;
    }
    i
}

/// Whether `s[from..to]` holds the characters of `t`.
fn chars_match(s: &Vec<char>, from: usize, to: usize, t: &Vec<char>) -> (r: bool)
    requires
        from <= to <= s@.len(),
    ensures
        r == (s@.subrange(from as int, to as int) == t@),
{
    if to - from != t.len() {
        return false;
    }
    let mut i: usize = 0;
    while i < t.len()
        invariant
            to - from == t@.len(),
            from <= to <= s@.len(),
            i <= t@.len(),
            forall|k: int| 0 <= k < i ==> s@[from + k] == t@[k],
        decreases t@.len() - i,
    {
        if s[from + i] != t[i] {
            assert(s@.subrange(from as int, to as int)[i as int] != t@[i as int]);
            return false;
        }
        i = i + 1;
    }
    assert(s@.subrange(from as int, to as int) =~= t@);
    true
}

/// On a line of `s` starting at `p`, the second field, if there is one, is
/// the one found by skipping blanks and words in turn.
proof fn lemma_second_field_unique(s: Seq<char>, p: int, a0: int, b0: int, c0: int, d0: int, c: int, d: int)
    requires
        blank_run(s, p, a0),
        a0 == s.len() || !is_space(s[a0]) || s[a0] == '\n',
        a0 <= b0 <= s.len(),
        forall|k: int| a0 <= k < b0 ==> !is_space(#[trigger] s[k]),
        b0 == s.len() || is_space(s[b0]),
        blank_run(s, b0, c0),
        c0 == s.len() || !is_space(s[c0]) || s[c0] == '\n',
        c0 <= d0 <= s.len(),
        forall|k: int| c0 <= k < d0 ==> !is_space(#[trigger] s[k]),
        d0 == s.len() || is_space(s[d0]),
        second_field(s, p, c, d),
    ensures
        a0 < b0,
        b0 < c0,
        c0 < d0,
        c == c0,
        d == d0,
{
    let (a, b) = choose|a: int, b: int|
        #![trigger word_run(s, a, b), blank_run(s, b, c)]
        blank_run(s, p, a) && word_run(s, a, b) && blank_run(s, b, c) && b < c && word_run(s, c, d)
            && (d == s.len() || is_space(s[d]));
    if a < a0 {
        assert(is_space(s[a]));
    }
    if a > a0 {
        assert(is_space(s[a0]) && s[a0] != '\n');
    }
    assert(a == a0);
    if b < b0 {
        assert(!is_space(s[b]));
        assert(is_space(s[b]));
    }
    if b > b0 {
        assert(!is_space(s[b0]));
    }
    assert(b == b0);
    if c < c0 {
        assert(!is_space(s[c]));
    }
    if c > c0 {
        assert(is_space(s[c0]) && s[c0] != '\n');
    }
    assert(c == c0);
    if d < d0 {
        assert(!is_space(s[d]));
    }
    if d > d0 {
        assert(!is_space(s[d0]));
    }
}

/// Whether the mount table `table` (the contents of `/proc/mounts`) lists
/// `target` as a mountpoint: whether the second white-space-separated field
/// of one of its lines is `target`.
pub fn is_listed_mountpoint(table: &str, target: &str) -> (r: bool)
    ensures
        r == lists_mountpoint(table@, target@),
{
    let s = chars_of(table);
    let t = chars_of(target);
    let len = s.len();
    let mut p: usize = 0;
    while p < len
        invariant
            len == s@.len(),
            s@ == table@,
            t@ == target@,
            p <= len,
            starts_line(s@, p as int),
            forall|q: int, c: int, d: int|
                #![trigger second_field(s@, q, c, d)]
                0 <= q < p && starts_line(s@, q) && second_field(s@, q, c, d) ==> s@.subrange(c, d) != t@,
        decreases len - p,
    {
        let a = skip_blank(&s, p);
        let b = skip_word(&s, a);
        let c = skip_blank(&s, b);
        let d = skip_word(&s, c);
        if a < b && b < c && c < d && chars_match(&s, c, d, &t) {
            proof {
                assert(second_field(s@, p as int, c as int, d as int)) by {
                    assert(word_run(s@, a as int, b as int));
                    assert(blank_run(s@, b as int, c as int));
                }
            }
            return true;
        }
        proof {
            assert forall|c2: int, d2: int| #![trigger second_field(s@, p as int, c2, d2)]
                second_field(s@, p as int, c2, d2) implies s@.subrange(c2, d2) != t@ by {
                lemma_second_field_unique(s@, p as int, a as int, b as int, c as int, d as int, c2, d2);
            }
        }
        let e = line_end(&s, p);
        if e == len {
            proof {
                assert forall|q: int, c2: int, d2: int|
                    #![trigger second_field(s@, q, c2, d2)]
                    0 <= q && starts_line(s@, q) && second_field(s@, q, c2, d2) implies s@.subrange(c2, d2) != t@ by {
                    if q > p as int {
                        assert(s@[q - 1] != '\n');
                    }
                }
            }
            return false;
        }
        let ghost p0 = p as int;
        p = e + 1;
        proof {
            assert forall|q: int, c2: int, d2: int|
                #![trigger second_field(s@, q, c2, d2)]
                0 <= q < p && starts_line(s@, q) && second_field(s@, q, c2, d2) implies s@.subrange(c2, d2) != t@ by {
                if q > p0 {
                    assert(s@[q - 1] != '\n');
                }
            }
        }
    }
    proof {
        assert forall|q: int, c2: int, d2: int|
            #![trigger second_field(s@, q, c2, d2)]
            starts_line(s@, q) && second_field(s@, q, c2, d2) implies s@.subrange(c2, d2) != t@ by {
            if q >= p as int {
                let (a2, b2) = choose|a2: int, b2: int|
                    #![trigger word_run(s@, a2, b2), blank_run(s@, b2, c2)]
                    blank_run(s@, q, a2) && word_run(s@, a2, b2) && blank_run(s@, b2, c2) && b2 < c2
                        && word_run(s@, c2, d2) && (d2 == s@.len() || is_space(s@[d2]));
            }
        }
    }
    false
}

/// The character of decimal digit `d`.
pub open spec fn digit_char(d: nat) -> char {
    (('0' as int) + d) as char
}

/// The decimal digits of `n`, most significant first, without leading
/// zeros (`0` is one digit).
pub open spec fn decimal_digits(n: nat) -> Seq<char>
    decreases n,
{
    if n < 10 {
        seq![digit_char(n)]
    } else {
        decimal_digits(n / 10).push(digit_char(n % 10))
    }
}

/// The decimal digits of `n` are digits, and spell `n`.
pub proof fn lemma_decimal_digits(n: nat)
    ensures
        decimal_digits(n).len() >= 1,
        forall|k: int| 0 <= k < decimal_digits(n).len() ==> is_digit(#[trigger] decimal_digits(n)[k]),
        decimal(decimal_digits(n)) == n,
    decreases n,
{
    if n >= 10 {
        lemma_decimal_digits(n / 10);
        let ds = decimal_digits(n);
        assert(ds.drop_last() =~= decimal_digits(n / 10));
        assert(digit_char((n % 10) as nat) as int == '0' as int + n % 10);
        assert((n / 10) * 10 + n % 10 == n);
        assert(ds.last() == digit_char((n % 10) as nat));
        assert(decimal(ds) == decimal(ds.drop_last()) * 10 + (ds.last() as int - '0' as int));
        assert(decimal(ds.drop_last()) == n / 10);
        assert forall|k: int| 0 <= k < ds.len() implies is_digit(#[trigger] ds[k]) by {
            if k < ds.len() - 1 {
                assert(ds[k] == decimal_digits(n / 10)[k]);
            }
        }
    } else {
        assert(decimal_digits(n).drop_last() =~= Seq::<char>::empty());
        assert(digit_char(n) as int == '0' as int + n);
        let ds = decimal_digits(n);
        assert(decimal(ds) == decimal(ds.drop_last()) * 10 + (ds.last() as int - '0' as int));
        assert(decimal(Seq::<char>::empty()) == 0);
    }
}

/// The text of digit `d`.
fn digit_text(d: u32) -> (r: &'static str)
    requires
        d < 10,
    ensures
        r@ == seq![digit_char(d as nat)],
{
    let r = match d {
        0 => "0",
        1 => "1",
        2 => "2",
        3 => "3",
        4 => "4",
        5 => "5",
        6 => "6",
        7 => "7",
        8 => "8",
        _ => "9",
    };
    proof {
        reveal_strlit("0");
        reveal_strlit("1");
        reveal_strlit("2");
        reveal_strlit("3");
        reveal_strlit("4");
        reveal_strlit("5");
        reveal_strlit("6");
        reveal_strlit("7");
        reveal_strlit("8");
        reveal_strlit("9");
        assert(r@ =~= seq![digit_char(d as nat)]);
    }
    r
}

/// The text written to the pid file for process id `pid`: its decimal
/// digits.
pub fn render_pid(pid: u32) -> (r: String)
    ensures
        r@ == decimal_digits(pid as nat),
    decreases pid,
{
    if pid < 10 {
        digit_text(pid).to_owned()
    } else {
        let mut r = render_pid(pid / 10);
        r.append(digit_text(pid % 10));
        r
    }
}

/// Law: the pid file reads back the process id that was written to it.
pub proof fn law_written_pid_reads_back(pid: u32)
    requires
        pid <= i32::MAX,
    ensures
        parse_i32(trimmed(decimal_digits(pid as nat))) == Some(pid as i32),
{
    let ds = decimal_digits(pid as nat);
    lemma_decimal_digits(pid as nat);
    assert forall|k: int| 0 <= k < ds.len() implies !is_space(#[trigger] ds[k]) by {
        assert(is_digit(ds[k]));
    }
    lemma_trimmed(ds, 0, ds.len() as int);
    assert(ds.subrange(0, ds.len() as int) =~= ds);
    assert(is_digit(ds[0]));
    assert(unsigned_part(ds) == ds);
}

} // verus!
