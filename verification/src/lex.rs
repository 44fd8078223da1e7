//! Character-level scanning for the assembler: whitespace, lines, comments,
//! operand lists.

use vstd::prelude::*;

verus! {

/// `char::is_whitespace`: the Unicode `White_Space` characters.
pub open spec fn is_white(c: char) -> bool {
    let u = c as u32;
    ||| 9 <= u <= 13
    ||| u == 32
    ||| u == 0x85
    ||| u == 0xA0
    ||| u == 0x1680
    ||| 0x2000 <= u <= 0x200A
    ||| u == 0x2028
    ||| u == 0x2029
    ||| u == 0x202F
    ||| u == 0x205F
    ||| u == 0x3000
}

/// Whether `c` is a Unicode whitespace character.
pub fn is_whitespace(c: char) -> (r: bool)
    ensures
        r == is_white(c),
{
    let u = c as u32;
    (9 <= u && u <= 13) || u == 32 || u == 0x85 || u == 0xA0 || u == 0x1680 || (0x2000 <= u && u
        <= 0x200A) || u == 0x2028 || u == 0x2029 || u == 0x202F || u == 0x205F || u == 0x3000
}

/// `s` without its leading whitespace.
pub open spec fn trim_start(s: Seq<char>) -> Seq<char>
    decreases s.len(),
{
    if s.len() > 0 && is_white(s[0]) {
        trim_start(s.drop_first())
    } else {
        s
    }
}

/// `s` without its trailing whitespace.
pub open spec fn trim_end(s: Seq<char>) -> Seq<char>
    decreases s.len(),
{
    if s.len() > 0 && is_white(s.last()) {
        trim_end(s.drop_last())
    } else {
        s
    }
}

/// `str::trim`: `s` without leading and trailing whitespace.
pub open spec fn trim(s: Seq<char>) -> Seq<char> {
    trim_end(trim_start(s))
}

/// A copy of `s[from..to]`.
pub fn slice_chars(s: &Vec<char>, from: usize, to: usize) -> (r: Vec<char>)
    requires
        from <= to <= s@.len(),
    ensures
        r@ == s@.subrange(from as int, to as int),
{
    let mut r: Vec<char> = Vec::new();
    let mut k = from;
    while k < to
        invariant
            from <= k <= to,
            to <= s@.len(),
            r@ == s@.subrange(from as int, k as int),
        decreases to - k,
    {
        r.push(s[k]);
        k = k + 1;
        assert(r@ =~= s@.subrange(from as int, k as int));
    }
    r
}

/// `s` trimmed of whitespace at both ends.
pub fn trim_chars(s: &Vec<char>) -> (r: Vec<char>)
    ensures
        r@ == trim(s@),
{
    let n = s.len();
    let mut i: usize = 0;
    assert(s@.subrange(0, n as int) =~= s@);
    while i < n && is_whitespace(s[i])
        invariant
            i <= n,
            n == s@.len(),
            trim_start(s@) == trim_start(s@.subrange(i as int, n as int)),
        decreases n - i,
    {
        assert(s@.subrange(i as int, n as int).drop_first() =~= s@.subrange(i + 1, n as int));
        i = i + 1;
    }
    let ghost t = s@.subrange(i as int, n as int);
    assert(trim_start(s@) == t);
    let mut j: usize = n;
    while j > i && is_whitespace(s[j - 1])
        invariant
            i <= j <= n,
            n == s@.len(),
            t == s@.subrange(i as int, n as int),
            trim_end(t) == trim_end(s@.subrange(i as int, j as int)),
        decreases j - i,
    {
        assert(s@.subrange(i as int, j as int).drop_last() =~= s@.subrange(i as int, j - 1));
        j = j - 1;
    }
    slice_chars(s, i, j)
}

/// Whether `i` is the first whitespace position of `s`.
pub open spec fn is_first_white(s: Seq<char>, i: int) -> bool {
    &&& 0 <= i < s.len()
    &&& is_white(s[i])
    &&& forall|j: int| 0 <= j < i ==> !is_white(#[trigger] s[j])
}

/// `split_once(char::is_whitespace)`: the text before and after the first
/// whitespace character, if there is one.
pub open spec fn split_white(s: Seq<char>) -> Option<(Seq<char>, Seq<char>)> {
    if exists|i: int| is_first_white(s, i) {
        let i = choose|i: int| is_first_white(s, i);
        Some((s.subrange(0, i), s.subrange(i + 1, s.len() as int)))
    } else {
        None
    }
}

proof fn lemma_first_white_unique(s: Seq<char>, i: int, j: int)
    requires
        is_first_white(s, i),
        is_first_white(s, j),
    ensures
        i == j,
{
    if i < j {
        assert(!is_white(s[i]));
    } else if j < i {
        assert(!is_white(s[j]));
    }
}

/// Splits at the first whitespace character.
pub fn split_white_chars(s: &Vec<char>) -> (r: Option<(Vec<char>, Vec<char>)>)
    ensures
        match (r, split_white(s@)) {
            (Some((a, b)), Some((x, y))) => a@ == x && b@ == y,
            (None, None) => true,
            _ => false,
        },
{
    let n = s.len();
    let mut i: usize = 0;
    while i < n
        invariant
            i <= n,
            n == s@.len(),
            forall|j: int| 0 <= j < i ==> !is_white(#[trigger] s@[j]),
        decreases n - i,
    {
        if is_whitespace(s[i]) {
            proof {
                assert(is_first_white(s@, i as int));
                let k = choose|k: int| is_first_white(s@, k);
                lemma_first_white_unique(s@, i as int, k);
            }
            return Some((slice_chars(s, 0, i), slice_chars(s, i + 1, n)));
        }
        i = i + 1;
    }
    None
}

/// Where a comment starts, scanning from `i` in quote state `q` (`;`
/// inside single or double quotes does not start a comment); the end of
/// the line when there is none.
pub open spec fn comment_start(s: Seq<char>, i: int, q: Option<char>) -> int
    decreases s.len() - i,
{
    if i >= s.len() || i < 0 {
        s.len() as int
    } else {
        match q {
            Some(qc) => comment_start(s, i + 1, if s[i] == qc { None } else { q }),
            None => if s[i] == '"' || s[i] == '\'' {
                comment_start(s, i + 1, Some(s[i]))
            } else if s[i] == ';' {
                i
            } else {
                comment_start(s, i + 1, None)
            },
        }
    }
}

/// A line without its comment.
pub open spec fn strip_comment(s: Seq<char>) -> Seq<char> {
    s.subrange(0, comment_start(s, 0, None))
}

proof fn lemma_comment_start_bounds(s: Seq<char>, i: int, q: Option<char>)
    requires
        0 <= i,
    ensures
        i <= comment_start(s, i, q) <= s.len() || (i > s.len() && comment_start(s, i, q) == s.len()),
    decreases s.len() - i,
{
    if i < s.len() {
        match q {
            Some(qc) => lemma_comment_start_bounds(s, i + 1, if s[i] == qc { None } else { q }),
            None => {
                if s[i] == '"' || s[i] == '\'' {
                    lemma_comment_start_bounds(s, i + 1, Some(s[i]));
                } else if s[i] != ';' {
                    lemma_comment_start_bounds(s, i + 1, None);
                }
            },
        }
    }
}

/// The line without its comment.
pub fn strip_comment_chars(s: &Vec<char>) -> (r: Vec<char>)
    ensures
        r@ == strip_comment(s@),
{
    let n = s.len();
    let mut q: Option<char> = None;
    let mut i: usize = 0;
    while i < n
        invariant
            i <= n,
            n == s@.len(),
            comment_start(s@, 0, None) == comment_start(s@, i as int, q),
        decreases n - i,
    {
        let c = s[i];
        match q {
            Some(qc) => {
                if c == qc {
                    q = None;
                }
            },
            None => {
                if c == '"' || c == '\'' {
                    q = Some(c);
                } else if c == ';' {
                    return slice_chars(s, 0, i);
                }
            },
        }
        i = i + 1;
    }
    slice_chars(s, 0, n)
}

/// Drops one trailing carriage return.
pub open spec fn strip_cr(s: Seq<char>) -> Seq<char> {
    if s.len() > 0 && s.last() == '\r' {
        s.drop_last()
    } else {
        s
    }
}

/// `str::lines` from position `i`, with `cur` the part of the current
/// line already read: lines end at `\n` (a `\r` before it is dropped); a
/// last line without `\n` is kept as it is, an empty one is not a line.
pub open spec fn lines_from(s: Seq<char>, i: int, cur: Seq<char>) -> Seq<Seq<char>>
    decreases s.len() - i,
{
    if i >= s.len() || i < 0 {
        if cur.len() > 0 {
            seq![cur]
        } else {
            Seq::empty()
        }
    } else if s[i] == '\n' {
        seq![strip_cr(cur)] + lines_from(s, i + 1, Seq::empty())
    } else {
        lines_from(s, i + 1, cur.push(s[i]))
    }
}

/// The lines of a text, as `str::lines` gives them.
pub open spec fn lines(s: Seq<char>) -> Seq<Seq<char>> {
    lines_from(s, 0, Seq::empty())
}

/// `str::split_whitespace` from position `i`, with `cur` the word being
/// read: the maximal runs of non-whitespace characters.
pub open spec fn words_from(s: Seq<char>, i: int, cur: Seq<char>) -> Seq<Seq<char>>
    decreases s.len() - i,
{
    if i >= s.len() || i < 0 {
        if cur.len() > 0 {
            seq![cur]
        } else {
            Seq::empty()
        }
    } else if is_white(s[i]) {
        (if cur.len() > 0 {
            seq![cur]
        } else {
            Seq::empty()
        }) + words_from(s, i + 1, Seq::empty())
    } else {
        words_from(s, i + 1, cur.push(s[i]))
    }
}

/// The words of a text, as `str::split_whitespace` gives them.
pub open spec fn words(s: Seq<char>) -> Seq<Seq<char>> {
    words_from(s, 0, Seq::empty())
}

/// Splits a text into its whitespace-separated words.
pub fn split_words(s: &Vec<char>) -> (r: Vec<Vec<char>>)
    ensures
        r@.map_values(|w: Vec<char>| w@) == words(s@),
{
    let n = s.len();
    let mut out: Vec<Vec<char>> = Vec::new();
    let mut cur: Vec<char> = Vec::new();
    let mut i: usize = 0;
    while i < n
        invariant
            i <= n,
            n == s@.len(),
            words(s@) == out@.map_values(|w: Vec<char>| w@) + words_from(s@, i as int, cur@),
        decreases n - i,
    {
        let ghost before = out@.map_values(|w: Vec<char>| w@);
        if is_whitespace(s[i]) {
            let ghost c0 = cur@;
            if cur.len() > 0 {
                let w = cur;
                out.push(w);
                cur = Vec::new();
                assert(cur@ =~= Seq::<char>::empty());
                assert(out@.map_values(|w: Vec<char>| w@) =~= before.push(c0));
                assert(before + words_from(s@, i as int, c0) =~= before.push(c0) + words_from(
                    s@,
                    i + 1,
                    Seq::empty(),
                ));
            } else {
                assert(c0 =~= Seq::<char>::empty());
                assert(before + words_from(s@, i as int, c0) =~= before + words_from(
                    s@,
                    i + 1,
                    Seq::empty(),
                ));
            }
        } else {
            let ghost c0 = cur@;
            cur.push(s[i]);
            assert(words_from(s@, i as int, c0) == words_from(s@, i + 1, cur@));
        }
        i = i + 1;
    }
    if cur.len() > 0 {
        let ghost before = out@.map_values(|w: Vec<char>| w@);
        let ghost c0 = cur@;
        out.push(cur);
        assert(out@.map_values(|w: Vec<char>| w@) =~= before + seq![c0]);
    } else {
        assert(out@.map_values(|w: Vec<char>| w@) =~= out@.map_values(|w: Vec<char>| w@) + Seq::<
            Seq<char>,
        >::empty());
    }
    out
}

/// Splits a text into lines.
pub fn split_lines(s: &Vec<char>) -> (r: Vec<Vec<char>>)
    ensures
        r@.map_values(|l: Vec<char>| l@) == lines(s@),
{
    let n = s.len();
    let mut out: Vec<Vec<char>> = Vec::new();
    let mut cur: Vec<char> = Vec::new();
    let mut i: usize = 0;
    while i < n
        invariant
            i <= n,
            n == s@.len(),
            lines(s@) == out@.map_values(|l: Vec<char>| l@) + lines_from(s@, i as int, cur@),
        decreases n - i,
    {
        let ghost before = out@.map_values(|l: Vec<char>| l@);
        if s[i] == '\n' {
            let ghost c0 = cur@;
            let mut line = cur;
            if line.len() > 0 && line[line.len() - 1] == '\r' {
                line.pop();
            }
            assert(line@ == strip_cr(cur@));
            out.push(line);
            cur = Vec::new();
            assert(out@.map_values(|l: Vec<char>| l@) =~= before.push(strip_cr(c0)));
            assert(before + lines_from(s@, i as int, c0) =~= before.push(strip_cr(c0))
                + lines_from(s@, i + 1, Seq::empty()));
        } else {
            cur.push(s[i]);
        }
        i = i + 1;
    }
    if cur.len() > 0 {
        out.push(cur);
    }
    out
}

/// `char::to_digit` for radix 10 or 16.
pub open spec fn digit_value(c: char, radix: int) -> Option<int> {
    let u = c as u32;
    if 48 <= u <= 57 {
        Some(u - 48)
    } else if radix == 16 && 97 <= u <= 102 {
        Some(u - 87)
    } else if radix == 16 && 65 <= u <= 70 {
        Some(u - 55)
    } else {
        None
    }
}

/// The value of a string of digits (all of them valid).
pub open spec fn digits_value(d: Seq<char>, radix: int) -> int
    decreases d.len(),
{
    if d.len() == 0 {
        0
    } else {
        digits_value(d.drop_last(), radix) * radix + digit_value(d.last(), radix)->Some_0
    }
}

/// Whether every character is a digit of the radix.
pub open spec fn all_digits(d: Seq<char>, radix: int) -> bool {
    forall|i: int| 0 <= i < d.len() ==> (#[trigger] digit_value(d[i], radix)) is Some
}

/// `from_str_radix` for an integer type ranging over `lo..=hi`: an
/// optional sign (`-` only when `signed`), then at least one digit; the
/// value must lie in the range.
pub open spec fn std_parse(t: Seq<char>, radix: int, signed: bool, lo: int, hi: int) -> Option<int> {
    if t.len() == 0 {
        None
    } else if (t[0] == '+' || t[0] == '-') && t.len() == 1 {
        None
    } else {
        let neg = signed && t[0] == '-';
        let d = if t[0] == '+' || neg { t.drop_first() } else { t };
        if !all_digits(d, radix) {
            None
        } else {
            let v = if neg { -digits_value(d, radix) } else { digits_value(d, radix) };
            if lo <= v <= hi {
                Some(v)
            } else {
                None
            }
        }
    }
}

proof fn lemma_digits_value_monotone(d: Seq<char>, radix: int, k: int)
    requires
        radix == 10 || radix == 16,
        all_digits(d, radix),
        0 <= k <= d.len(),
    ensures
        0 <= digits_value(d.subrange(0, k), radix) <= digits_value(d, radix),
    decreases d.len() - k,
{
    if k < d.len() {
        lemma_digits_value_monotone(d, radix, k + 1);
        assert(d.subrange(0, k + 1).drop_last() =~= d.subrange(0, k));
        let p = digits_value(d.subrange(0, k), radix);
        lemma_digits_value_nonneg(d.subrange(0, k), radix);
        assert(p * radix >= p) by (nonlinear_arith)
            requires
                p >= 0,
                radix >= 10,
        ;
    } else {
        assert(d.subrange(0, k) =~= d);
        lemma_digits_value_nonneg(d, radix);
    }
}

proof fn lemma_digits_value_nonneg(d: Seq<char>, radix: int)
    requires
        radix == 10 || radix == 16,
        all_digits(d, radix),
    ensures
        digits_value(d, radix) >= 0,
    decreases d.len(),
{
    if d.len() > 0 {
        lemma_digits_value_nonneg(d.drop_last(), radix);
        let p = digits_value(d.drop_last(), radix);
        assert(p * radix >= 0) by (nonlinear_arith)
            requires
                p >= 0,
                radix >= 10,
        ;
        assert(digit_value(d[d.len() - 1], radix) is Some);
    }
}

fn digit_of(c: char, radix: u32) -> (r: Option<u32>)
    requires
        radix == 10 || radix == 16,
    ensures
        match (r, digit_value(c, radix as int)) {
            (Some(x), Some(y)) => x == y && x < radix,
            (None, None) => true,
            _ => false,
        },
{
    let u = c as u32;
    if 48 <= u && u <= 57 {
        Some(u - 48)
    } else if radix == 16 && 97 <= u && u <= 102 {
        Some(u - 87)
    } else if radix == 16 && 65 <= u && u <= 70 {
        Some(u - 55)
    } else {
        None
    }
}

/// The value above which every digit string is out of any range we parse.
pub const PARSE_CAP: u128 = 0x1_0000_0000_0000_0000;

/// The value of the digits `t[start..]`, capped at `PARSE_CAP`; `None`
/// when one of them is not a digit of the radix.
fn digits_capped(t: &Vec<char>, start: usize, radix: u32) -> (r: Option<u128>)
    requires
        start <= t@.len(),
        radix == 10 || radix == 16,
    ensures
        ({
            let d = t@.subrange(start as int, t@.len() as int);
            match r {
                None => !all_digits(d, radix as int),
                Some(acc) => all_digits(d, radix as int) && acc <= PARSE_CAP && (acc
                    == digits_value(d, radix as int) || (acc == PARSE_CAP && digits_value(
                    d,
                    radix as int,
                ) >= PARSE_CAP)),
            }
        }),
{
    let n = t.len();
    let ghost d = t@.subrange(start as int, n as int);
    let mut acc: u128 = 0;
    let mut k = start;
    while k < n
        invariant
            start <= k <= n,
            n == t@.len(),
            d == t@.subrange(start as int, n as int),
            radix == 10 || radix == 16,
            all_digits(t@.subrange(start as int, k as int), radix as int),
            acc <= PARSE_CAP,
            acc == digits_value(t@.subrange(start as int, k as int), radix as int) || (acc
                == PARSE_CAP && digits_value(t@.subrange(start as int, k as int), radix as int)
                >= PARSE_CAP),
        decreases n - k,
    {
        let ghost pre = t@.subrange(start as int, k as int);
        let ghost nxt = t@.subrange(start as int, k + 1);
        assert(nxt.drop_last() =~= pre);
        match digit_of(t[k], radix) {
            None => {
                assert(!all_digits(d, radix as int)) by {
                    assert(d[k - start] == t@[k as int]);
                }
                return None;
            },
            Some(dg) => {
                assert(all_digits(nxt, radix as int)) by {
                    assert forall|i: int| 0 <= i < nxt.len() implies (#[trigger] digit_value(
                        nxt[i],
                        radix as int,
                    )) is Some by {
                        if i < pre.len() {
                            assert(nxt[i] == pre[i]);
                        }
                    }
                }
                proof {
                    lemma_digits_value_nonneg(pre, radix as int);
                }
                if acc < PARSE_CAP {
                    assert(acc * (radix as u128) + (dg as u128) < 0x1_0000_0000_0000_0000_0000_0000) by (nonlinear_arith)
                        requires
                            acc < 0x1_0000_0000_0000_0000u128,
                            radix <= 16,
                            dg < 16,
                    ;
                    let v: u128 = acc * (radix as u128) + (dg as u128);
                    assert(v == digits_value(nxt, radix as int));
                    acc = if v > PARSE_CAP { PARSE_CAP } else { v };
                } else {
                    proof {
                        let p = digits_value(pre, radix as int);
                        assert(p * radix >= p) by (nonlinear_arith)
                            requires
                                p >= 0,
                                radix >= 10,
                        ;
                    }
                }
            },
        }
        k = k + 1;
    }
    assert(t@.subrange(start as int, k as int) =~= d);
    Some(acc)
}

/// Parses digits with optional sign as `from_str_radix` does; the result
/// is `std_parse` (for `i64` when `signed`, for `u8` otherwise).
fn parse_radix(t: &Vec<char>, from: usize, radix: u32, signed: bool) -> (r: Option<i64>)
    requires
        from <= t@.len(),
        radix == 10 || radix == 16,
    ensures
        ({
            let lo: int = if signed { i64::MIN as int } else { 0 };
            let hi: int = if signed { i64::MAX as int } else { 255 };
            match (r, std_parse(t@.subrange(from as int, t@.len() as int), radix as int, signed, lo, hi)) {
                (Some(x), Some(y)) => x == y,
                (None, None) => true,
                _ => false,
            }
        }),
{
    let ghost s = t@.subrange(from as int, t@.len() as int);
    let n = t.len();
    if from == n {
        return None;
    }
    let c0 = t[from];
    if (c0 == '+' || c0 == '-') && n - from == 1 {
        return None;
    }
    let neg = signed && c0 == '-';
    let start = if c0 == '+' || neg { from + 1 } else { from };
    assert(t@.subrange(start as int, n as int) =~= if s[0] == '+' || neg { s.drop_first() } else { s });
    let acc = match digits_capped(t, start, radix) {
        None => return None,
        Some(acc) => acc,
    };
    if neg {
        if acc > 0x8000_0000_0000_0000u128 {
            None
        } else {
            Some((-(acc as i128)) as i64)
        }
    } else {
        let hi: u128 = if signed { 0x7fff_ffff_ffff_ffffu128 } else { 255u128 };
        if acc > hi {
            None
        } else {
            Some(acc as i64)
        }
    }
}

/// Parses an unsigned decimal integer no greater than `hi`, as
/// `str::parse` does for an unsigned type whose maximum is `hi`.
pub fn parse_unsigned(t: &Vec<char>, hi: u64) -> (r: Option<u64>)
    ensures
        match (r, std_parse(t@, 10, false, 0, hi as int)) {
            (Some(x), Some(y)) => x == y,
            (None, None) => true,
            _ => false,
        },
{
    let n = t.len();
    if n == 0 {
        return None;
    }
    let c0 = t[0];
    if (c0 == '+' || c0 == '-') && n == 1 {
        return None;
    }
    let start: usize = if c0 == '+' { 1 } else { 0 };
    assert(t@.subrange(start as int, n as int) =~= if t@[0] == '+' { t@.drop_first() } else { t@ });
    let acc = match digits_capped(t, start, 10) {
        None => return None,
        Some(acc) => acc,
    };
    if acc > hi as u128 {
        None
    } else {
        Some(acc as u64)
    }
}

/// The character a character literal's inside denotes: one character, or
/// a backslash and one of `n t 0 \ '`.
pub open spec fn char_literal(c: Seq<char>) -> Option<char> {
    if c.len() == 1 && c[0] != '\\' {
        Some(c[0])
    } else if c.len() == 2 && c[0] == '\\' {
        if c[1] == 'n' {
            Some('\n')
        } else if c[1] == 't' {
            Some('\t')
        } else if c[1] == '0' {
            Some('\0')
        } else if c[1] == '\\' {
            Some('\\')
        } else if c[1] == '\'' {
            Some('\'')
        } else {
            None
        }
    } else {
        None
    }
}

/// An assembler integer: a character literal `'c'`, or an optional `-`
/// before a decimal or `0x` hexadecimal `i64` (which may carry its own
/// sign). The outer `-` negates with wrap-around.
pub open spec fn parse_int(s: Seq<char>) -> Option<i64> {
    if s.len() >= 2 && s[0] == '\'' && s.last() == '\'' {
        match char_literal(s.subrange(1, s.len() - 1)) {
            Some(ch) => Some((ch as u32) as i64),
            None => None,
        }
    } else {
        let neg = s.len() > 0 && s[0] == '-';
        let t = if neg { s.drop_first() } else { s };
        let v = if t.len() >= 2 && t[0] == '0' && t[1] == 'x' {
            std_parse(t.subrange(2, t.len() as int), 16, true, i64::MIN as int, i64::MAX as int)
        } else {
            std_parse(t, 10, true, i64::MIN as int, i64::MAX as int)
        };
        match v {
            Some(x) => Some(
                if neg {
                    vstd::wrapping::i64_specs::wrapping_sub(0, x as i64)
                } else {
                    x as i64
                },
            ),
            None => None,
        }
    }
}

/// A register operand `rN`, `N` a `u8` below 16.
pub open spec fn parse_reg(s: Seq<char>) -> Option<u8> {
    if s.len() > 0 && s[0] == 'r' {
        match std_parse(s.drop_first(), 10, false, 0, 255) {
            Some(n) => if n < 16 {
                Some(n as u8)
            } else {
                None
            },
            None => None,
        }
    } else {
        None
    }
}

/// Parses an assembler integer.
pub fn parse_int_chars(s: &Vec<char>) -> (r: Option<i64>)
    ensures
        r == parse_int(s@),
{
    let n = s.len();
    if n >= 2 && s[0] == '\'' && s[n - 1] == '\'' {
        let c = slice_chars(s, 1, n - 1);
        let ch: Option<char> = if c.len() == 1 && c[0] != '\\' {
            Some(c[0])
        } else if c.len() == 2 && c[0] == '\\' {
            if c[1] == 'n' {
                Some('\n')
            } else if c[1] == 't' {
                Some('\t')
            } else if c[1] == '0' {
                Some('\0')
            } else if c[1] == '\\' {
                Some('\\')
            } else if c[1] == '\'' {
                Some('\'')
            } else {
                None
            }
        } else {
            None
        };
        assert(ch == char_literal(c@));
        return match ch {
            Some(x) => Some((x as u32) as i64),
            None => None,
        };
    }
    let neg = n > 0 && s[0] == '-';
    let t = if neg { slice_chars(s, 1, n) } else { slice_chars(s, 0, n) };
    assert(t@ =~= if neg { s@.drop_first() } else { s@ });
    let v = if t.len() >= 2 && t[0] == '0' && t[1] == 'x' {
        parse_radix(&t, 2, 16, true)
    } else {
        assert(t@.subrange(0, t@.len() as int) =~= t@);
        parse_radix(&t, 0, 10, true)
    };
    match v {
        Some(x) => Some(if neg { 0i64.wrapping_sub(x) } else { x }),
        None => None,
    }
}

/// Parses a register operand.
pub fn parse_reg_chars(s: &Vec<char>) -> (r: Option<u8>)
    ensures
        r == parse_reg(s@),
{
    if s.len() > 0 && s[0] == 'r' {
        assert(s@.subrange(1, s@.len() as int) =~= s@.drop_first());
        match parse_radix(s, 1, 10, false) {
            Some(n) => if n < 16 {
                Some(n as u8)
            } else {
                None
            },
            None => None,
        }
    } else {
        None
    }
}

/// `split_operands` from position `i`: `parts` finished so far, `cur` the
/// operand being read, `q` the open quote. Commas outside quotes separate
/// operands; each is trimmed; a trailing operand that trims to nothing is
/// dropped.
pub open spec fn operands_from(
    s: Seq<char>,
    i: int,
    parts: Seq<Seq<char>>,
    cur: Seq<char>,
    q: Option<char>,
) -> Seq<Seq<char>>
    decreases s.len() - i,
{
    if i >= s.len() || i < 0 {
        if trim(cur).len() > 0 {
            parts.push(trim(cur))
        } else {
            parts
        }
    } else {
        let c = s[i];
        match q {
            Some(qc) => operands_from(s, i + 1, parts, cur.push(c), if c == qc { None } else { q }),
            None => if c == '"' || c == '\'' {
                operands_from(s, i + 1, parts, cur.push(c), Some(c))
            } else if c == ',' {
                operands_from(s, i + 1, parts.push(trim(cur)), Seq::empty(), None)
            } else {
                operands_from(s, i + 1, parts, cur.push(c), None)
            },
        }
    }
}

/// The operands of an instruction: `a, b, c` split at commas outside
/// quotes, each trimmed.
pub open spec fn split_operands(s: Seq<char>) -> Seq<Seq<char>> {
    operands_from(s, 0, Seq::empty(), Seq::empty(), None)
}

/// Splits an operand list.
pub fn split_operands_chars(s: &Vec<char>) -> (r: Vec<Vec<char>>)
    ensures
        r@.map_values(|p: Vec<char>| p@) == split_operands(s@),
{
    let n = s.len();
    let mut parts: Vec<Vec<char>> = Vec::new();
    let mut cur: Vec<char> = Vec::new();
    let mut q: Option<char> = None;
    let mut i: usize = 0;
    assert(parts@.map_values(|p: Vec<char>| p@) =~= Seq::<Seq<char>>::empty());
    while i < n
        invariant
            i <= n,
            n == s@.len(),
            split_operands(s@) == operands_from(
                s@,
                i as int,
                parts@.map_values(|p: Vec<char>| p@),
                cur@,
                q,
            ),
        decreases n - i,
    {
        let c = s[i];
        let ghost before = parts@.map_values(|p: Vec<char>| p@);
        match q {
            Some(qc) => {
                cur.push(c);
                if c == qc {
                    q = None;
                }
            },
            None => {
                if c == '"' || c == '\'' {
                    q = Some(c);
                    cur.push(c);
                } else if c == ',' {
                    let t = trim_chars(&cur);
                    parts.push(t);
                    cur = Vec::new();
                    assert(parts@.map_values(|p: Vec<char>| p@) =~= before.push(t@));
                } else {
                    cur.push(c);
                }
            },
        }
        i = i + 1;
    }
    let t = trim_chars(&cur);
    if t.len() > 0 {
        let ghost before = parts@.map_values(|p: Vec<char>| p@);
        parts.push(t);
        assert(parts@.map_values(|p: Vec<char>| p@) =~= before.push(t@));
    }
    parts
}

/// `str::to_ascii_lowercase`.
pub open spec fn ascii_lower(s: Seq<char>) -> Seq<char> {
    s.map_values(
        |c: char|
            if 65 <= (c as u32) <= 90 {
                ((c as u32) + 32) as char
            } else {
                c
            },
    )
}

/// Lower-cases the ASCII letters.
pub fn ascii_lower_chars(s: &Vec<char>) -> (r: Vec<char>)
    ensures
        r@ == ascii_lower(s@),
{
    let mut r: Vec<char> = Vec::new();
    let mut k: usize = 0;
    while k < s.len()
        invariant
            k <= s@.len(),
            r@ == ascii_lower(s@.subrange(0, k as int)),
        decreases s@.len() - k,
    {
        let c = s[k];
        let u = c as u32;
        let l: char = if 65 <= u && u <= 90 {
            let x: u8 = (u + 32) as u8;
            x as char
        } else {
            c
        };
        r.push(l);
        k = k + 1;
        assert(r@ =~= ascii_lower(s@.subrange(0, k as int)));
    }
    assert(s@.subrange(0, k as int) =~= s@);
    r
}

/// Whether the characters `s` spell the string `t`.
pub fn chars_eq(s: &Vec<char>, t: &str) -> (r: bool)
    ensures
        r == (s@ == t@),
{
    let tv = crate::text::chars_of(t);
    if s.len() != tv.len() {
        return false;
    }
    let mut k: usize = 0;
    while k < s.len()
        invariant
            k <= s@.len(),
            s@.len() == tv@.len(),
            tv@ == t@,
            forall|j: int| 0 <= j < k ==> s@[j] == tv@[j],
        decreases s@.len() - k,
    {
        if s[k] != tv[k] {
            return false;
        }
        k = k + 1;
    }
    assert(s@ =~= tv@);
    true
}

/// Whether `s` begins with the string `t`.
pub fn starts_with(s: &Vec<char>, t: &str) -> (r: bool)
    ensures
        r == (t@.len() <= s@.len() && s@.subrange(0, t@.len() as int) == t@),
{
    let tv = crate::text::chars_of(t);
    if tv.len() > s.len() {
        return false;
    }
    let mut k: usize = 0;
    while k < tv.len()
        invariant
            k <= tv@.len() <= s@.len(),
            tv@ == t@,
            forall|j: int| 0 <= j < k ==> s@[j] == tv@[j],
        decreases tv@.len() - k,
    {
        if s[k] != tv[k] {
            assert(s@.subrange(0, tv@.len() as int)[k as int] != tv@[k as int]);
            return false;
        }
        k = k + 1;
    }
    assert(s@.subrange(0, tv@.len() as int) =~= tv@);
    true
}

/// The UTF-8 bytes of a character.
pub fn push_utf8(out: &mut Vec<u8>, c: char)
    ensures
        final(out)@ == old(out)@ + vstd::utf8::encode_scalar(c as u32),
{
    let u = c as u32;
    if u <= 0x7F {
        out.push((u & 0x7F) as u8);
    } else if u <= 0x7FF {
        out.push(0xC0 | ((u >> 6u32) & 0x1F) as u8);
        out.push(0x80 | (u & 0x3F) as u8);
    } else if u <= 0xFFFF {
        out.push(0xE0 | ((u >> 12u32) & 0x0F) as u8);
        out.push(0x80 | ((u >> 6u32) & 0x3F) as u8);
        out.push(0x80 | (u & 0x3F) as u8);
    } else {
        out.push(0xF0 | ((u >> 18u32) & 0x7) as u8);
        out.push(0x80 | ((u >> 12u32) & 0x3F) as u8);
        out.push(0x80 | ((u >> 6u32) & 0x3F) as u8);
        out.push(0x80 | (u & 0x3F) as u8);
    }
    assert(final(out)@ =~= old(out)@ + vstd::utf8::encode_scalar(c as u32));
}

/// The bytes of a string literal's inside from position `i` on, after the
/// bytes `acc` already produced: characters as UTF-8, escapes `\n \t \0 \\
/// \"` and `\xNN`; or the message for a bad escape.
pub open spec fn unescape_from(s: Seq<char>, i: int, acc: Seq<u8>) -> Result<Seq<u8>, Seq<char>>
    decreases s.len() - i,
{
    if i >= s.len() || i < 0 {
        Ok(acc)
    } else if s[i] != '\\' {
        unescape_from(s, i + 1, acc + vstd::utf8::encode_scalar(s[i] as u32))
    } else if i + 1 >= s.len() {
        Err("bad escape \\ "@)
    } else {
        let e = s[i + 1];
        if e == 'n' {
            unescape_from(s, i + 2, acc.push(10))
        } else if e == 't' {
            unescape_from(s, i + 2, acc.push(9))
        } else if e == '0' {
            unescape_from(s, i + 2, acc.push(0))
        } else if e == '\\' {
            unescape_from(s, i + 2, acc.push(92))
        } else if e == '"' {
            unescape_from(s, i + 2, acc.push(34))
        } else if e == 'x' {
            let hi = if i + 2 < s.len() { digit_value(s[i + 2], 16) } else { None };
            let lo = if i + 3 < s.len() { digit_value(s[i + 3], 16) } else { None };
            match (hi, lo) {
                (Some(h), Some(l)) => unescape_from(s, i + 4, acc.push((h * 16 + l) as u8)),
                _ => Err("bad \\x escape"@),
            }
        } else {
            Err("bad escape \\"@ + seq![e])
        }
    }
}

/// The bytes a string literal's inside stands for.
pub open spec fn unescape(s: Seq<char>) -> Result<Seq<u8>, Seq<char>> {
    unescape_from(s, 0, Seq::empty())
}

/// Decodes a string literal's inside; the error is the message.
pub fn unescape_chars(s: &Vec<char>) -> (r: Result<Vec<u8>, Vec<char>>)
    ensures
        match (r, unescape(s@)) {
            (Ok(x), Ok(y)) => x@ == y,
            (Err(x), Err(y)) => x@ == y,
            _ => false,
        },
{
    let n = s.len();
    let mut out: Vec<u8> = Vec::new();
    let mut i: usize = 0;
    while i < n
        invariant
            i <= n + 1,
            n == s@.len(),
            unescape(s@) == unescape_from(s@, i as int, out@),
        decreases n + 1 - i,
    {
        let c = s[i];
        if c != '\\' {
            push_utf8(&mut out, c);
            i = i + 1;
        } else if i + 1 >= n {
            let mut m: Vec<char> = Vec::new();
            crate::text::push_str(&mut m, "bad escape \\ ");
            return Err(m);
        } else {
            let e = s[i + 1];
            if e == 'n' {
                out.push(10);
                i = i + 2;
            } else if e == 't' {
                out.push(9);
                i = i + 2;
            } else if e == '0' {
                out.push(0);
                i = i + 2;
            } else if e == '\\' {
                out.push(92);
                i = i + 2;
            } else if e == '"' {
                out.push(34);
                i = i + 2;
            } else if e == 'x' {
                let hi = if n - i > 2 { digit_of(s[i + 2], 16) } else { None };
                let lo = if n - i > 3 { digit_of(s[i + 3], 16) } else { None };
                match (hi, lo) {
                    (Some(h), Some(l)) => {
                        out.push((h * 16 + l) as u8);
                        i = i + 4;
                    },
                    _ => {
                        let mut m: Vec<char> = Vec::new();
                        crate::text::push_str(&mut m, "bad \\x escape");
                        return Err(m);
                    },
                }
            } else {
                let mut m: Vec<char> = Vec::new();
                crate::text::push_str(&mut m, "bad escape \\");
                m.push(e);
                return Err(m);
            }
        }
    }
    Ok(out)
}

/// Whether two character strings are equal.
pub fn chars_eq_chars(s: &Vec<char>, t: &Vec<char>) -> (r: bool)
    ensures
        r == (s@ == t@),
{
    if s.len() != t.len() {
        return false;
    }
    let mut k: usize = 0;
    while k < s.len()
        invariant
            k <= s@.len(),
            s@.len() == t@.len(),
            forall|j: int| 0 <= j < k ==> s@[j] == t@[j],
        decreases s@.len() - k,
    {
        if s[k] != t[k] {
            return false;
        }
        k = k + 1;
    }
    assert(s@ =~= t@);
    true
}

/// A hexadecimal digit is worth as much in upper case as in lower case.
proof fn lemma_hex_digit_case(c: char)
    ensures
        digit_value(c, 16) == digit_value(ascii_lower(seq![c])[0], 16),
{
    let u = c as u32;
    if 65 <= u <= 90 {
        let l = ((u + 32) as u32) as char;
        assert(ascii_lower(seq![c])[0] == l);
        assert(l as u32 == u + 32);
    } else {
        assert(ascii_lower(seq![c])[0] == c);
    }
}

proof fn lemma_hex_digits_case(d: Seq<char>)
    ensures
        all_digits(d, 16) == all_digits(ascii_lower(d), 16),
        all_digits(d, 16) ==> digits_value(d, 16) == digits_value(ascii_lower(d), 16),
    decreases d.len(),
{
    let l = ascii_lower(d);
    assert forall|k: int| 0 <= k < d.len() implies #[trigger] digit_value(d[k], 16) == digit_value(
        l[k],
        16,
    ) by {
        lemma_hex_digit_case(d[k]);
        assert(ascii_lower(seq![d[k]])[0] == l[k]);
    }
    if all_digits(d, 16) {
        assert(all_digits(l, 16)) by {
            assert forall|k: int| 0 <= k < l.len() implies (#[trigger] digit_value(l[k], 16)) is Some by {
                assert(digit_value(d[k], 16) == digit_value(l[k], 16));
            }
        }
    }
    if all_digits(l, 16) {
        assert(all_digits(d, 16)) by {
            assert forall|k: int| 0 <= k < d.len() implies (#[trigger] digit_value(d[k], 16)) is Some by {
                assert(digit_value(d[k], 16) == digit_value(l[k], 16));
            }
        }
    }
    if d.len() > 0 && all_digits(d, 16) {
        let init = d.drop_last();
        assert(ascii_lower(init) =~= l.drop_last());
        assert(all_digits(init, 16)) by {
            assert forall|k: int| 0 <= k < init.len() implies (#[trigger] digit_value(init[k], 16)) is Some by {
                assert(init[k] == d[k]);
            }
        }
        lemma_hex_digits_case(init);
        assert(digit_value(d.last(), 16) == digit_value(l.last(), 16)) by {
            assert(digit_value(d[d.len() - 1], 16) == digit_value(l[l.len() - 1], 16));
        }
    }
}

/// Hexadecimal immediates do not depend on the case of their digits:
/// `0x` and digits read the same as `0x` and the digits in lower case.
pub proof fn lemma_hex_case_free(h: Seq<char>)
    ensures
        parse_int(seq!['0', 'x'] + h) == parse_int(seq!['0', 'x'] + ascii_lower(h)),
{
    let s1 = seq!['0', 'x'] + h;
    let s2 = seq!['0', 'x'] + ascii_lower(h);
    assert(s1.subrange(2, s1.len() as int) =~= h);
    assert(s2.subrange(2, s2.len() as int) =~= ascii_lower(h));
    if h.len() > 0 {
        assert(ascii_lower(h)[0] == h[0] || (65 <= (h[0] as u32) <= 90));
        lemma_hex_digits_case(h);
        lemma_hex_digits_case(h.drop_first());
        assert(ascii_lower(h.drop_first()) =~= ascii_lower(h).drop_first());
    }
}

/// The hexadecimal digits are worth 0 to 15: `0` to `9` their own value,
/// and `a` to `f` and `A` to `F` ten to fifteen.
pub proof fn lemma_hex_digit_worth(c: char)
    requires
        48 <= c as u32 <= 57 || 97 <= c as u32 <= 102 || 65 <= c as u32 <= 70,
    ensures
        48 <= c as u32 <= 57 ==> parse_int(seq!['0', 'x', c]) == Some((c as u32 - '0' as u32) as i64),
        97 <= c as u32 <= 102 ==> parse_int(seq!['0', 'x', c]) == Some(
            (10 + c as u32 - 'a' as u32) as i64,
        ),
        65 <= c as u32 <= 70 ==> parse_int(seq!['0', 'x', c]) == Some(
            (10 + c as u32 - 'A' as u32) as i64,
        ),
{
    let s = seq!['0', 'x', c];
    let d = s.subrange(2, 3);
    assert(d =~= seq![c]);
    assert(d.drop_last() =~= Seq::<char>::empty());
    assert(d.last() == c);
    assert(all_digits(d, 16));
    let u = c as u32;
    let val: int = if 48 <= u <= 57 { u - 48 } else if 97 <= u <= 102 { u - 87 } else { u - 55 };
    assert(digit_value(c, 16) == Some(val));
    assert(digits_value(d, 16) == digits_value(Seq::<char>::empty(), 16) * 16 + val);
    assert(digits_value(d, 16) == val);
    assert(std_parse(d, 16, true, i64::MIN as int, i64::MAX as int) == Some(val));
    assert('0' as u32 == 48);
    assert('a' as u32 == 97);
    assert('A' as u32 == 65);
}

/// Hexadecimal immediates are read in base 16: one more digit multiplies
/// what the others are worth by sixteen and adds its own worth, while the
/// value fits in an `i64`.
pub proof fn lemma_hex_place_value(h: Seq<char>, c: char, v: i64, w: i64)
    requires
        h.len() > 0,
        h[0] != '+' && h[0] != '-',
        parse_int(seq!['0', 'x'] + h) == Some(v),
        parse_int(seq!['0', 'x', c]) == Some(w),
        16 * v + w <= i64::MAX,
    ensures
        parse_int(seq!['0', 'x'] + h.push(c)) == Some((16 * v + w) as i64),
{
    let s1 = seq!['0', 'x'] + h;
    let s2 = seq!['0', 'x'] + h.push(c);
    let s3 = seq!['0', 'x', c];
    assert(s1.subrange(2, s1.len() as int) =~= h);
    assert(s2.subrange(2, s2.len() as int) =~= h.push(c));
    assert(s3.subrange(2, 3) =~= seq![c]);
    assert(seq![c].drop_last() =~= Seq::<char>::empty());
    let hc = h.push(c);
    assert(hc.drop_last() =~= h);
    assert(hc.last() == c);
    assert(all_digits(hc, 16)) by {
        assert forall|k: int| 0 <= k < hc.len() implies (#[trigger] digit_value(hc[k], 16)) is Some by {
            if k < h.len() {
                assert(hc[k] == h[k]);
            } else {
                assert(seq![c][0] == c);
            }
        }
    }
    lemma_digits_value_nonneg(h, 16);
    assert(std_parse(h, 16, true, i64::MIN as int, i64::MAX as int) == Some(v as int));
    assert(digits_value(h, 16) == v);
    assert(digit_value(c, 16) == Some(w as int)) by {
        let one = seq![c];
        assert(std_parse(one, 16, true, i64::MIN as int, i64::MAX as int) == Some(w as int));
        assert(one[0] == c);
        assert(c != '-' && c != '+');
        assert(all_digits(one, 16));
        assert(digit_value(one[0], 16) is Some);
        assert(one.drop_last() =~= Seq::<char>::empty());
        assert(one.last() == c);
        assert(digits_value(one, 16) == digits_value(Seq::<char>::empty(), 16) * 16 + digit_value(
            c,
            16,
        )->Some_0);
    }
    assert(digits_value(hc, 16) == 16 * v + w);
    assert(hc[0] == h[0]);
}

/// A `\\x` escape stands for the byte its two hexadecimal digits are worth
/// as an immediate: `\\xHL` is the byte `0xHL`.
pub proof fn lemma_hex_escape(hi: char, lo: char)
    requires
        parse_int(seq!['0', 'x', hi]) is Some,
        parse_int(seq!['0', 'x', lo]) is Some,
    ensures
        parse_int(seq!['0', 'x', hi, lo]) is Some,
        unescape(seq!['\\', 'x', hi, lo]) == Ok::<Seq<u8>, Seq<char>>(
            seq![(parse_int(seq!['0', 'x', hi, lo])->Some_0) as u8],
        ),
{
    let one_h = seq!['0', 'x', hi];
    let one_l = seq!['0', 'x', lo];
    assert(one_h.subrange(2, 3) =~= seq![hi]);
    assert(one_l.subrange(2, 3) =~= seq![lo]);
    assert(seq![hi][0] == hi);
    assert(seq![lo][0] == lo);
    assert(hi != '+' && hi != '-');
    assert(lo != '+' && lo != '-');
    assert(digit_value(hi, 16) is Some) by {
        assert(all_digits(seq![hi], 16));
    }
    assert(digit_value(lo, 16) is Some) by {
        assert(all_digits(seq![lo], 16));
    }
    let h = digit_value(hi, 16)->Some_0;
    let l = digit_value(lo, 16)->Some_0;
    let two = seq![hi, lo];
    let s2 = seq!['0', 'x', hi, lo];
    assert(s2.subrange(2, 4) =~= two);
    assert(two.drop_last() =~= seq![hi]);
    assert(seq![hi].drop_last() =~= Seq::<char>::empty());
    assert(all_digits(two, 16)) by {
        assert forall|k: int| 0 <= k < two.len() implies (#[trigger] digit_value(two[k], 16)) is Some by {}
    }
    assert(seq![hi].last() == hi);
    assert(digits_value(seq![hi], 16) == digits_value(Seq::<char>::empty(), 16) * 16 + h);
    assert(digits_value(seq![hi], 16) == h);
    assert(two.last() == lo);
    assert(digits_value(two, 16) == digits_value(seq![hi], 16) * 16 + l);
    assert(digits_value(two, 16) == h * 16 + l);
    assert(0 <= h < 16 && 0 <= l < 16);
    assert(parse_int(s2) == Some((h * 16 + l) as i64));
    let e = seq!['\\', 'x', hi, lo];
    assert(unescape_from(e, 4, Seq::empty().push((h * 16 + l) as u8)) == Ok::<Seq<u8>, Seq<char>>(
        seq![(h * 16 + l) as u8],
    )) by {
        assert(Seq::<u8>::empty().push((h * 16 + l) as u8) =~= seq![(h * 16 + l) as u8]);
    }
}

} // verus!
