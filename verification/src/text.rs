//! Character-level helpers shared by the parsers and name builders.
use vstd::prelude::*;
use vstd::string::StrSliceExecFns;

verus! {

/// `String::push` appends one character to the end of the string.
pub assume_specification[ String::push ](s: &mut String, ch: char)
    ensures
        final(s)@ == old(s)@.push(ch),
;

// ---------------------------------------------------------------------------
// Digits and decimal numbers
// ---------------------------------------------------------------------------

/// An ASCII decimal digit.
pub open spec fn is_digit(c: char) -> bool {
    '0' <= c && c <= '9'
}

/// The numeric value of an ASCII digit.
pub open spec fn digit_value(c: char) -> nat {
    (c as int - '0' as int) as nat
}

/// The character that writes the single digit `d`.
pub open spec fn digit_char(d: nat) -> char {
    (d + 48) as char
}

/// Every character of `s` is an ASCII digit.
pub open spec fn all_digits(s: Seq<char>) -> bool {
    forall|i: int| 0 <= i < s.len() ==> is_digit(#[trigger] s[i])
}

/// The value of a string of decimal digits, most significant first.
pub open spec fn digits_value(s: Seq<char>) -> nat
    decreases s.len(),
{
    if s.len() == 0 {
        0
    } else {
        digits_value(s.drop_last()) * 10 + digit_value(s.last())
    }
}

/// The shortest decimal spelling of `n` (`"0"` for zero).
pub open spec fn decimal(n: nat) -> Seq<char>
    decreases n,
{
    if n < 10 {
        seq![digit_char(n)]
    } else {
        decimal(n / 10).push(digit_char(n % 10))
    }
}

/// `s` padded on the left with `'0'` up to `width` characters.
pub open spec fn zero_padded(s: Seq<char>, width: nat) -> Seq<char> {
    if s.len() < width {
        Seq::new((width - s.len()) as nat, |i: int| '0') + s
    } else {
        s
    }
}

/// Exec test for an ASCII digit.
pub fn is_ascii_digit(c: char) -> (b: bool)
    ensures
        b == is_digit(c),
{
    '0' <= c && c <= '9'
}

proof fn lemma_digits_value_monotone(s: Seq<char>, c: char)
    requires
        is_digit(c),
    ensures
        digits_value(s.push(c)) == digits_value(s) * 10 + digit_value(c),
        digits_value(s.push(c)) >= digits_value(s),
{
    assert(s.push(c).drop_last() =~= s);
}

/// The value of the digits `v[lo..hi]` when it is at most `max`, `None` when it
/// is larger.
pub fn parse_digit_run(v: &Vec<char>, lo: usize, hi: usize, max: u64) -> (r: Option<u64>)
    requires
        lo <= hi <= v@.len(),
        all_digits(v@.subrange(lo as int, hi as int)),
    ensures
        r == (if digits_value(v@.subrange(lo as int, hi as int)) <= max {
            Some(digits_value(v@.subrange(lo as int, hi as int)) as u64)
        } else {
            None::<u64>
        }),
{
    let mut acc: u64 = 0;
    let mut over = false;
    let mut i = lo;
    while i < hi
        invariant
            lo <= i <= hi <= v@.len(),
            all_digits(v@.subrange(lo as int, hi as int)),
            !over ==> acc as nat == digits_value(v@.subrange(lo as int, i as int)),
            !over ==> acc <= max,
            over ==> digits_value(v@.subrange(lo as int, i as int)) > max,
        decreases hi - i,
    {
        let c = v[i];
        assert(v@.subrange(lo as int, hi as int)[i - lo] == c);
        assert(v@.subrange(lo as int, i + 1) =~= v@.subrange(lo as int, i as int).push(c));
        proof {
            lemma_digits_value_monotone(v@.subrange(lo as int, i as int), c);
        }
        if !over {
            let d = (c as u32 - '0' as u32) as u64;
            if acc > max / 10 {
                over = true;
                assert(acc * 10 + d > max) by (nonlinear_arith)
                    requires acc > max / 10;
            } else {
                assert(acc * 10 <= max) by (nonlinear_arith)
                    requires acc <= max / 10;
                let t = acc * 10;
                if d > max - t {
                    over = true;
                } else {
                    acc = t + d;
                }
            }
        }
        i = i + 1;
    }
    if over {
        None
    } else {
        Some(acc)
    }
}

/// Appends the decimal spelling of `n`.
pub fn push_decimal(out: &mut Vec<char>, n: u64)
    ensures
        final(out)@ == old(out)@ + decimal(n as nat),
    decreases n,
{
    if n >= 10 {
        push_decimal(out, n / 10);
    }
    let d = (n % 10) as u8;
    let c = (48u8 + d) as char;
    out.push(c);
    assert(final(out)@ =~= old(out)@ + decimal(n as nat));
}

/// The lower-case hexadecimal digit for `d < 16`.
pub open spec fn hex_digit(d: nat) -> char {
    if d < 10 {
        (d + 48) as char
    } else {
        (d + 87) as char
    }
}

/// The shortest lower-case hexadecimal spelling of `n` (the `{:x}` format).
pub open spec fn hex_lower(n: nat) -> Seq<char>
    decreases n,
{
    if n < 16 {
        seq![hex_digit(n)]
    } else {
        hex_lower(n / 16).push(hex_digit(n % 16))
    }
}

/// Appends the lower-case hexadecimal spelling of `n`.
pub fn push_hex(out: &mut Vec<char>, n: u64)
    ensures
        final(out)@ == old(out)@ + hex_lower(n as nat),
    decreases n,
{
    if n >= 16 {
        push_hex(out, n / 16);
    }
    let d = (n % 16) as u8;
    let c = if d < 10 {
        (48u8 + d) as char
    } else {
        (87u8 + d) as char
    };
    out.push(c);
    assert(final(out)@ =~= old(out)@ + hex_lower(n as nat));
}

/// Appends the decimal spelling of `n`, padded with zeros up to `width`
/// characters (the `{:0width$}` format).
pub fn push_zero_padded(out: &mut Vec<char>, n: u64, width: usize)
    ensures
        final(out)@ == old(out)@ + zero_padded(decimal(n as nat), width as nat),
{
    let mut digits: Vec<char> = Vec::new();
    push_decimal(&mut digits, n);
    assert(digits@ =~= decimal(n as nat));
    let ghost start = out@;
    if digits.len() < width {
        let pad = width - digits.len();
        let mut k: usize = 0;
        while k < pad
            invariant
                k <= pad,
                out@ =~= start + Seq::new(k as nat, |i: int| '0'),
            decreases pad - k,
        {
            out.push('0');
            k = k + 1;
        }
    }
    let mut j: usize = 0;
    let ghost mid = out@;
    while j < digits.len()
        invariant
            j <= digits@.len(),
            out@ =~= mid + digits@.subrange(0, j as int),
        decreases digits.len() - j,
    {
        out.push(digits[j]);
        j = j + 1;
    }
    assert(digits@.subrange(0, digits@.len() as int) =~= digits@);
}

// ---------------------------------------------------------------------------
// Case and whitespace
// ---------------------------------------------------------------------------

/// ASCII lower-casing of one character (`char::to_ascii_lowercase`).
pub open spec fn ascii_lower(c: char) -> char {
    if 'A' <= c && c <= 'Z' {
        (c as int + 32) as char
    } else {
        c
    }
}

/// ASCII upper-casing of one character (`char::to_ascii_uppercase`).
pub open spec fn ascii_upper(c: char) -> char {
    if 'a' <= c && c <= 'z' {
        (c as int - 32) as char
    } else {
        c
    }
}

/// ASCII lower-casing of a string.
pub open spec fn lower_seq(s: Seq<char>) -> Seq<char> {
    s.map_values(|c: char| ascii_lower(c))
}

/// ASCII upper-casing of a string.
pub open spec fn upper_seq(s: Seq<char>) -> Seq<char> {
    s.map_values(|c: char| ascii_upper(c))
}

pub fn lower_char(c: char) -> (r: char)
    ensures
        r == ascii_lower(c),
{
    if 'A' <= c && c <= 'Z' {
        let b = (c as u32 + 32) as u8;
        b as char
    } else {
        c
    }
}

pub fn upper_char(c: char) -> (r: char)
    ensures
        r == ascii_upper(c),
{
    if 'a' <= c && c <= 'z' {
        let b = (c as u32 - 32) as u8;
        b as char
    } else {
        c
    }
}

/// The ASCII lower-cased copy of `v`.
pub fn lower_chars(v: &Vec<char>) -> (r: Vec<char>)
    ensures
        r@ == lower_seq(v@),
{
    let mut r: Vec<char> = Vec::new();
    let mut i: usize = 0;
    while i < v.len()
        invariant
            i <= v@.len(),
            r@ =~= lower_seq(v@.subrange(0, i as int)),
        decreases v.len() - i,
    {
        r.push(lower_char(v[i]));
        i = i + 1;
    }
    assert(v@.subrange(0, v@.len() as int) =~= v@);
    r
}

/// Unicode `White_Space`, the set that `char::is_whitespace` and `str::trim`
/// use.
pub open spec fn is_white(c: char) -> bool {
    let u = c as u32;
    (0x09 <= u && u <= 0x0D) || u == 0x20 || u == 0x85 || u == 0xA0 || u == 0x1680 || (0x2000
        <= u && u <= 0x200A) || u == 0x2028 || u == 0x2029 || u == 0x202F || u == 0x205F || u
        == 0x3000
}

pub fn is_white_char(c: char) -> (b: bool)
    ensures
        b == is_white(c),
{
    let u = c as u32;
    (0x09 <= u && u <= 0x0D) || u == 0x20 || u == 0x85 || u == 0xA0 || u == 0x1680 || (0x2000
        <= u && u <= 0x200A) || u == 0x2028 || u == 0x2029 || u == 0x202F || u == 0x205F || u
        == 0x3000
}

/// `s` without its leading whitespace (`str::trim_start`).
pub open spec fn trim_start_seq(s: Seq<char>) -> Seq<char>
    decreases s.len(),
{
    if s.len() > 0 && is_white(s[0]) {
        trim_start_seq(s.drop_first())
    } else {
        s
    }
}

/// `s` without its trailing whitespace (`str::trim_end`).
pub open spec fn trim_end_seq(s: Seq<char>) -> Seq<char>
    decreases s.len(),
{
    if s.len() > 0 && is_white(s.last()) {
        trim_end_seq(s.drop_last())
    } else {
        s
    }
}

/// `s` without leading and trailing whitespace (`str::trim`).
pub open spec fn trim_seq(s: Seq<char>) -> Seq<char> {
    trim_end_seq(trim_start_seq(s))
}

/// The copy of `v[lo..hi]`.
pub fn slice_chars(v: &Vec<char>, lo: usize, hi: usize) -> (r: Vec<char>)
    requires
        lo <= hi <= v@.len(),
    ensures
        r@ == v@.subrange(lo as int, hi as int),
{
    let mut r: Vec<char> = Vec::new();
    let mut i = lo;
    while i < hi
        invariant
            lo <= i <= hi <= v@.len(),
            r@ =~= v@.subrange(lo as int, i as int),
        decreases hi - i,
    {
        r.push(v[i]);
        i = i + 1;
    }
    r
}

proof fn lemma_trim_start_sub(s: Seq<char>, i: int)
    requires
        0 <= i <= s.len(),
        forall|k: int| 0 <= k < i ==> is_white(#[trigger] s[k]),
    ensures
        trim_start_seq(s) == trim_start_seq(s.subrange(i, s.len() as int)),
    decreases i,
{
    if i > 0 {
        assert(s.drop_first().subrange(i - 1, s.drop_first().len() as int) =~= s.subrange(
            i,
            s.len() as int,
        ));
        lemma_trim_start_sub(s.drop_first(), i - 1);
    } else {
        assert(s.subrange(0, s.len() as int) =~= s);
    }
}

proof fn lemma_trim_end_sub(s: Seq<char>, j: int)
    requires
        0 <= j <= s.len(),
        forall|k: int| j <= k < s.len() ==> is_white(#[trigger] s[k]),
    ensures
        trim_end_seq(s) == trim_end_seq(s.subrange(0, j)),
    decreases s.len() - j,
{
    if j < s.len() {
        assert(s.drop_last().subrange(0, j) =~= s.subrange(0, j));
        lemma_trim_end_sub(s.drop_last(), j);
    } else {
        assert(s.subrange(0, j) =~= s);
    }
}

/// The trimmed copy of `v` (`str::trim`).
pub fn trim_chars(v: &Vec<char>) -> (r: Vec<char>)
    ensures
        r@ == trim_seq(v@),
{
    let mut lo: usize = 0;
    while lo < v.len() && is_white_char(v[lo])
        invariant
            lo <= v@.len(),
            forall|k: int| 0 <= k < lo ==> is_white(#[trigger] v@[k]),
        decreases v.len() - lo,
    {
        lo = lo + 1;
    }
    proof {
        lemma_trim_start_sub(v@, lo as int);
    }
    let ghost rest = v@.subrange(lo as int, v@.len() as int);
    assert(trim_start_seq(rest) == rest);
    let mut hi: usize = v.len();
    while hi > lo && is_white_char(v[hi - 1])
        invariant
            lo <= hi <= v@.len(),
            forall|k: int| hi <= k < v@.len() ==> is_white(#[trigger] v@[k]),
        decreases hi,
    {
        hi = hi - 1;
    }
    proof {
        assert forall|k: int| hi - lo <= k < rest.len() implies is_white(#[trigger] rest[k]) by {
            assert(rest[k] == v@[k + lo]);
        }
        lemma_trim_end_sub(rest, hi - lo);
        assert(rest.subrange(0, hi - lo) =~= v@.subrange(lo as int, hi as int));
        let t = v@.subrange(lo as int, hi as int);
        if t.len() > 0 {
            assert(t.last() == v@[hi - 1]);
        }
    }
    slice_chars(v, lo, hi)
}

// ---------------------------------------------------------------------------
// Conversions
// ---------------------------------------------------------------------------

/// The characters of `s`, in order.
pub fn chars_of(s: &str) -> (v: Vec<char>)
    ensures
        v@ == s@,
{
    let n = s.unicode_len();
    let mut v: Vec<char> = Vec::new();
    let mut i: usize = 0;
    while i < n
        invariant
            n == s@.len(),
            i <= n,
            v@ == s@.subrange(0, i as int),
        decreases n - i,
    {
        v.push(s.get_char(i));
        i = i + 1;
    }
    v
}

/// A `String` holding exactly the characters of `v`.
pub fn string_of(v: &Vec<char>) -> (s: String)
    ensures
        s@ == v@,
{
    let mut s = String::new();
    let mut i: usize = 0;
    while i < v.len()
        invariant
            i <= v.len(),
            s@ == v@.subrange(0, i as int),
        decreases v.len() - i,
    {
        s.push(v[i]);
        i = i + 1;
    }
    s
}

/// Appends the characters of `s` to `out`.
pub fn push_str(out: &mut Vec<char>, s: &str)
    ensures
        final(out)@ == old(out)@ + s@,
{
    let n = s.unicode_len();
    let mut i: usize = 0;
    let ghost start = out@;
    while i < n
        invariant
            n == s@.len(),
            i <= n,
            out@ =~= start + s@.subrange(0, i as int),
        decreases n - i,
    {
        out.push(s.get_char(i));
        i = i + 1;
    }
    assert(s@.subrange(0, n as int) =~= s@);
}

/// Appends `src` to `out`.
pub fn push_chars(out: &mut Vec<char>, src: &Vec<char>)
    ensures
        final(out)@ == old(out)@ + src@,
{
    let mut i: usize = 0;
    let ghost start = out@;
    while i < src.len()
        invariant
            i <= src@.len(),
            out@ =~= start + src@.subrange(0, i as int),
        decreases src.len() - i,
    {
        out.push(src[i]);
        i = i + 1;
    }
    assert(src@.subrange(0, src@.len() as int) =~= src@);
}

/// `a` followed by `b`.
pub fn concat2(a: &str, b: &str) -> (r: String)
    ensures
        r@ == a@ + b@,
{
    let mut out: Vec<char> = Vec::new();
    push_str(&mut out, a);
    push_str(&mut out, b);
    assert(out@ =~= a@ + b@);
    string_of(&out)
}

/// `a`, `b`, `c` and `d` in a row.
pub fn concat4(a: &str, b: &str, c: &str, d: &str) -> (r: String)
    ensures
        r@ == a@ + b@ + c@ + d@,
{
    let mut out: Vec<char> = Vec::new();
    push_str(&mut out, a);
    push_str(&mut out, b);
    push_str(&mut out, c);
    push_str(&mut out, d);
    assert(out@ =~= a@ + b@ + c@ + d@);
    string_of(&out)
}

/// Character-wise equality of two strings.
pub fn chars_eq(a: &Vec<char>, b: &Vec<char>) -> (r: bool)
    ensures
        r == (a@ == b@),
{
    if a.len() != b.len() {
        return false;
    }
    let mut i: usize = 0;
    while i < a.len()
        invariant
            a@.len() == b@.len(),
            i <= a@.len(),
            forall|k: int| 0 <= k < i ==> a@[k] == b@[k],
        decreases a.len() - i,
    {
        if a[i] != b[i] {
            return false;
        }
        i = i + 1;
    }
    assert(a@ =~= b@);
    true
}

/// Whether `v` equals the literal `s`.
pub fn chars_eq_str(v: &Vec<char>, s: &str) -> (r: bool)
    ensures
        r == (v@ == s@),
{
    let w = chars_of(s);
    chars_eq(v, &w)
}

// ---------------------------------------------------------------------------
// Searching and splitting
// ---------------------------------------------------------------------------

/// Index of the first occurrence of `c` in `s`.
pub open spec fn index_of_first(s: Seq<char>, c: char) -> Option<int>
    decreases s.len(),
{
    if s.len() == 0 {
        None
    } else {
        match index_of_first(s.drop_last(), c) {
            Some(i) => Some(i),
            None => if s.last() == c {
                Some(s.len() - 1)
            } else {
                None
            },
        }
    }
}

/// Index of the last occurrence of `c` in `s`.
pub open spec fn index_of_last(s: Seq<char>, c: char) -> Option<int>
    decreases s.len(),
{
    if s.len() == 0 {
        None
    } else if s.last() == c {
        Some(s.len() - 1)
    } else {
        index_of_last(s.drop_last(), c)
    }
}

pub proof fn lemma_index_of_first(s: Seq<char>, c: char)
    ensures
        index_of_first(s, c) matches Some(i) ==> 0 <= i < s.len() && s[i] == c && forall|k: int|
            0 <= k < i ==> s[k] != c,
        index_of_first(s, c) is None ==> forall|k: int| 0 <= k < s.len() ==> s[k] != c,
    decreases s.len(),
{
    if s.len() > 0 {
        lemma_index_of_first(s.drop_last(), c);
        assert forall|k: int| 0 <= k < s.len() - 1 implies s[k] == s.drop_last()[k] by {}
    }
}

pub proof fn lemma_index_of_last(s: Seq<char>, c: char)
    ensures
        index_of_last(s, c) matches Some(i) ==> 0 <= i < s.len() && s[i] == c && forall|k: int|
            i < k < s.len() ==> s[k] != c,
        index_of_last(s, c) is None ==> forall|k: int| 0 <= k < s.len() ==> s[k] != c,
    decreases s.len(),
{
    if s.len() > 0 {
        lemma_index_of_last(s.drop_last(), c);
        assert forall|k: int| 0 <= k < s.len() - 1 implies s[k] == s.drop_last()[k] by {}
    }
}

/// The first index of `c` in `v`.
pub fn find_first(v: &Vec<char>, c: char) -> (r: Option<usize>)
    ensures
        match r {
            Some(i) => index_of_first(v@, c) == Some(i as int),
            None => index_of_first(v@, c) is None,
        },
{
    let mut i: usize = 0;
    while i < v.len()
        invariant
            i <= v@.len(),
            forall|k: int| 0 <= k < i ==> v@[k] != c,
        decreases v.len() - i,
    {
        if v[i] == c {
            proof {
                lemma_index_of_first(v@, c);
                lemma_index_of_first(v@.subrange(0, i as int), c);
                lemma_first_prefix(v@, c, i as int);
            }
            return Some(i);
        }
        i = i + 1;
    }
    proof {
        lemma_index_of_first(v@, c);
        if index_of_first(v@, c) is Some {
            let j = index_of_first(v@, c)->0;
            assert(v@[j] == c);
        }
    }
    None
}

/// When `s[i] == c` and no earlier character is `c`, `i` is the first index.
proof fn lemma_first_prefix(s: Seq<char>, c: char, i: int)
    requires
        0 <= i < s.len(),
        s[i] == c,
        forall|k: int| 0 <= k < i ==> s[k] != c,
    ensures
        index_of_first(s, c) == Some(i),
    decreases s.len(),
{
    if s.len() - 1 > i {
        lemma_first_prefix(s.drop_last(), c, i);
    } else {
        lemma_index_of_first(s.drop_last(), c);
        if index_of_first(s.drop_last(), c) is Some {
            let j = index_of_first(s.drop_last(), c)->0;
            assert(s[j] == c);
        }
    }
}

/// The last index of `c` in `v`.
pub fn find_last(v: &Vec<char>, c: char) -> (r: Option<usize>)
    ensures
        match r {
            Some(i) => index_of_last(v@, c) == Some(i as int),
            None => index_of_last(v@, c) is None,
        },
{
    let mut j = v.len();
    assert(v@.subrange(0, j as int) =~= v@);
    while j > 0
        invariant
            j <= v@.len(),
            index_of_last(v@, c) == index_of_last(v@.subrange(0, j as int), c),
        decreases j,
    {
        let ghost p = v@.subrange(0, j as int);
        assert(p.drop_last() =~= v@.subrange(0, j - 1));
        if v[j - 1] == c {
            return Some(j - 1);
        }
        j = j - 1;
    }
    None
}

/// Whether `s` starts with `p`.
pub open spec fn has_prefix(s: Seq<char>, p: Seq<char>) -> bool {
    p.len() <= s.len() && s.take(p.len() as int) == p
}

/// Whether `s` ends with `p`.
pub open spec fn has_suffix(s: Seq<char>, p: Seq<char>) -> bool {
    p.len() <= s.len() && s.skip(s.len() - p.len()) == p
}

pub fn ends_with(v: &Vec<char>, p: &str) -> (b: bool)
    ensures
        b == has_suffix(v@, p@),
{
    let w = chars_of(p);
    if w.len() > v.len() {
        return false;
    }
    let vn = v.len();
    let off = vn - w.len();
    let mut i: usize = 0;
    while i < w.len()
        invariant
            w@ == p@,
            vn == v@.len(),
            off + w@.len() == vn,
            i <= w@.len(),
            forall|k: int| 0 <= k < i ==> v@[off + k] == w@[k],
        decreases w.len() - i,
    {
        if v[off + i] != w[i] {
            assert(v@.skip(off as int)[i as int] != w@[i as int]);
            return false;
        }
        i = i + 1;
    }
    assert(v@.skip(off as int) =~= w@);
    true
}

pub fn starts_with(v: &Vec<char>, p: &str) -> (b: bool)
    ensures
        b == has_prefix(v@, p@),
{
    let w = chars_of(p);
    if w.len() > v.len() {
        return false;
    }
    let mut i: usize = 0;
    while i < w.len()
        invariant
            w@ == p@,
            w@.len() <= v@.len(),
            i <= w@.len(),
            forall|k: int| 0 <= k < i ==> v@[k] == w@[k],
        decreases w.len() - i,
    {
        if v[i] != w[i] {
            assert(v@.take(w@.len() as int)[i as int] != w@[i as int]);
            return false;
        }
        i = i + 1;
    }
    assert(v@.take(w@.len() as int) =~= w@);
    true
}

/// `str::split` at `c`: the pieces between the copies of `c`, in order; there
/// is always at least one.
pub open spec fn split_at_char(s: Seq<char>, c: char) -> Seq<Seq<char>>
    decreases s.len(),
{
    if s.len() == 0 {
        seq![Seq::empty()]
    } else {
        let f = split_at_char(s.drop_last(), c);
        if s.last() == c {
            f.push(Seq::empty())
        } else {
            f.update(f.len() - 1, f.last().push(s.last()))
        }
    }
}

pub proof fn lemma_split_nonempty(s: Seq<char>, c: char)
    ensures
        split_at_char(s, c).len() >= 1,
    decreases s.len(),
{
    if s.len() > 0 {
        lemma_split_nonempty(s.drop_last(), c);
    }
}

/// The pieces of `v` between the copies of `c` (`str::split`).
pub fn split_chars(v: &Vec<char>, c: char) -> (r: Vec<Vec<char>>)
    ensures
        r@.map_values(|w: Vec<char>| w@) == split_at_char(v@, c),
{
    let mut r: Vec<Vec<char>> = Vec::new();
    let mut cur: Vec<char> = Vec::new();
    let mut i: usize = 0;
    assert(v@.take(0) =~= Seq::<char>::empty());
    assert(r@.map_values(|w: Vec<char>| w@).push(cur@) =~= seq![Seq::<char>::empty()]);
    while i < v.len()
        invariant
            i <= v@.len(),
            r@.map_values(|w: Vec<char>| w@).push(cur@) == split_at_char(v@.take(i as int), c),
        decreases v.len() - i,
    {
        let ghost before = r@.map_values(|w: Vec<char>| w@);
        let ghost cur0 = cur@;
        assert(v@.take(i + 1).drop_last() =~= v@.take(i as int));
        assert(v@.take(i + 1).last() == v@[i as int]);
        if v[i] == c {
            r.push(cur);
            cur = Vec::new();
            assert(r@.map_values(|w: Vec<char>| w@) =~= before.push(cur0));
            assert(r@.map_values(|w: Vec<char>| w@).push(cur@) =~= before.push(cur0).push(
                Seq::empty(),
            ));
        } else {
            cur.push(v[i]);
            assert(r@.map_values(|w: Vec<char>| w@).push(cur@) =~= before.push(cur0).update(
                before.len() as int,
                cur0.push(v@[i as int]),
            ));
        }
        i = i + 1;
    }
    r.push(cur);
    assert(v@.take(v@.len() as int) =~= v@);
    r
}

/// `s` without the copies of `c` at its start.
pub open spec fn strip_start_char(s: Seq<char>, c: char) -> Seq<char>
    decreases s.len(),
{
    if s.len() > 0 && s[0] == c {
        strip_start_char(s.drop_first(), c)
    } else {
        s
    }
}

/// `s` without the copies of `c` at its end.
pub open spec fn strip_end_char(s: Seq<char>, c: char) -> Seq<char>
    decreases s.len(),
{
    if s.len() > 0 && s.last() == c {
        strip_end_char(s.drop_last(), c)
    } else {
        s
    }
}

/// `s` without the copies of `c` at either end (`str::trim_matches` with one
/// character).
pub open spec fn strip_char(s: Seq<char>, c: char) -> Seq<char> {
    strip_end_char(strip_start_char(s, c), c)
}

proof fn lemma_strip_start_sub(s: Seq<char>, c: char, i: int)
    requires
        0 <= i <= s.len(),
        forall|k: int| 0 <= k < i ==> #[trigger] s[k] == c,
    ensures
        strip_start_char(s, c) == strip_start_char(s.subrange(i, s.len() as int), c),
    decreases i,
{
    if i > 0 {
        assert(s.drop_first().subrange(i - 1, s.drop_first().len() as int) =~= s.subrange(
            i,
            s.len() as int,
        ));
        lemma_strip_start_sub(s.drop_first(), c, i - 1);
    } else {
        assert(s.subrange(0, s.len() as int) =~= s);
    }
}

proof fn lemma_strip_end_sub(s: Seq<char>, c: char, j: int)
    requires
        0 <= j <= s.len(),
        forall|k: int| j <= k < s.len() ==> #[trigger] s[k] == c,
    ensures
        strip_end_char(s, c) == strip_end_char(s.subrange(0, j), c),
    decreases s.len() - j,
{
    if j < s.len() {
        assert(s.drop_last().subrange(0, j) =~= s.subrange(0, j));
        lemma_strip_end_sub(s.drop_last(), c, j);
    } else {
        assert(s.subrange(0, j) =~= s);
    }
}

/// The copy of `v` without the copies of `c` at either end.
pub fn strip_chars(v: &Vec<char>, c: char) -> (r: Vec<char>)
    ensures
        r@ == strip_char(v@, c),
{
    let mut lo: usize = 0;
    while lo < v.len() && v[lo] == c
        invariant
            lo <= v@.len(),
            forall|k: int| 0 <= k < lo ==> #[trigger] v@[k] == c,
        decreases v.len() - lo,
    {
        lo = lo + 1;
    }
    proof {
        lemma_strip_start_sub(v@, c, lo as int);
    }
    let ghost rest = v@.subrange(lo as int, v@.len() as int);
    assert(strip_start_char(rest, c) == rest);
    let mut hi: usize = v.len();
    while hi > lo && v[hi - 1] == c
        invariant
            lo <= hi <= v@.len(),
            forall|k: int| hi <= k < v@.len() ==> #[trigger] v@[k] == c,
        decreases hi,
    {
        hi = hi - 1;
    }
    proof {
        assert forall|k: int| hi - lo <= k < rest.len() implies #[trigger] rest[k] == c by {
            assert(rest[k] == v@[k + lo]);
        }
        lemma_strip_end_sub(rest, c, hi - lo);
        assert(rest.subrange(0, hi - lo) =~= v@.subrange(lo as int, hi as int));
        let t = v@.subrange(lo as int, hi as int);
        if t.len() > 0 {
            assert(t.last() == v@[hi - 1]);
        }
    }
    slice_chars(v, lo, hi)
}

/// `pat` occurs in `s`.
pub open spec fn contains_text(s: Seq<char>, pat: Seq<char>) -> bool {
    exists|i: int| 0 <= i && i + pat.len() <= s.len() && #[trigger] s.subrange(i, i + pat.len()) == pat
}

/// Whether `pat` occurs in `v`.
pub fn find_text(v: &Vec<char>, pat: &Vec<char>) -> (b: bool)
    ensures
        b == contains_text(v@, pat@),
{
    let n = v.len();
    if pat.len() > n {
        return false;
    }
    if pat.len() == 0 {
        assert(v@.subrange(0int, 0int + pat@.len()) =~= pat@);
        return true;
    }
    let last = n - pat.len();
    let mut i: usize = 0;
    while i <= last
        invariant
            last == v@.len() - pat@.len(),
            n == v@.len(),
            0 < pat@.len() <= v@.len(),
            i <= last + 1,
            forall|k: int| 0 <= k < i ==> #[trigger] v@.subrange(k, k + pat@.len()) != pat@,
        decreases last + 1 - i,
    {
        let mut j: usize = 0;
        let mut same = true;
        while j < pat.len()
            invariant
                i <= last,
                last == v@.len() - pat@.len(),
                n == v@.len(),
                0 < pat@.len() <= v@.len(),
                j <= pat@.len(),
                same == (forall|q: int| 0 <= q < j ==> v@[i + q] == pat@[q]),
            decreases pat.len() - j,
        {
            if v[i + j] != pat[j] {
                same = false;
            }
            j = j + 1;
        }
        if same {
            assert(v@.subrange(i as int, i + pat@.len()) =~= pat@);
            return true;
        }
        assert(v@.subrange(i as int, i + pat@.len()) != pat@) by {
            let q = choose|q: int| 0 <= q < pat@.len() && v@[i + q] != pat@[q];
            assert(v@.subrange(i as int, i + pat@.len())[q] == v@[i + q]);
        }
        i = i + 1;
    }
    proof {
        assert forall|k: int| 0 <= k && k + pat@.len() <= v@.len() implies #[trigger] v@.subrange(k, k + pat@.len()) != pat@ by {
            assert(k <= last);
        }
    }
    false
}

/// `str::lines`: the text split at `'\n'`, each line without its line ending
/// (`"\n"` or `"\r\n"`); a final line ending adds no empty line.
pub open spec fn lines_of(s: Seq<char>) -> Seq<Seq<char>>
    decreases s.len(),
{
    if s.len() == 0 {
        Seq::empty()
    } else {
        match index_of_first(s, '\n') {
            Some(i) => {
                proof {
                    lemma_index_of_first(s, '\n');
                }
                seq![strip_cr(s.take(i))] + lines_of(s.skip(i + 1))
            },
            None => seq![s],
        }
    }
}

/// `s` without one trailing `'\r'`.
pub open spec fn strip_cr(s: Seq<char>) -> Seq<char> {
    if s.len() > 0 && s.last() == '\r' {
        s.drop_last()
    } else {
        s
    }
}

/// The lines of `v`, as `str::lines` gives them.
pub fn split_lines(v: &Vec<char>) -> (r: Vec<Vec<char>>)
    ensures
        r@.map_values(|l: Vec<char>| l@) == lines_of(v@),
{
    let mut r: Vec<Vec<char>> = Vec::new();
    let mut start: usize = 0;
    let n = v.len();
    assert(v@.skip(0) =~= v@);
    assert(r@.map_values(|l: Vec<char>| l@) + lines_of(v@) =~= lines_of(v@));
    while start < n
        invariant
            n == v@.len(),
            start <= n,
            lines_of(v@) == r@.map_values(|l: Vec<char>| l@) + lines_of(v@.skip(start as int)),
        decreases n - start,
    {
        let ghost rest = v@.skip(start as int);
        let mut j = start;
        while j < n && v[j] != '\n'
            invariant
                start <= j <= n,
                n == v@.len(),
                forall|k: int| start <= k < j ==> v@[k] != '\n',
            decreases n - j,
        {
            j = j + 1;
        }
        let mut line = slice_chars(v, start, j);
        if j < n && line.len() > 0 && line[line.len() - 1] == '\r' {
            line.pop();
        }
        proof {
            lemma_index_of_first(rest, '\n');
            if j < n {
                assert(rest[j - start] == '\n');
                assert forall|k: int| 0 <= k < j - start implies rest[k] != '\n' by {
                    assert(rest[k] == v@[start + k]);
                }
                lemma_first_prefix(rest, '\n', j - start);
                assert(rest.take(j - start) =~= v@.subrange(start as int, j as int));
                assert(rest.skip(j - start + 1) =~= v@.skip(j + 1));
                assert(line@ =~= strip_cr(v@.subrange(start as int, j as int)));
                assert(lines_of(rest) == seq![line@] + lines_of(v@.skip(j + 1)));
            } else {
                assert forall|k: int| 0 <= k < rest.len() implies rest[k] != '\n' by {
                    assert(rest[k] == v@[start + k]);
                }
                if index_of_first(rest, '\n') is Some {
                    let q = index_of_first(rest, '\n')->0;
                    assert(rest[q] == '\n');
                }
                assert(rest =~= v@.subrange(start as int, j as int));
                assert(line@ =~= rest);
                assert(v@.skip(n as int).len() == 0);
                assert(lines_of(v@.skip(n as int)) =~= Seq::<Seq<char>>::empty());
                assert(lines_of(rest) == seq![line@]);
                assert(lines_of(rest) =~= seq![line@] + lines_of(v@.skip(n as int)));
            }
        }
        let ghost old_r = r@;
        r.push(line);
        assert(r@.map_values(|l: Vec<char>| l@) =~= old_r.map_values(|l: Vec<char>| l@).push(line@));
        assert(old_r.map_values(|l: Vec<char>| l@) + (seq![line@] + lines_of(
            v@.skip(if j < n { j + 1 } else { n as int }),
        )) =~= old_r.map_values(|l: Vec<char>| l@).push(line@) + lines_of(
            v@.skip(if j < n { j + 1 } else { n as int }),
        ));
        if j < n {
            start = j + 1;
        } else {
            start = n;
        }
    }
    assert(v@.skip(n as int).len() == 0);
    assert(r@.map_values(|l: Vec<char>| l@) + Seq::<Seq<char>>::empty() =~= r@.map_values(
        |l: Vec<char>| l@,
    ));
    r
}

/// `str::split_whitespace`: the maximal runs of non-whitespace characters.
pub open spec fn words(s: Seq<char>) -> Seq<Seq<char>>
    decreases s.len(),
{
    if s.len() == 0 {
        Seq::empty()
    } else if is_white(s.last()) {
        words(s.drop_last())
    } else {
        let w = words(s.drop_last());
        if s.len() >= 2 && !is_white(s[s.len() - 2]) && w.len() > 0 {
            w.update(w.len() - 1, w.last().push(s.last()))
        } else {
            w.push(seq![s.last()])
        }
    }
}

proof fn lemma_words_nonempty(s: Seq<char>)
    ensures
        s.len() > 0 && !is_white(s.last()) ==> words(s).len() > 0,
    decreases s.len(),
{
    if s.len() > 0 {
        lemma_words_nonempty(s.drop_last());
    }
}

/// The words of `v`, as `str::split_whitespace` gives them.
pub fn split_words(v: &Vec<char>) -> (r: Vec<Vec<char>>)
    ensures
        r@.map_values(|w: Vec<char>| w@) == words(v@),
{
    let mut r: Vec<Vec<char>> = Vec::new();
    let mut i: usize = 0;
    while i < v.len()
        invariant
            i <= v@.len(),
            r@.map_values(|w: Vec<char>| w@) == words(v@.take(i as int)),
            i > 0 && !is_white(v@[i - 1]) ==> r@.len() > 0,
        decreases v.len() - i,
    {
        let c = v[i];
        let ghost p = v@.take(i + 1);
        assert(p.drop_last() =~= v@.take(i as int));
        assert(p.last() == c);
        if is_white_char(c) {
        } else if i > 0 && !is_white_char(v[i - 1]) {
            assert(p[p.len() - 2] == v@[i - 1]);
            let ghost old_r = r@;
            let last = r.len() - 1;
            let mut w = r.remove(last);
            w.push(c);
            r.push(w);
            assert(r@.map_values(|w: Vec<char>| w@) =~= old_r.map_values(|w: Vec<char>| w@).update(
                last as int,
                old_r[last as int]@.push(c),
            ));
        } else {
            let ghost old_r = r@;
            let mut w: Vec<char> = Vec::new();
            w.push(c);
            r.push(w);
            proof {
                if i > 0 {
                    assert(p[p.len() - 2] == v@[i - 1]);
                }
            }
            assert(r@.map_values(|w: Vec<char>| w@) =~= old_r.map_values(|w: Vec<char>| w@).push(
                seq![c],
            ));
        }
        i = i + 1;
    }
    assert(v@.take(v@.len() as int) =~= v@);
    r
}

/// `str::parse` of an unsigned integer type whose largest value is `max`: an
/// optional `+`, then at least one digit, and a value that fits.
pub open spec fn parsed_unsigned(s: Seq<char>, max: nat) -> Option<nat> {
    let digits = if s.len() > 0 && s[0] == '+' {
        s.drop_first()
    } else {
        s
    };
    if digits.len() > 0 && all_digits(digits) && digits_value(digits) <= max {
        Some(digits_value(digits))
    } else {
        None
    }
}

/// Exec form of [`parsed_unsigned`].
pub fn parse_unsigned(v: &Vec<char>, max: u64) -> (r: Option<u64>)
    ensures
        match parsed_unsigned(v@, max as nat) {
            Some(x) => r == Some(x as u64),
            None => r is None,
        },
{
    let n = v.len();
    let lo: usize = if n > 0 && v[0] == '+' { 1 } else { 0 };
    assert(v@.subrange(lo as int, n as int) =~= (if v@.len() > 0 && v@[0] == '+' {
        v@.drop_first()
    } else {
        v@
    }));
    if lo == n {
        return None;
    }
    let mut i = lo;
    while i < n
        invariant
            lo <= i <= n,
            n == v@.len(),
            forall|k: int| lo <= k < i ==> is_digit(#[trigger] v@[k]),
            v@.subrange(lo as int, n as int) == (if v@.len() > 0 && v@[0] == '+' {
                v@.drop_first()
            } else {
                v@
            }),
        decreases n - i,
    {
        if !is_ascii_digit(v[i]) {
            assert(v@.subrange(lo as int, n as int)[i - lo] == v@[i as int]);
            assert(!all_digits(v@.subrange(lo as int, n as int)));
            return None;
        }
        i = i + 1;
    }
    assert forall|k: int| 0 <= k < v@.subrange(lo as int, n as int).len() implies is_digit(
        #[trigger] v@.subrange(lo as int, n as int)[k],
    ) by {
        assert(v@.subrange(lo as int, n as int)[k] == v@[lo + k]);
    }
    parse_digit_run(v, lo, n, max)
}

/// The decimal spelling of `n` is all digits and reads back as `n`; so two
/// numbers with the same spelling are equal.
pub proof fn lemma_decimal_value(n: nat)
    ensures
        all_digits(decimal(n)),
        digits_value(decimal(n)) == n,
        decimal(n).len() > 0,
    decreases n,
{
    if n < 10 {
        let d = digit_char(n);
        assert(d as int == n + 48);
        assert(digit_value(d) == n);
        lemma_digits_value_monotone(Seq::<char>::empty(), d);
        assert(Seq::<char>::empty().push(d) =~= seq![d]);
        assert(digits_value(Seq::<char>::empty()) == 0);
    } else {
        lemma_decimal_value(n / 10);
        let d = digit_char(n % 10);
        assert(d as int == n % 10 + 48);
        assert(digit_value(d) == n % 10);
        lemma_digits_value_monotone(decimal(n / 10), d);
        assert(n == (n / 10) * 10 + n % 10) by (nonlinear_arith);
        assert forall|i: int| 0 <= i < decimal(n).len() implies is_digit(#[trigger] decimal(n)[i]) by {
            if i < decimal(n / 10).len() {
                assert(decimal(n)[i] == decimal(n / 10)[i]);
            }
        }
    }
}

} // verus!
