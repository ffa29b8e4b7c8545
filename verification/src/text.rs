//! Text helpers: the few string operations the container needs, each stated
//! over the sequence of characters of its arguments.
use vstd::prelude::*;
use vstd::utf8::{char_is_scalar, encode_scalar, encode_utf8};

verus! {

/// The characters of `s`, in order.
pub fn chars_of(s: &str) -> (r: Vec<char>)
    ensures
        r@ == s@,
{
    let mut r: Vec<char> = Vec::new();
    for c in it: s.chars()
        invariant
            r@ == it.seq().take(it.index() as int),
            it.seq() == s@,
    {
        r.push(c);
    }
    r
}

/// Whether two strings hold the same characters.
pub fn str_eq(a: &str, b: &str) -> (r: bool)
    ensures
        r == (a@ == b@),
{
    a.to_owned() == b.to_owned()
}

/// `a` followed by `b`.
pub fn concat2(a: &str, b: &str) -> (r: String)
    ensures
        r@ == a@ + b@,
{
    let mut s = a.to_owned();
    s.append(b);
    s
}

/// `a`, `b` and `c` in a row.
pub fn concat3(a: &str, b: &str, c: &str) -> (r: String)
    ensures
        r@ == a@ + b@ + c@,
{
    let mut s = a.to_owned();
    s.append(b);
    s.append(c);
    s
}

/// `a`, `b`, `c` and `d` in a row.
pub fn concat4(a: &str, b: &str, c: &str, d: &str) -> (r: String)
    ensures
        r@ == a@ + b@ + c@ + d@,
{
    let mut s = a.to_owned();
    s.append(b);
    s.append(c);
    s.append(d);
    s
}

/// `a`, `b`, `c`, `d` and `e` in a row.
pub fn concat5(a: &str, b: &str, c: &str, d: &str, e: &str) -> (r: String)
    ensures
        r@ == a@ + b@ + c@ + d@ + e@,
{
    let mut s = a.to_owned();
    s.append(b);
    s.append(c);
    s.append(d);
    s.append(e);
    s
}

/// The character of a decimal digit.
pub open spec fn digit_char(d: nat) -> char {
    if d == 0 {
        '0'
    } else if d == 1 {
        '1'
    } else if d == 2 {
        '2'
    } else if d == 3 {
        '3'
    } else if d == 4 {
        '4'
    } else if d == 5 {
        '5'
    } else if d == 6 {
        '6'
    } else if d == 7 {
        '7'
    } else if d == 8 {
        '8'
    } else {
        '9'
    }
}

/// The decimal text of `n`, without leading zeros.
pub open spec fn decimal_text(n: nat) -> Seq<char>
    decreases n,
{
    if n < 10 {
        seq![digit_char(n)]
    } else {
        decimal_text(n / 10).push(digit_char(n % 10))
    }
}

fn digit(d: u64) -> (r: &'static str)
    requires
        d < 10,
    ensures
        r@ == seq![digit_char(d as nat)],
{
    proof {
        reveal_strlit("0");
        reveal_strlit("1");
        reveal_strlit("2");
        reveal_strlit("3");
        reveal_strlit("4");
        reveal_strlit("5");
        reveal_strlit("6");
        reveal_strlit("7");
        reveal_strlit("8");
        reveal_strlit("9");
    }
    if d == 0 {
        "0"
    } else if d == 1 {
        "1"
    } else if d == 2 {
        "2"
    } else if d == 3 {
        "3"
    } else if d == 4 {
        "4"
    } else if d == 5 {
        "5"
    } else if d == 6 {
        "6"
    } else if d == 7 {
        "7"
    } else if d == 8 {
        "8"
    } else {
        "9"
    }
}

/// The decimal text of `n`.
pub fn decimal(n: u64) -> (r: String)
    ensures
        r@ == decimal_text(n as nat),
    decreases n,
{
    if n < 10 {
        digit(n).to_owned()
    } else {
        let mut s = decimal(n / 10);
        s.append(digit(n % 10));
        assert(s@ =~= decimal_text((n / 10) as nat).push(digit_char((n % 10) as nat)));
        s
    }
}

/// Whether `c` is an ASCII decimal digit.
pub open spec fn is_digit(c: char) -> bool {
    '0' <= c <= '9'
}

/// The number that a row of decimal digits stands for.
pub open spec fn digits_value(s: Seq<char>) -> nat
    decreases s.len(),
{
    if s.len() == 0 {
        0
    } else {
        (digits_value(s.drop_last()) * 10 + (s.last() as u32 - '0' as u32)) as nat
    }
}

/// The digits of a decimal number: what follows one optional plus sign.
pub open spec fn number_digits(s: Seq<char>) -> Seq<char> {
    if s.len() > 1 && s[0] == '+' {
        s.drop_first()
    } else {
        s
    }
}

/// The number that `s` spells out: an optional plus sign and at least one
/// digit, of a number below two to the sixty-fourth power.
pub open spec fn number_of(s: Seq<char>) -> Option<u64> {
    let d = number_digits(s);
    if d.len() > 0 && (forall|i: int| 0 <= i < d.len() ==> is_digit(#[trigger] d[i]))
        && digits_value(d) <= u64::MAX {
        Some(digits_value(d) as u64)
    } else {
        None
    }
}

proof fn lemma_digits_value_monotone(s: Seq<char>, i: int)
    requires
        0 <= i <= s.len(),
        forall|j: int| 0 <= j < s.len() ==> is_digit(#[trigger] s[j]),
    ensures
        digits_value(s.take(i)) <= digits_value(s),
    decreases s.len(),
{
    if i == s.len() {
        assert(s.take(i) =~= s);
    } else {
        let t = s.drop_last();
        assert(t.take(i) =~= s.take(i));
        assert forall|j: int| 0 <= j < t.len() implies is_digit(#[trigger] t[j]) by {
            assert(t[j] == s[j]);
        }
        lemma_digits_value_monotone(t, i);
        assert(is_digit(s[s.len() - 1]));
    }
}

/// Reads an unsigned decimal number.
pub fn parse_number(s: &str) -> (r: Option<u64>)
    ensures
        r == number_of(s@),
{
    let c = chars_of(s);
    let mut i: usize = 0;
    if c.len() > 1 && c[0] == '+' {
        i = 1;
    }
    let ghost d = number_digits(s@);
    let start: usize = i;
    assert(d =~= c@.skip(start as int));
    if c.len() == 0 {
        return None;
    }
    let mut v: u64 = 0;
    assert(d.take(0) =~= Seq::empty());
    while i < c.len()
        invariant
            start <= i <= c@.len(),
            c@ == s@,
            d == c@.skip(start as int),
            d == number_digits(s@),
            d.len() > 0,
            v == digits_value(d.take(i - start)),
            forall|j: int| 0 <= j < i - start ==> is_digit(#[trigger] d[j]),
        decreases c@.len() - i,
    {
        let ch = c[i];
        assert(d[i - start] == ch);
        if ch < '0' || ch > '9' {
            return None;
        }
        let x: u64 = (ch as u32 - '0' as u32) as u64;
        proof {
            assert(d.take(i - start + 1).drop_last() =~= d.take(i - start));
            assert(d.take(i - start + 1).last() == ch);
        }
        if v > (u64::MAX - x) / 10 {
            proof {
                assert(digits_value(d.take(i - start + 1)) > u64::MAX);
                if forall|j: int| 0 <= j < d.len() ==> is_digit(#[trigger] d[j]) {
                    lemma_digits_value_monotone(d, i - start + 1);
                }
            }
            return None;
        }
        v = v * 10 + x;
        i += 1;
    }
    assert(d.take(i - start) =~= d);
    Some(v)
}

/// Whether `s` ends with `suffix`.
pub fn ends_with(s: &str, suffix: &str) -> (r: bool)
    ensures
        r == suffix@.is_suffix_of(s@),
{
    strip_suffix(s, suffix).is_some()
}

/// What stands before `suffix` at the end of `s`.
pub fn strip_suffix<'a>(s: &'a str, suffix: &str) -> (r: Option<&'a str>)
    ensures
        r is Some <==> suffix@.is_suffix_of(s@),
        r matches Some(b) ==> s@ == b@ + suffix@,
{
    let n = s.unicode_len();
    let m = suffix.unicode_len();
    if m > n {
        return None;
    }
    let tail = s.substring_char(n - m, n);
    if str_eq(tail, suffix) {
        let head = s.substring_char(0, n - m);
        assert(s@ =~= head@ + suffix@);
        Some(head)
    } else {
        None
    }
}

/// What follows `prefix` at the start of `s`.
pub fn strip_prefix<'a>(s: &'a str, prefix: &str) -> (r: Option<&'a str>)
    ensures
        r is Some <==> prefix@.is_prefix_of(s@),
        r matches Some(b) ==> s@ == prefix@ + b@,
{
    let n = s.unicode_len();
    let m = prefix.unicode_len();
    if m > n {
        return None;
    }
    let head = s.substring_char(0, m);
    if str_eq(head, prefix) {
        let tail = s.substring_char(m, n);
        assert(s@ =~= prefix@ + tail@);
        Some(tail)
    } else {
        None
    }
}

/// Whether `c` is white space.
pub open spec fn is_space(c: char) -> bool {
    let u = c as u32;
    9 <= u <= 13 || u == 0x20 || u == 0x85 || u == 0xa0 || u == 0x1680 || 0x2000 <= u <= 0x200a
        || u == 0x2028 || u == 0x2029 || u == 0x202f || u == 0x205f || u == 0x3000
}

fn space(c: char) -> (r: bool)
    ensures
        r == is_space(c),
{
    let u: u32 = c as u32;
    9 <= u && u <= 13 || u == 0x20 || u == 0x85 || u == 0xa0 || u == 0x1680 || 0x2000 <= u && u
        <= 0x200a || u == 0x2028 || u == 0x2029 || u == 0x202f || u == 0x205f || u == 0x3000
}

/// `s` without the white space at its two ends.
pub open spec fn trimmed(s: Seq<char>) -> Seq<char>
    decreases s.len(),
{
    if s.len() == 0 {
        s
    } else if is_space(s[0]) {
        trimmed(s.drop_first())
    } else if is_space(s.last()) {
        trimmed(s.drop_last())
    } else {
        s
    }
}

/// `s` without the white space at its two ends.
pub fn trim(s: &str) -> (r: &str)
    ensures
        r@ == trimmed(s@),
{
    let c = chars_of(s);
    let mut a: usize = 0;
    let n = c.len();
    assert(s@.subrange(0, n as int) =~= s@);
    while a < n && space(c[a])
        invariant
            a <= n,
            n == c@.len(),
            c@ == s@,
            trimmed(s@) == trimmed(s@.subrange(a as int, n as int)),
        decreases n - a,
    {
        assert(s@.subrange(a as int, n as int).drop_first() =~= s@.subrange(a + 1, n as int));
        a += 1;
    }
    let mut b: usize = n;
    while b > a && space(c[b - 1])
        invariant
            a <= b <= n,
            n == c@.len(),
            c@ == s@,
            a < n ==> !is_space(s@[a as int]),
            trimmed(s@) == trimmed(s@.subrange(a as int, b as int)),
        decreases b,
    {
        assert(s@.subrange(a as int, b as int).drop_last() =~= s@.subrange(a as int, b - 1));
        b -= 1;
    }
    s.substring_char(a, b)
}

/// The lower-case form of an ASCII letter; any other character itself.
pub open spec fn ascii_lower(c: char) -> char {
    if 'A' <= c <= 'Z' {
        (c as u32 + 32) as char
    } else {
        c
    }
}

/// The two texts differ at most in the case of their ASCII letters.
pub open spec fn same_ignoring_case(a: Seq<char>, b: Seq<char>) -> bool {
    a.len() == b.len() && forall|i: int|
        0 <= i < a.len() ==> ascii_lower(#[trigger] a[i]) == ascii_lower(b[i])
}

fn lower_code(c: char) -> (r: u32)
    ensures
        r == ascii_lower(c) as u32,
{
    if 'A' <= c && c <= 'Z' {
        c as u32 + 32
    } else {
        c as u32
    }
}

/// Compares two strings, taking ASCII letters of either case as equal.
pub fn eq_ignore_case(a: &str, b: &str) -> (r: bool)
    ensures
        r == same_ignoring_case(a@, b@),
{
    let x = chars_of(a);
    let y = chars_of(b);
    if x.len() != y.len() {
        return false;
    }
    let mut i: usize = 0;
    while i < x.len()
        invariant
            i <= x@.len(),
            x@.len() == y@.len(),
            x@ == a@,
            y@ == b@,
            forall|j: int| 0 <= j < i ==> ascii_lower(#[trigger] x@[j]) == ascii_lower(y@[j]),
        decreases x@.len() - i,
    {
        if lower_code(x[i]) != lower_code(y[i]) {
            assert(ascii_lower(x@[i as int]) != ascii_lower(y@[i as int]));
            return false;
        }
        i += 1;
    }
    true
}

/// The pieces of `s` between the occurrences of `sep`.
pub open spec fn split_text(s: Seq<char>, sep: char) -> Seq<Seq<char>>
    decreases s.len(),
{
    if s.contains(sep) {
        let i = s.index_of_first(sep)->0;
        if 0 <= i < s.len() {
            seq![s.take(i)] + split_text(s.skip(i + 1), sep)
        } else {
            seq![s]
        }
    } else {
        seq![s]
    }
}

/// The first position of `sep` in `c` at or after `from`.
fn find_char(c: &Vec<char>, sep: char, from: usize) -> (r: Option<usize>)
    requires
        from <= c@.len(),
    ensures
        match r {
            Some(i) => from <= i < c@.len() && c@[i as int] == sep && (forall|j: int|
                from <= j < i ==> #[trigger] c@[j] != sep),
            None => forall|j: int| from <= j < c@.len() ==> #[trigger] c@[j] != sep,
        },
{
    let mut i: usize = from;
    while i < c.len()
        invariant
            from <= i <= c@.len(),
            forall|j: int| from <= j < i ==> #[trigger] c@[j] != sep,
        decreases c@.len() - i,
    {
        if c[i] == sep {
            return Some(i);
        }
        i += 1;
    }
    None
}

/// The views of a row of strings.
pub open spec fn texts(v: Seq<String>) -> Seq<Seq<char>> {
    Seq::new(v.len(), |i: int| v[i]@)
}

/// Splits `s` at every occurrence of `sep`.
pub fn split(s: &str, sep: char) -> (r: Vec<String>)
    ensures
        texts(r@) == split_text(s@, sep),
        r@.len() > 0,
{
    let c = chars_of(s);
    let n = c.len();
    let mut out: Vec<String> = Vec::new();
    let mut from: usize = 0;
    assert(s@.skip(0) =~= s@);
    assert(texts(out@) + split_text(s@, sep) =~= split_text(s@, sep));
    loop
        invariant
            from <= n,
            n == c@.len(),
            c@ == s@,
            texts(out@) + split_text(s@.skip(from as int), sep) == split_text(s@, sep),
        decreases c@.len() - from,
    {
        let ghost rest = s@.skip(from as int);
        match find_char(&c, sep, from) {
            Some(i) => {
                let piece = s.substring_char(from, i);
                let ghost before = texts(out@);
                out.push(piece.to_owned());
                proof {
                    let k = i - from;
                    assert(rest[k] == sep);
                    rest.index_of_first_ensures(sep);
                    let f = rest.index_of_first(sep)->0;
                    assert(f == k) by {
                        if f < k {
                            assert(rest[f] == s@[from + f]);
                        }
                    }
                    assert(rest.take(k) =~= piece@);
                    assert(rest.skip(k + 1) =~= s@.skip(i + 1));
                    assert(texts(out@) =~= before.push(piece@));
                    assert(before + (seq![piece@] + split_text(s@.skip(i + 1), sep)) =~= texts(out@)
                        + split_text(s@.skip(i + 1), sep));
                }
                from = i + 1;
            },
            None => {
                let piece = s.substring_char(from, n);
                let ghost before = texts(out@);
                out.push(piece.to_owned());
                proof {
                    assert(!rest.contains(sep)) by {
                        if rest.contains(sep) {
                            let j = choose|j: int| 0 <= j < rest.len() && rest[j] == sep;
                            assert(s@[from + j] == sep);
                        }
                    }
                    assert(rest =~= piece@);
                    assert(texts(out@) =~= before + seq![piece@]);
                }
                return out;
            },
        }
    }
}

/// The last position of `sep` in `s`.
pub fn rfind_char(s: &str, sep: char) -> (r: Option<usize>)
    ensures
        match r {
            Some(i) => i < s@.len() && s@[i as int] == sep && (forall|j: int|
                i < j < s@.len() ==> #[trigger] s@[j] != sep),
            None => !s@.contains(sep),
        },
{
    let c = chars_of(s);
    let mut i: usize = c.len();
    while i > 0
        invariant
            i <= c@.len(),
            c@ == s@,
            forall|j: int| i <= j < c@.len() ==> #[trigger] c@[j] != sep,
        decreases i,
    {
        i -= 1;
        if c[i] == sep {
            return Some(i);
        }
    }
    None
}

/// `s` with every `from` replaced by `to`.
pub open spec fn replace_text(s: Seq<char>, from: char, to: Seq<char>) -> Seq<char>
    decreases s.len(),
{
    if s.len() == 0 {
        Seq::empty()
    } else {
        replace_text(s.drop_last(), from, to) + (if s.last() == from {
            to
        } else {
            seq![s.last()]
        })
    }
}

/// Replaces every `from` in `s` by `to`.
pub fn replace_char(s: &str, from: char, to: &str) -> (r: String)
    ensures
        r@ == replace_text(s@, from, to@),
{
    let c = chars_of(s);
    let mut out = String::new();
    let mut i: usize = 0;
    assert(s@.take(0) =~= Seq::empty());
    while i < c.len()
        invariant
            i <= c@.len(),
            c@ == s@,
            out@ == replace_text(s@.take(i as int), from, to@),
        decreases c@.len() - i,
    {
        proof {
            assert(s@.take(i + 1).drop_last() =~= s@.take(i as int));
            assert(s@.take(i + 1).last() == c@[i as int]);
        }
        if c[i] == from {
            out.append(to);
        } else {
            let piece = s.substring_char(i, i + 1);
            assert(piece@ =~= seq![c@[i as int]]);
            out.append(piece);
        }
        i += 1;
    }
    assert(s@.take(i as int) =~= s@);
    out
}

/// The pieces joined in order, with `sep` between them.
pub open spec fn join_text(parts: Seq<Seq<char>>, sep: Seq<char>) -> Seq<char>
    decreases parts.len(),
{
    if parts.len() == 0 {
        Seq::empty()
    } else if parts.len() == 1 {
        parts[0]
    } else {
        join_text(parts.drop_last(), sep) + sep + parts.last()
    }
}

/// Joins the pieces in order, with `sep` between them.
pub fn join(parts: &Vec<String>, sep: &str) -> (r: String)
    ensures
        r@ == join_text(texts(parts@), sep@),
{
    let mut out = String::new();
    let mut i: usize = 0;
    let ghost all = texts(parts@);
    while i < parts.len()
        invariant
            i <= parts@.len(),
            all == texts(parts@),
            out@ == join_text(all.take(i as int), sep@),
        decreases parts@.len() - i,
    {
        proof {
            assert(all.take(i + 1).drop_last() =~= all.take(i as int));
            assert(all.take(i + 1).last() == parts@[i as int]@);
        }
        if i > 0 {
            out.append(sep);
        }
        out.append(parts[i].as_str());
        proof {
            if i == 0 {
                assert(out@ =~= all[0]);
            }
        }
        i += 1;
    }
    assert(all.take(i as int) =~= all);
    out
}

/// `needle` stands in `s` at position `i`.
pub open spec fn occurs_at(s: Seq<char>, needle: Seq<char>, i: int) -> bool {
    0 <= i && i + needle.len() <= s.len() && s.subrange(i, i + needle.len()) == needle
}

/// Whether `w` stands in `c` at position `i`.
fn stands_at(c: &Vec<char>, w: &Vec<char>, i: usize) -> (r: bool)
    requires
        i + w@.len() <= c@.len(),
    ensures
        r == occurs_at(c@, w@, i as int),
{
    let n = c.len();
    let mut k: usize = 0;
    while k < w.len()
        invariant
            k <= w@.len(),
            n == c@.len(),
            i + w@.len() <= c@.len(),
            forall|j: int| 0 <= j < k ==> #[trigger] w@[j] == c@[i + j],
        decreases w@.len() - k,
    {
        if c[i + k] != w[k] {
            assert(c@.subrange(i as int, i + w@.len())[k as int] == c@[i + k]);
            return false;
        }
        k += 1;
    }
    assert(c@.subrange(i as int, i + w@.len()) =~= w@);
    true
}

/// The first position at or after `from` where `needle` stands in `s`.
pub fn find_from(s: &str, needle: &str, from: usize) -> (r: Option<usize>)
    requires
        from <= s@.len(),
    ensures
        match r {
            Some(i) => from <= i && occurs_at(s@, needle@, i as int) && (forall|j: int|
                from <= j < i ==> !#[trigger] occurs_at(s@, needle@, j)),
            None => forall|j: int| from <= j ==> !#[trigger] occurs_at(s@, needle@, j),
        },
{
    let c = chars_of(s);
    let w = chars_of(needle);
    let n = c.len();
    let mut i: usize = from;
    while i < n && n - i >= w.len()
        invariant
            from <= i <= n,
            n == c@.len(),
            c@ == s@,
            w@ == needle@,
            forall|j: int| from <= j < i ==> !#[trigger] occurs_at(s@, needle@, j),
        decreases n - i,
    {
        if stands_at(&c, &w, i) {
            return Some(i);
        }
        i += 1;
    }
    if i == n && w.len() == 0 {
        assert(s@.subrange(i as int, i as int) =~= needle@);
        return Some(i);
    }
    None
}

/// How many bytes a character takes.
pub open spec fn char_width(c: char) -> nat {
    let u = c as u32;
    if u < 0x80 {
        1
    } else if u < 0x800 {
        2
    } else if u < 0x1_0000 {
        3
    } else {
        4
    }
}

/// How many bytes a text takes.
pub open spec fn text_width(s: Seq<char>) -> nat
    decreases s.len(),
{
    if s.len() == 0 {
        0
    } else {
        text_width(s.drop_last()) + char_width(s.last())
    }
}

/// How many bytes a character takes.
pub fn width_of(c: char) -> (r: u128)
    ensures
        r == char_width(c),
{
    let u: u32 = c as u32;
    if u < 0x80 {
        1
    } else if u < 0x800 {
        2
    } else if u < 0x1_0000 {
        3
    } else {
        4
    }
}

/// A longer beginning of a text takes no fewer bytes.
pub proof fn lemma_width_grows(s: Seq<char>, i: int, j: int)
    requires
        0 <= i <= j <= s.len(),
    ensures
        text_width(s.take(i)) <= text_width(s.take(j)),
    decreases j - i,
{
    if i < j {
        lemma_width_grows(s, i, j - 1);
        assert(s.take(j).drop_last() =~= s.take(j - 1));
    }
}

/// How many bytes a text takes.
pub fn width(c: &Vec<char>) -> (r: u128)
    ensures
        r == text_width(c@),
{
    let mut i: usize = 0;
    let mut at: u128 = 0;
    while i < c.len()
        invariant
            i <= c@.len(),
            at == text_width(c@.take(i as int)),
            at <= 4 * i,
        decreases c@.len() - i,
    {
        assert(c@.take(i + 1).drop_last() =~= c@.take(i as int));
        at = at + width_of(c[i]);
        i += 1;
    }
    assert(c@.take(i as int) =~= c@);
    at
}

// ── Laws ────────────────────────────────────────────────────────────
/// The text of a number spells the number, with or without a plus sign.
pub proof fn lemma_decimal_spells(n: u64)
    ensures
        number_of(decimal_text(n as nat)) == Some(n),
        number_of(seq!['+'] + decimal_text(n as nat)) == Some(n),
{
    lemma_decimal_digits(n as nat);
    let d = decimal_text(n as nat);
    assert(is_digit(d[0]));
    assert((seq!['+'] + d).drop_first() =~= d);
}

proof fn lemma_decimal_digits(n: nat)
    ensures
        decimal_text(n).len() > 0,
        forall|i: int| 0 <= i < decimal_text(n).len() ==> is_digit(#[trigger] decimal_text(n)[i]),
        digits_value(decimal_text(n)) == n,
    decreases n,
{
    let d = decimal_text(n);
    if n < 10 {
        assert(d.drop_last() =~= Seq::empty());
        assert(digits_value(d.drop_last()) == 0);
    } else {
        lemma_decimal_digits(n / 10);
        assert(d.drop_last() =~= decimal_text(n / 10));
    }
}

/// A text without the separator is one piece; one with it is the piece before the first
/// and the pieces of what follows.
pub proof fn lemma_split(a: Seq<char>, sep: char, rest: Seq<char>)
    requires
        !a.contains(sep),
    ensures
        split_text(a, sep) == seq![a],
        split_text(a + seq![sep] + rest, sep) == seq![a] + split_text(rest, sep),
{
    let s = a + seq![sep] + rest;
    let n = a.len() as int;
    assert(s[n] == sep);
    assert(s.contains(sep));
    s.index_of_first_ensures(sep);
    let i = s.index_of_first(sep)->0;
    if i < n {
        assert(a[i] == sep);
    }
    assert(i == n);
    assert(s.take(n) =~= a);
    assert(s.skip(n + 1) =~= rest);
}

/// What is left of a text without the white space around it does not begin or end with
/// white space, and only white space was left out.
pub proof fn lemma_trimmed(s: Seq<char>)
    ensures
        trimmed(s).len() > 0 ==> !is_space(trimmed(s)[0]) && !is_space(trimmed(s).last()),
        exists|a: Seq<char>, b: Seq<char>| #[trigger] around(s, a, trimmed(s), b),
    decreases s.len(),
{
    if s.len() == 0 || (!is_space(s[0]) && !is_space(s.last())) {
        assert(around(s, Seq::empty(), s, Seq::empty())) by {
            assert(s =~= Seq::empty() + s + Seq::empty());
        }
    } else if is_space(s[0]) {
        let rest = s.drop_first();
        lemma_trimmed(rest);
        let (a, b) = choose|a: Seq<char>, b: Seq<char>| #[trigger]
            around(rest, a, trimmed(rest), b);
        let c = seq![s[0]] + a;
        assert(s =~= c + trimmed(s) + b) by {
            assert(s =~= seq![s[0]] + rest);
        }
        assert(around(s, c, trimmed(s), b));
    } else {
        let rest = s.drop_last();
        lemma_trimmed(rest);
        let (a, b) = choose|a: Seq<char>, b: Seq<char>| #[trigger]
            around(rest, a, trimmed(rest), b);
        let c = b + seq![s.last()];
        assert(s =~= a + trimmed(s) + c) by {
            assert(s =~= rest + seq![s.last()]);
        }
        assert(around(s, a, trimmed(s), c));
    }
}

/// `s` is `t` with white space before and behind it.
pub open spec fn around(s: Seq<char>, before: Seq<char>, t: Seq<char>, behind: Seq<char>) -> bool {
    &&& s == before + t + behind
    &&& forall|i: int| 0 <= i < before.len() ==> is_space(#[trigger] before[i])
    &&& forall|i: int| 0 <= i < behind.len() ==> is_space(#[trigger] behind[i])
}

/// White space is the tab and the four characters that end or feed a line or a page,
/// the space, and the wider, narrower and unbroken spaces.
pub proof fn lemma_spaces(c: char)
    ensures
        is_space(c) <==> (c == '\t' || c == '\n' || c == '\u{b}' || c == '\u{c}' || c == '\r' || c == ' ' || c
            == '\u{85}' || c == '\u{a0}' || c == '\u{1680}' || c == '\u{2000}' || c ==
            '\u{2001}' || c == '\u{2002}' || c == '\u{2003}' || c == '\u{2004}' || c ==
            '\u{2005}' || c == '\u{2006}' || c == '\u{2007}' || c == '\u{2008}' || c ==
            '\u{2009}' || c == '\u{200a}' || c == '\u{2028}' || c == '\u{2029}' || c ==
            '\u{202f}' || c == '\u{205f}' || c == '\u{3000}'),
{
}

/// Of the characters only the twenty-six capital letters have another form in lower
/// case, which is the letter at the same place in the alphabet.
pub proof fn lemma_lower(c: char)
    ensures
        "ABCDEFGHIJKLMNOPQRSTUVWXYZ"@.len() == 26,
        "abcdefghijklmnopqrstuvwxyz"@.len() == 26,
        forall|i: int|
            0 <= i < 26 ==> ascii_lower(#[trigger] "ABCDEFGHIJKLMNOPQRSTUVWXYZ"@[i])
                == "abcdefghijklmnopqrstuvwxyz"@[i],
        !"ABCDEFGHIJKLMNOPQRSTUVWXYZ"@.contains(c) ==> ascii_lower(c) == c,
{
    reveal_strlit("ABCDEFGHIJKLMNOPQRSTUVWXYZ");
    reveal_strlit("abcdefghijklmnopqrstuvwxyz");
    let (a, b) = ("ABCDEFGHIJKLMNOPQRSTUVWXYZ"@, "abcdefghijklmnopqrstuvwxyz"@);
    assert forall|i: int| 0 <= i < 26 implies ascii_lower(#[trigger] a[i]) == b[i] && a[i] as u32
        == 65 + i by {
        if i < 13 {
            if i < 6 {
            } else {
            }
        } else {
            if i < 19 {
            } else {
            }
        }
    }
    if 'A' <= c <= 'Z' {
        let i = c as u32 - 65;
        assert(a[i] as u32 == 65 + i);
        assert(a[i] == c);
    }
}

/// A text takes as many bytes as its encoding has.
pub proof fn lemma_width_is_encoded(s: Seq<char>)
    ensures
        text_width(s) == encode_utf8(s).len(),
    decreases s.len(),
{
    if s.len() > 0 {
        lemma_width_is_encoded(s.drop_first());
        lemma_width_first(s);
        let u = s[0] as u32;
        char_is_scalar(s[0]);
        assert(encode_scalar(u).len() == char_width(s[0]));
        assert(encode_utf8(s) == encode_scalar(u) + encode_utf8(s.drop_first()));
    }
}

proof fn lemma_width_first(s: Seq<char>)
    requires
        s.len() > 0,
    ensures
        text_width(s) == char_width(s[0]) + text_width(s.drop_first()),
    decreases s.len(),
{
    if s.len() == 1 {
        assert(s.drop_last() =~= Seq::empty());
        assert(s.drop_first() =~= Seq::empty());
        assert(text_width(s.drop_last()) == 0);
    } else {
        let t = s.drop_last();
        lemma_width_first(t);
        assert(t.drop_first() =~= s.drop_first().drop_last());
        assert(s.drop_first().last() == s.last());
    }
}

/// A number has a digit more where it is ten times as large and the digit is added. A
/// text with anything but digits behind its first character is no number, nor is one
/// that begins with anything but a digit or a plus sign.
pub proof fn lemma_number(s: Seq<char>, d: nat)
    requires
        d < 10,
    ensures
        number_of(s) matches Some(n) ==> number_of(s.push(digit_char(d))) == if 10 * n + d
            <= u64::MAX {
            Some((10 * n + d) as u64)
        } else {
            None
        },
        number_of(s) is Some ==> s.len() > 0 && (is_digit(s[0]) || s[0] == '+' && s.len() > 1) && (
        forall|i: int| 0 < i < s.len() ==> is_digit(#[trigger] s[i])),
        number_of(seq![digit_char(d)]) == Some(d as u64),
{
    let one = seq![digit_char(d)];
    assert(one.drop_last() =~= Seq::empty());
    assert(digits_value(one.drop_last()) == 0);
    let e = number_digits(s);
    let t = s.push(digit_char(d));
    if number_of(s) is Some {
        assert(is_digit(e[0]));
        assert(number_digits(t) =~= e.push(digit_char(d)));
        assert(e.push(digit_char(d)).drop_last() =~= e);
        let g = number_digits(t);
        assert forall|i: int| 0 <= i < g.len() implies is_digit(#[trigger] g[i]) by {
            if i < e.len() {
                assert(is_digit(e[i]));
            }
        }
        assert forall|i: int| 0 < i < s.len() implies is_digit(#[trigger] s[i]) by {
            if s[0] == '+' && s.len() > 1 {
                assert(e[i - 1] == s[i]);
            } else {
                assert(e[i] == s[i]);
            }
        }
    }
}

/// The pieces between the separators, joined by the separator, are the text again.
pub proof fn lemma_split_joins(s: Seq<char>, sep: char)
    ensures
        split_text(s, sep).len() > 0,
        join_text(split_text(s, sep), seq![sep]) == s,
    decreases s.len(),
{
    let p = split_text(s, sep);
    if s.contains(sep) {
        s.index_of_first_ensures(sep);
        let i = s.index_of_first(sep)->0;
        let rest = split_text(s.skip(i + 1), sep);
        lemma_split_joins(s.skip(i + 1), sep);
        lemma_join_first(seq![s.take(i)] + rest, seq![sep]);
        assert((seq![s.take(i)] + rest).drop_first() =~= rest);
        assert(s =~= s.take(i) + seq![sep] + s.skip(i + 1));
    }
}

proof fn lemma_join_first(parts: Seq<Seq<char>>, sep: Seq<char>)
    requires
        parts.len() > 1,
    ensures
        join_text(parts, sep) == parts[0] + sep + join_text(parts.drop_first(), sep),
    decreases parts.len(),
{
    let (a, b) = (parts.drop_last(), parts.drop_first());
    if parts.len() == 2 {
        assert(join_text(a, sep) == parts[0]);
        assert(join_text(b, sep) == parts[1]);
    } else {
        lemma_join_first(a, sep);
        assert(a.drop_first() =~= b.drop_last());
        assert(parts[0] + sep + (join_text(b.drop_last(), sep) + sep + parts.last()) =~= parts[0]
            + sep + join_text(b.drop_last(), sep) + sep + parts.last());
    }
}

/// Where one character takes the place of another, every other stays where it is.
pub proof fn lemma_replaced(s: Seq<char>, from: char, to: char)
    ensures
        replace_text(s, from, seq![to]).len() == s.len(),
        forall|i: int|
            0 <= i < s.len() ==> #[trigger] replace_text(s, from, seq![to])[i] == if s[i] == from {
                to
            } else {
                s[i]
            },
    decreases s.len(),
{
    if s.len() > 0 {
        lemma_replaced(s.drop_last(), from, to);
    }
}

} // verus!
