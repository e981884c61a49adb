//! Text as sequences of characters: conversion, numbers, concatenation.
use vstd::prelude::*;

verus! {

/// Appends a character: `String::push` of the standard library, which adds the
/// character at the end and leaves the rest as it is.
#[verifier::external_body]
pub(crate) fn push_char(s: &mut String, c: char)
    ensures
        final(s)@ == old(s)@.push(c),
{
    s.push(c);
}

/// The characters of a text.
pub fn chars_of(s: &str) -> (out: Vec<char>)
    ensures
        out@ == s@,
{
    let mut out: Vec<char> = Vec::new();
    for c in it: s.chars()
        invariant
            out@ == it.seq().take(it.index() as int),
            it.seq() == s@,
    {
        out.push(c);
    }
    out
}

/// The text with the given characters.
pub fn string_of(chars: &[char]) -> (out: String)
    ensures
        out@ == chars@,
{
    let mut out: String = String::new();
    let mut i: usize = 0;
    while i < chars.len()
        invariant
            i <= chars@.len(),
            out@ == chars@.take(i as int),
        decreases chars@.len() - i,
    {
        push_char(&mut out, chars[i]);
        i = i + 1;
    }
    assert(chars@.take(i as int) =~= chars@);
    out
}

/// The character of a decimal digit.
pub open spec fn digit_char(d: int) -> char {
    if d == 0 {
        '0'
    } else if d == 1 {
        '1'
    } else if d == 2 {
        '2'
    } else if d == 3 {
        '3'
    } else if d == 4 {
        '4'
    } else if d == 5 {
        '5'
    } else if d == 6 {
        '6'
    } else if d == 7 {
        '7'
    } else if d == 8 {
        '8'
    } else {
        '9'
    }
}

/// A number in decimal notation, without leading zeros.
pub open spec fn decimal(n: nat) -> Seq<char>
    decreases n,
{
    if n < 10 {
        seq![digit_char(n as int)]
    } else {
        decimal(n / 10).push(digit_char(n as int % 10))
    }
}

/// An integer in decimal notation.
pub open spec fn signed_decimal(n: int) -> Seq<char> {
    if n < 0 {
        seq!['-'] + decimal((-n) as nat)
    } else {
        decimal(n as nat)
    }
}

fn digit_of(d: u64) -> (c: char)
    requires
        d < 10,
    ensures
        c == digit_char(d as int),
{
    match d {
        0 => '0',
        1 => '1',
        2 => '2',
        3 => '3',
        4 => '4',
        5 => '5',
        6 => '6',
        7 => '7',
        8 => '8',
        _ => '9',
    }
}

/// Appends a number in decimal notation.
pub fn push_decimal(s: &mut String, n: u64)
    ensures
        final(s)@ == old(s)@ + decimal(n as nat),
    decreases n,
{
    if n >= 10 {
        push_decimal(s, n / 10);
    }
    push_char(s, digit_of(n % 10));
    assert(s@ =~= old(s)@ + decimal(n as nat));
}

/// A number in decimal notation.
pub fn decimal_text(n: usize) -> (s: String)
    ensures
        s@ == decimal(n as nat),
{
    let mut s: String = String::new();
    push_decimal(&mut s, n as u64);
    assert(s@ =~= decimal(n as nat));
    s
}

/// An integer in decimal notation.
pub fn signed_text(n: i64) -> (s: String)
    ensures
        s@ == signed_decimal(n as int),
{
    let mut s: String = String::new();
    if n < 0 {
        push_char(&mut s, '-');
        let m: u64 = (-(n as i128)) as u64;
        push_decimal(&mut s, m);
    } else {
        push_decimal(&mut s, n as u64);
    }
    assert(s@ =~= signed_decimal(n as int));
    s
}

/// The concatenation of the parts.
pub open spec fn joined(parts: Seq<Seq<char>>) -> Seq<char>
    decreases parts.len(),
{
    if parts.len() == 0 {
        Seq::empty()
    } else {
        joined(parts.drop_last()) + parts.last()
    }
}

/// The parts with a separator between neighbours.
pub open spec fn separated(parts: Seq<Seq<char>>, sep: Seq<char>) -> Seq<char>
    decreases parts.len(),
{
    if parts.len() == 0 {
        Seq::empty()
    } else if parts.len() == 1 {
        parts[0]
    } else {
        separated(parts.drop_last(), sep) + sep + parts.last()
    }
}

/// The views of a list of texts.
pub open spec fn views(parts: Seq<String>) -> Seq<Seq<char>> {
    parts.map_values(|s: String| s@)
}

/// Joins the parts with a separator between neighbours.
pub fn join(parts: &[String], sep: &str) -> (out: String)
    ensures
        out@ == separated(views(parts@), sep@),
{
    let mut out: String = String::new();
    let mut i: usize = 0;
    while i < parts.len()
        invariant
            i <= parts@.len(),
            out@ == separated(views(parts@).take(i as int), sep@),
        decreases parts@.len() - i,
    {
        let ghost before = out@;
        if i > 0 {
            out.append(sep);
        }
        out.append(parts[i].as_str());
        proof {
            let v = views(parts@);
            assert(v.take(i + 1).drop_last() =~= v.take(i as int));
            assert(out@ =~= separated(v.take(i + 1), sep@));
        }
        i = i + 1;
    }
    assert(views(parts@).take(i as int) =~= views(parts@));
    out
}

// ===== Characters =====

/// White space: the characters with the Unicode property White_Space.
pub open spec fn white(c: char) -> bool {
    let n = c as u32;
    ||| 0x9 <= n <= 0xd
    ||| n == 0x20
    ||| n == 0x85
    ||| n == 0xa0
    ||| n == 0x1680
    ||| 0x2000 <= n <= 0x200a
    ||| n == 0x2028
    ||| n == 0x2029
    ||| n == 0x202f
    ||| n == 0x205f
    ||| n == 0x3000
}

/// Whether a character is white space.
pub fn is_white(c: char) -> (r: bool)
    ensures
        r == white(c),
{
    let n: u32 = c as u32;
    (0x9 <= n && n <= 0xd) || n == 0x20 || n == 0x85 || n == 0xa0 || n == 0x1680 || (0x2000 <= n && n
        <= 0x200a) || n == 0x2028 || n == 0x2029 || n == 0x202f || n == 0x205f || n == 0x3000
}

/// A decimal digit of ASCII.
pub open spec fn ascii_digit(c: char) -> bool {
    '0' <= c <= '9'
}

/// The value of a decimal digit.
pub open spec fn digit_value(c: char) -> int {
    c as int - '0' as int
}

pub fn is_ascii_digit(c: char) -> (r: bool)
    ensures
        r == ascii_digit(c),
{
    '0' <= c && c <= '9'
}

pub fn value_of_digit(c: char) -> (d: u64)
    requires
        ascii_digit(c),
    ensures
        d == digit_value(c),
        d < 10,
{
    (c as u32 - '0' as u32) as u64
}

// ===== Parts of a text =====

/// A copy of the characters from `i` up to `j`.
pub fn part(s: &[char], i: usize, j: usize) -> (out: Vec<char>)
    requires
        i <= j <= s@.len(),
    ensures
        out@ == s@.subrange(i as int, j as int),
{
    let mut out: Vec<char> = Vec::new();
    let mut k: usize = i;
    while k < j
        invariant
            i <= k <= j <= s@.len(),
            out@ == s@.subrange(i as int, k as int),
        decreases j - k,
    {
        out.push(s[k]);
        assert(out@ =~= s@.subrange(i as int, k + 1));
        k = k + 1;
    }
    out
}

/// Whether two texts are equal.
pub fn same(a: &[char], b: &[char]) -> (r: bool)
    ensures
        r == (a@ == b@),
{
    if a.len() != b.len() {
        return false;
    }
    let mut i: usize = 0;
    while i < a.len()
        invariant
            a@.len() == b@.len(),
            i <= a@.len(),
            forall|j: int| 0 <= j < i ==> a@[j] == b@[j],
        decreases a@.len() - i,
    {
        if a[i] != b[i] {
            assert(a@[i as int] != b@[i as int]);
            return false;
        }
        i = i + 1;
    }
    assert(a@ =~= b@);
    true
}

/// Whether a list of characters is the given text.
pub fn is_text(a: &[char], b: &str) -> (r: bool)
    ensures
        r == (a@ == b@),
{
    let c: Vec<char> = chars_of(b);
    same(a, &c)
}

/// Whether two texts are equal.
pub fn equal(a: &str, b: &str) -> (r: bool)
    ensures
        r == (a@ == b@),
{
    let x: Vec<char> = chars_of(a);
    is_text(&x, b)
}

/// `s` begins with `p`.
pub open spec fn starts(s: Seq<char>, p: Seq<char>) -> bool {
    p.len() <= s.len() && s.take(p.len() as int) == p
}

/// `s` ends with `p`.
pub open spec fn ends(s: Seq<char>, p: Seq<char>) -> bool {
    p.len() <= s.len() && s.skip(s.len() - p.len()) == p
}

pub fn starts_with(s: &[char], p: &[char]) -> (r: bool)
    ensures
        r == starts(s@, p@),
{
    if p.len() > s.len() {
        return false;
    }
    let head: Vec<char> = part(s, 0, p.len());
    same(&head, p)
}

pub fn ends_with(s: &[char], p: &[char]) -> (r: bool)
    ensures
        r == ends(s@, p@),
{
    if p.len() > s.len() {
        return false;
    }
    let tail: Vec<char> = part(s, s.len() - p.len(), s.len());
    assert(tail@ =~= s@.skip(s@.len() - p@.len()));
    same(&tail, p)
}

/// The text without white space at its start.
pub open spec fn trimmed_start(s: Seq<char>) -> Seq<char>
    decreases s.len(),
{
    if s.len() > 0 && white(s[0]) {
        trimmed_start(s.drop_first())
    } else {
        s
    }
}

/// The text without white space at its end.
pub open spec fn trimmed_end(s: Seq<char>) -> Seq<char>
    decreases s.len(),
{
    if s.len() > 0 && white(s.last()) {
        trimmed_end(s.drop_last())
    } else {
        s
    }
}

/// The text without white space at its ends.
pub open spec fn trimmed(s: Seq<char>) -> Seq<char> {
    trimmed_end(trimmed_start(s))
}

/// The text without white space at its ends.
pub fn trim(s: &[char]) -> (out: Vec<char>)
    ensures
        out@ == trimmed(s@),
{
    let n: usize = s.len();
    let mut i: usize = 0;
    assert(s@.subrange(0, n as int) =~= s@);
    while i < n && is_white(s[i])
        invariant
            n == s@.len(),
            i <= n,
            trimmed_start(s@) == trimmed_start(s@.subrange(i as int, n as int)),
        decreases n - i,
    {
        assert(s@.subrange(i as int, n as int).drop_first() =~= s@.subrange(i + 1, n as int));
        i = i + 1;
    }
    let ghost t = s@.subrange(i as int, n as int);
    assert(trimmed_start(s@) == t);
    let mut j: usize = n;
    while j > i && is_white(s[j - 1])
        invariant
            n == s@.len(),
            i <= j <= n,
            trimmed_end(t) == trimmed_end(s@.subrange(i as int, j as int)),
        decreases j - i,
    {
        assert(s@.subrange(i as int, j as int).drop_last() =~= s@.subrange(i as int, j - 1));
        j = j - 1;
    }
    assert(trimmed_end(t) == s@.subrange(i as int, j as int));
    part(s, i, j)
}

/// The views of a list of character lists.
pub open spec fn texts(v: Seq<Vec<char>>) -> Seq<Seq<char>> {
    v.map_values(|x: Vec<char>| x@)
}

/// The pieces of a text between the separators.
pub open spec fn pieces(s: Seq<char>, sep: char) -> Seq<Seq<char>>
    decreases s.len(),
{
    if s.len() == 0 {
        seq![Seq::empty()]
    } else {
        let p = pieces(s.drop_last(), sep);
        if s.last() == sep {
            p.push(Seq::empty())
        } else {
            p.update(p.len() - 1, p.last().push(s.last()))
        }
    }
}

/// Splits a text at every separator.
pub fn split(s: &[char], sep: char) -> (out: Vec<Vec<char>>)
    ensures
        texts(out@) == pieces(s@, sep),
        out@.len() >= 1,
{
    let mut out: Vec<Vec<char>> = Vec::new();
    let mut cur: Vec<char> = Vec::new();
    let mut i: usize = 0;
    assert(s@.take(0) =~= Seq::<char>::empty());
    assert(texts(out@).push(cur@) =~= pieces(s@.take(0), sep));
    while i < s.len()
        invariant
            i <= s@.len(),
            texts(out@).push(cur@) == pieces(s@.take(i as int), sep),
        decreases s@.len() - i,
    {
        let ghost before = texts(out@);
        let ghost word = cur@;
        assert(s@.take(i + 1).drop_last() =~= s@.take(i as int));
        let c: char = s[i];
        if c == sep {
            out.push(cur);
            cur = Vec::new();
            assert(texts(out@) =~= before.push(word));
            assert(texts(out@).push(cur@) =~= pieces(s@.take(i + 1), sep));
        } else {
            cur.push(c);
            assert(before.push(word).update(before.len() as int, word.push(c)) =~= texts(out@).push(
                cur@,
            ));
        }
        i = i + 1;
    }
    assert(s@.take(i as int) =~= s@);
    let ghost before = texts(out@);
    let ghost word = cur@;
    out.push(cur);
    assert(texts(out@) =~= before.push(word));
    out
}

/// The maximal runs of characters that are no white space.
pub open spec fn word_list(s: Seq<char>) -> Seq<Seq<char>>
    decreases s.len(),
{
    if s.len() == 0 {
        Seq::empty()
    } else {
        let w = word_list(s.drop_last());
        if white(s.last()) {
            w
        } else if s.len() == 1 || white(s[s.len() - 2]) {
            w.push(seq![s.last()])
        } else {
            w.update(w.len() - 1, w.last().push(s.last()))
        }
    }
}

/// Splits a text at white space.
pub fn words(s: &[char]) -> (out: Vec<Vec<char>>)
    ensures
        texts(out@) == word_list(s@),
{
    let mut out: Vec<Vec<char>> = Vec::new();
    let mut cur: Vec<char> = Vec::new();
    let mut i: usize = 0;
    while i < s.len()
        invariant
            i <= s@.len(),
            cur@.len() == 0 <==> (i == 0 || white(s@[i - 1])),
            (if cur@.len() == 0 {
                texts(out@)
            } else {
                texts(out@).push(cur@)
            }) =~= word_list(s@.take(i as int)),
        decreases s@.len() - i,
    {
        let ghost before = texts(out@);
        let ghost word = cur@;
        assert(s@.take(i + 1).drop_last() =~= s@.take(i as int));
        let c: char = s[i];
        if is_white(c) {
            if cur.len() > 0 {
                out.push(cur);
                cur = Vec::new();
                assert(texts(out@) =~= before.push(word));
            }
        } else {
            cur.push(c);
            proof {
                if word.len() == 0 {
                    assert(cur@ =~= seq![c]);
                } else {
                    assert(before.push(word).update(before.len() as int, word.push(c)) =~= texts(
                        out@,
                    ).push(cur@));
                }
            }
        }
        i = i + 1;
    }
    assert(s@.take(i as int) =~= s@);
    let ghost before = texts(out@);
    let ghost word = cur@;
    if cur.len() > 0 {
        out.push(cur);
        assert(texts(out@) =~= before.push(word));
    }
    out
}

/// A line without the carriage return before its line feed.
pub open spec fn without_return(s: Seq<char>) -> Seq<char> {
    if s.len() > 0 && s.last() == '\r' {
        s.drop_last()
    } else {
        s
    }
}

/// The lines of a text: the pieces that end in a line feed, without a carriage
/// return before it, and the rest, where there is any.
pub open spec fn line_list(s: Seq<char>) -> Seq<Seq<char>> {
    let p = pieces(s, '\n');
    let ended = p.drop_last().map_values(|x: Seq<char>| without_return(x));
    if p.last().len() == 0 {
        ended
    } else {
        ended.push(p.last())
    }
}

/// Splits a text into its lines.
pub fn lines(s: &[char]) -> (out: Vec<Vec<char>>)
    ensures
        texts(out@) == line_list(s@),
{
    let all: Vec<Vec<char>> = split(s, '\n');
    let ghost p = texts(all@);
    let n: usize = all.len();
    let mut out: Vec<Vec<char>> = Vec::new();
    let mut i: usize = 0;
    while i < n - 1
        invariant
            n == all@.len(),
            n >= 1,
            p == texts(all@),
            i <= n - 1,
            texts(out@) =~= p.take(i as int).map_values(|x: Seq<char>| without_return(x)),
        decreases n - i,
    {
        let ghost before = texts(out@);
        let line: &Vec<char> = &all[i];
        assert(p[i as int] == line@);
        let m: usize = line.len();
        let l: Vec<char> = if m > 0 && line[m - 1] == '\r' {
            part(line, 0, m - 1)
        } else {
            part(line, 0, m)
        };
        assert(l@ =~= without_return(line@));
        out.push(l);
        assert(texts(out@) =~= before.push(l@));
        i = i + 1;
    }
    let last: &Vec<char> = &all[n - 1];
    assert(p[n - 1] == last@);
    assert(p.take(n - 1) =~= p.drop_last());
    if last.len() > 0 {
        let ghost before = texts(out@);
        let l: Vec<char> = part(last, 0, last.len());
        assert(l@ =~= last@);
        out.push(l);
        assert(texts(out@) =~= before.push(l@));
    }
    out
}

// ===== Numbers =====

/// All characters are decimal digits, and there is at least one.
pub open spec fn digit_text(s: Seq<char>) -> bool {
    s.len() > 0 && forall|i: int| 0 <= i < s.len() ==> ascii_digit(#[trigger] s[i])
}

/// The number that decimal digits stand for.
pub open spec fn digits_value(s: Seq<char>) -> nat
    decreases s.len(),
{
    if s.len() == 0 {
        0
    } else {
        digits_value(s.drop_last()) * 10 + digit_value(s.last()) as nat
    }
}

/// The text without a leading plus sign.
pub open spec fn without_plus(s: Seq<char>) -> Seq<char> {
    if s.len() > 0 && s[0] == '+' {
        s.drop_first()
    } else {
        s
    }
}

/// The unsigned number a text stands for, where it is at most `max`.
pub open spec fn unsigned_value(s: Seq<char>, max: nat) -> Option<nat> {
    let t = without_plus(s);
    if digit_text(t) && digits_value(t) <= max {
        Some(digits_value(t))
    } else {
        None
    }
}

/// The integer of 64 bits a text stands for.
pub open spec fn signed_value(s: Seq<char>) -> Option<int> {
    if s.len() > 0 && s[0] == '-' {
        let t = s.drop_first();
        if digit_text(t) && digits_value(t) <= 0x8000_0000_0000_0000 {
            Some(-(digits_value(t) as int))
        } else {
            None
        }
    } else {
        match unsigned_value(s, 0x7fff_ffff_ffff_ffff) {
            Some(n) => Some(n as int),
            None => None,
        }
    }
}

proof fn lemma_digits_value_grows(s: Seq<char>, i: int)
    requires
        0 <= i <= s.len(),
        forall|j: int| 0 <= j < s.len() ==> ascii_digit(#[trigger] s[j]),
    ensures
        digits_value(s.take(i)) <= digits_value(s),
    decreases s.len() - i,
{
    if i < s.len() {
        assert(s.take(i + 1).drop_last() =~= s.take(i));
        assert(s.take(i + 1).last() == s[i]);
        lemma_digits_value_grows(s, i + 1);
    } else {
        assert(s.take(i) =~= s);
    }
}

/// The number that the characters from `start` on stand for, where they are
/// digits and it is at most `max`.
fn parse_digits(s: &[char], start: usize, max: u64) -> (r: Option<u64>)
    requires
        start <= s@.len(),
    ensures
        match r {
            Some(n) => digit_text(s@.skip(start as int)) && n == digits_value(
                s@.skip(start as int),
            ) && n <= max,
            None => !digit_text(s@.skip(start as int)) || digits_value(s@.skip(start as int)) > max,
        },
{
    let ghost t = s@.skip(start as int);
    if start == s.len() {
        return None;
    }
    let mut i: usize = start;
    while i < s.len()
        invariant
            start <= i <= s@.len(),
            t == s@.skip(start as int),
            forall|j: int| 0 <= j < i - start ==> ascii_digit(#[trigger] t[j]),
        decreases s@.len() - i,
    {
        if !is_ascii_digit(s[i]) {
            assert(!ascii_digit(t[i - start]));
            return None;
        }
        assert(t[i - start] == s@[i as int]);
        i = i + 1;
    }
    let mut n: u64 = 0;
    let mut k: usize = start;
    while k < s.len()
        invariant
            start <= k <= s@.len(),
            start < s@.len(),
            t == s@.skip(start as int),
            digit_text(t),
            n <= max,
            n == digits_value(t.take(k - start)),
        decreases s@.len() - k,
    {
        assert(t[k - start] == s@[k as int]);
        assert(t.take(k - start + 1).drop_last() =~= t.take(k - start));
        assert(t.take(k - start + 1).last() == t[k - start]);
        proof {
            lemma_digits_value_grows(t, k - start + 1);
        }
        let d: u64 = value_of_digit(s[k]);
        match n.checked_mul(10) {
            None => {
                return None;
            },
            Some(m) => match m.checked_add(d) {
                None => {
                    return None;
                },
                Some(v) => {
                    if v > max {
                        return None;
                    }
                    n = v;
                },
            },
        }
        k = k + 1;
    }
    assert(t.take(k - start) =~= t);
    Some(n)
}

/// Reads an unsigned number of at most `max`, with or without a plus sign.
pub fn parse_unsigned(s: &[char], max: u64) -> (r: Option<u64>)
    ensures
        match r {
            Some(n) => unsigned_value(s@, max as nat) == Some(n as nat),
            None => unsigned_value(s@, max as nat) is None,
        },
{
    let start: usize = if s.len() > 0 && s[0] == '+' { 1 } else { 0 };
    assert(s@.skip(start as int) =~= without_plus(s@));
    parse_digits(s, start, max)
}

/// Reads a number of the machine's size.
pub fn parse_usize(s: &[char]) -> (r: Option<usize>)
    ensures
        match r {
            Some(n) => unsigned_value(s@, usize::MAX as nat) == Some(n as nat),
            None => unsigned_value(s@, usize::MAX as nat) is None,
        },
{
    match parse_unsigned(s, usize::MAX as u64) {
        Some(n) => Some(n as usize),
        None => None,
    }
}

/// Reads an integer of 64 bits.
pub fn parse_i64(s: &[char]) -> (r: Option<i64>)
    ensures
        match r {
            Some(n) => signed_value(s@) == Some(n as int),
            None => signed_value(s@) is None,
        },
{
    if s.len() > 0 && s[0] == '-' {
        assert(s@.skip(1) =~= s@.drop_first());
        match parse_digits(s, 1, 0x8000_0000_0000_0000) {
            Some(n) => Some((-(n as i128)) as i64),
            None => None,
        }
    } else {
        match parse_unsigned(s, 0x7fff_ffff_ffff_ffff) {
            Some(n) => Some(n as i64),
            None => None,
        }
    }
}

/// `n` zeros.
pub open spec fn zero_text(n: nat) -> Seq<char> {
    Seq::new(n, |i: int| '0')
}

/// A number in decimal notation, filled up with zeros to a width.
pub open spec fn padded(n: nat, width: nat) -> Seq<char> {
    let d = decimal(n);
    if d.len() >= width {
        d
    } else {
        zero_text((width - d.len()) as nat) + d
    }
}

/// A number in decimal notation, filled up with zeros to a width.
pub fn padded_text(n: u64, width: usize) -> (s: String)
    ensures
        s@ == padded(n as nat, width as nat),
{
    let mut d: String = String::new();
    push_decimal(&mut d, n);
    assert(d@ =~= decimal(n as nat));
    let len: usize = d.as_str().unicode_len();
    let mut s: String = String::new();
    let mut i: usize = len;
    while i < width
        invariant
            len <= i,
            i <= width || i == len,
            s@ =~= zero_text((i - len) as nat),
        decreases width - i,
    {
        push_char(&mut s, '0');
        i = i + 1;
    }
    s.append(d.as_str());
    assert(s@ =~= padded(n as nat, width as nat));
    s
}

/// Number of characters of a text.
pub fn char_count(s: &str) -> (n: usize)
    ensures
        n == s@.len(),
{
    s.unicode_len()
}

/// `n` spaces.
pub open spec fn spaces(n: nat) -> Seq<char> {
    Seq::new(n, |i: int| ' ')
}

/// How many characters are missing to a width.
pub open spec fn missing(s: Seq<char>, width: nat) -> nat {
    if s.len() >= width {
        0
    } else {
        (width - s.len()) as nat
    }
}

/// The text filled up with spaces at its end.
pub open spec fn left_aligned(s: Seq<char>, width: nat) -> Seq<char> {
    s + spaces(missing(s, width))
}

/// The text filled up with spaces at its start.
pub open spec fn right_aligned(s: Seq<char>, width: nat) -> Seq<char> {
    spaces(missing(s, width)) + s
}

fn push_spaces(out: &mut String, n: usize)
    ensures
        final(out)@ == old(out)@ + spaces(n as nat),
{
    let ghost before = out@;
    let mut i: usize = 0;
    while i < n
        invariant
            i <= n,
            out@ =~= before + spaces(i as nat),
        decreases n - i,
    {
        push_char(out, ' ');
        i = i + 1;
    }
    assert(out@ =~= before + spaces(n as nat));
}

/// Appends a text, filled up with spaces at its end.
pub fn push_left_aligned(out: &mut String, s: &str, width: usize)
    ensures
        final(out)@ == old(out)@ + left_aligned(s@, width as nat),
{
    let len: usize = s.unicode_len();
    let ghost before = out@;
    out.append(s);
    if len < width {
        push_spaces(out, width - len);
    }
    assert(out@ =~= before + left_aligned(s@, width as nat));
}

/// Appends a text, filled up with spaces at its start.
pub fn push_right_aligned(out: &mut String, s: &str, width: usize)
    ensures
        final(out)@ == old(out)@ + right_aligned(s@, width as nat),
{
    let len: usize = s.unicode_len();
    let ghost before = out@;
    if len < width {
        push_spaces(out, width - len);
    }
    out.append(s);
    assert(out@ =~= before + right_aligned(s@, width as nat));
}

/// The text without white space at its end.
pub fn trim_end(s: &str) -> (out: String)
    ensures
        out@ == trimmed_end(s@),
{
    let all: Vec<char> = chars_of(s);
    let mut n: usize = all.len();
    assert(all@.take(n as int) =~= all@);
    while n > 0 && is_white(all[n - 1])
        invariant
            n <= all@.len(),
            trimmed_end(all@) == trimmed_end(all@.take(n as int)),
        decreases n,
    {
        assert(all@.take(n as int).drop_last() =~= all@.take(n - 1));
        n = n - 1;
    }
    let kept: Vec<char> = part(&all, 0, n);
    assert(kept@ =~= all@.take(n as int));
    string_of(&kept)
}

/// The digits of a number stand for it.
pub proof fn lemma_decimal_value(n: nat)
    ensures
        digit_text(decimal(n)),
        digits_value(decimal(n)) == n,
    decreases n,
{
    if n >= 10 {
        lemma_decimal_value(n / 10);
        let d = decimal(n);
        assert(d.drop_last() =~= decimal(n / 10));
        assert(d.last() == digit_char(n as int % 10));
        assert(digit_value(d.last()) == n % 10);
        assert(digits_value(d) == digits_value(d.drop_last()) * 10 + digit_value(d.last()) as nat);
    } else {
        let d = decimal(n);
        assert(d.drop_last() =~= Seq::<char>::empty());
        assert(digit_value(d.last()) == n);
        assert(digits_value(d) == digits_value(d.drop_last()) * 10 + digit_value(d.last()) as nat);
    }
}

/// Zeros in front leave the number that digits stand for.
proof fn lemma_zeros_value(k: nat, d: Seq<char>)
    ensures
        digits_value(zero_text(k) + d) == digits_value(d),
    decreases k + d.len(),
{
    let s = zero_text(k) + d;
    if d.len() > 0 {
        assert(s.drop_last() =~= zero_text(k) + d.drop_last());
        lemma_zeros_value(k, d.drop_last());
    } else if k > 0 {
        assert(s.drop_last() =~= zero_text((k - 1) as nat) + d);
        lemma_zeros_value((k - 1) as nat, d);
    } else {
        assert(s =~= d);
    }
}

/// A padded number is a row of digits that stands for the number.
pub proof fn lemma_padded_value(n: nat, width: nat)
    ensures
        digit_text(padded(n, width)),
        digits_value(padded(n, width)) == n,
        padded(n, width).len() >= width,
{
    lemma_decimal_value(n);
    let d = decimal(n);
    if d.len() < width {
        lemma_zeros_value((width - d.len()) as nat, d);
    }
}

/// A large number in decimal notation.
pub fn big_decimal_text(n: u128) -> (s: String)
    ensures
        s@ == decimal(n as nat),
    decreases n,
{
    if n < 10 {
        let mut s: String = String::new();
        push_char(&mut s, digit_of(n as u64));
        assert(s@ =~= decimal(n as nat));
        s
    } else {
        let mut s: String = big_decimal_text(n / 10);
        let ghost before = s@;
        push_char(&mut s, digit_of((n % 10) as u64));
        assert(s@ =~= decimal(n as nat));
        s
    }
}

} // verus!
