//! Text as sequences of characters.
//!
//! The rest of the crate works on text by character position. This module
//! holds the vocabulary its contracts use (searching, trimming, case folding
//! of ASCII letters, byte widths, decimal numerals) and the functions that
//! compute it.

use vstd::prelude::*;
use vstd::string::*;

verus! {

/// `String::push`: the character goes at the end, everything before it stays.
pub assume_specification[ String::push ](s: &mut String, c: char)
    ensures
        final(s)@ == old(s)@.push(c),
;

/// What `char::to_lowercase` makes of a character.
pub uninterp spec fn char_lower(c: char) -> Seq<char>;

/// `char::to_lowercase`, collected: the lowercase mapping of Unicode, which may
/// be several characters. An ASCII capital becomes its small letter and any
/// other ASCII character stays as it is; what happens beyond ASCII is left to
/// the name.
#[verifier::external_body]
pub(crate) fn lower_chars(c: char) -> (out: Vec<char>)
    ensures
        out@ == char_lower(c),
        (c as u32) < 0x80 ==> out@ == seq![ascii_lower(c)],
{
    c.to_lowercase().collect()
}

// ---------------------------------------------------------------------------
// Characters
// ---------------------------------------------------------------------------

/// The Unicode `White_Space` property.
pub open spec fn is_white(c: char) -> bool {
    ||| 0x9 <= c as u32 <= 0xd
    ||| c as u32 == 0x20
    ||| c as u32 == 0x85
    ||| c as u32 == 0xa0
    ||| c as u32 == 0x1680
    ||| 0x2000 <= c as u32 <= 0x200a
    ||| c as u32 == 0x2028
    ||| c as u32 == 0x2029
    ||| c as u32 == 0x202f
    ||| c as u32 == 0x205f
    ||| c as u32 == 0x3000
}

/// Tells whether `c` is white space.
pub fn is_whitespace(c: char) -> (r: bool)
    ensures
        r == is_white(c),
{
    let u: u32 = c as u32;
    (0x9 <= u && u <= 0xd) || u == 0x20 || u == 0x85 || u == 0xa0 || u == 0x1680 || (0x2000 <= u
        && u <= 0x200a) || u == 0x2028 || u == 0x2029 || u == 0x202f || u == 0x205f || u == 0x3000
}

/// `c` with an ASCII capital turned into its small letter.
pub open spec fn ascii_lower(c: char) -> char {
    if 'A' <= c && c <= 'Z' {
        ((c as u32) + 32) as char
    } else {
        c
    }
}

/// `s` with every ASCII capital turned into its small letter.
pub open spec fn ascii_lower_text(s: Seq<char>) -> Seq<char> {
    s.map_values(|c: char| ascii_lower(c))
}

/// The small letter of an ASCII capital, or `c` itself.
pub fn to_ascii_lower(c: char) -> (r: char)
    ensures
        r == ascii_lower(c),
{
    if 'A' <= c && c <= 'Z' {
        ((c as u8) + 32) as char
    } else {
        c
    }
}

/// How many bytes UTF-8 takes for `c`.
pub open spec fn char_width(c: char) -> nat {
    if (c as u32) < 0x80 {
        1
    } else if (c as u32) < 0x800 {
        2
    } else if (c as u32) < 0x10000 {
        3
    } else {
        4
    }
}

/// How many bytes UTF-8 takes for `s`.
pub open spec fn byte_len(s: Seq<char>) -> nat
    decreases s.len(),
{
    if s.len() == 0 {
        0
    } else {
        byte_len(s.drop_last()) + char_width(s.last())
    }
}

/// How many bytes UTF-8 takes for `c`.
pub fn width_of(c: char) -> (w: u128)
    ensures
        w == char_width(c),
{
    let u: u32 = c as u32;
    if u < 0x80 {
        1
    } else if u < 0x800 {
        2
    } else if u < 0x10000 {
        3
    } else {
        4
    }
}

// ---------------------------------------------------------------------------
// Conversion
// ---------------------------------------------------------------------------

/// The characters of `s`, in order.
pub fn chars_of(s: &str) -> (out: Vec<char>)
    ensures
        out@ == s@,
{
    let mut out: Vec<char> = Vec::new();
    for c in it: s.chars()
        invariant
            out@ == it.seq().take(it.index() as int),
    {
        out.push(c);
    }
    out
}

/// The text of the characters from `from` up to `to`.
pub fn string_of(v: &Vec<char>, from: usize, to: usize) -> (out: String)
    requires
        from <= to <= v@.len(),
    ensures
        out@ == v@.subrange(from as int, to as int),
{
    let mut out = String::new();
    let mut i: usize = from;
    while i < to
        invariant
            from <= i <= to <= v@.len(),
            out@ == v@.subrange(from as int, i as int),
        decreases to - i,
    {
        out.push(v[i]);
        i = i + 1;
    }
    out
}

/// Tells whether two texts have the same characters.
pub fn same_text(a: &str, b: &str) -> (r: bool)
    ensures
        r == (a@ == b@),
{
    let x = chars_of(a);
    let y = chars_of(b);
    if x.len() != y.len() {
        return false;
    }
    let mut i: usize = 0;
    while i < x.len()
        invariant
            i <= x@.len(),
            x@.len() == y@.len(),
            x@ == a@,
            y@ == b@,
            forall|j: int| 0 <= j < i ==> x@[j] == y@[j],
        decreases x@.len() - i,
    {
        if x[i] != y[i] {
            return false;
        }
        i = i + 1;
    }
    assert(x@ =~= y@);
    true
}

// ---------------------------------------------------------------------------
// Searching
// ---------------------------------------------------------------------------

/// `needle` stands in `hay` at position `i`.
pub open spec fn occurs_at(hay: Seq<char>, needle: Seq<char>, i: int) -> bool {
    &&& 0 <= i
    &&& i + needle.len() <= hay.len()
    &&& hay.subrange(i, i + needle.len()) == needle
}

/// The first position of `needle` in `hay` that is not before `from`.
pub open spec fn find_from(hay: Seq<char>, needle: Seq<char>, from: int) -> Option<int>
    decreases hay.len() + 1 - from,
{
    if from < 0 || from + needle.len() > hay.len() {
        None
    } else if occurs_at(hay, needle, from) {
        Some(from)
    } else {
        find_from(hay, needle, from + 1)
    }
}

/// The first position of `needle` in `hay`.
pub open spec fn first_at(hay: Seq<char>, needle: Seq<char>) -> Option<int> {
    find_from(hay, needle, 0)
}

/// `needle` stands somewhere in `hay`.
pub open spec fn has_text(hay: Seq<char>, needle: Seq<char>) -> bool {
    exists|i: int| occurs_at(hay, needle, i)
}

/// What `find_from` finds is an occurrence, and none lies between `from` and it.
pub proof fn lemma_find_from(hay: Seq<char>, needle: Seq<char>, from: int)
    requires
        0 <= from,
    ensures
        match find_from(hay, needle, from) {
            Some(i) => from <= i && occurs_at(hay, needle, i) && (forall|j: int|
                from <= j < i ==> !occurs_at(hay, needle, j)),
            None => forall|j: int| from <= j ==> !occurs_at(hay, needle, j),
        },
    decreases hay.len() + 1 - from,
{
    if from + needle.len() > hay.len() {
    } else if occurs_at(hay, needle, from) {
    } else {
        lemma_find_from(hay, needle, from + 1);
    }
}

/// A text holds `needle` exactly when the search finds it.
pub proof fn lemma_has_text(hay: Seq<char>, needle: Seq<char>)
    ensures
        has_text(hay, needle) <==> first_at(hay, needle) is Some,
{
    lemma_find_from(hay, needle, 0);
    if first_at(hay, needle) is Some {
        assert(occurs_at(hay, needle, first_at(hay, needle)->0));
    }
}

/// Searching from `from` is searching the text with its first `from`
/// characters taken off.
pub proof fn lemma_find_from_skip(hay: Seq<char>, needle: Seq<char>, base: int, from: int)
    requires
        0 <= base <= hay.len(),
        0 <= from,
    ensures
        find_from(hay.skip(base), needle, from) == (match find_from(hay, needle, base + from) {
            Some(i) => Some(i - base),
            None => None::<int>,
        }),
    decreases hay.len() + 1 - base - from,
{
    let sub = hay.skip(base);
    if from + needle.len() > sub.len() {
    } else {
        assert(sub.subrange(from, from + needle.len()) =~= hay.subrange(
            base + from,
            base + from + needle.len(),
        ));
        if occurs_at(sub, needle, from) {
        } else {
            lemma_find_from_skip(hay, needle, base, from + 1);
        }
    }
}

/// Tells whether `needle` stands in `hay` at position `at`.
pub fn matches_at(hay: &Vec<char>, needle: &Vec<char>, at: usize) -> (r: bool)
    ensures
        r == occurs_at(hay@, needle@, at as int),
{
    if needle.len() > hay.len() || at > hay.len() - needle.len() {
        return false;
    }
    let mut k: usize = 0;
    while k < needle.len()
        invariant
            k <= needle@.len(),
            at + needle@.len() <= hay.len(),
            forall|j: int| 0 <= j < k ==> hay@[at + j] == needle@[j],
        decreases needle@.len() - k,
    {
        if hay[at + k] != needle[k] {
            assert(hay@.subrange(at as int, at + needle@.len())[k as int] == hay@[at + k]);
            return false;
        }
        k = k + 1;
    }
    assert(hay@.subrange(at as int, at + needle@.len()) =~= needle@);
    true
}

/// The first position of `needle` in `hay` that is not before `from`.
pub fn find_text(hay: &Vec<char>, needle: &Vec<char>, from: usize) -> (r: Option<usize>)
    ensures
        r is Some <==> find_from(hay@, needle@, from as int) is Some,
        r matches Some(i) ==> find_from(hay@, needle@, from as int) == Some(i as int),
{
    let mut i: usize = from;
    while needle.len() <= hay.len() && i <= hay.len() - needle.len()
        invariant
            from <= i,
            find_from(hay@, needle@, from as int) == find_from(hay@, needle@, i as int),
        decreases hay@.len() + 1 - i,
    {
        if matches_at(hay, needle, i) {
            return Some(i);
        }
        if i == usize::MAX {
            return None;
        }
        i = i + 1;
    }
    None
}

// ---------------------------------------------------------------------------
// Trimming
// ---------------------------------------------------------------------------

/// `s` without the white space at its start.
pub open spec fn trim_start(s: Seq<char>) -> Seq<char>
    decreases s.len(),
{
    if s.len() > 0 && is_white(s.first()) {
        trim_start(s.drop_first())
    } else {
        s
    }
}

/// `s` without the white space at its end.
pub open spec fn trim_end(s: Seq<char>) -> Seq<char>
    decreases s.len(),
{
    if s.len() > 0 && is_white(s.last()) {
        trim_end(s.drop_last())
    } else {
        s
    }
}

/// `s` without the white space at both ends.
pub open spec fn trimmed(s: Seq<char>) -> Seq<char> {
    trim_end(trim_start(s))
}

/// `s` with `p` taken off its start for as long as it starts with `p`.
pub open spec fn strip_start(s: Seq<char>, p: Seq<char>) -> Seq<char>
    decreases s.len(),
{
    if p.len() > 0 && occurs_at(s, p, 0) {
        strip_start(s.skip(p.len() as int), p)
    } else {
        s
    }
}

/// `s` with `p` taken off its end for as long as it ends with `p`.
pub open spec fn strip_end(s: Seq<char>, p: Seq<char>) -> Seq<char>
    decreases s.len(),
{
    if p.len() > 0 && occurs_at(s, p, s.len() - p.len()) {
        strip_end(s.take(s.len() - p.len()), p)
    } else {
        s
    }
}

/// The position at which `v[from..to]` starts once its leading white space is
/// gone.
pub fn skip_white(v: &Vec<char>, from: usize, to: usize) -> (r: usize)
    requires
        from <= to <= v@.len(),
    ensures
        from <= r <= to,
        v@.subrange(r as int, to as int) == trim_start(v@.subrange(from as int, to as int)),
{
    let mut i: usize = from;
    while i < to && is_whitespace(v[i])
        invariant
            from <= i <= to <= v@.len(),
            trim_start(v@.subrange(i as int, to as int)) == trim_start(
                v@.subrange(from as int, to as int),
            ),
        decreases to - i,
    {
        assert(v@.subrange(i as int, to as int).drop_first() =~= v@.subrange(i + 1, to as int));
        i = i + 1;
    }
    i
}

/// The position at which `v[from..to]` ends once its trailing white space is
/// gone.
pub fn drop_white(v: &Vec<char>, from: usize, to: usize) -> (r: usize)
    requires
        from <= to <= v@.len(),
    ensures
        from <= r <= to,
        v@.subrange(from as int, r as int) == trim_end(v@.subrange(from as int, to as int)),
{
    let mut i: usize = to;
    while i > from && is_whitespace(v[i - 1])
        invariant
            from <= i <= to <= v@.len(),
            trim_end(v@.subrange(from as int, i as int)) == trim_end(
                v@.subrange(from as int, to as int),
            ),
        decreases i,
    {
        assert(v@.subrange(from as int, i as int).drop_last() =~= v@.subrange(
            from as int,
            i - 1,
        ));
        i = i - 1;
    }
    i
}

/// `s` without the white space at both ends.
pub fn trim(s: &str) -> (out: String)
    ensures
        out@ == trimmed(s@),
{
    let v = chars_of(s);
    let from = skip_white(&v, 0, v.len());
    let to = drop_white(&v, from, v.len());
    assert(v@.subrange(0, v@.len() as int) =~= s@);
    string_of(&v, from, to)
}

/// `s` with `p` taken off its start for as long as it starts with `p`.
pub fn trim_start_matches(s: &str, p: &str) -> (out: String)
    ensures
        out@ == strip_start(s@, p@),
{
    let v = chars_of(s);
    let n = chars_of(p);
    let mut from: usize = 0;
    assert(v@.skip(0) =~= v@);
    while n.len() > 0 && matches_at(&v, &n, from)
        invariant
            from <= v.len(),
            v@ == s@,
            n@ == p@,
            strip_start(v@.skip(from as int), p@) == strip_start(s@, p@),
        decreases v@.len() - from,
    {
        let ghost rest = v@.skip(from as int);
        assert(rest.subrange(0, n@.len() as int) =~= v@.subrange(from as int, from + n@.len()));
        assert(rest.skip(n@.len() as int) =~= v@.skip(from + n@.len()));
        from = from + n.len();
    }
    proof {
        let rest = v@.skip(from as int);
        if p@.len() > 0 && occurs_at(rest, p@, 0) {
            assert(rest.subrange(0, p@.len() as int) =~= v@.subrange(from as int, from + p@.len()));
        }
        assert(v@.subrange(from as int, v@.len() as int) =~= rest);
    }
    string_of(&v, from, v.len())
}

/// `s` with `p` taken off its end for as long as it ends with `p`.
pub fn trim_end_matches(s: &str, p: &str) -> (out: String)
    ensures
        out@ == strip_end(s@, p@),
{
    let v = chars_of(s);
    let n = chars_of(p);
    let mut to: usize = v.len();
    assert(v@.take(to as int) =~= v@);
    while 0 < n.len() && n.len() <= to && matches_at(&v, &n, to - n.len())
        invariant
            to <= v@.len(),
            v@ == s@,
            n@ == p@,
            strip_end(v@.take(to as int), p@) == strip_end(s@, p@),
        decreases to,
    {
        let ghost head = v@.take(to as int);
        assert(head.subrange(to - n@.len(), to as int) =~= v@.subrange(to - n@.len(), to as int));
        assert(head.take(to - n@.len()) =~= v@.take(to - n@.len()));
        to = to - n.len();
    }
    proof {
        let head = v@.take(to as int);
        if p@.len() > 0 && occurs_at(head, p@, head.len() - p@.len()) {
            assert(head.subrange(to - p@.len(), to as int) =~= v@.subrange(
                to - p@.len(),
                to as int,
            ));
        }
        assert(v@.subrange(0, to as int) =~= head);
    }
    string_of(&v, 0, to)
}

/// Tells whether `s` is empty or white space throughout.
pub fn is_blank(s: &str) -> (r: bool)
    ensures
        r == (trimmed(s@).len() == 0),
{
    let v = chars_of(s);
    let from = skip_white(&v, 0, v.len());
    let to = drop_white(&v, from, v.len());
    assert(v@.subrange(0, v@.len() as int) =~= s@);
    from == to
}

// ---------------------------------------------------------------------------
// Words
// ---------------------------------------------------------------------------

/// How many characters stand before the first white space of `s`.
pub open spec fn word_len(s: Seq<char>) -> nat
    decreases s.len(),
{
    if s.len() == 0 || is_white(s.first()) {
        0
    } else {
        1 + word_len(s.drop_first())
    }
}

/// The stretches of `s` between white space, in order.
pub open spec fn words(s: Seq<char>) -> Seq<Seq<char>>
    decreases s.len(),
{
    let t = trim_start(s);
    if t.len() == 0 {
        Seq::empty()
    } else {
        proof {
            lemma_word_bounds(s);
        }
        seq![t.take(word_len(t) as int)] + words(t.skip(word_len(t) as int))
    }
}

/// A word does not end before it starts, and lies within the text.
pub proof fn lemma_word_bounds(s: Seq<char>)
    ensures
        trim_start(s).len() <= s.len(),
        word_len(s) <= s.len(),
        trim_start(s).len() > 0 ==> 0 < word_len(trim_start(s)) <= trim_start(s).len(),
    decreases s.len(),
{
    lemma_word_len(s);
    if s.len() > 0 && is_white(s.first()) {
        lemma_word_bounds(s.drop_first());
    }
}

proof fn lemma_word_len(s: Seq<char>)
    ensures
        word_len(s) <= s.len(),
    decreases s.len(),
{
    if s.len() > 0 {
        lemma_word_len(s.drop_first());
    }
}

/// The texts of a list of strings.
pub open spec fn texts(v: Seq<String>) -> Seq<Seq<char>> {
    v.map_values(|s: String| s@)
}

/// The position of the first white space in `v` that is not before `from`, or
/// the end.
fn word_end(v: &Vec<char>, from: usize) -> (r: usize)
    requires
        from <= v@.len(),
    ensures
        r == from + word_len(v@.skip(from as int)),
        r <= v@.len(),
{
    let mut i: usize = from;
    while i < v.len() && !is_whitespace(v[i])
        invariant
            from <= i <= v@.len(),
            i + word_len(v@.skip(i as int)) == from + word_len(v@.skip(from as int)),
        decreases v@.len() - i,
    {
        assert(v@.skip(i as int).drop_first() =~= v@.skip(i + 1));
        i = i + 1;
    }
    i
}

/// The stretches of `s` between white space, in order.
pub fn split_words(s: &str) -> (out: Vec<String>)
    ensures
        texts(out@) == words(s@),
{
    let v = chars_of(s);
    let mut out: Vec<String> = Vec::new();
    let mut cursor: usize = 0;
    assert(v@.skip(0) =~= v@);
    assert(texts(out@) + words(v@) =~= words(v@));
    loop
        invariant
            v@ == s@,
            cursor <= v@.len(),
            texts(out@) + words(v@.skip(cursor as int)) == words(s@),
        decreases v@.len() - cursor,
    {
        let ghost rest = v@.skip(cursor as int);
        let start = skip_white(&v, cursor, v.len());
        proof {
            assert(v@.subrange(cursor as int, v@.len() as int) =~= rest);
            assert(v@.subrange(start as int, v@.len() as int) =~= v@.skip(start as int));
            lemma_word_bounds(rest);
        }
        if start == v.len() {
            assert(texts(out@) + words(rest) =~= texts(out@));
            return out;
        }
        let end = word_end(&v, start);
        let ghost before = out@;
        let word = string_of(&v, start, end);
        proof {
            let t = v@.skip(start as int);
            assert(t.take(end - start) =~= v@.subrange(start as int, end as int));
            assert(t.skip(end - start) =~= v@.skip(end as int));
            assert(words(rest) == seq![word@] + words(v@.skip(end as int)));
        }
        out.push(word);
        proof {
            assert(texts(out@) =~= texts(before).push(word@));
            assert(texts(out@) + words(v@.skip(end as int)) =~= texts(before) + words(rest));
        }
        cursor = end;
    }
}

// ---------------------------------------------------------------------------
// Case-insensitive comparison
// ---------------------------------------------------------------------------

/// Tells whether two texts are equal but for the case of ASCII letters.
pub fn same_ignoring_ascii_case(a: &str, b: &str) -> (r: bool)
    ensures
        r == (ascii_lower_text(a@) == ascii_lower_text(b@)),
{
    let x = chars_of(a);
    let y = chars_of(b);
    if x.len() != y.len() {
        assert(ascii_lower_text(a@).len() != ascii_lower_text(b@).len());
        return false;
    }
    let mut i: usize = 0;
    while i < x.len()
        invariant
            i <= x@.len(),
            x@.len() == y@.len(),
            x@ == a@,
            y@ == b@,
            forall|j: int| 0 <= j < i ==> ascii_lower(x@[j]) == ascii_lower(y@[j]),
        decreases x@.len() - i,
    {
        if to_ascii_lower(x[i]) != to_ascii_lower(y[i]) {
            assert(ascii_lower_text(a@)[i as int] != ascii_lower_text(b@)[i as int]);
            return false;
        }
        i = i + 1;
    }
    assert(ascii_lower_text(a@) =~= ascii_lower_text(b@));
    true
}

// ---------------------------------------------------------------------------
// Numerals
// ---------------------------------------------------------------------------

/// The character of one decimal digit.
pub open spec fn digit_char(d: int) -> char {
    (48 + d) as char
}

/// The decimal numeral of `n`.
pub open spec fn decimal(n: nat) -> Seq<char>
    decreases n,
{
    if n < 10 {
        seq![digit_char(n as int)]
    } else {
        decimal(n / 10).push(digit_char((n % 10) as int))
    }
}

/// Small numbers have short numerals.
pub proof fn lemma_decimal_short(n: nat)
    ensures
        n < 10 ==> decimal(n).len() == 1,
        n < 1000 ==> decimal(n).len() <= 3,
{
    reveal_with_fuel(decimal, 4);
}

/// The decimal numeral of `n`, with a minus sign in front where it is negative.
pub open spec fn decimal_int(n: int) -> Seq<char> {
    if n < 0 {
        seq!['-'] + decimal((-n) as nat)
    } else {
        decimal(n as nat)
    }
}

/// The decimal numeral of `n`.
pub fn decimal_of(n: u64) -> (out: String)
    ensures
        out@ == decimal(n as nat),
    decreases n,
{
    let d: u8 = (n % 10) as u8;
    let c: char = (48 + d) as char;
    if n < 10 {
        let mut out = String::new();
        out.push(c);
        assert(out@ =~= seq![digit_char(n as int)]);
        out
    } else {
        let mut out = decimal_of(n / 10);
        out.push(c);
        out
    }
}

/// The decimal numeral of `n`, with a minus sign in front where it is negative.
pub fn decimal_of_signed(n: i64) -> (out: String)
    ensures
        out@ == decimal_int(n as int),
{
    if n < 0 {
        let m: u64 = (-(n as i128)) as u64;
        let digits = decimal_of(m);
        let mut out = String::new();
        out.push('-');
        out.append(digits.as_str());
        assert(out@ =~= seq!['-'] + decimal((-n) as nat));
        out
    } else {
        decimal_of(n as u64)
    }
}

// ---------------------------------------------------------------------------
// Laws
// ---------------------------------------------------------------------------

/// A text is white space throughout.
pub open spec fn blank(s: Seq<char>) -> bool {
    forall|i: int| 0 <= i < s.len() ==> is_white(#[trigger] s[i])
}

/// Of ASCII, the blank, the tab, the line feed, the line tab, the form feed and the carriage
/// return are white space, and nothing else is.
pub proof fn law_ascii_white_space(c: char)
    requires
        (c as u32) < 0x80,
    ensures
        is_white(c) <==> c == ' ' || c == '\t' || c == '\n' || c == '\r' || c as u32 == 0xb || c as u32
            == 0xc,
{
}

/// Beyond ASCII, white space is the next line, the blanks of other widths and scripts, and
/// the separators of lines and paragraphs.
pub proof fn law_other_white_space(c: char)
    requires
        (c as u32) >= 0x80,
    ensures
        is_white(c) <==> seq![
            '\u{85}', '\u{a0}', '\u{1680}', '\u{2000}', '\u{2001}', '\u{2002}', '\u{2003}',
            '\u{2004}', '\u{2005}', '\u{2006}', '\u{2007}', '\u{2008}', '\u{2009}', '\u{200a}',
            '\u{2028}', '\u{2029}', '\u{202f}', '\u{205f}', '\u{3000}',
        ].contains(c),
{
    let all = seq![
        '\u{85}', '\u{a0}', '\u{1680}', '\u{2000}', '\u{2001}', '\u{2002}', '\u{2003}',
        '\u{2004}', '\u{2005}', '\u{2006}', '\u{2007}', '\u{2008}', '\u{2009}', '\u{200a}',
        '\u{2028}', '\u{2029}', '\u{202f}', '\u{205f}', '\u{3000}',
    ];
    assert(all[0] == '\u{85}' && all[1] == '\u{a0}' && all[2] == '\u{1680}');
    assert(all[3] == '\u{2000}' && all[4] == '\u{2001}' && all[5] == '\u{2002}');
    assert(all[6] == '\u{2003}' && all[7] == '\u{2004}' && all[8] == '\u{2005}');
    assert(all[9] == '\u{2006}' && all[10] == '\u{2007}' && all[11] == '\u{2008}');
    assert(all[12] == '\u{2009}' && all[13] == '\u{200a}' && all[14] == '\u{2028}');
    assert(all[15] == '\u{2029}' && all[16] == '\u{202f}' && all[17] == '\u{205f}');
    assert(all[18] == '\u{3000}');
}

/// Trimming takes the white space off both ends and nothing else.
pub proof fn law_trimmed(a: Seq<char>, middle: Seq<char>, b: Seq<char>)
    requires
        blank(a),
        blank(b),
        middle.len() > 0 ==> !is_white(middle.first()) && !is_white(middle.last()),
    ensures
        trimmed(a + middle + b) == middle,
    decreases a.len() + b.len(),
{
    let s = a + middle + b;
    if middle.len() == 0 {
        assert(blank(s)) by {
            assert forall|i: int| 0 <= i < s.len() implies is_white(#[trigger] s[i]) by {
                if i < a.len() {
                    assert(s[i] == a[i]);
                } else {
                    assert(s[i] == b[i - a.len()]);
                }
            }
        }
        lemma_trim_blank(s);
        assert(trimmed(s) =~= middle);
    } else {
        lemma_trim_start_of(a, middle + b);
        assert(s =~= a + (middle + b));
        assert((middle + b).first() == middle.first());
        lemma_trim_end_of(middle, b);
    }
}

proof fn lemma_trim_blank(s: Seq<char>)
    requires
        blank(s),
    ensures
        trim_start(s).len() == 0,
    decreases s.len(),
{
    if s.len() > 0 {
        assert(is_white(s[0]));
        assert forall|i: int| 0 <= i < s.drop_first().len() implies is_white(
            #[trigger] s.drop_first()[i],
        ) by {
            assert(s.drop_first()[i] == s[i + 1]);
        }
        lemma_trim_blank(s.drop_first());
    }
}

proof fn lemma_trim_start_of(a: Seq<char>, s: Seq<char>)
    requires
        blank(a),
        s.len() > 0,
        !is_white(s.first()),
    ensures
        trim_start(a + s) == s,
    decreases a.len(),
{
    if a.len() > 0 {
        assert(is_white(a[0]));
        assert((a + s).first() == a[0]);
        assert((a + s).drop_first() =~= a.drop_first() + s);
        assert forall|i: int| 0 <= i < a.drop_first().len() implies is_white(
            #[trigger] a.drop_first()[i],
        ) by {
            assert(a.drop_first()[i] == a[i + 1]);
        }
        lemma_trim_start_of(a.drop_first(), s);
    } else {
        assert(a + s =~= s);
    }
}

proof fn lemma_trim_end_of(s: Seq<char>, b: Seq<char>)
    requires
        blank(b),
        s.len() > 0,
        !is_white(s.last()),
    ensures
        trim_end(s + b) == s,
    decreases b.len(),
{
    if b.len() > 0 {
        assert(is_white(b[b.len() - 1]));
        assert((s + b).last() == b.last());
        assert((s + b).drop_last() =~= s + b.drop_last());
        assert forall|i: int| 0 <= i < b.drop_last().len() implies is_white(
            #[trigger] b.drop_last()[i],
        ) by {
            assert(b.drop_last()[i] == b[i]);
        }
        lemma_trim_end_of(s, b.drop_last());
    } else {
        assert(s + b =~= s);
    }
}

/// The words of a text are its longest stretches without white space: white space before a
/// word does not matter, a word ends with the white space behind it or with the text, and
/// the other words are those of the rest.
pub proof fn law_words(a: Seq<char>, word: Seq<char>, rest: Seq<char>)
    requires
        blank(a),
        word.len() > 0,
        forall|i: int| 0 <= i < word.len() ==> !is_white(#[trigger] word[i]),
        rest.len() > 0 ==> is_white(rest.first()),
    ensures
        words(a).len() == 0,
        words(a + word + rest) == seq![word] + words(rest),
{
    lemma_trim_blank(a);
    lemma_trim_start_of(a, word + rest);
    assert(a + word + rest =~= a + (word + rest));
    lemma_word_len_of(word, rest);
    assert((word + rest).take(word.len() as int) =~= word);
    assert((word + rest).skip(word.len() as int) =~= rest);
}

proof fn lemma_word_len_of(word: Seq<char>, rest: Seq<char>)
    requires
        forall|i: int| 0 <= i < word.len() ==> !is_white(#[trigger] word[i]),
        rest.len() > 0 ==> is_white(rest.first()),
    ensures
        word_len(word + rest) == word.len(),
    decreases word.len(),
{
    let s = word + rest;
    if word.len() > 0 {
        assert(!is_white(word[0]));
        assert(s.drop_first() =~= word.drop_first() + rest);
        assert forall|i: int| 0 <= i < word.drop_first().len() implies !is_white(
            #[trigger] word.drop_first()[i],
        ) by {
            assert(word.drop_first()[i] == word[i + 1]);
        }
        lemma_word_len_of(word.drop_first(), rest);
    } else {
        assert(s =~= rest);
    }
}

/// No word is empty.
pub proof fn lemma_words_nonempty(s: Seq<char>)
    ensures
        forall|k: int| 0 <= k < words(s).len() ==> (#[trigger] words(s)[k]).len() > 0,
    decreases s.len(),
{
    let t = trim_start(s);
    lemma_word_bounds(s);
    if t.len() > 0 {
        let n = word_len(t) as int;
        lemma_words_nonempty(t.skip(n));
        assert forall|k: int| 0 <= k < words(s).len() implies (#[trigger] words(s)[k]).len()
            > 0 by {
            if k > 0 {
                assert(words(s)[k] == words(t.skip(n))[k - 1]);
            }
        }
    }
}

/// A text takes as many bytes as its characters together: one for ASCII, and two to four
/// beyond it.
pub proof fn law_byte_len(s: Seq<char>, c: char)
    ensures
        byte_len(Seq::empty()) == 0,
        byte_len(s.push(c)) == byte_len(s) + (if c as u32 <= 0x7f {
            1int
        } else if c as u32 <= 0x7ff {
            2int
        } else if c as u32 <= 0xffff {
            3int
        } else {
            4int
        }),
{
    assert(s.push(c).drop_last() =~= s);
}

/// The numeral of a number: one digit for each power of ten, the highest first.
pub proof fn law_decimal(n: nat, d: int)
    requires
        0 <= d <= 9,
        n > 0,
    ensures
        decimal(d as nat).len() == 1,
        decimal(d as nat)[0] as u32 == 48 + d,
        decimal((10 * n + d) as nat) == decimal(n) + decimal(d as nat),
        decimal_int(n as int) == decimal(n),
        decimal_int(-(n as int)) == "-"@ + decimal(n),
        decimal_int(0) == decimal(0),
{
    let m = (10 * n + d) as nat;
    reveal_strlit("-");
    assert("-"@ =~= seq!['-']);
    assert(m / 10 == n && m % 10 == d);
    reveal_with_fuel(decimal, 2);
    assert(decimal(m) =~= decimal(n) + decimal(d as nat));
}

/// Two texts are the same but for the case of ASCII letters exactly where they are equally
/// long and, at each position, have the same character or a capital and its small letter.
pub proof fn law_case_aside(a: Seq<char>, b: Seq<char>)
    ensures
        ascii_lower_text(a) == ascii_lower_text(b) <==> a.len() == b.len() && forall|i: int|
            0 <= i < a.len() ==> same_but_case(#[trigger] a[i], b[i]),
{
    let x = ascii_lower_text(a);
    let y = ascii_lower_text(b);
    assert(x.len() == a.len() && y.len() == b.len());
    if x == y {
        assert forall|i: int| 0 <= i < a.len() implies same_but_case(#[trigger] a[i], b[i]) by {
            assert(x[i] == y[i]);
        }
    }
    if a.len() == b.len() && forall|i: int|
        0 <= i < a.len() ==> same_but_case(#[trigger] a[i], b[i]) {
        assert forall|i: int| 0 <= i < x.len() implies x[i] == y[i] by {
            assert(same_but_case(a[i], b[i]));
        }
        assert(x =~= y);
    }
}

/// Two characters are the same, or an ASCII capital and its small letter.
pub open spec fn same_but_case(c: char, d: char) -> bool {
    ||| c == d
    ||| 'A' <= c && c <= 'Z' && d == ((c as u32) + 32) as char
    ||| 'A' <= d && d <= 'Z' && c == ((d as u32) + 32) as char
}

/// Trimming leaves nothing exactly where there is nothing but white space.
pub proof fn law_trimmed_to_nothing(s: Seq<char>)
    ensures
        trimmed(s).len() == 0 <==> blank(s),
{
    if blank(s) {
        lemma_trim_blank(s);
    } else {
        lemma_starts_with_letter(s);
        lemma_keeps_first(trim_start(s));
    }
}

proof fn lemma_starts_with_letter(s: Seq<char>)
    requires
        !blank(s),
    ensures
        trim_start(s).len() > 0,
        !is_white(trim_start(s).first()),
    decreases s.len(),
{
    if is_white(s.first()) {
        let i = choose|i: int| 0 <= i < s.len() && !is_white(#[trigger] s[i]);
        assert(s.drop_first()[i - 1] == s[i]);
        lemma_starts_with_letter(s.drop_first());
    }
}

proof fn lemma_keeps_first(s: Seq<char>)
    requires
        s.len() > 0,
        !is_white(s.first()),
    ensures
        trim_end(s).len() > 0,
    decreases s.len(),
{
    if is_white(s.last()) {
        assert(s.len() > 1);
        assert(s.drop_last().first() == s.first());
        lemma_keeps_first(s.drop_last());
    }
}

} // verus!
