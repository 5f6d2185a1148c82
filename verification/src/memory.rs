//! Extraction of long-term facts from user messages.
//!
//! A handful of common self-introductions are recognised. The scan ignores case;
//! what it captures keeps the case in which it was written.

use vstd::prelude::*;
use vstd::string::*;

use crate::text;
use crate::text::{chars_of, find_text, lower_chars, split_words, string_of, width_of};

verus! {

// ---------------------------------------------------------------------------
// Case folding
// ---------------------------------------------------------------------------

/// The lowercase mapping of Unicode.
pub open spec fn unicode_lower() -> spec_fn(char) -> Seq<char> {
    |c: char| text::char_lower(c)
}

/// The lowercase mapping of ASCII letters alone.
pub open spec fn ascii_letters_lower() -> spec_fn(char) -> Seq<char> {
    |c: char| seq![text::ascii_lower(c)]
}

/// `s` is ASCII throughout.
pub open spec fn is_ascii_text(s: Seq<char>) -> bool {
    forall|i: int| 0 <= i < s.len() ==> (#[trigger] s[i] as u32) < 0x80
}

/// All texts of a list are ASCII throughout.
pub open spec fn all_ascii(ws: Seq<Seq<char>>) -> bool {
    forall|k: int| 0 <= k < ws.len() ==> is_ascii_text(#[trigger] ws[k])
}

/// `s` in lower case, each character mapped by `low`.
pub open spec fn folded(s: Seq<char>, low: spec_fn(char) -> Seq<char>) -> Seq<char>
    decreases s.len(),
{
    if s.len() == 0 {
        Seq::empty()
    } else {
        folded(s.drop_last(), low) + low(s.last())
    }
}

/// For each character of the folded text, the position in `s` that it came from.
pub open spec fn origins(s: Seq<char>, low: spec_fn(char) -> Seq<char>) -> Seq<int>
    decreases s.len(),
{
    if s.len() == 0 {
        Seq::empty()
    } else {
        origins(s.drop_last(), low) + Seq::new(low(s.last()).len(), |k: int| s.len() - 1)
    }
}

/// Every character of the folded text has an origin, and it lies in the text.
proof fn lemma_origins(s: Seq<char>, low: spec_fn(char) -> Seq<char>)
    ensures
        origins(s, low).len() == folded(s, low).len(),
        forall|k: int| 0 <= k < origins(s, low).len() ==> 0 <= #[trigger] origins(s, low)[k] < s.len(),
    decreases s.len(),
{
    if s.len() > 0 {
        lemma_origins(s.drop_last(), low);
        let front = origins(s.drop_last(), low);
        assert forall|k: int| 0 <= k < origins(s, low).len() implies 0 <= #[trigger] origins(s, low)[k]
            < s.len() by {
            if k < front.len() {
                assert(origins(s, low)[k] == front[k]);
            }
        }
    }
}

/// Two mappings give the same for every character of `s`.
pub open spec fn agree(
    s: Seq<char>,
    a: spec_fn(char) -> Seq<char>,
    b: spec_fn(char) -> Seq<char>,
) -> bool {
    forall|i: int| 0 <= i < s.len() ==> a(#[trigger] s[i]) == b(s[i])
}

/// Positions, as integers.
pub open spec fn as_ints(v: Seq<usize>) -> Seq<int> {
    v.map_values(|i: usize| i as int)
}

/// Folds a text and records where each character came from.
fn fold(v: &Vec<char>) -> (r: (Vec<char>, Vec<usize>))
    ensures
        r.0@ == folded(v@, unicode_lower()),
        r.1@.len() == r.0@.len(),
        as_ints(r.1@) == origins(v@, unicode_lower()),
        is_ascii_text(v@) ==> agree(v@, unicode_lower(), ascii_letters_lower()),
{
    let mut low: Vec<char> = Vec::new();
    let mut from: Vec<usize> = Vec::new();
    let mut i: usize = 0;
    assert(v@.take(0) =~= Seq::<char>::empty());
    assert(as_ints(from@) =~= Seq::<int>::empty());
    while i < v.len()
        invariant
            i <= v@.len(),
            low@ == folded(v@.take(i as int), unicode_lower()),
            from@.len() == low@.len(),
            as_ints(from@) == origins(v@.take(i as int), unicode_lower()),
            forall|j: int|
                0 <= j < i && (#[trigger] v@[j] as u32) < 0x80 ==> text::char_lower(v@[j])
                    == seq![text::ascii_lower(v@[j])],
        decreases v@.len() - i,
    {
        let cs = lower_chars(v[i]);
        let ghost low0 = low@;
        let ghost from0 = as_ints(from@);
        let ghost head = v@.take(i + 1);
        assert(head.drop_last() =~= v@.take(i as int));
        let mut k: usize = 0;
        while k < cs.len()
            invariant
                k <= cs@.len(),
                low@ == low0 + cs@.take(k as int),
                from@.len() == low@.len(),
                as_ints(from@) == from0 + Seq::new(
                    k as nat,
                    |j: int| i as int,
                ),
            decreases cs@.len() - k,
        {
            let ghost from1 = from@;
            low.push(cs[k]);
            from.push(i);
            assert(low@ =~= low0 + cs@.take(k + 1));
            assert(as_ints(from@) =~= as_ints(from1).push(i as int));
            assert(as_ints(from@) =~= from0 + Seq::new(
                (k + 1) as nat,
                |j: int| i as int,
            ));
            k = k + 1;
        }
        assert(cs@.take(cs@.len() as int) =~= cs@);
        assert(low@ == folded(head, unicode_lower()));
        assert(origins(head, unicode_lower()) =~= from0 + Seq::new(cs@.len(), |j: int| i as int));
        i = i + 1;
    }
    assert(v@.take(v@.len() as int) =~= v@);
    (low, from)
}

// ---------------------------------------------------------------------------
// Capturing a value
// ---------------------------------------------------------------------------

/// A word that starts with a capital: a character that lower case changes.
pub open spec fn is_capitalized(w: Seq<char>, low: spec_fn(char) -> Seq<char>) -> bool {
    w.len() > 0 && low(w[0]) != seq![w[0]]
}

/// The first capitalized word of a list.
pub open spec fn first_capitalized(ws: Seq<Seq<char>>, low: spec_fn(char) -> Seq<char>) -> Option<Seq<char>>
    decreases ws.len(),
{
    if ws.len() == 0 {
        None
    } else if is_capitalized(ws.first(), low) {
        Some(ws.first())
    } else {
        first_capitalized(ws.drop_first(), low)
    }
}

/// Punctuation that may close a sentence or a clause.
pub open spec fn is_closing(c: char) -> bool {
    c == '.' || c == ',' || c == '!' || c == '?' || c == ';' || c == ':'
}

/// `s` without the punctuation at its end.
pub open spec fn without_closing(s: Seq<char>) -> Seq<char>
    decreases s.len(),
{
    if s.len() > 0 && is_closing(s.last()) {
        without_closing(s.drop_last())
    } else {
        s
    }
}

/// A word that introduces something else than a name.
pub open spec fn is_filler(w: Seq<char>, low: spec_fn(char) -> Seq<char>) -> bool {
    ||| folded(w, low) == "a"@
    ||| folded(w, low) == "the"@
    ||| folded(w, low) == "an"@
    ||| folded(w, low) == "not"@
    ||| folded(w, low) == "no"@
}

/// The longest value that is captured, in bytes.
pub const MAX_VALUE_BYTES: u128 = 64;

/// What is captured from `s`: its first capitalized word, or its first word where
/// none is capitalized, without the punctuation at its end. A value that is empty,
/// too long or a filler is not usable.
pub open spec fn proper_noun(s: Seq<char>, low: spec_fn(char) -> Seq<char>) -> Option<Seq<char>> {
    let ws = text::words(s);
    if ws.len() == 0 {
        None
    } else {
        let word = match first_capitalized(ws, low) {
            Some(w) => w,
            None => ws[0],
        };
        let value = without_closing(word);
        if value.len() == 0 || text::byte_len(value) > MAX_VALUE_BYTES || is_filler(value, low) {
            None
        } else {
            Some(value)
        }
    }
}

/// Tells whether a word starts with a capital.
fn starts_with_capital(w: &Vec<char>) -> (r: bool)
    ensures
        r == is_capitalized(w@, unicode_lower()),
        is_ascii_text(w@) ==> r == is_capitalized(w@, ascii_letters_lower()),
{
    if w.len() == 0 {
        return false;
    }
    let low = lower_chars(w[0]);
    assert(is_ascii_text(w@) ==> (w@[0] as u32) < 0x80);
    if low.len() == 1 && low[0] == w[0] {
        assert(low@ =~= seq![w@[0]]);
        false
    } else {
        true
    }
}

/// The word of a list that is captured.
fn pick_word(ws: &Vec<String>) -> (r: usize)
    requires
        ws@.len() > 0,
    ensures
        r < ws@.len(),
        ws@[r as int]@ == (match first_capitalized(text::texts(ws@), unicode_lower()) {
            Some(w) => w,
            None => ws@[0]@,
        }),
        all_ascii(text::texts(ws@)) ==> first_capitalized(text::texts(ws@), unicode_lower())
            == first_capitalized(text::texts(ws@), ascii_letters_lower()),
{
    let mut i: usize = 0;
    let ghost all = text::texts(ws@);
    assert(all.skip(0) =~= all);
    while i < ws.len()
        invariant
            i <= ws@.len(),
            ws@.len() > 0,
            all == text::texts(ws@),
            first_capitalized(all, unicode_lower()) == first_capitalized(all.skip(i as int), unicode_lower()),
            all_ascii(all) ==> first_capitalized(all, ascii_letters_lower()) == first_capitalized(
                all.skip(i as int),
                ascii_letters_lower(),
            ),
        decreases ws@.len() - i,
    {
        let w = chars_of(ws[i].as_str());
        assert(all.skip(i as int).first() == ws@[i as int]@);
        assert(all_ascii(all) ==> is_ascii_text(all[i as int]));
        if starts_with_capital(&w) {
            return i;
        }
        assert(all.skip(i as int).drop_first() =~= all.skip(i + 1));
        i = i + 1;
    }
    0
}

/// The position at which a word ends once its closing punctuation is gone.
fn closing_start(v: &Vec<char>) -> (r: usize)
    ensures
        r <= v@.len(),
        v@.take(r as int) == without_closing(v@),
{
    let mut i: usize = v.len();
    assert(v@.take(i as int) =~= v@);
    while i > 0 && (v[i - 1] == '.' || v[i - 1] == ',' || v[i - 1] == '!' || v[i - 1] == '?' || v[i
        - 1] == ';' || v[i - 1] == ':')
        invariant
            i <= v@.len(),
            without_closing(v@.take(i as int)) == without_closing(v@),
        decreases i,
    {
        assert(v@.take(i as int).drop_last() =~= v@.take(i - 1));
        i = i - 1;
    }
    i
}

/// How many bytes the first `n` characters take.
fn bytes_of(v: &Vec<char>, n: usize) -> (r: u128)
    requires
        n <= v@.len(),
    ensures
        r == text::byte_len(v@.take(n as int)),
{
    let mut total: u128 = 0;
    let mut i: usize = 0;
    assert(v@.take(0) =~= Seq::<char>::empty());
    while i < n
        invariant
            i <= n <= v@.len(),
            total == text::byte_len(v@.take(i as int)),
            total <= 4 * i,
        decreases n - i,
    {
        assert(v@.take(i + 1).drop_last() =~= v@.take(i as int));
        total = total + width_of(v[i]);
        i = i + 1;
    }
    total
}

/// Tells whether a word is a filler.
fn filler(v: &Vec<char>) -> (r: bool)
    ensures
        r == is_filler(v@, unicode_lower()),
        is_ascii_text(v@) ==> r == is_filler(v@, ascii_letters_lower()),
{
    let (low, _) = fold(v);
    proof {
        if is_ascii_text(v@) {
            lemma_fold_agree(v@, unicode_lower(), ascii_letters_lower());
        }
    }
    let s = string_of(&low, 0, low.len());
    assert(low@.subrange(0, low@.len() as int) =~= low@);
    text::same_text(s.as_str(), "a") || text::same_text(s.as_str(), "the") || text::same_text(
        s.as_str(),
        "an",
    ) || text::same_text(s.as_str(), "not") || text::same_text(s.as_str(), "no")
}

/// Captures the value that a text starts with: its first capitalized word, or
/// its first word where none is capitalized, stripped of closing punctuation.
pub fn take_proper_noun(s: &str) -> (r: Option<String>)
    ensures
        match r {
            Some(value) => proper_noun(s@, unicode_lower()) == Some(value@),
            None => proper_noun(s@, unicode_lower()) is None,
        },
        is_ascii_text(s@) ==> match r {
            Some(value) => proper_noun(s@, ascii_letters_lower()) == Some(value@),
            None => proper_noun(s@, ascii_letters_lower()) is None,
        },
{
    let ws = split_words(s);
    proof {
        if is_ascii_text(s@) {
            lemma_ascii_words(s@);
        }
    }
    assert(text::texts(ws@).len() == ws@.len());
    if ws.len() == 0 {
        return None;
    }
    let at = pick_word(&ws);
    assert(text::texts(ws@)[0] == ws@[0]@);
    let word = chars_of(ws[at].as_str());
    assert(text::texts(ws@)[at as int] == word@);
    let end = closing_start(&word);
    if end == 0 || bytes_of(&word, end) > MAX_VALUE_BYTES {
        return None;
    }
    let value = string_of(&word, 0, end);
    assert(word@.subrange(0, end as int) =~= word@.take(end as int));
    let chars = chars_of(value.as_str());
    if filler(&chars) {
        return None;
    }
    Some(value)
}

// ---------------------------------------------------------------------------
// Facts
// ---------------------------------------------------------------------------

/// What follows the first occurrence of `pattern` in `content`, the case of
/// `content` aside.
pub open spec fn text_after(content: Seq<char>, pattern: Seq<char>, low: spec_fn(char) -> Seq<char>) -> Option<Seq<char>> {
    match text::first_at(folded(content, low), pattern) {
        Some(i) => if pattern.len() == 0 {
            Some(content)
        } else {
            Some(content.skip(origins(content, low)[i + pattern.len() - 1] + 1))
        },
        None => None,
    }
}

/// The value captured after the first pattern that introduces a usable one.
pub open spec fn captured(content: Seq<char>, patterns: Seq<Seq<char>>, low: spec_fn(char) -> Seq<char>) -> Option<Seq<char>>
    decreases patterns.len(),
{
    if patterns.len() == 0 {
        None
    } else {
        let here = match text_after(content, patterns.first(), low) {
            Some(rest) => proper_noun(rest, low),
            None => None,
        };
        match here {
            Some(value) => Some(value),
            None => captured(content, patterns.drop_first(), low),
        }
    }
}

/// How people give their name.
pub open spec fn name_patterns() -> Seq<Seq<char>> {
    seq!["my name is "@, "i'm "@, "i am "@, "call me "@]
}

/// How people say where they are from.
pub open spec fn place_patterns() -> Seq<Seq<char>> {
    seq!["i live in "@, "i'm from "@, "i am from "@]
}

/// How people say where they work.
pub open spec fn work_patterns() -> Seq<Seq<char>> {
    seq!["i work at "@, "i work for "@]
}

/// One fact, or none.
pub open spec fn fact(lead: Seq<char>, value: Option<Seq<char>>) -> Seq<Seq<char>> {
    match value {
        Some(v) => seq![lead + v + "."@],
        None => Seq::empty(),
    }
}

/// The facts in a message: the name, the place and the workplace of the user, as
/// far as it gives them.
pub open spec fn facts(content: Seq<char>, low: spec_fn(char) -> Seq<char>) -> Seq<Seq<char>> {
    fact("The user's name is "@, captured(content, name_patterns(), low)) + fact(
        "The user is from "@,
        captured(content, place_patterns(), low),
    ) + fact("The user works at "@, captured(content, work_patterns(), low))
}

/// The texts of a list of string slices.
pub open spec fn str_texts(v: Seq<&str>) -> Seq<Seq<char>> {
    v.map_values(|s: &str| s@)
}

/// The value captured after the first pattern that introduces a usable one. `low`
/// is the folded content, and `from` says where each of its characters came from.
fn capture(
    content: &Vec<char>,
    low: &Vec<char>,
    from: &Vec<usize>,
    patterns: &Vec<&str>,
) -> (r: Option<String>)
    requires
        low@ == folded(content@, unicode_lower()),
        from@.len() == low@.len(),
        as_ints(from@) == origins(content@, unicode_lower()),
    ensures
        match r {
            Some(value) => captured(content@, str_texts(patterns@), unicode_lower()) == Some(value@),
            None => captured(content@, str_texts(patterns@), unicode_lower()) is None,
        },
{
    proof {
        lemma_origins(content@, unicode_lower());
    }
    let mut i: usize = 0;
    let ghost all = str_texts(patterns@);
    assert(all.skip(0) =~= all);
    while i < patterns.len()
        invariant
            i <= patterns@.len(),
            all == str_texts(patterns@),
            low@ == folded(content@, unicode_lower()),
            from@.len() == low@.len(),
            as_ints(from@) == origins(content@, unicode_lower()),
            forall|k: int|
                0 <= k < origins(content@, unicode_lower()).len() ==> 0 <= #[trigger] origins(content@, unicode_lower())[k]
                    < content@.len(),
            captured(content@, all, unicode_lower()) == captured(content@, all.skip(i as int), unicode_lower()),
        decreases patterns@.len() - i,
    {
        let pattern = chars_of(patterns[i]);
        assert(all.skip(i as int).first() == pattern@);
        assert(all.skip(i as int).drop_first() =~= all.skip(i + 1));
        proof {
            text::lemma_find_from(low@, pattern@, 0);
        }
        match find_text(low, &pattern, 0) {
            Some(at) => {
                let start = if pattern.len() == 0 {
                    0
                } else {
                    assert(at + pattern@.len() <= low.len());
                    assert(origins(content@, unicode_lower())[at + pattern@.len() - 1] < content.len());
                    assert(as_ints(from@)[at + pattern@.len() - 1]
                        == from@[at + pattern@.len() - 1] as int);
                    from[at + (pattern.len() - 1)] + 1
                };
                let rest = string_of(content, start, content.len());
                assert(content@.subrange(start as int, content@.len() as int)
                    =~= content@.skip(start as int));
                assert(content@.skip(0) =~= content@);
                match take_proper_noun(rest.as_str()) {
                    Some(value) => {
                        return Some(value);
                    },
                    None => {},
                }
            },
            None => {},
        }
        i = i + 1;
    }
    None
}

/// Adds the fact that a value makes, where there is one.
fn push_fact(out: &mut Vec<String>, lead: &str, value: Option<String>)
    ensures
        text::texts(final(out)@) == text::texts(old(out)@) + fact(
            lead@,
            match value {
                Some(v) => Some(v@),
                None => None,
            },
        ),
{
    let ghost before = out@;
    match value {
        Some(v) => {
            let mut s = lead.to_owned();
            s.append(v.as_str());
            s.append(".");
            out.push(s);
            assert(text::texts(out@) =~= text::texts(before) + seq![lead@ + v@ + "."@]);
        },
        None => {
            assert(text::texts(out@) =~= text::texts(before) + Seq::<Seq<char>>::empty());
        },
    }
}

/// Extracts the facts in one user message.
pub fn extract_facts(content: &str) -> (out: Vec<String>)
    ensures
        text::texts(out@) == facts(content@, unicode_lower()),
        is_ascii_text(content@) ==> text::texts(out@) == facts(content@, ascii_letters_lower()),
{
    let v = chars_of(content);
    let (low, from) = fold(&v);
    proof {
        if is_ascii_text(content@) {
            let (a, b) = (unicode_lower(), ascii_letters_lower());
            lemma_captured_agree(content@, name_patterns(), a, b);
            lemma_captured_agree(content@, place_patterns(), a, b);
            lemma_captured_agree(content@, work_patterns(), a, b);
        }
    }
    let names: Vec<&str> = vec!["my name is ", "i'm ", "i am ", "call me "];
    let places: Vec<&str> = vec!["i live in ", "i'm from ", "i am from "];
    let works: Vec<&str> = vec!["i work at ", "i work for "];
    assert(str_texts(names@) =~= name_patterns());
    assert(str_texts(places@) =~= place_patterns());
    assert(str_texts(works@) =~= work_patterns());
    let mut out: Vec<String> = Vec::new();
    assert(text::texts(out@) =~= Seq::<Seq<char>>::empty());
    let name = capture(&v, &low, &from, &names);
    push_fact(&mut out, "The user's name is ", name);
    let place = capture(&v, &low, &from, &places);
    push_fact(&mut out, "The user is from ", place);
    let work = capture(&v, &low, &from, &works);
    push_fact(&mut out, "The user works at ", work);
    assert(text::texts(out@) =~= facts(content@, unicode_lower()));
    out
}

/// What storing one fact came to.
#[derive(Debug, Clone, Copy, PartialEq, Eq, Structural)]
pub enum StoreOutcome {
    /// The fact is new and was inserted.
    Inserted,
    /// The fact was known already.
    Existing,
    /// The fact could not be stored; the failure is not fatal.
    Failed,
}

/// What storing one fact came to, by the number of rows that were inserted: the table
/// keeps one row to a content.
pub open spec fn stored(rows_affected: int) -> StoreOutcome {
    if rows_affected > 0 {
        StoreOutcome::Inserted
    } else {
        StoreOutcome::Existing
    }
}

/// What storing one fact came to, by the number of rows that were inserted.
pub fn store_outcome(rows_affected: u64) -> (o: StoreOutcome)
    ensures
        o == stored(rows_affected as int),
{
    if rows_affected > 0 {
        StoreOutcome::Inserted
    } else {
        StoreOutcome::Existing
    }
}

/// How many facts were actually inserted.
pub open spec fn inserted(outcomes: Seq<StoreOutcome>) -> nat
    decreases outcomes.len(),
{
    if outcomes.len() == 0 {
        0
    } else if outcomes.last() == StoreOutcome::Inserted {
        inserted(outcomes.drop_last()) + 1
    } else {
        inserted(outcomes.drop_last())
    }
}

/// The number of memories actually inserted: duplicates and failures count as
/// nothing.
pub fn count_inserted(outcomes: &Vec<StoreOutcome>) -> (n: usize)
    ensures
        n == inserted(outcomes@),
{
    let mut n: usize = 0;
    let mut i: usize = 0;
    assert(outcomes@.take(0) =~= Seq::<StoreOutcome>::empty());
    while i < outcomes.len()
        invariant
            i <= outcomes@.len(),
            n <= i,
            n == inserted(outcomes@.take(i as int)),
        decreases outcomes@.len() - i,
    {
        assert(outcomes@.take(i + 1).drop_last() =~= outcomes@.take(i as int));
        if outcomes[i] == StoreOutcome::Inserted {
            n = n + 1;
        }
        i = i + 1;
    }
    assert(outcomes@.take(outcomes@.len() as int) =~= outcomes@);
    n
}

// ---------------------------------------------------------------------------
// Mappings that agree
// ---------------------------------------------------------------------------

proof fn lemma_fold_agree(
    s: Seq<char>,
    a: spec_fn(char) -> Seq<char>,
    b: spec_fn(char) -> Seq<char>,
)
    requires
        agree(s, a, b),
    ensures
        folded(s, a) == folded(s, b),
        origins(s, a) == origins(s, b),
    decreases s.len(),
{
    if s.len() > 0 {
        assert forall|i: int| 0 <= i < s.drop_last().len() implies a(
            #[trigger] s.drop_last()[i],
        ) == b(s.drop_last()[i]) by {
            assert(s.drop_last()[i] == s[i]);
        }
        lemma_fold_agree(s.drop_last(), a, b);
        assert(a(s[s.len() - 1]) == b(s[s.len() - 1]));
    }
}

/// Every character of `s` has a property.
pub open spec fn all_chars(s: Seq<char>, p: spec_fn(char) -> bool) -> bool {
    forall|i: int| 0 <= i < s.len() ==> p(#[trigger] s[i])
}

/// What holds of every character of a text holds of those of its words.
proof fn lemma_words_all(s: Seq<char>, p: spec_fn(char) -> bool)
    requires
        all_chars(s, p),
    ensures
        forall|k: int| 0 <= k < text::words(s).len() ==> all_chars(#[trigger] text::words(s)[k], p),
    decreases s.len(),
{
    let t = text::trim_start(s);
    lemma_trim_start_all(s, p);
    text::lemma_word_bounds(s);
    if t.len() > 0 {
        let n = text::word_len(t) as int;
        let rest = t.skip(n);
        assert(all_chars(rest, p)) by {
            assert forall|i: int| 0 <= i < rest.len() implies p(#[trigger] rest[i]) by {
                assert(rest[i] == t[n + i]);
            }
        }
        lemma_words_all(rest, p);
        assert forall|k: int| 0 <= k < text::words(s).len() implies all_chars(
            #[trigger] text::words(s)[k],
            p,
        ) by {
            if k == 0 {
                let w = t.take(n);
                assert(text::words(s)[0] == w);
                assert forall|i: int| 0 <= i < w.len() implies p(#[trigger] w[i]) by {
                    assert(w[i] == t[i]);
                }
            } else {
                assert(text::words(s)[k] == text::words(rest)[k - 1]);
            }
        }
    }
}

proof fn lemma_trim_start_all(s: Seq<char>, p: spec_fn(char) -> bool)
    requires
        all_chars(s, p),
    ensures
        all_chars(text::trim_start(s), p),
    decreases s.len(),
{
    if s.len() > 0 && text::is_white(s.first()) {
        assert forall|i: int| 0 <= i < s.drop_first().len() implies p(
            #[trigger] s.drop_first()[i],
        ) by {
            assert(s.drop_first()[i] == s[i + 1]);
        }
        lemma_trim_start_all(s.drop_first(), p);
    }
}

proof fn lemma_closing_all(s: Seq<char>, p: spec_fn(char) -> bool)
    requires
        all_chars(s, p),
    ensures
        all_chars(without_closing(s), p),
    decreases s.len(),
{
    if s.len() > 0 && is_closing(s.last()) {
        assert forall|i: int| 0 <= i < s.drop_last().len() implies p(
            #[trigger] s.drop_last()[i],
        ) by {
            assert(s.drop_last()[i] == s[i]);
        }
        lemma_closing_all(s.drop_last(), p);
    }
}

/// The words of an ASCII text are ASCII, and stay so without closing punctuation.
proof fn lemma_ascii_words(s: Seq<char>)
    requires
        is_ascii_text(s),
    ensures
        all_ascii(text::words(s)),
        forall|k: int|
            0 <= k < text::words(s).len() ==> is_ascii_text(
                without_closing(#[trigger] text::words(s)[k]),
            ),
{
    let p = |c: char| (c as u32) < 0x80;
    assert(all_chars(s, p));
    lemma_words_all(s, p);
    assert forall|k: int| 0 <= k < text::words(s).len() implies is_ascii_text(
        #[trigger] text::words(s)[k],
    ) && is_ascii_text(without_closing(text::words(s)[k])) by {
        let w = text::words(s)[k];
        lemma_closing_all(w, p);
        assert forall|i: int| 0 <= i < w.len() implies (#[trigger] w[i] as u32) < 0x80 by {
            assert(p(w[i]));
        }
        let v = without_closing(w);
        assert forall|i: int| 0 <= i < v.len() implies (#[trigger] v[i] as u32) < 0x80 by {
            assert(p(v[i]));
        }
    }
}

proof fn lemma_capitalized_agree(
    ws: Seq<Seq<char>>,
    a: spec_fn(char) -> Seq<char>,
    b: spec_fn(char) -> Seq<char>,
)
    requires
        forall|k: int| 0 <= k < ws.len() ==> agree(#[trigger] ws[k], a, b),
    ensures
        first_capitalized(ws, a) == first_capitalized(ws, b),
        first_capitalized(ws, a) matches Some(w) ==> agree(w, a, b),
    decreases ws.len(),
{
    if ws.len() > 0 {
        assert(agree(ws[0], a, b));
        if ws[0].len() > 0 {
            assert(a(ws[0][0]) == b(ws[0][0]));
        }
        assert forall|k: int| 0 <= k < ws.drop_first().len() implies agree(
            #[trigger] ws.drop_first()[k],
            a,
            b,
        ) by {
            assert(ws.drop_first()[k] == ws[k + 1]);
        }
        lemma_capitalized_agree(ws.drop_first(), a, b);
    }
}

proof fn lemma_agree_all(
    s: Seq<char>,
    a: spec_fn(char) -> Seq<char>,
    b: spec_fn(char) -> Seq<char>,
    same: spec_fn(char) -> bool,
)
    requires
        forall|c: char| #[trigger] same(c) == (a(c) == b(c)),
        all_chars(s, same),
    ensures
        agree(s, a, b),
{
    assert forall|i: int| 0 <= i < s.len() implies a(#[trigger] s[i]) == b(s[i]) by {
        assert(same(s[i]));
    }
}

proof fn lemma_noun_agree(
    s: Seq<char>,
    a: spec_fn(char) -> Seq<char>,
    b: spec_fn(char) -> Seq<char>,
)
    requires
        agree(s, a, b),
    ensures
        proper_noun(s, a) == proper_noun(s, b),
{
    let ws = text::words(s);
    let same = |c: char| a(c) == b(c);
    assert(all_chars(s, same));
    lemma_words_all(s, same);
    assert forall|k: int| 0 <= k < ws.len() implies agree(#[trigger] ws[k], a, b) by {
        lemma_agree_all(ws[k], a, b, same);
    }
    lemma_capitalized_agree(ws, a, b);
    if ws.len() > 0 {
        let word = match first_capitalized(ws, a) {
            Some(w) => w,
            None => ws[0],
        };
        assert(agree(ws[0], a, b));
        assert(all_chars(word, same));
        lemma_closing_all(word, same);
        lemma_agree_all(without_closing(word), a, b, same);
        lemma_fold_agree(without_closing(word), a, b);
    }
}

proof fn lemma_captured_agree(
    content: Seq<char>,
    patterns: Seq<Seq<char>>,
    a: spec_fn(char) -> Seq<char>,
    b: spec_fn(char) -> Seq<char>,
)
    requires
        agree(content, a, b),
    ensures
        captured(content, patterns, a) == captured(content, patterns, b),
    decreases patterns.len(),
{
    if patterns.len() > 0 {
        let pattern = patterns.first();
        lemma_fold_agree(content, a, b);
        lemma_captured_agree(content, patterns.drop_first(), a, b);
        lemma_origins(content, a);
        text::lemma_find_from(folded(content, a), pattern, 0);
        match text_after(content, pattern, a) {
            Some(rest) => {
                if pattern.len() > 0 {
                    let i = text::first_at(folded(content, a), pattern)->0;
                    let from = origins(content, a)[i + pattern.len() - 1] + 1;
                    assert forall|k: int| 0 <= k < rest.len() implies a(#[trigger] rest[k])
                        == b(rest[k]) by {
                        assert(rest[k] == content[from + k]);
                    }
                }
                lemma_noun_agree(rest, a, b);
            },
            None => {},
        }
    }
}

// ---------------------------------------------------------------------------
// Laws
// ---------------------------------------------------------------------------

/// A message yields one name, one place and one workplace at most.
pub proof fn law_one_fact_of_each_kind(content: Seq<char>, low: spec_fn(char) -> Seq<char>)
    ensures
        facts(content, low).len() <= 3,
        fact("The user's name is "@, captured(content, name_patterns(), low)).len() <= 1,
        fact("The user is from "@, captured(content, place_patterns(), low)).len() <= 1,
        fact("The user works at "@, captured(content, work_patterns(), low)).len() <= 1,
{
}

/// A message in which none of the patterns occurs yields no fact.
pub proof fn law_no_pattern_no_fact(content: Seq<char>, low: spec_fn(char) -> Seq<char>)
    requires
        forall|p: Seq<char>|
            name_patterns().contains(p) || place_patterns().contains(p)
                || work_patterns().contains(p) ==> !(#[trigger] text::has_text(
                folded(content, low),
                p,
            )),
    ensures
        facts(content, low).len() == 0,
{
    lemma_no_pattern(content, name_patterns(), low);
    lemma_no_pattern(content, place_patterns(), low);
    lemma_no_pattern(content, work_patterns(), low);
}

proof fn lemma_no_pattern(content: Seq<char>, patterns: Seq<Seq<char>>, low: spec_fn(char) -> Seq<char>)
    requires
        forall|p: Seq<char>|
            patterns.contains(p) ==> !(#[trigger] text::has_text(folded(content, low), p)),
    ensures
        captured(content, patterns, low) is None,
    decreases patterns.len(),
{
    if patterns.len() > 0 {
        assert(patterns.contains(patterns[0]));
        text::lemma_has_text(folded(content, low), patterns[0]);
        assert forall|p: Seq<char>| patterns.drop_first().contains(p) implies !(
        #[trigger] text::has_text(folded(content, low), p)) by {
            let k = choose|k: int|
                0 <= k < patterns.drop_first().len() && patterns.drop_first()[k] == p;
            assert(patterns[k + 1] == p);
        }
        lemma_no_pattern(content, patterns.drop_first(), low);
    }
}

/// What is captured never ends in closing punctuation, is never empty and is never
/// longer than the limit.
pub proof fn law_captured_value(s: Seq<char>, low: spec_fn(char) -> Seq<char>)
    ensures
        proper_noun(s, low) matches Some(v) ==> {
            &&& v.len() > 0
            &&& !is_closing(v.last())
            &&& text::byte_len(v) <= MAX_VALUE_BYTES
            &&& !is_filler(v, low)
        },
{
    let ws = text::words(s);
    if ws.len() > 0 {
        let word = match first_capitalized(ws, low) {
            Some(w) => w,
            None => ws[0],
        };
        lemma_without_closing(word);
    }
}

proof fn lemma_without_closing(s: Seq<char>)
    ensures
        without_closing(s).len() > 0 ==> !is_closing(without_closing(s).last()),
    decreases s.len(),
{
    if s.len() > 0 && is_closing(s.last()) {
        lemma_without_closing(s.drop_last());
    }
}

// ---------------------------------------------------------------------------
// Which phrase gives which fact
// ---------------------------------------------------------------------------

/// The value that stands behind the first occurrence of a phrase, where it is usable.
pub open spec fn said_after(
    content: Seq<char>,
    phrase: Seq<char>,
    low: spec_fn(char) -> Seq<char>,
) -> Option<Seq<char>> {
    match text_after(content, phrase, low) {
        Some(rest) => proper_noun(rest, low),
        None => None,
    }
}

/// The first value, or else the second.
pub open spec fn or_else(a: Option<Seq<char>>, b: Option<Seq<char>>) -> Option<Seq<char>> {
    if a is Some {
        a
    } else {
        b
    }
}

/// The sentence about a value, where there is one.
pub open spec fn sentence(lead: Seq<char>, value: Option<Seq<char>>) -> Seq<Seq<char>> {
    if value is Some {
        seq![lead + value->0 + "."@]
    } else {
        Seq::empty()
    }
}

/// Which phrases give which fact, the phrases tried in this order: four give the name of
/// the user, three the place that they are from, two the place that they work at. A phrase
/// behind which nothing usable stands gives way to the next one.
pub proof fn law_phrases_give_facts(content: Seq<char>, low: spec_fn(char) -> Seq<char>)
    ensures
        facts(content, low) == sentence(
            "The user's name is "@,
            or_else(
                said_after(content, "my name is "@, low),
                or_else(
                    said_after(content, "i'm "@, low),
                    or_else(
                        said_after(content, "i am "@, low),
                        said_after(content, "call me "@, low),
                    ),
                ),
            ),
        ) + sentence(
            "The user is from "@,
            or_else(
                said_after(content, "i live in "@, low),
                or_else(
                    said_after(content, "i'm from "@, low),
                    said_after(content, "i am from "@, low),
                ),
            ),
        ) + sentence(
            "The user works at "@,
            or_else(
                said_after(content, "i work at "@, low),
                said_after(content, "i work for "@, low),
            ),
        ),
{
    lemma_captured_first(content, "my name is "@, seq!["i'm "@, "i am "@, "call me "@], low);
    lemma_captured_first(content, "i'm "@, seq!["i am "@, "call me "@], low);
    lemma_captured_first(content, "i am "@, seq!["call me "@], low);
    lemma_captured_first(content, "call me "@, Seq::empty(), low);
    lemma_captured_first(content, "i live in "@, seq!["i'm from "@, "i am from "@], low);
    lemma_captured_first(content, "i'm from "@, seq!["i am from "@], low);
    lemma_captured_first(content, "i am from "@, Seq::empty(), low);
    lemma_captured_first(content, "i work at "@, seq!["i work for "@], low);
    lemma_captured_first(content, "i work for "@, Seq::empty(), low);
    assert(name_patterns() =~= seq!["my name is "@] + seq!["i'm "@, "i am "@, "call me "@]);
    assert(seq!["i'm "@, "i am "@, "call me "@] =~= seq!["i'm "@] + seq!["i am "@, "call me "@]);
    assert(seq!["i am "@, "call me "@] =~= seq!["i am "@] + seq!["call me "@]);
    assert(seq!["call me "@] =~= seq!["call me "@] + Seq::empty());
    assert(place_patterns() =~= seq!["i live in "@] + seq!["i'm from "@, "i am from "@]);
    assert(seq!["i'm from "@, "i am from "@] =~= seq!["i'm from "@] + seq!["i am from "@]);
    assert(seq!["i am from "@] =~= seq!["i am from "@] + Seq::empty());
    assert(work_patterns() =~= seq!["i work at "@] + seq!["i work for "@]);
    assert(seq!["i work for "@] =~= seq!["i work for "@] + Seq::empty());
}

proof fn lemma_captured_first(
    content: Seq<char>,
    first: Seq<char>,
    others: Seq<Seq<char>>,
    low: spec_fn(char) -> Seq<char>,
)
    ensures
        captured(content, seq![first] + others, low) == or_else(
            said_after(content, first, low),
            captured(content, others, low),
        ),
        captured(content, Seq::empty(), low) is None,
{
    let all = seq![first] + others;
    assert(all.first() == first);
    assert(all.drop_first() =~= others);
}

/// A fact of a kind is there only where one of the phrases of its kind is.
pub proof fn law_facts_need_their_phrase(content: Seq<char>, low: spec_fn(char) -> Seq<char>, k: int)
    requires
        0 <= k < facts(content, low).len(),
    ensures
        ({
            let said = folded(content, low);
            let f = facts(content, low)[k];
            &&& "The user's name is "@.is_prefix_of(f) ==> text::has_text(said, "my name is "@)
                || text::has_text(said, "i'm "@) || text::has_text(said, "i am "@)
                || text::has_text(said, "call me "@)
            &&& "The user is from "@.is_prefix_of(f) ==> text::has_text(said, "i live in "@)
                || text::has_text(said, "i'm from "@) || text::has_text(said, "i am from "@)
            &&& "The user works at "@.is_prefix_of(f) ==> text::has_text(said, "i work at "@)
                || text::has_text(said, "i work for "@)
            &&& "The user's name is "@.is_prefix_of(f) || "The user is from "@.is_prefix_of(f)
                || "The user works at "@.is_prefix_of(f)
        }),
{
    law_phrases_give_facts(content, low);
    let said = folded(content, low);
    text::lemma_has_text(said, "my name is "@);
    text::lemma_has_text(said, "i'm "@);
    text::lemma_has_text(said, "i am "@);
    text::lemma_has_text(said, "call me "@);
    text::lemma_has_text(said, "i live in "@);
    text::lemma_has_text(said, "i'm from "@);
    text::lemma_has_text(said, "i am from "@);
    text::lemma_has_text(said, "i work at "@);
    text::lemma_has_text(said, "i work for "@);
    reveal_strlit("The user's name is ");
    reveal_strlit("The user is from ");
    reveal_strlit("The user works at ");
    assert("The user's name is "@[8] == '\'' && "The user is from "@[8] == ' ');
    assert("The user works at "@[8] == ' ' && "The user works at "@[9] == 'w');
    assert("The user is from "@[9] == 'i');
    let f = facts(content, low)[k];
    assert("The user's name is "@.is_prefix_of(f) ==> f[8] == '\'');
    assert("The user is from "@.is_prefix_of(f) ==> f[8] == ' ' && f[9] == 'i');
    assert("The user works at "@.is_prefix_of(f) ==> f[8] == ' ' && f[9] == 'w');
}

/// A character of a text is a character of a phrase, the case of ASCII letters aside.
pub open spec fn same_letter(c: char, p: char) -> bool {
    if 'A' <= c && c <= 'Z' {
        p == ((c as u32) + 32) as char
    } else {
        p == c
    }
}

/// A phrase stands in a text at a position, the case of ASCII letters aside.
pub open spec fn spoken_at(content: Seq<char>, phrase: Seq<char>, i: int) -> bool {
    &&& 0 <= i
    &&& i + phrase.len() <= content.len()
    &&& forall|k: int| 0 <= k < phrase.len() ==> same_letter(#[trigger] content[i + k], phrase[k])
}

/// What stands behind a phrase is what follows its first occurrence, in the letters in which
/// it was written, whatever the case of the phrase.
pub proof fn law_phrase_is_found_in_any_case(content: Seq<char>, phrase: Seq<char>)
    requires
        phrase.len() > 0,
    ensures
        match text_after(content, phrase, ascii_letters_lower()) {
            Some(rest) => exists|i: int| #[trigger]
                spoken_at(content, phrase, i) && (forall|j: int|
                    0 <= j < i ==> !#[trigger] spoken_at(content, phrase, j)) && rest
                    == content.skip(i + phrase.len()),
            None => forall|j: int| !#[trigger] spoken_at(content, phrase, j),
        },
{
    let low = ascii_letters_lower();
    let said = folded(content, low);
    lemma_ascii_folded(content);
    text::lemma_find_from(said, phrase, 0);
    assert forall|i: int| 0 <= i implies spoken_at(content, phrase, i) == #[trigger] text::occurs_at(
        said,
        phrase,
        i,
    ) by {
        lemma_spoken(content, phrase, i);
    }
    assert forall|j: int| text::first_at(said, phrase) is None implies !#[trigger] spoken_at(
        content,
        phrase,
        j,
    ) by {
        if 0 <= j {
            assert(!text::occurs_at(said, phrase, j));
        }
    }
    if let Some(i) = text::first_at(said, phrase) {
        assert(text::occurs_at(said, phrase, i));
        assert(spoken_at(content, phrase, i));
        assert forall|j: int| 0 <= j < i implies !#[trigger] spoken_at(content, phrase, j) by {
            assert(!text::occurs_at(said, phrase, j));
        }
        assert(origins(content, low)[i + phrase.len() - 1] == i + phrase.len() - 1);
    }
}

proof fn lemma_spoken(content: Seq<char>, phrase: Seq<char>, i: int)
    requires
        0 <= i,
    ensures
        spoken_at(content, phrase, i) == text::occurs_at(
            folded(content, ascii_letters_lower()),
            phrase,
            i,
        ),
{
    let said = folded(content, ascii_letters_lower());
    lemma_ascii_folded(content);
    if i + phrase.len() <= content.len() {
        let here = said.subrange(i, i + phrase.len());
        if spoken_at(content, phrase, i) {
            assert forall|k: int| 0 <= k < phrase.len() implies here[k] == phrase[k] by {
                assert(same_letter(content[i + k], phrase[k]));
                assert(said[i + k] == text::ascii_lower(content[i + k]));
                assert(here[k] == said[i + k]);
            }
            assert(here =~= phrase);
        }
        if text::occurs_at(said, phrase, i) {
            assert forall|k: int| 0 <= k < phrase.len() implies same_letter(
                #[trigger] content[i + k],
                phrase[k],
            ) by {
                assert(here[k] == phrase[k]);
                assert(said[i + k] == text::ascii_lower(content[i + k]));
            }
        }
    }
}

/// With ASCII letters alone, a folded text has a character for each character of the text.
proof fn lemma_ascii_folded(s: Seq<char>)
    ensures
        folded(s, ascii_letters_lower()).len() == s.len(),
        origins(s, ascii_letters_lower()).len() == s.len(),
        forall|i: int|
            0 <= i < s.len() ==> #[trigger] folded(s, ascii_letters_lower())[i]
                == text::ascii_lower(s[i]),
        forall|i: int| 0 <= i < s.len() ==> #[trigger] origins(s, ascii_letters_lower())[i] == i,
    decreases s.len(),
{
    if s.len() > 0 {
        lemma_ascii_folded(s.drop_last());
    }
}

/// The word of a list that a value is taken from: the first that starts with a capital, or
/// the first where none does.
pub open spec fn is_taken(ws: Seq<Seq<char>>, low: spec_fn(char) -> Seq<char>, k: int) -> bool {
    &&& 0 <= k < ws.len()
    &&& {
        ||| low(ws[k][0]) != seq![ws[k][0]] && forall|j: int|
            0 <= j < k ==> low((#[trigger] ws[j])[0]) == seq![ws[j][0]]
        ||| k == 0 && forall|j: int|
            0 <= j < ws.len() ==> low((#[trigger] ws[j])[0]) == seq![ws[j][0]]
    }
}

/// A text is punctuation throughout.
pub open spec fn only_closing(s: Seq<char>) -> bool {
    forall|i: int|
        0 <= i < s.len() ==> (#[trigger] s[i] == '.' || s[i] == ',' || s[i] == '!' || s[i] == '?'
            || s[i] == ';' || s[i] == ':')
}

/// What is captured from a text is its first capitalized word, or its first word, without
/// the punctuation at its end, unless nothing is left of it, it is longer than 64 bytes, or
/// it is an article or a negation. There is nothing to capture in a text without words.
pub proof fn law_value_is_a_word(
    s: Seq<char>,
    low: spec_fn(char) -> Seq<char>,
    k: int,
    value: Seq<char>,
    tail: Seq<char>,
)
    requires
        is_taken(text::words(s), low, k),
        text::words(s)[k] == value + tail,
        only_closing(tail),
        value.len() > 0 ==> !only_closing(seq![value.last()]),
    ensures
        proper_noun(s, low) == (if value.len() == 0 || text::byte_len(value) > 64 || folded(
            value,
            low,
        ) == "a"@ || folded(value, low) == "an"@ || folded(value, low) == "the"@ || folded(
            value,
            low,
        ) == "not"@ || folded(value, low) == "no"@ {
            None
        } else {
            Some(value)
        }),
{
    let ws = text::words(s);
    text::lemma_words_nonempty(s);
    lemma_first_capitalized(ws, low, k);
    lemma_stripped(value, tail);
}

/// A text without words gives nothing.
pub proof fn law_no_word_no_value(s: Seq<char>, low: spec_fn(char) -> Seq<char>)
    requires
        text::words(s).len() == 0,
    ensures
        proper_noun(s, low) is None,
{
}

proof fn lemma_first_capitalized(ws: Seq<Seq<char>>, low: spec_fn(char) -> Seq<char>, k: int)
    requires
        is_taken(ws, low, k),
        forall|j: int| 0 <= j < ws.len() ==> (#[trigger] ws[j]).len() > 0,
    ensures
        (match first_capitalized(ws, low) {
            Some(w) => w,
            None => ws[0],
        }) == ws[k],
    decreases ws.len(),
{
    let rest = ws.drop_first();
    assert(ws.first() == ws[0]);
    if low(ws[0][0]) == seq![ws[0][0]] {
        if forall|j: int| 0 <= j < ws.len() ==> low((#[trigger] ws[j])[0]) == seq![ws[j][0]] {
            lemma_none_capitalized(ws, low);
        } else {
            assert forall|j: int| 0 <= j < rest.len() implies (#[trigger] rest[j]).len() > 0 by {
                assert(rest[j] == ws[j + 1]);
            }
            assert(k > 0);
            assert forall|j: int| 0 <= j < k - 1 implies low((#[trigger] rest[j])[0])
                == seq![rest[j][0]] by {
                assert(rest[j] == ws[j + 1]);
            }
            assert(rest[k - 1] == ws[k]);
            assert(is_taken(rest, low, k - 1));
            lemma_first_capitalized(rest, low, k - 1);
            lemma_some_capitalized(rest, low, k - 1);
        }
    }
}

proof fn lemma_none_capitalized(ws: Seq<Seq<char>>, low: spec_fn(char) -> Seq<char>)
    requires
        forall|j: int| 0 <= j < ws.len() ==> low((#[trigger] ws[j])[0]) == seq![ws[j][0]],
    ensures
        first_capitalized(ws, low) is None,
    decreases ws.len(),
{
    if ws.len() > 0 {
        let rest = ws.drop_first();
        assert(ws.first() == ws[0]);
        assert forall|j: int| 0 <= j < rest.len() implies low((#[trigger] rest[j])[0])
            == seq![rest[j][0]] by {
            assert(rest[j] == ws[j + 1]);
        }
        lemma_none_capitalized(rest, low);
    }
}

proof fn lemma_some_capitalized(ws: Seq<Seq<char>>, low: spec_fn(char) -> Seq<char>, k: int)
    requires
        0 <= k < ws.len(),
        ws[k].len() > 0,
        low(ws[k][0]) != seq![ws[k][0]],
    ensures
        first_capitalized(ws, low) is Some,
    decreases ws.len(),
{
    if k > 0 {
        assert(ws.drop_first()[k - 1] == ws[k]);
        lemma_some_capitalized(ws.drop_first(), low, k - 1);
    }
}

proof fn lemma_stripped(value: Seq<char>, tail: Seq<char>)
    requires
        only_closing(tail),
        value.len() > 0 ==> !only_closing(seq![value.last()]),
    ensures
        without_closing(value + tail) == value,
    decreases tail.len(),
{
    let all = value + tail;
    if tail.len() > 0 {
        assert(all.last() == tail[tail.len() - 1]);
        assert(all.drop_last() =~= value + tail.drop_last());
        assert(only_closing(tail.drop_last())) by {
            assert forall|i: int| 0 <= i < tail.len() - 1 implies is_closing(
                #[trigger] tail.drop_last()[i],
            ) by {
                assert(tail.drop_last()[i] == tail[i]);
            }
        }
        lemma_stripped(value, tail.drop_last());
    } else {
        assert(all =~= value);
        if value.len() > 0 && is_closing(value.last()) {
            assert(only_closing(seq![value.last()]));
        }
    }
}

/// A fact counts as inserted exactly where a row was, and the number of facts that were
/// inserted grows by each of these alone.
pub proof fn law_each_insertion_counts(
    outcomes: Seq<StoreOutcome>,
    outcome: StoreOutcome,
    rows_affected: int,
)
    requires
        rows_affected >= 0,
    ensures
        stored(rows_affected) == StoreOutcome::Inserted <==> rows_affected != 0,
        stored(rows_affected) == StoreOutcome::Existing <==> rows_affected == 0,
        inserted(Seq::empty()) == 0,
        inserted(outcomes.push(outcome)) == inserted(outcomes) + (if outcome
            == StoreOutcome::Inserted {
            1int
        } else {
            0
        }),
{
    assert(outcomes.push(outcome).drop_last() =~= outcomes);
}

} // verus!
