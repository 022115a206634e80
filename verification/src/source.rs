//! Reading a document off its text and its name.
//!
//! The text of a document is a list of words separated by white space. The
//! words that are decimal numbers in the range of `u32` are its tokens; all
//! other words, such as header labels, are dropped. The name of a document
//! tells its label, its fold and whether it is used at all: a name that
//! holds `spmsg` is spam, a name that holds `unused` is set aside, and the
//! fold is the number `N` of the first `partN` in the name that is followed
//! by a path separator, `/` or `\`. A document without such a part belongs
//! to fold zero, which is never tested, since folds are numbered from one.

use crate::corpus::Document;
use vstd::prelude::*;

verus! {

/// Whether the character is white space, as Unicode defines it.
pub open spec fn is_space(c: char) -> bool {
    let code = c as u32;
    ||| 0x09 <= code <= 0x0D
    ||| code == 0x20
    ||| code == 0x85
    ||| code == 0xA0
    ||| code == 0x1680
    ||| 0x2000 <= code <= 0x200A
    ||| code == 0x2028
    ||| code == 0x2029
    ||| code == 0x202F
    ||| code == 0x205F
    ||| code == 0x3000
}

/// Whether the character is one of the decimal digits `0` to `9`.
pub open spec fn is_digit(c: char) -> bool {
    0x30 <= c as u32 <= 0x39
}

/// Whether the character separates the parts of a path.
pub open spec fn is_separator(c: char) -> bool {
    c == '/' || c == '\\'
}

/// The digit that the character stands for.
pub open spec fn digit_of(c: char) -> nat {
    (c as u32 - 0x30) as nat
}

/// The number that a sequence of digits stands for in base ten.
pub open spec fn decimal_value(digits: Seq<char>) -> nat
    decreases digits.len(),
{
    if digits.len() == 0 {
        0
    } else {
        decimal_value(digits.drop_last()) * 10 + digit_of(digits.last())
    }
}

/// Whether every character of the sequence is a digit.
pub open spec fn all_digits(digits: Seq<char>) -> bool {
    forall|i: int| 0 <= i < digits.len() ==> is_digit(#[trigger] digits[i])
}

/// The word without one leading plus sign.
pub open spec fn unsigned_part(word: Seq<char>) -> Seq<char> {
    if word.len() > 0 && word[0] == '+' {
        word.subrange(1, word.len() as int)
    } else {
        word
    }
}

/// The token that a word stands for: the word is one or more digits, with
/// at most one plus sign before them, and its value fits `u32`.
pub open spec fn parse_token(word: Seq<char>) -> Option<u32> {
    let digits = unsigned_part(word);
    if digits.len() > 0 && all_digits(digits) && decimal_value(digits) <= u32::MAX {
        Some(decimal_value(digits) as u32)
    } else {
        None
    }
}

/// The first position from `from` on that holds white space, or the length
/// of the text if there is none.
pub open spec fn word_end(text: Seq<char>, from: int) -> int
    decreases text.len() - from,
{
    if from < 0 || from >= text.len() || is_space(text[from]) {
        from
    } else {
        word_end(text, from + 1)
    }
}

/// The first position from `from` on that holds no digit, or the length of
/// the text if there is none.
pub open spec fn digits_end(text: Seq<char>, from: int) -> int
    decreases text.len() - from,
{
    if from < 0 || from >= text.len() || !is_digit(text[from]) {
        from
    } else {
        digits_end(text, from + 1)
    }
}

/// A word ends at or after the place where it starts, and after it if the
/// place holds no white space.
pub proof fn lemma_word_end_bounds(text: Seq<char>, from: int)
    requires
        0 <= from <= text.len(),
    ensures
        from <= word_end(text, from) <= text.len(),
        from < text.len() && !is_space(text[from]) ==> from < word_end(text, from),
    decreases text.len() - from,
{
    if from < text.len() && !is_space(text[from]) {
        lemma_word_end_bounds(text, from + 1);
    }
}

/// The tokens of the words that start at or after `from`.
pub open spec fn tokens_from(text: Seq<char>, from: int) -> Seq<u32>
    decreases text.len() - from,
{
    if from < 0 || from >= text.len() {
        Seq::empty()
    } else if is_space(text[from]) {
        tokens_from(text, from + 1)
    } else {
        proof {
            lemma_word_end_bounds(text, from);
        }
        let end = word_end(text, from);
        match parse_token(text.subrange(from, end)) {
            Some(token) => seq![token] + tokens_from(text, end),
            None => tokens_from(text, end),
        }
    }
}

/// The tokens of a text: its words, split at white space, that are numbers.
pub open spec fn tokens_of(text: Seq<char>) -> Seq<u32> {
    tokens_from(text, 0)
}

/// Whether `marker` stands in `name` at position `at`.
pub open spec fn occurs_at(name: Seq<char>, marker: Seq<char>, at: int) -> bool {
    0 <= at && at + marker.len() <= name.len() && name.subrange(at, at + marker.len()) == marker
}

/// Whether `marker` stands somewhere in `name`.
pub open spec fn has_marker(name: Seq<char>, marker: Seq<char>) -> bool {
    exists|at: int| occurs_at(name, marker, at)
}

/// The fold that a part marker at position `at` names, if there is one:
/// `part`, then one or more digits whose value fits `usize`, then a path
/// separator.
pub open spec fn fold_at(name: Seq<char>, at: int) -> Option<usize> {
    let start = at + "part"@.len();
    let end = digits_end(name, start);
    if occurs_at(name, "part"@, at) && start < end && end < name.len() && is_separator(name[end])
        && decimal_value(name.subrange(start, end)) <= usize::MAX {
        Some(decimal_value(name.subrange(start, end)) as usize)
    } else {
        None
    }
}

/// The fold that the first part marker at or after `at` names, or zero.
pub open spec fn fold_from(name: Seq<char>, at: int) -> usize
    decreases name.len() - at,
{
    if at < 0 || at >= name.len() {
        0
    } else {
        match fold_at(name, at) {
            Some(fold) => fold,
            None => fold_from(name, at + 1),
        }
    }
}

/// The fold that a name assigns its document to, or zero if it names none.
pub open spec fn fold_of(name: Seq<char>) -> usize {
    fold_from(name, 0)
}

/// The digits read so far never stand for more than all the digits do.
pub proof fn lemma_decimal_prefix(digits: Seq<char>, read: int)
    requires
        0 <= read <= digits.len(),
    ensures
        decimal_value(digits.take(read)) <= decimal_value(digits),
    decreases digits.len(),
{
    if read == digits.len() {
        assert(digits.take(read) =~= digits);
    } else {
        lemma_decimal_prefix(digits.drop_last(), read);
        assert(digits.drop_last().take(read) =~= digits.take(read));
    }
}

/// Decides whether the character is white space.
pub fn space(c: char) -> (r: bool)
    ensures
        r == is_space(c),
{
    let code: u32 = c as u32;
    (0x09 <= code && code <= 0x0D) || code == 0x20 || code == 0x85 || code == 0xA0 || code
        == 0x1680 || (0x2000 <= code && code <= 0x200A) || code == 0x2028 || code == 0x2029
        || code == 0x202F || code == 0x205F || code == 0x3000
}

/// Decides whether the character is a decimal digit.
pub fn digit(c: char) -> (r: bool)
    ensures
        r == is_digit(c),
{
    let code: u32 = c as u32;
    0x30 <= code && code <= 0x39
}

/// The characters of a string, in order.
pub fn chars_of(text: &str) -> (chars: Vec<char>)
    ensures
        chars@ == text@,
{
    broadcast use vstd::string::axiom_spec_iter;

    let mut chars: Vec<char> = Vec::new();
    for c in it: text.chars()
        invariant
            it.seq() == text@,
            chars@ == it.seq().take(it.index() as int),
    {
        chars.push(c);
    }
    assert(chars@ =~= text@);
    chars
}

/// Finds where the word that starts at `from` ends.
fn find_word_end(chars: &[char], from: usize) -> (end: usize)
    requires
        from <= chars@.len(),
    ensures
        end == word_end(chars@, from as int),
        from <= end <= chars@.len(),
{
    let mut end: usize = from;
    while end < chars.len() && !space(chars[end])
        invariant
            from <= end <= chars@.len(),
            word_end(chars@, end as int) == word_end(chars@, from as int),
        decreases chars@.len() - end,
    {
        end += 1;
    }
    end
}

/// Finds where the digits that start at `from` end.
fn find_digits_end(chars: &[char], from: usize) -> (end: usize)
    requires
        from <= chars@.len(),
    ensures
        end == digits_end(chars@, from as int),
        from <= end <= chars@.len(),
        all_digits(chars@.subrange(from as int, end as int)),
{
    let mut end: usize = from;
    while end < chars.len() && digit(chars[end])
        invariant
            from <= end <= chars@.len(),
            digits_end(chars@, end as int) == digits_end(chars@, from as int),
            all_digits(chars@.subrange(from as int, end as int)),
        decreases chars@.len() - end,
    {
        proof {
            let longer = chars@.subrange(from as int, end + 1);
            assert forall|i: int| 0 <= i < longer.len() implies is_digit(#[trigger] longer[i]) by {
                if i < end - from {
                    assert(chars@.subrange(from as int, end as int)[i] == longer[i]);
                }
            }
        }
        end += 1;
    }
    end
}

/// Reads the digits between `from` and `to` as a number of at most `limit`.
/// Gives `None` if a character is no digit or the number is larger.
fn read_decimal(chars: &[char], from: usize, to: usize, limit: u64) -> (r: Option<u64>)
    requires
        from <= to <= chars@.len(),
    ensures
        match r {
            Some(value) => all_digits(chars@.subrange(from as int, to as int)) && value
                == decimal_value(chars@.subrange(from as int, to as int)) && value <= limit,
            None => !all_digits(chars@.subrange(from as int, to as int)) || decimal_value(
                chars@.subrange(from as int, to as int),
            ) > limit,
        },
{
    let ghost digits = chars@.subrange(from as int, to as int);
    let mut value: u64 = 0;
    let mut at: usize = from;
    proof {
        assert(chars@.subrange(from as int, from as int) =~= Seq::<char>::empty());
    }
    while at < to
        invariant
            from <= at <= to,
            to <= chars@.len(),
            digits == chars@.subrange(from as int, to as int),
            all_digits(chars@.subrange(from as int, at as int)),
            value == decimal_value(chars@.subrange(from as int, at as int)),
            value <= limit,
        decreases to - at,
    {
        let c: char = chars[at];
        if !digit(c) {
            proof {
                assert(digits[at - from] == c);
            }
            return None;
        }
        let next: u128 = value as u128 * 10 + (c as u32 - 0x30) as u128;
        proof {
            let longer = chars@.subrange(from as int, at + 1);
            assert(longer.drop_last() =~= chars@.subrange(from as int, at as int));
            assert(longer.last() == c);
            assert(next == decimal_value(longer));
            assert(digits.take(at + 1 - from) =~= longer);
            lemma_decimal_prefix(digits, at + 1 - from);
            assert forall|i: int| 0 <= i < longer.len() implies is_digit(#[trigger] longer[i]) by {
                if i < at - from {
                    assert(chars@.subrange(from as int, at as int)[i] == longer[i]);
                }
            }
        }
        if next > limit as u128 {
            return None;
        }
        value = next as u64;
        at += 1;
    }
    Some(value)
}

/// Reads the word between `from` and `to` as a token.
fn parse_word(chars: &[char], from: usize, to: usize) -> (r: Option<u32>)
    requires
        from < to <= chars@.len(),
    ensures
        r == parse_token(chars@.subrange(from as int, to as int)),
{
    let ghost word = chars@.subrange(from as int, to as int);
    let start: usize = if chars[from] == '+' {
        from + 1
    } else {
        from
    };
    proof {
        assert(word[0] == chars@[from as int]);
        assert(unsigned_part(word) =~= chars@.subrange(start as int, to as int));
    }
    if start == to {
        return None;
    }
    match read_decimal(chars, start, to, 0xFFFF_FFFF) {
        Some(value) => Some(value as u32),
        None => None,
    }
}

/// Reads the tokens of a text.
pub fn parse_tokens(text: &str) -> (tokens: Vec<u32>)
    ensures
        tokens@ == tokens_of(text@),
{
    let chars: Vec<char> = chars_of(text);
    let n: usize = chars.len();
    let mut tokens: Vec<u32> = Vec::new();
    let mut at: usize = 0;
    while at < n
        invariant
            at <= n,
            n == chars@.len(),
            chars@ == text@,
            tokens@ + tokens_from(chars@, at as int) == tokens_of(text@),
        decreases n - at,
    {
        if space(chars[at]) {
            at += 1;
        } else {
            let end: usize = find_word_end(chars.as_slice(), at);
            proof {
                lemma_word_end_bounds(chars@, at as int);
            }
            let ghost before = tokens@;
            match parse_word(chars.as_slice(), at, end) {
                Some(token) => {
                    tokens.push(token);
                    proof {
                        assert(before.push(token) + tokens_from(chars@, end as int) =~= before + (
                        seq![token] + tokens_from(chars@, end as int)));
                    }
                },
                None => {},
            }
            at = end;
        }
    }
    proof {
        assert(tokens@ + Seq::<u32>::empty() =~= tokens@);
    }
    tokens
}

/// Decides whether `marker` stands in `name` at position `at`.
fn matches_at(name: &[char], marker: &[char], at: usize) -> (r: bool)
    requires
        at <= name@.len(),
    ensures
        r == occurs_at(name@, marker@, at as int),
{
    let n: usize = name.len();
    let m: usize = marker.len();
    if m > n - at {
        return false;
    }
    let mut i: usize = 0;
    while i < m
        invariant
            i <= m,
            n == name@.len(),
            m == marker@.len(),
            at + m <= n,
            forall|p: int| 0 <= p < i ==> name@[at + p] == marker@[p],
        decreases m - i,
    {
        if name[at + i] != marker[i] {
            proof {
                assert(name@.subrange(at as int, at + m)[i as int] == name@[at + i]);
            }
            return false;
        }
        i += 1;
    }
    proof {
        assert(name@.subrange(at as int, at + m) =~= marker@);
    }
    true
}

/// Decides whether `marker` stands somewhere in `name`.
pub fn contains_marker(name: &[char], marker: &[char]) -> (r: bool)
    ensures
        r == has_marker(name@, marker@),
{
    let n: usize = name.len();
    let mut at: usize = 0;
    while at <= n
        invariant
            n == name@.len(),
            at <= n + 1,
            forall|p: int| 0 <= p < at ==> !occurs_at(name@, marker@, p),
        decreases n + 1 - at,
    {
        if matches_at(name, marker, at) {
            return true;
        }
        if at == n {
            proof {
                assert forall|p: int| !occurs_at(name@, marker@, p) by {
                    if 0 <= p <= n {
                        assert(!occurs_at(name@, marker@, p));
                    }
                }
            }
            return false;
        }
        at += 1;
    }
    false
}

/// Reads the fold that a part marker at position `at` names.
fn read_fold_at(name: &[char], part: &[char], at: usize) -> (r: Option<usize>)
    requires
        at < name@.len(),
        part@ == "part"@,
    ensures
        r == fold_at(name@, at as int),
{
    if !matches_at(name, part, at) {
        return None;
    }
    let n: usize = name.len();
    let start: usize = at + part.len();
    let end: usize = find_digits_end(name, start);
    if start == end || end == n {
        return None;
    }
    let c: char = name[end];
    if !(c == '/' || c == '\\') {
        return None;
    }
    match read_decimal(name, start, end, usize::MAX as u64) {
        Some(value) => Some(value as usize),
        None => None,
    }
}

/// Reads the fold that a name assigns its document to.
pub fn fold_of_name(name: &str) -> (fold: usize)
    ensures
        fold == fold_of(name@),
{
    let chars: Vec<char> = chars_of(name);
    let part: Vec<char> = chars_of("part");
    let n: usize = chars.len();
    let mut at: usize = 0;
    while at < n
        invariant
            at <= n,
            n == chars@.len(),
            chars@ == name@,
            part@ == "part"@,
            fold_from(chars@, at as int) == fold_of(name@),
        decreases n - at,
    {
        match read_fold_at(chars.as_slice(), part.as_slice(), at) {
            Some(fold) => {
                return fold;
            },
            None => {},
        }
        at += 1;
    }
    0
}

/// Builds the document that a file with this name and this text holds.
pub fn document_from(name: &str, text: &str) -> (doc: Document)
    ensures
        doc.tokens@ == tokens_of(text@),
        doc.is_spam == has_marker(name@, "spmsg"@),
        doc.unused == has_marker(name@, "unused"@),
        doc.fold == fold_of(name@),
{
    let chars: Vec<char> = chars_of(name);
    let spam: Vec<char> = chars_of("spmsg");
    let unused: Vec<char> = chars_of("unused");
    Document {
        tokens: parse_tokens(text),
        is_spam: contains_marker(chars.as_slice(), spam.as_slice()),
        fold: fold_of_name(name),
        unused: contains_marker(chars.as_slice(), unused.as_slice()),
    }
}

} // verus!
