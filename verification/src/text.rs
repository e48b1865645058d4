//! Small text helpers: decimal numerals, comparison and prefixes.

use vstd::prelude::*;

verus! {

/// The character for one decimal digit.
pub open spec fn digit(d: nat) -> char
    recommends
        d < 10,
{
    (48 + d) as char
}

/// The decimal numeral of `n`, without leading zeros.
pub open spec fn decimal(n: nat) -> Seq<char>
    decreases n,
{
    if n < 10 {
        seq![digit(n)]
    } else {
        decimal(n / 10).push(digit(n % 10))
    }
}

fn digit_text(d: u64) -> (text: &'static str)
    requires
        d < 10,
    ensures
        text@ == seq![digit(d as nat)],
{
    proof {
        reveal_strlit("0");
        reveal_strlit("1");
        reveal_strlit("2");
        reveal_strlit("3");
        reveal_strlit("4");
        reveal_strlit("5");
        reveal_strlit("6");
        reveal_strlit("7");
        reveal_strlit("8");
        reveal_strlit("9");
    }
    if d == 0 {
        "0"
    } else if d == 1 {
        "1"
    } else if d == 2 {
        "2"
    } else if d == 3 {
        "3"
    } else if d == 4 {
        "4"
    } else if d == 5 {
        "5"
    } else if d == 6 {
        "6"
    } else if d == 7 {
        "7"
    } else if d == 8 {
        "8"
    } else {
        "9"
    }
}

/// Writes `n` in decimal.
pub fn decimal_text(n: u64) -> (text: String)
    ensures
        text@ == decimal(n as nat),
    decreases n,
{
    if n < 10 {
        let mut text = String::new();
        text.append(digit_text(n));
        assert(text@ == decimal(n as nat));
        text
    } else {
        let mut text = decimal_text(n / 10);
        text.append(digit_text(n % 10));
        assert(text@ == decimal(n as nat));
        text
    }
}

/// Are the two texts the same?
pub fn same_text(a: &str, b: &str) -> (same: bool)
    ensures
        same == (a@ == b@),
{
    a.to_string() == b.to_string()
}

/// Does `text` begin with `prefix`?
pub fn starts_with(text: &str, prefix: &str) -> (yes: bool)
    ensures
        yes == prefix@.is_prefix_of(text@),
{
    let n: usize = prefix.unicode_len();
    if text.unicode_len() < n {
        return false;
    }
    let head = text.substring_char(0, n);
    proof {
        assert(prefix@.is_prefix_of(text@) == (text@.subrange(0, n as int) =~= prefix@));
    }
    same_text(head, prefix)
}

/// Does `needle` stand somewhere in `text`?
pub open spec fn occurs_in(needle: Seq<char>, text: Seq<char>) -> bool {
    exists|i: int| #[trigger] occurs_at(needle, text, i)
}

/// Does `needle` stand in `text` from position `i` on?
pub open spec fn occurs_at(needle: Seq<char>, text: Seq<char>, i: int) -> bool {
    0 <= i <= text.len() - needle.len() && text.subrange(i, i + needle.len()) == needle
}

/// Does `text` contain `needle`?
pub fn contains_text(text: &str, needle: &str) -> (yes: bool)
    ensures
        yes == occurs_in(needle@, text@),
{
    let n: usize = needle.unicode_len();
    let len: usize = text.unicode_len();
    if len < n {
        return false;
    }
    let mut i: usize = 0;
    while i <= len - n
        invariant
            n == needle@.len(),
            len == text@.len(),
            n <= len,
            i <= len - n + 1,
            forall|j: int| 0 <= j < i ==> !occurs_at(needle@, text@, j),
        decreases len - n + 1 - i,
    {
        if same_text(text.substring_char(i, i + n), needle) {
            assert(occurs_at(needle@, text@, i as int));
            return true;
        }
        if i == len - n {
            assert(!occurs_in(needle@, text@));
            return false;
        }
        i = i + 1;
    }
    false
}

/// Is the character white space, in the sense of Unicode?
pub open spec fn is_white(c: char) -> bool {
    ||| '\u{9}' <= c <= '\u{d}'
    ||| c == ' '
    ||| c == '\u{85}'
    ||| c == '\u{a0}'
    ||| c == '\u{1680}'
    ||| '\u{2000}' <= c <= '\u{200a}'
    ||| c == '\u{2028}'
    ||| c == '\u{2029}'
    ||| c == '\u{202f}'
    ||| c == '\u{205f}'
    ||| c == '\u{3000}'
}

/// The text between `from` and `to` with the white space at its ends cut
/// off, given that only white space stands outside.
pub open spec fn is_trimmed(text: Seq<char>, from: int, to: int) -> bool {
    &&& 0 <= from <= to <= text.len()
    &&& forall|i: int| 0 <= i < from ==> is_white(#[trigger] text[i])
    &&& forall|i: int| to <= i < text.len() ==> is_white(#[trigger] text[i])
    &&& from < to ==> !is_white(text[from]) && !is_white(text[to - 1])
}

/// Does the text, with the white space at its ends cut off, read `word`?
pub open spec fn reads(text: Seq<char>, word: Seq<char>) -> bool {
    exists|from: int, to: int| #[trigger]
        is_trimmed(text, from, to) && text.subrange(from, to) == word
}

fn white(c: char) -> (yes: bool)
    ensures
        yes == is_white(c),
{
    ('\u{9}' <= c && c <= '\u{d}') || c == ' ' || c == '\u{85}' || c == '\u{a0}' || c == '\u{1680}'
        || ('\u{2000}' <= c && c <= '\u{200a}') || c == '\u{2028}' || c == '\u{2029}' || c
        == '\u{202f}' || c == '\u{205f}' || c == '\u{3000}'
}

/// Does `text` read `word`, but for white space at its ends?
pub fn reads_word(text: &str, word: &str) -> (yes: bool)
    ensures
        yes == reads(text@, word@),
{
    let len: usize = text.unicode_len();
    let mut from: usize = 0;
    while from < len && white(text.get_char(from))
        invariant
            from <= len,
            len == text@.len(),
            forall|i: int| 0 <= i < from ==> is_white(#[trigger] text@[i]),
        decreases len - from,
    {
        from = from + 1;
    }
    let mut to: usize = len;
    while to > from && white(text.get_char(to - 1))
        invariant
            from <= to <= len,
            len == text@.len(),
            forall|i: int| to <= i < text@.len() ==> is_white(#[trigger] text@[i]),
        decreases to,
    {
        to = to - 1;
    }
    proof {
        assert(is_trimmed(text@, from as int, to as int));
        if reads(text@, word@) {
            let (a, b) = choose|a: int, b: int| #[trigger]
                is_trimmed(text@, a, b) && text@.subrange(a, b) == word@;
            trimmed_is_unique(text@, from as int, to as int, a, b);
        }
    }
    same_text(text.substring_char(from, to), word)
}

proof fn trimmed_is_unique(text: Seq<char>, from: int, to: int, a: int, b: int)
    requires
        is_trimmed(text, from, to),
        is_trimmed(text, a, b),
    ensures
        text.subrange(from, to) == text.subrange(a, b),
{
    if from < to {
        assert(!is_white(text[from]));
        assert(!is_white(text[to - 1]));
    }
    if a < b {
        assert(!is_white(text[a]));
        assert(!is_white(text[b - 1]));
    }
    assert(text.subrange(from, to) =~= text.subrange(a, b));
}

/// A numeral is positional: its digits, from the last one on, are how often
/// one, ten, a hundred and so on go into the number. It has no leading zero
/// and no digit too few.
pub proof fn decimal_is_positional(n: nat, k: nat)
    ensures
        ({
            let numeral = decimal(n);
            &&& numeral.len() > 0
            &&& n > 0 ==> numeral[0] != '0'
            &&& n < vstd::arithmetic::power::pow(10, numeral.len())
            &&& k < numeral.len() ==> numeral[numeral.len() - 1 - k] as int == 48 + n as int
                / vstd::arithmetic::power::pow(10, k) % 10
        }),
    decreases n,
{
    let numeral = decimal(n);
    vstd::arithmetic::power::lemma_pow0(10);
    vstd::arithmetic::power::lemma_pow1(10);
    if k == 0 {
        assert(n as int / vstd::arithmetic::power::pow(10, k) == n);
        assert(numeral[numeral.len() - 1] == digit(n % 10));
    }
    if n >= 10 {
        let high = n / 10;
        decimal_is_positional(high, if k > 0 {
            (k - 1) as nat
        } else {
            0
        });
        let len = decimal(high).len();
        vstd::arithmetic::power::lemma_pow_adds(10, 1, len);
        assert(numeral.len() == 1 + len);
        assert(n < 10 * (high + 1));
        assert(10 * (high + 1) <= 10 * vstd::arithmetic::power::pow(10, len));
        assert(numeral[0] == decimal(high)[0]);
        if k > 0 && k < numeral.len() {
            let less = (k - 1) as nat;
            vstd::arithmetic::power::lemma_pow_adds(10, 1, less);
            vstd::arithmetic::power::lemma_pow_positive(10, less);
            vstd::arithmetic::div_mod::lemma_div_denominator(
                n as int,
                10,
                vstd::arithmetic::power::pow(10, less),
            );
            assert(numeral[numeral.len() - 1 - k] == decimal(high)[len - 1 - less]);
            assert(n as int / vstd::arithmetic::power::pow(10, k) == high as int
                / vstd::arithmetic::power::pow(10, less));
        }
    }
}

/// A text reads one word: cut off at its ends, it is that word and no other.
pub proof fn text_reads_one_word(text: Seq<char>, a: Seq<char>, b: Seq<char>)
    requires
        reads(text, a),
        reads(text, b),
    ensures
        a == b,
{
    let (p, q) = choose|p: int, q: int| #[trigger]
        is_trimmed(text, p, q) && text.subrange(p, q) == a;
    let (r, s) = choose|r: int, s: int| #[trigger]
        is_trimmed(text, r, s) && text.subrange(r, s) == b;
    trimmed_is_unique(text, p, q, r, s);
}

/// A word with no blank at its ends reads as itself, and so does any text
/// with blanks, tabs or line ends around it.
pub proof fn blanks_around_a_word_do_not_matter(
    before: Seq<char>,
    word: Seq<char>,
    after: Seq<char>,
)
    requires
        word.len() > 0,
        !is_white(word[0]),
        !is_white(word.last()),
        forall|i: int|
            0 <= i < before.len() ==> {
                ||| #[trigger] before[i] == ' '
                ||| before[i] == '\t'
                ||| before[i] == '\n'
                ||| before[i] == '\r'
            },
        forall|i: int|
            0 <= i < after.len() ==> {
                ||| #[trigger] after[i] == ' '
                ||| after[i] == '\t'
                ||| after[i] == '\n'
                ||| after[i] == '\r'
            },
    ensures
        reads(before + word + after, word),
{
    let text = before + word + after;
    let from = before.len() as int;
    let to = from + word.len();
    assert forall|i: int| 0 <= i < from implies is_white(#[trigger] text[i]) by {
        assert(text[i] == before[i]);
    }
    assert forall|i: int| to <= i < text.len() implies is_white(#[trigger] text[i]) by {
        assert(text[i] == after[i - to]);
    }
    assert(text[from] == word[0]);
    assert(text[to - 1] == word.last());
    assert(is_trimmed(text, from, to));
    assert(text.subrange(from, to) =~= word);
}

/// Visible characters of ASCII are no white space.
pub proof fn visible_characters_are_not_white(c: char)
    requires
        '!' <= c <= '~',
    ensures
        !is_white(c),
{
}

/// A text contains each of its parts, wherever it stands.
pub proof fn part_occurs_in_the_whole(before: Seq<char>, needle: Seq<char>, after: Seq<char>)
    ensures
        occurs_in(needle, before + needle + after),
{
    let text = before + needle + after;
    let i = before.len() as int;
    assert(text.subrange(i, i + needle.len()) =~= needle);
    assert(occurs_at(needle, text, i));
}

/// What a text contains stands in it: the text is that part with something
/// before and after it.
pub proof fn only_parts_occur(needle: Seq<char>, text: Seq<char>)
    requires
        occurs_in(needle, text),
    ensures
        exists|i: int|
            0 <= i <= text.len() - needle.len() && text == #[trigger] text.take(i) + needle
                + text.skip(i + needle.len()),
{
    let i = choose|i: int| #[trigger] occurs_at(needle, text, i);
    let again = text.take(i) + needle + text.skip(i + needle.len());
    assert forall|j: int| 0 <= j < text.len() implies text[j] == again[j] by {
        if i <= j < i + needle.len() {
            assert(text.subrange(i, i + needle.len())[j - i] == text[j]);
        }
    }
    assert(text =~= again);
}

} // verus!
