//! Texts: numbers written out, quoting, trimming and case.

use vstd::prelude::*;

verus! {

/// `String::push` puts one character at the end of the text and changes nothing else.
pub assume_specification[ String::push ](s: &mut String, c: char)
    ensures
        final(s)@ == old(s)@.push(c),
;

/// The character of a decimal digit.
pub open spec fn digit_char(d: nat) -> char {
    if d == 0 {
        '0'
    } else if d == 1 {
        '1'
    } else if d == 2 {
        '2'
    } else if d == 3 {
        '3'
    } else if d == 4 {
        '4'
    } else if d == 5 {
        '5'
    } else if d == 6 {
        '6'
    } else if d == 7 {
        '7'
    } else if d == 8 {
        '8'
    } else {
        '9'
    }
}

/// A number written in decimal, without leading zeros.
pub open spec fn decimal(n: nat) -> Seq<char>
    decreases n,
{
    if n < 10 {
        seq![digit_char(n)]
    } else {
        decimal(n / 10).push(digit_char(n % 10))
    }
}

/// A signed number written in decimal.
pub open spec fn signed_decimal(n: int) -> Seq<char> {
    if n < 0 {
        seq!['-'] + decimal((-n) as nat)
    } else {
        decimal(n as nat)
    }
}

/// The character of a decimal digit.
pub fn digit(d: u64) -> (out: char)
    requires
        d < 10,
    ensures
        out == digit_char(d as nat),
{
    if d == 0 {
        '0'
    } else if d == 1 {
        '1'
    } else if d == 2 {
        '2'
    } else if d == 3 {
        '3'
    } else if d == 4 {
        '4'
    } else if d == 5 {
        '5'
    } else if d == 6 {
        '6'
    } else if d == 7 {
        '7'
    } else if d == 8 {
        '8'
    } else {
        '9'
    }
}

/// Writes a number in decimal, without leading zeros.
pub fn write_decimal(n: u64) -> (out: String)
    ensures
        out@ == decimal(n as nat),
    decreases n,
{
    let mut out: String = if n < 10 {
        String::new()
    } else {
        write_decimal(n / 10)
    };
    out.push(digit(n % 10));
    assert(out@ =~= decimal(n as nat));
    out
}

/// Writes a signed number in decimal.
pub fn write_signed(n: i64) -> (out: String)
    ensures
        out@ == signed_decimal(n as int),
{
    if n >= 0 {
        return write_decimal(n as u64);
    }
    let size: u64 = if n == i64::MIN {
        0x8000_0000_0000_0000
    } else {
        (-n) as u64
    };
    let mut out: String = "-".to_owned();
    out.append(write_decimal(size).as_str());
    proof {
        reveal_strlit("-");
        assert("-"@ =~= seq!['-']);
    }
    out
}

/// A text in quotation marks, with the characters escaped that std escapes when it writes
/// a text for debugging.
pub uninterp spec fn quoted_text(s: Seq<char>) -> Seq<char>;

/// Writes `s` as `format!("{:?}")` does: in quotation marks and escaped. What it writes
/// depends on the text alone.
#[verifier::external_body]
pub(crate) fn quoted(s: &str) -> (out: String)
    ensures
        out@ == quoted_text(s@),
{
    format!("{:?}", s)
}

/// The lower case of a text, as std maps it.
pub uninterp spec fn lowercase(s: Seq<char>) -> Seq<char>;

/// `str::to_lowercase` gives the lower case of the text, which depends on the text alone. It
/// goes by the lower-case mappings of the Unicode Character Database: what they give is lower
/// case already, none of them takes white space or gives it, and the one that looks around, by
/// which a sigma at the end of a word differs from others, does not look past white space. So
/// words are lower-cased one by one, and it is one to bring the white space between them down
/// before or after.
pub assume_specification[ str::to_lowercase ](s: &str) -> (out: String)
    ensures
        out@ == lowercase(s@),
        lowercase(out@) == out@,
        squeezed(out@) == lowercase(squeezed(s@)),
        lowercase(squeezed(out@)) == squeezed(out@),
;

/// Whether a character is white space: whether it has the Unicode property `White_Space`.
pub open spec fn is_space(c: char) -> bool {
    ||| '\u{9}' <= c <= '\u{d}'
    ||| c == ' '
    ||| c == '\u{85}'
    ||| c == '\u{a0}'
    ||| c == '\u{1680}'
    ||| '\u{2000}' <= c <= '\u{200a}'
    ||| c == '\u{2028}'
    ||| c == '\u{2029}'
    ||| c == '\u{202f}'
    ||| c == '\u{205f}'
    ||| c == '\u{3000}'
}

/// `char::is_whitespace` tells whether the character has the Unicode property `White_Space`.
pub assume_specification[ char::is_whitespace ](c: char) -> (out: bool)
    ensures
        out == is_space(c),
;

/// The characters of a text.
pub fn chars_of(s: &str) -> (out: Vec<char>)
    ensures
        out@ == s@,
{
    let n: usize = s.unicode_len();
    let mut out: Vec<char> = Vec::new();
    let mut i: usize = 0;
    while i < n
        invariant
            i <= n,
            n == s@.len(),
            out@ =~= s@.take(i as int),
        decreases n - i,
    {
        out.push(s.get_char(i));
        i += 1;
    }
    assert(s@.take(n as int) =~= s@);
    out
}

/// The text of the characters from `from` up to `to`.
pub fn text_of(chars: &Vec<char>, from: usize, to: usize) -> (out: String)
    requires
        from <= to <= chars.len(),
    ensures
        out@ == chars@.subrange(from as int, to as int),
{
    let mut out: String = String::new();
    let mut i: usize = from;
    while i < to
        invariant
            from <= i <= to <= chars.len(),
            out@ =~= chars@.subrange(from as int, i as int),
        decreases to - i,
    {
        out.push(chars[i]);
        i += 1;
    }
    out
}

/// A text without the white space at its ends.
pub open spec fn trimmed(s: Seq<char>) -> Seq<char>
    decreases s.len(),
{
    if s.len() == 0 {
        s
    } else if is_space(s[0]) {
        trimmed(s.skip(1))
    } else if is_space(s.last()) {
        trimmed(s.drop_last())
    } else {
        s
    }
}

/// A text without the white space at its ends.
pub fn trim(s: &str) -> (out: String)
    ensures
        out@ == trimmed(s@),
{
    let chars: Vec<char> = chars_of(s);
    let n: usize = chars.len();
    let mut from: usize = 0;
    assert(chars@.subrange(0, n as int) =~= chars@);
    while from < n && chars[from].is_whitespace()
        invariant
            from <= n,
            n == chars.len(),
            trimmed(chars@) == trimmed(chars@.subrange(from as int, n as int)),
        decreases n - from,
    {
        assert(chars@.subrange(from as int, n as int).skip(1) =~= chars@.subrange(
            from + 1,
            n as int,
        ));
        from += 1;
    }
    let mut to: usize = n;
    while to > from && chars[to - 1].is_whitespace()
        invariant
            from <= to <= n,
            n == chars.len(),
            from < n ==> !is_space(chars@[from as int]),
            trimmed(chars@) == trimmed(chars@.subrange(from as int, to as int)),
        decreases to - from,
    {
        assert(chars@.subrange(from as int, to as int).drop_last() =~= chars@.subrange(
            from as int,
            to - 1,
        ));
        to -= 1;
    }
    text_of(&chars, from, to)
}

/// A text read word by word: the words so far, parted by single spaces, and whether white
/// space came after them.
pub open spec fn read_words(s: Seq<char>) -> (Seq<char>, bool)
    decreases s.len(),
{
    if s.len() == 0 {
        (Seq::empty(), false)
    } else {
        let (words, parted) = read_words(s.drop_last());
        let c = s.last();
        if is_space(c) {
            (words, words.len() > 0)
        } else if parted {
            (words.push(' ').push(c), false)
        } else {
            (words.push(c), false)
        }
    }
}

/// A text with its white space brought down to single spaces between words.
pub open spec fn squeezed(s: Seq<char>) -> Seq<char> {
    read_words(s).0
}

/// A text with its white space brought down to single spaces between words.
pub fn squeeze(s: &str) -> (out: String)
    ensures
        out@ == squeezed(s@),
{
    let chars: Vec<char> = chars_of(s);
    let mut out: String = String::new();
    let mut some: bool = false;
    let mut parted: bool = false;
    let mut i: usize = 0;
    assert(chars@.take(0) =~= Seq::<char>::empty());
    while i < chars.len()
        invariant
            i <= chars.len(),
            some == (out@.len() > 0),
            (out@, parted) == read_words(chars@.take(i as int)),
        decreases chars.len() - i,
    {
        let c: char = chars[i];
        assert(chars@.take(i + 1).drop_last() =~= chars@.take(i as int));
        if c.is_whitespace() {
            parted = some;
        } else {
            if parted {
                out.push(' ');
            }
            out.push(c);
            parted = false;
            some = true;
        }
        i += 1;
    }
    assert(chars@.take(i as int) =~= chars@);
    out
}

/// The words of a text, in their order: its stretches without white space.
pub open spec fn words(s: Seq<char>) -> Seq<Seq<char>>
    decreases s.len(),
{
    if s.len() == 0 {
        Seq::empty()
    } else {
        let earlier = words(s.drop_last());
        let c = s.last();
        if is_space(c) {
            earlier
        } else if s.len() > 1 && !is_space(s[s.len() - 2]) {
            earlier.drop_last().push(earlier.last().push(c))
        } else {
            earlier.push(seq![c])
        }
    }
}

/// Bringing the white space of a text down leaves it its words.
pub proof fn squeezing_keeps_the_words(s: Seq<char>)
    ensures
        words(squeezed(s)) == words(s),
{
    lemma_same_words(s);
}

proof fn lemma_same_words(s: Seq<char>)
    ensures
        words(squeezed(s)) == words(s),
        read_words(s).1 ==> s.len() > 0 && is_space(s.last()),
        squeezed(s).len() > 0 && !read_words(s).1 ==> s.len() > 0 && !is_space(s.last())
            && squeezed(s).last() == s.last(),
        squeezed(s).len() == 0 ==> words(s).len() == 0 && (s.len() > 0 ==> is_space(s.last())),
    decreases s.len(),
{
    if s.len() > 0 {
        let fewer = s.drop_last();
        let c = s.last();
        lemma_same_words(fewer);
        let (before, parted) = read_words(fewer);
        if !is_space(c) {
            if parted {
                let open = before.push(' ');
                assert(open.push(c).drop_last() =~= open);
                assert(open.drop_last() =~= before);
                assert(words(open) == words(before));
                assert(open.push(c)[open.len() - 1] == ' ');
            } else {
                assert(before.push(c).drop_last() =~= before);
                if before.len() > 0 {
                    assert(before.push(c)[before.len() - 1] == before.last());
                    assert(s[s.len() - 2] == fewer.last());
                }
                if fewer.len() > 0 {
                    assert(s[s.len() - 2] == fewer.last());
                }
            }
        }
    }
}

/// Whether the white space of a text is single spaces between words.
pub open spec fn is_squeezed(s: Seq<char>) -> bool {
    &&& s.len() > 0 ==> !is_space(s[0]) && !is_space(s.last())
    &&& forall|i: int|
        0 <= i < s.len() && is_space(#[trigger] s[i]) ==> s[i] == ' ' && !is_space(s[i + 1])
}

proof fn lemma_words(s: Seq<char>)
    ensures
        is_squeezed(read_words(s).0),
        read_words(s).1 ==> read_words(s).0.len() > 0,
    decreases s.len(),
{
    if s.len() > 0 {
        lemma_words(s.drop_last());
        let (before, parted) = read_words(s.drop_last());
        let (words, _) = read_words(s);
        assert forall|i: int| 0 <= i < words.len() && is_space(#[trigger] words[i]) implies words[i]
            == ' ' && !is_space(words[i + 1]) by {
            if i < before.len() {
                assert(words[i] == before[i]);
                assert(i < before.len() - 1);
                assert(words[i + 1] == before[i + 1]);
            }
        }
    }
}

proof fn lemma_read_squeezed(words: Seq<char>, k: int)
    requires
        is_squeezed(words),
        0 <= k <= words.len(),
    ensures
        read_words(words.take(k)) == (if k > 0 && is_space(words[k - 1]) {
            (words.take(k - 1), true)
        } else {
            (words.take(k), false)
        }),
    decreases k,
{
    if k > 0 {
        lemma_read_squeezed(words, k - 1);
        assert(words.take(k).drop_last() =~= words.take(k - 1));
        assert(words.take(k).last() == words[k - 1]);
        if k > 1 && is_space(words[k - 2]) {
            assert(words.take(k - 2).push(' ').push(words[k - 1]) =~= words.take(k));
        } else if !is_space(words[k - 1]) {
            assert(words.take(k - 1).push(words[k - 1]) =~= words.take(k));
        }
    } else {
        assert(words.take(0) =~= Seq::<char>::empty());
    }
}

/// Bringing the white space of a text down to single spaces changes the text if and only if
/// it is anything else than single spaces between words.
pub proof fn squeezing_keeps_what_is_squeezed(s: Seq<char>)
    ensures
        squeezed(s) == s <==> is_squeezed(s),
{
    lemma_words(s);
    if is_squeezed(s) {
        lemma_read_squeezed(s, s.len() as int);
        assert(s.take(s.len() as int) =~= s);
    }
}

/// A text that was brought down to single spaces has none at its ends and no two together,
/// and bringing it down again changes nothing.
pub proof fn squeezing_settles(s: Seq<char>)
    ensures
        is_squeezed(squeezed(s)),
        squeezed(squeezed(s)) == squeezed(s),
{
    lemma_words(s);
    squeezing_keeps_what_is_squeezed(squeezed(s));
}

/// Three texts, one after the other.
pub fn concat(a: &str, b: &str, c: &str) -> (out: String)
    ensures
        out@ == a@ + b@ + c@,
{
    let mut out: String = a.to_owned();
    out.append(b);
    out.append(c);
    out
}

/// Where a character stands first in a text; the length of the text when it is not there.
pub open spec fn first_at(s: Seq<char>, c: char) -> int
    decreases s.len(),
{
    if s.len() == 0 {
        0
    } else if s[0] == c {
        0
    } else {
        1 + first_at(s.skip(1), c)
    }
}

/// Finds where a character stands first in a text; the length of the text when it is not
/// there.
pub fn find_first(chars: &Vec<char>, c: char) -> (out: usize)
    ensures
        out == first_at(chars@, c),
        out <= chars.len(),
{
    let mut i: usize = 0;
    assert(chars@.skip(0) =~= chars@);
    while i < chars.len() && chars[i] != c
        invariant
            i <= chars.len(),
            first_at(chars@, c) == i + first_at(chars@.skip(i as int), c),
        decreases chars.len() - i,
    {
        assert(chars@.skip(i as int).skip(1) =~= chars@.skip(i + 1));
        i += 1;
    }
    i
}

} // verus!
