//! Text as a sequence of characters: splitting, words, decimal numbers.
use vstd::prelude::*;

verus! {

/// `String::push` appends a character to the text.
pub assume_specification[ String::push ](text: &mut String, c: char)
    ensures
        final(text)@ == old(text)@.push(c),
;

/// What a list of texts holds.
pub open spec fn texts_view(texts: Seq<String>) -> Seq<Seq<char>> {
    texts.map_values(|text: String| text@)
}

/// The characters of a text.
pub fn chars_of(text: &str) -> (r: Vec<char>)
    ensures
        r@ == text@,
{
    let mut chars: Vec<char> = Vec::new();
    for c in iter: text.chars()
        invariant
            iter.seq() == text@,
            chars@ =~= text@.take(iter.index()),
    {
        chars.push(c);
    }
    chars
}

/// The text of the characters from `from` up to, not including, `to`.
pub fn text_between(chars: &Vec<char>, from: usize, to: usize) -> (r: String)
    requires
        from <= to <= chars@.len(),
    ensures
        r@ == chars@.subrange(from as int, to as int),
{
    let mut text = String::new();
    for i in from..to
        invariant
            from <= to <= chars@.len(),
            text@ =~= chars@.subrange(from as int, i as int),
    {
        text.push(chars[i]);
    }
    text
}

/// Whether two texts are the same.
pub fn same_text(a: &str, b: &str) -> (r: bool)
    ensures
        r == (a@ == b@),
{
    a.to_owned() == b.to_owned()
}

// ---- splitting ----

/// The text before and after the first `c`, if there is one.
pub open spec fn split_once(text: Seq<char>, c: char) -> Option<(Seq<char>, Seq<char>)> {
    match text.index_of_first(c) {
        Some(i) => Some((text.take(i), text.skip(i + 1))),
        None => None,
    }
}

proof fn lemma_split_once(text: Seq<char>, c: char, i: int)
    requires
        0 <= i <= text.len(),
        forall|j: int| 0 <= j < i ==> text[j] != c,
        i < text.len() ==> text[i] == c,
    ensures
        split_once(text, c) == if i < text.len() {
            Some((text.take(i), text.skip(i + 1)))
        } else {
            None
        },
{
    text.index_of_first_ensures(c);
    if i < text.len() {
        assert(text.contains(c));
    }
}

/// Splitting at a character loses nothing, and splits at the first one.
pub proof fn law_split_once(text: Seq<char>, c: char)
    ensures
        match split_once(text, c) {
            Some((before, after)) => before + seq![c] + after == text && !before.contains(c),
            None => !text.contains(c),
        },
{
    text.index_of_first_ensures(c);
    if let Some(i) = text.index_of_first(c) {
        assert(text.take(i) + seq![c] + text.skip(i + 1) =~= text);
        assert forall|j: int| 0 <= j < i implies text.take(i)[j] != c by {}
    }
}

/// The pieces of a text between the occurrences of `c`.
pub open spec fn split(text: Seq<char>, c: char) -> Seq<Seq<char>>
    decreases text.len(),
    via split_decreases
{
    match split_once(text, c) {
        Some((before, after)) => seq![before] + split(after, c),
        None => seq![text],
    }
}

#[via_fn]
proof fn split_decreases(text: Seq<char>, c: char) {
    text.index_of_first_ensures(c);
}

/// The pieces, with `c` between each two.
pub open spec fn joined(pieces: Seq<Seq<char>>, c: char) -> Seq<char>
    decreases pieces.len(),
{
    if pieces.len() == 0 {
        Seq::empty()
    } else if pieces.len() == 1 {
        pieces[0]
    } else {
        pieces[0] + seq![c] + joined(pieces.skip(1), c)
    }
}

/// Joining the pieces of a text gives the text back, and no piece holds the
/// character at which it was split.
pub proof fn law_split_and_join(text: Seq<char>, c: char)
    ensures
        split(text, c).len() > 0,
        joined(split(text, c), c) == text,
        forall|i: int|
            0 <= i < split(text, c).len() ==> !(#[trigger] split(text, c)[i]).contains(c),
    decreases text.len(),
{
    law_split_once(text, c);
    text.index_of_first_ensures(c);
    let pieces = split(text, c);
    if let Some((before, after)) = split_once(text, c) {
        law_split_and_join(after, c);
        assert(pieces.skip(1) =~= split(after, c));
        assert forall|i: int| 0 <= i < pieces.len() implies !(#[trigger] pieces[i]).contains(c) by {
            if i > 0 {
                assert(pieces[i] == split(after, c)[i - 1]);
            }
        }
    }
}

/// The text before and after the first `c`, if there is one.
pub fn split_text_once(text: &str, c: char) -> (r: Option<(String, String)>)
    ensures
        match r {
            Some((before, after)) => split_once(text@, c) == Some((before@, after@)),
            None => split_once(text@, c) is None,
        },
{
    let chars = chars_of(text);
    for i in 0..chars.len()
        invariant
            chars@ == text@,
            forall|j: int| 0 <= j < i ==> chars@[j] != c,
    {
        if chars[i] == c {
            proof {
                lemma_split_once(text@, c, i as int);
                assert(text@.take(i as int) =~= text@.subrange(0, i as int));
                assert(text@.skip(i + 1) =~= text@.subrange(i + 1, text@.len() as int));
            }
            return Some((text_between(&chars, 0, i), text_between(&chars, i + 1, chars.len())));
        }
    }
    proof {
        lemma_split_once(text@, c, text@.len() as int);
    }
    None
}

/// The pieces of a text between the occurrences of `c`.
pub fn split_text(text: &str, c: char) -> (r: Vec<String>)
    ensures
        texts_view(r@) == split(text@, c),
{
    let chars = chars_of(text);
    let mut pieces: Vec<String> = Vec::new();
    let mut start: usize = 0;
    assert(text@.skip(0) =~= text@);
    assert(texts_view(pieces@) + split(text@.skip(0), c) =~= split(text@, c));
    for i in 0..chars.len()
        invariant
            chars@ == text@,
            start <= i <= chars@.len(),
            forall|j: int| start <= j < i ==> chars@[j] != c,
            texts_view(pieces@) + split(text@.skip(start as int), c) == split(text@, c),
    {
        if chars[i] == c {
            let ghost rest = text@.skip(start as int);
            let ghost before = texts_view(pieces@);
            let piece = text_between(&chars, start, i);
            proof {
                lemma_split_once(rest, c, i - start);
                assert(rest.take(i - start) =~= piece@);
                assert(rest.skip(i - start + 1) =~= text@.skip(i + 1));
            }
            pieces.push(piece);
            start = i + 1;
            assert(texts_view(pieces@) =~= before.push(piece@));
            assert(texts_view(pieces@) + split(text@.skip(start as int), c) =~= before + split(
                rest,
                c,
            ));
        }
    }
    let ghost rest = text@.skip(start as int);
    let ghost before = texts_view(pieces@);
    let piece = text_between(&chars, start, chars.len());
    proof {
        lemma_split_once(rest, c, rest.len() as int);
        assert(piece@ =~= rest);
    }
    pieces.push(piece);
    assert(texts_view(pieces@) =~= before + seq![rest]);
    pieces
}

// ---- words ----

/// The characters that separate words: those with Unicode's White_Space property.
pub open spec fn is_space(c: char) -> bool {
    ||| '\u{9}' <= c <= '\u{d}'
    ||| c == '\u{20}'
    ||| c == '\u{85}'
    ||| c == '\u{a0}'
    ||| c == '\u{1680}'
    ||| '\u{2000}' <= c <= '\u{200a}'
    ||| c == '\u{2028}'
    ||| c == '\u{2029}'
    ||| c == '\u{202f}'
    ||| c == '\u{205f}'
    ||| c == '\u{3000}'
}

/// Whether the character separates words.
pub fn separates_words(c: char) -> (r: bool)
    ensures
        r == is_space(c),
{
    ('\u{9}' <= c && c <= '\u{d}') || c == '\u{20}' || c == '\u{85}' || c == '\u{a0}' || c
        == '\u{1680}' || ('\u{2000}' <= c && c <= '\u{200a}') || c == '\u{2028}' || c == '\u{2029}'
        || c == '\u{202f}' || c == '\u{205f}' || c == '\u{3000}'
}

/// The number of characters before the first space.
pub open spec fn word_len(text: Seq<char>) -> nat
    decreases text.len(),
{
    if text.len() == 0 || is_space(text[0]) {
        0
    } else {
        1 + word_len(text.skip(1))
    }
}

/// The words of a text: its longest stretches without a space.
pub open spec fn words(text: Seq<char>) -> Seq<Seq<char>>
    decreases text.len(),
    via words_decreases
{
    if text.len() == 0 {
        Seq::empty()
    } else if is_space(text[0]) {
        words(text.skip(1))
    } else {
        seq![text.take(word_len(text) as int)] + words(text.skip(word_len(text) as int))
    }
}

#[via_fn]
proof fn words_decreases(text: Seq<char>) {
    lemma_word_len(text);
}

proof fn lemma_word_len(text: Seq<char>)
    ensures
        word_len(text) <= text.len(),
        forall|i: int| 0 <= i < word_len(text) ==> !is_space(#[trigger] text[i]),
        word_len(text) < text.len() ==> is_space(text[word_len(text) as int]),
    decreases text.len(),
{
    if text.len() > 0 && !is_space(text[0]) {
        let rest = text.skip(1);
        lemma_word_len(rest);
        assert forall|i: int| 0 <= i < word_len(text) implies !is_space(#[trigger] text[i]) by {
            if i > 0 {
                assert(text[i] == rest[i - 1]);
            }
        }
    }
}

/// No word is empty or holds a space.
pub proof fn law_words(text: Seq<char>, i: int)
    requires
        0 <= i < words(text).len(),
    ensures
        words(text)[i].len() > 0,
        forall|j: int| 0 <= j < words(text)[i].len() ==> !is_space(#[trigger] words(text)[i][j]),
    decreases text.len(),
{
    if is_space(text[0]) {
        law_words(text.skip(1), i);
    } else {
        let n = word_len(text) as int;
        lemma_word_len(text);
        if i == 0 {
            assert(words(text)[0] == text.take(n));
        } else {
            law_words(text.skip(n), i - 1);
            assert(words(text)[i] == words(text.skip(n))[i - 1]);
        }
    }
}

/// The words of a text.
pub fn words_of(text: &str) -> (r: Vec<String>)
    ensures
        texts_view(r@) == words(text@),
{
    let chars = chars_of(text);
    let mut found: Vec<String> = Vec::new();
    let mut i: usize = 0;
    assert(text@.skip(0) =~= text@);
    assert(texts_view(found@) + words(text@.skip(0)) =~= words(text@));
    while i < chars.len()
        invariant
            chars@ == text@,
            i <= chars@.len(),
            texts_view(found@) + words(text@.skip(i as int)) == words(text@),
        decreases chars@.len() - i,
    {
        let ghost rest = text@.skip(i as int);
        if separates_words(chars[i]) {
            assert(rest.skip(1) =~= text@.skip(i + 1));
            i = i + 1;
        } else {
            let start = i;
            proof {
                lemma_word_len(rest);
            }
            while i < chars.len() && !separates_words(chars[i])
                invariant
                    chars@ == text@,
                    rest == text@.skip(start as int),
                    start <= i <= start + word_len(rest) <= chars@.len(),
                    forall|k: int| 0 <= k < word_len(rest) ==> !is_space(#[trigger] rest[k]),
                    word_len(rest) < rest.len() ==> is_space(rest[word_len(rest) as int]),
                decreases chars@.len() - i,
            {
                assert(chars@[i as int] == rest[i - start]);
                i = i + 1;
            }
            proof {
                if i < start + word_len(rest) {
                    assert(chars@[i as int] == rest[i - start]);
                }
            }
            let word = text_between(&chars, start, i);
            let ghost before = texts_view(found@);
            found.push(word);
            proof {
                assert(!is_space(rest[0]));
                assert(word@ =~= rest.take(word_len(rest) as int));
                assert(rest.skip(word_len(rest) as int) =~= text@.skip(i as int));
                assert(texts_view(found@) =~= before.push(word@));
                assert(texts_view(found@) + words(text@.skip(i as int)) =~= before + words(rest));
            }
        }
    }
    assert(text@.skip(i as int) =~= Seq::<char>::empty());
    assert(texts_view(found@) =~= words(text@));
    found
}

// ---- decimal numbers ----

/// The decimal digit `d`.
pub open spec fn digit(d: int) -> char {
    seq!['0', '1', '2', '3', '4', '5', '6', '7', '8', '9'][d]
}

/// The decimal digits of a number.
pub open spec fn decimal(n: nat) -> Seq<char>
    decreases n,
{
    if n < 10 {
        seq![digit(n as int)]
    } else {
        decimal(n / 10).push(digit((n % 10) as int))
    }
}

/// The number that decimal digits denote.
pub open spec fn value_of(digits: Seq<char>) -> int
    decreases digits.len(),
{
    if digits.len() == 0 {
        0
    } else {
        10 * value_of(digits.drop_last()) + (digits.last() as int - '0' as int)
    }
}

/// The digits of a number denote it.
pub proof fn law_decimal_denotes(n: nat)
    ensures
        value_of(decimal(n)) == n,
    decreases n,
{
    if n < 10 {
        assert(decimal(n).drop_last() =~= Seq::<char>::empty());
        assert(value_of(decimal(n).drop_last()) == 0);
    } else {
        law_decimal_denotes(n / 10);
        assert(decimal(n).drop_last() =~= decimal(n / 10));
    }
}

/// A number in decimal.
pub fn decimal_text(n: u64) -> (r: String)
    ensures
        r@ == decimal(n as nat),
    decreases n,
{
    let mut text = if n < 10 {
        String::new()
    } else {
        decimal_text(n / 10)
    };
    let ghost before = text@;
    let c = match n % 10 {
        0 => '0',
        1 => '1',
        2 => '2',
        3 => '3',
        4 => '4',
        5 => '5',
        6 => '6',
        7 => '7',
        8 => '8',
        _ => '9',
    };
    text.push(c);
    assert(c == digit((n % 10) as int));
    assert(text@ =~= decimal(n as nat));
    text
}

// ---- how texts come apart ----

/// A text with a separator in it splits into the pieces of what stands before and
/// those of what stands behind; one without is its only piece.
pub proof fn law_split_at_every_separator(a: Seq<char>, c: char, b: Seq<char>)
    ensures
        split(a + seq![c] + b, c) == split(a, c) + split(b, c),
        !a.contains(c) ==> split(a, c) == seq![a],
    decreases a.len(),
{
    let text = a + seq![c] + b;
    law_split_once(a, c);
    a.index_of_first_ensures(c);
    match a.index_of_first(c) {
        Some(i) => {
            let rest = a.skip(i + 1);
            assert forall|j: int| 0 <= j < i implies text[j] != c by {
                assert(text[j] == a[j]);
            }
            assert(text[i] == a[i]);
            lemma_split_once(text, c, i);
            assert(text.take(i) =~= a.take(i));
            assert(text.skip(i + 1) =~= rest + seq![c] + b);
            law_split_at_every_separator(rest, c, b);
            assert(split(text, c) =~= split(a, c) + split(b, c));
        },
        None => {
            let n = a.len() as int;
            assert forall|j: int| 0 <= j < n implies text[j] != c by {
                assert(text[j] == a[j]);
                assert(a.contains(a[j]));
            }
            assert(text[n] == c);
            lemma_split_once(text, c, n);
            assert(text.take(n) =~= a);
            assert(text.skip(n + 1) =~= b);
            assert(split(a, c) =~= seq![a]);
        },
    }
}

proof fn lemma_word_ends_at_a_space(a: Seq<char>, space: char, b: Seq<char>)
    requires
        is_space(space),
    ensures
        word_len(a + seq![space] + b) == word_len(a),
    decreases a.len(),
{
    let text = a + seq![space] + b;
    if a.len() == 0 {
        assert(text[0] == space);
    } else {
        assert(text[0] == a[0]);
        if !is_space(a[0]) {
            assert(text.skip(1) =~= a.skip(1) + seq![space] + b);
            lemma_word_ends_at_a_space(a.skip(1), space, b);
        }
    }
}

/// The words of a text with a space in it are those of what stands before and those
/// of what stands behind.
pub proof fn law_words_come_apart_at_spaces(a: Seq<char>, space: char, b: Seq<char>)
    requires
        is_space(space),
    ensures
        words(a + seq![space] + b) == words(a) + words(b),
    decreases a.len(),
{
    let text = a + seq![space] + b;
    if a.len() == 0 {
        assert(text[0] == space);
        assert(text.skip(1) =~= b);
        assert(words(a) + words(b) =~= words(b));
    } else {
        assert(text[0] == a[0]);
        if is_space(a[0]) {
            assert(text.skip(1) =~= a.skip(1) + seq![space] + b);
            law_words_come_apart_at_spaces(a.skip(1), space, b);
        } else {
            lemma_word_len(a);
            lemma_word_ends_at_a_space(a, space, b);
            let n = word_len(a) as int;
            assert(n > 0);
            assert(text.take(n) =~= a.take(n));
            assert(text.skip(n) =~= a.skip(n) + seq![space] + b);
            law_words_come_apart_at_spaces(a.skip(n), space, b);
            assert(words(text) =~= words(a) + words(b));
        }
    }
}

/// A text without a space is one word, and an empty one is none.
pub proof fn law_one_word(text: Seq<char>)
    requires
        forall|i: int| 0 <= i < text.len() ==> !is_space(#[trigger] text[i]),
    ensures
        words(text) == if text.len() == 0 {
            Seq::<Seq<char>>::empty()
        } else {
            seq![text]
        },
{
    if text.len() > 0 {
        lemma_word_len(text);
        let n = word_len(text) as int;
        if n < text.len() {
            assert(is_space(text[n]));
        }
        assert(text.take(n) =~= text);
        assert(text.skip(n) =~= Seq::<char>::empty());
        assert(words(text.skip(n)) =~= Seq::<Seq<char>>::empty());
        assert(words(text) =~= seq![text]);
    }
}

/// A number is written in decimal digits, and without a zero in front but where it
/// is zero.
pub proof fn law_decimal_is_plain(n: nat)
    ensures
        decimal(n).len() > 0,
        forall|i: int| 0 <= i < decimal(n).len() ==> '0' <= #[trigger] decimal(n)[i] <= '9',
        n > 0 ==> decimal(n)[0] != '0',
        n == 0 ==> decimal(n) == seq!['0'],
    decreases n,
{
    if n >= 10 {
        law_decimal_is_plain(n / 10);
        let front = decimal(n / 10);
        assert(decimal(n)[0] == front[0]);
        assert forall|i: int| 0 <= i < decimal(n).len() implies '0' <= #[trigger] decimal(n)[i]
            <= '9' by {
            if i < front.len() {
                assert(decimal(n)[i] == front[i]);
            }
        }
    }
}

/// The code points with Unicode's White_Space property.
pub open spec fn white_space() -> Seq<int> {
    seq![
        0x9, 0xa, 0xb, 0xc, 0xd, 0x20, 0x85, 0xa0, 0x1680, 0x2000, 0x2001, 0x2002, 0x2003, 0x2004,
        0x2005, 0x2006, 0x2007, 0x2008, 0x2009, 0x200a, 0x2028, 0x2029, 0x202f, 0x205f, 0x3000,
    ]
}

/// The characters that separate words are the white space of Unicode, and no others.
/// Of those below `0x80` they are the blank and what stands from tab to carriage
/// return.
pub proof fn law_spaces_are_white_space(c: char)
    ensures
        is_space(c) <==> white_space().contains(c as int),
        (c as int) < 0x80 ==> (is_space(c) <==> c == ' ' || 0x9 <= c as int <= 0xd),
{
    let all = white_space();
    let n = c as int;
    if is_space(c) {
        if 0x9 <= n <= 0xd {
            assert(all[n - 0x9] == n);
        } else if 0x2000 <= n <= 0x200a {
            assert(all[n - 0x2000 + 9] == n);
        } else {
            assert(all[5] == 0x20 && all[6] == 0x85 && all[7] == 0xa0 && all[8] == 0x1680);
            assert(all[20] == 0x2028 && all[21] == 0x2029 && all[22] == 0x202f);
            assert(all[23] == 0x205f && all[24] == 0x3000);
        }
    }
}

} // verus!
