//! Text primitives: white space, trimming, splitting, joining and decimal
//! numerals, each with an exact meaning over sequences of characters.

use vstd::prelude::*;

verus! {

/// `String::push` appends one character.
pub assume_specification[ String::push ](s: &mut String, ch: char)
    ensures
        final(s)@ == old(s)@.push(ch),
;

/// The code points with the Unicode `White_Space` property.
pub open spec fn white_space(c: char) -> bool {
    ||| '\u{9}' <= c <= '\u{d}'
    ||| c == ' '
    ||| c == '\u{85}'
    ||| c == '\u{a0}'
    ||| c == '\u{1680}'
    ||| '\u{2000}' <= c <= '\u{200a}'
    ||| c == '\u{2028}'
    ||| c == '\u{2029}'
    ||| c == '\u{202f}'
    ||| c == '\u{205f}'
    ||| c == '\u{3000}'
}

/// Whether `c` has the Unicode `White_Space` property.
pub fn is_white_space(c: char) -> (r: bool)
    ensures
        r == white_space(c),
{
    ('\u{9}' <= c && c <= '\u{d}') || c == ' ' || c == '\u{85}' || c == '\u{a0}' || c == '\u{1680}'
        || ('\u{2000}' <= c && c <= '\u{200a}') || c == '\u{2028}' || c == '\u{2029}' || c
        == '\u{202f}' || c == '\u{205f}' || c == '\u{3000}'
}

/// Whether `char::is_alphanumeric` accepts a character: the Unicode
/// `Alphabetic` property or one of the general categories of numbers.
pub uninterp spec fn alphanumeric(c: char) -> bool;

/// `char::is_alphanumeric`. Its table of letters and numbers is named, not
/// written out; for the ASCII characters the contract says which they are.
#[verifier::external_body]
fn is_alphanumeric(c: char) -> (r: bool)
    ensures
        r == alphanumeric(c),
        c < '\u{80}' ==> r == ('0' <= c <= '9' || 'a' <= c <= 'z' || 'A' <= c <= 'Z'),
{
    c.is_alphanumeric()
}

/// The characters of `s`, in order.
pub fn chars_of(s: &str) -> (r: Vec<char>)
    ensures
        r@ == s@,
{
    let mut r: Vec<char> = Vec::new();
    for c in it: s.chars()
        invariant
            it.seq() == s@,
            r@ == s@.take(it.index()),
    {
        r.push(c);
    }
    r
}

/// The string made of `chars[from..to]`.
pub fn string_of(chars: &Vec<char>, from: usize, to: usize) -> (r: String)
    requires
        from <= to <= chars@.len(),
    ensures
        r@ == chars@.subrange(from as int, to as int),
{
    let mut r = String::new();
    let mut i = from;
    while i < to
        invariant
            from <= i <= to <= chars@.len(),
            r@ == chars@.subrange(from as int, i as int),
        decreases to - i,
    {
        r.push(chars[i]);
        i = i + 1;
    }
    r
}

/// Whether `a` and `b` hold the same characters.
pub fn text_eq(a: &str, b: &str) -> (r: bool)
    ensures
        r == (a@ == b@),
{
    a.to_owned() == b.to_owned()
}

/// `s` without its leading white space.
pub open spec fn trimmed_start(s: Seq<char>) -> Seq<char>
    decreases s.len(),
{
    if s.len() > 0 && white_space(s.first()) {
        trimmed_start(s.drop_first())
    } else {
        s
    }
}

/// `s` without its trailing white space.
pub open spec fn trimmed_end(s: Seq<char>) -> Seq<char>
    decreases s.len(),
{
    if s.len() > 0 && white_space(s.last()) {
        trimmed_end(s.drop_last())
    } else {
        s
    }
}

/// `s` without white space at either end.
pub open spec fn trimmed(s: Seq<char>) -> Seq<char> {
    trimmed_end(trimmed_start(s))
}

/// Trimming takes away nothing but white space at the two ends, and leaves none
/// there.
pub proof fn lemma_trimmed(s: Seq<char>) -> (r: (int, int))
    ensures
        0 <= r.0 <= r.1 <= s.len(),
        trimmed(s) == s.subrange(r.0, r.1),
        forall|i: int| 0 <= i < r.0 || r.1 <= i < s.len() ==> white_space(#[trigger] s[i]),
        r.0 < r.1 ==> !white_space(s[r.0]) && !white_space(s[r.1 - 1]),
{
    let a = lemma_trimmed_start(s);
    let t = trimmed_start(s);
    let b = lemma_trimmed_end(t);
    assert(trimmed(s) =~= s.subrange(a, a + b));
    assert forall|i: int| 0 <= i < a || a + b <= i < s.len() implies white_space(
        #[trigger] s[i],
    ) by {
        if i >= a + b {
            assert(t[i - a] == s[i]);
        }
    }
    if b > 0 {
        assert(t[0] == s[a]);
        assert(t[b - 1] == s[a + b - 1]);
    }
    (a, a + b)
}

pub proof fn lemma_trimmed_start(s: Seq<char>) -> (a: int)
    ensures
        0 <= a <= s.len(),
        trimmed_start(s) == s.skip(a),
        forall|i: int| 0 <= i < a ==> white_space(#[trigger] s[i]),
        a < s.len() ==> !white_space(s[a]),
    decreases s.len(),
{
    if s.len() > 0 && white_space(s.first()) {
        let a = lemma_trimmed_start(s.drop_first());
        assert(s.drop_first().skip(a) =~= s.skip(a + 1));
        assert forall|i: int| 0 <= i < a + 1 implies white_space(#[trigger] s[i]) by {
            if i > 0 {
                assert(s.drop_first()[i - 1] == s[i]);
            }
        }
        a + 1
    } else {
        assert(s.skip(0) =~= s);
        0
    }
}

pub proof fn lemma_trimmed_end(s: Seq<char>) -> (b: int)
    ensures
        0 <= b <= s.len(),
        trimmed_end(s) == s.take(b),
        forall|i: int| b <= i < s.len() ==> white_space(#[trigger] s[i]),
        b > 0 ==> !white_space(s[b - 1]),
    decreases s.len(),
{
    if s.len() > 0 && white_space(s.last()) {
        let b = lemma_trimmed_end(s.drop_last());
        assert(s.drop_last().take(b) =~= s.take(b));
        assert forall|i: int| b <= i < s.len() implies white_space(#[trigger] s[i]) by {
            if i < s.len() - 1 {
                assert(s.drop_last()[i] == s[i]);
            }
        }
        b
    } else {
        assert(s.take(s.len() as int) =~= s);
        s.len() as int
    }
}

/// `chars[from..to]` without its trailing white space.
pub fn trim_end_range(chars: &Vec<char>, from: usize, to: usize) -> (r: String)
    requires
        from <= to <= chars@.len(),
    ensures
        r@ == trimmed_end(chars@.subrange(from as int, to as int)),
{
    let mut end = to;
    while end > from && is_white_space(chars[end - 1])
        invariant
            from <= end <= to <= chars@.len(),
            trimmed_end(chars@.subrange(from as int, end as int)) == trimmed_end(
                chars@.subrange(from as int, to as int),
            ),
        decreases end - from,
    {
        assert(chars@.subrange(from as int, end as int).drop_last() =~= chars@.subrange(
            from as int,
            end - 1,
        ));
        end = end - 1;
    }
    string_of(chars, from, end)
}

/// `chars[from..to]` without white space at either end.
pub fn trim_range(chars: &Vec<char>, from: usize, to: usize) -> (r: String)
    requires
        from <= to <= chars@.len(),
    ensures
        r@ == trimmed(chars@.subrange(from as int, to as int)),
{
    let mut start = from;
    while start < to && is_white_space(chars[start])
        invariant
            from <= start <= to <= chars@.len(),
            trimmed_start(chars@.subrange(start as int, to as int)) == trimmed_start(
                chars@.subrange(from as int, to as int),
            ),
        decreases to - start,
    {
        assert(chars@.subrange(start as int, to as int).drop_first() =~= chars@.subrange(
            start + 1,
            to as int,
        ));
        start = start + 1;
    }
    trim_end_range(chars, start, to)
}

/// `s` without white space at either end.
pub fn trim(s: &str) -> (r: String)
    ensures
        r@ == trimmed(s@),
{
    let chars = chars_of(s);
    assert(chars@.subrange(0, chars@.len() as int) =~= s@);
    trim_range(&chars, 0, chars.len())
}

/// The views of a sequence of strings.
pub open spec fn texts(v: Seq<String>) -> Seq<Seq<char>> {
    v.map_values(|s: String| s@)
}

/// Where a text is split.
#[derive(Clone, Copy)]
pub enum Separator {
    /// At one given character.
    Char(char),
    /// At every white space character.
    WhiteSpace,
    /// At every character that is neither a letter nor a number.
    NonAlphanumeric,
}

impl Separator {
    /// Whether a text is split at `c`.
    pub open spec fn holds(self, c: char) -> bool {
        match self {
            Separator::Char(sep) => c == sep,
            Separator::WhiteSpace => white_space(c),
            Separator::NonAlphanumeric => !alphanumeric(c),
        }
    }

    /// Whether a text is split at `c`.
    pub fn matches_char(self, c: char) -> (r: bool)
        ensures
            r == self.holds(c),
    {
        match self {
            Separator::Char(sep) => c == sep,
            Separator::WhiteSpace => is_white_space(c),
            Separator::NonAlphanumeric => !is_alphanumeric(c),
        }
    }
}

/// The pieces of `s` between the characters that `sep` holds of: one more piece
/// than there are such characters, each piece possibly empty.
pub open spec fn pieces(s: Seq<char>, sep: Separator) -> Seq<Seq<char>>
    decreases s.len(),
{
    if s.len() == 0 {
        seq![Seq::<char>::empty()]
    } else {
        let front = pieces(s.drop_last(), sep);
        if sep.holds(s.last()) {
            front.push(Seq::empty())
        } else {
            front.drop_last().push(front.last().push(s.last()))
        }
    }
}

/// A text has at least one piece.
pub proof fn lemma_pieces_nonempty(s: Seq<char>, sep: Separator)
    ensures
        pieces(s, sep).len() > 0,
    decreases s.len(),
{
    if s.len() > 0 {
        lemma_pieces_nonempty(s.drop_last(), sep);
    }
}

/// No piece holds a character at which the text is split.
pub proof fn lemma_pieces_free(s: Seq<char>, sep: Separator, i: int, j: int)
    requires
        0 <= i < pieces(s, sep).len(),
        0 <= j < pieces(s, sep)[i].len(),
    ensures
        !sep.holds(pieces(s, sep)[i][j]),
    decreases s.len(),
{
    if s.len() > 0 {
        let front = pieces(s.drop_last(), sep);
        lemma_pieces_nonempty(s.drop_last(), sep);
        if i < front.len() && j < front[i].len() {
            lemma_pieces_free(s.drop_last(), sep, i, j);
        }
    }
}

/// Splitting loses nothing: the pieces joined by the separator are the text.
pub proof fn law_split_loses_nothing(s: Seq<char>, sep: char)
    ensures
        joined(pieces(s, Separator::Char(sep)), seq![sep]) == s,
    decreases s.len(),
{
    let all = pieces(s, Separator::Char(sep));
    if s.len() > 0 {
        let front = pieces(s.drop_last(), Separator::Char(sep));
        lemma_pieces_nonempty(s.drop_last(), Separator::Char(sep));
        law_split_loses_nothing(s.drop_last(), sep);
        if s.last() == sep {
            assert(all.drop_last() =~= front);
            assert(joined(all, seq![sep]) =~= s);
        } else {
            assert(all.drop_last() =~= front.drop_last());
            assert(joined(all, seq![sep]) =~= joined(front, seq![sep]).push(s.last()));
            assert(joined(all, seq![sep]) =~= s);
        }
    } else {
        assert(joined(all, seq![sep]) =~= s);
    }
}

/// Splits `s` at every character that `sep` holds of.
pub fn split(s: &str, sep: Separator) -> (r: Vec<String>)
    ensures
        texts(r@) == pieces(s@, sep),
{
    let mut done: Vec<String> = Vec::new();
    let mut piece = String::new();
    assert(texts(done@).push(piece@) =~= pieces(s@.take(0), sep));
    for c in it: s.chars()
        invariant
            it.seq() == s@,
            texts(done@).push(piece@) == pieces(s@.take(it.index()), sep),
    {
        let ghost front = texts(done@).push(piece@);
        assert(s@.take(it.index() + 1).drop_last() =~= s@.take(it.index()));
        if sep.matches_char(c) {
            let mut fresh = String::new();
            std::mem::swap(&mut fresh, &mut piece);
            done.push(fresh);
            assert(texts(done@).push(piece@) =~= front.push(Seq::empty()));
        } else {
            let ghost before = piece@;
            piece.push(c);
            assert(front.drop_last() =~= texts(done@));
            assert(texts(done@).push(piece@) =~= front.drop_last().push(before.push(c)));
        }
    }
    assert(s@.take(s@.len() as int) =~= s@);
    done.push(piece);
    assert(texts(done@) =~= pieces(s@, sep));
    done
}

/// The words of `s`: its maximal runs without white space.
pub open spec fn words(s: Seq<char>) -> Seq<Seq<char>> {
    pieces(s, Separator::WhiteSpace).filter(|w: Seq<char>| w.len() > 0)
}

/// The strings of `all` that are not empty, in order.
pub fn non_empty(all: Vec<String>) -> (r: Vec<String>)
    ensures
        texts(r@) == texts(all@).filter(|w: Seq<char>| w.len() > 0),
{
    let ghost keep = |w: Seq<char>| w.len() > 0;
    let mut r: Vec<String> = Vec::new();
    let mut i: usize = 0;
    assert(texts(all@).take(0) =~= Seq::<Seq<char>>::empty());
    assert(texts(r@) =~= texts(all@).take(0).filter(keep)) by {
        reveal(Seq::filter);
    }
    while i < all.len()
        invariant
            i <= all@.len(),
            keep == (|w: Seq<char>| w.len() > 0),
            texts(r@) == texts(all@).take(i as int).filter(keep),
        decreases all@.len() - i,
    {
        let ghost before = texts(r@);
        assert(texts(all@).take(i + 1) =~= texts(all@).take(i as int).push(texts(all@)[i as int]));
        proof {
            texts(all@).take(i as int).lemma_filter_push(texts(all@)[i as int], keep);
        }
        if !all[i].as_str().is_empty() {
            r.push(all[i].clone());
            assert(texts(r@) =~= before.push(all@[i as int]@));
        }
        i = i + 1;
    }
    assert(texts(all@).take(i as int) =~= texts(all@));
    r
}

/// The words of `s`, in order.
pub fn split_white_space(s: &str) -> (r: Vec<String>)
    ensures
        texts(r@) == words(s@),
{
    non_empty(split(s, Separator::WhiteSpace))
}

/// `parts` put one after another with `sep` between neighbours.
pub open spec fn joined(parts: Seq<Seq<char>>, sep: Seq<char>) -> Seq<char>
    decreases parts.len(),
{
    if parts.len() == 0 {
        Seq::empty()
    } else if parts.len() == 1 {
        parts[0]
    } else {
        joined(parts.drop_last(), sep) + sep + parts.last()
    }
}

/// A word is not empty and holds no white space.
pub proof fn lemma_words(s: Seq<char>, w: Seq<char>)
    requires
        words(s).contains(w),
    ensures
        w.len() > 0,
        forall|j: int| 0 <= j < w.len() ==> !white_space(#[trigger] w[j]),
{
    let all = pieces(s, Separator::WhiteSpace);
    let keep = |w: Seq<char>| w.len() > 0;
    all.lemma_filter_contains_rev(keep, w);
    let k = words(s).index_of(w);
    all.lemma_filter_pred(keep, k);
    let i = all.index_of(w);
    assert forall|j: int| 0 <= j < w.len() implies !white_space(#[trigger] w[j]) by {
        lemma_pieces_free(s, Separator::WhiteSpace, i, j);
    }
}

/// Whether the white space of a text is single spaces between other
/// characters.
pub open spec fn collapsed(s: Seq<char>) -> bool {
    forall|i: int|
        0 <= i < s.len() && white_space(#[trigger] s[i]) ==> s[i] == ' ' && 0 < i < s.len() - 1
            && !white_space(s[i - 1]) && !white_space(s[i + 1])
}

/// Words joined by a space are collapsed.
pub proof fn lemma_words_collapsed(parts: Seq<Seq<char>>)
    requires
        forall|i: int| 0 <= i < parts.len() ==> (#[trigger] parts[i]).len() > 0,
        forall|i: int, j: int|
            0 <= i < parts.len() && 0 <= j < parts[i].len() ==> !white_space(
                #[trigger] parts[i][j],
            ),
    ensures
        collapsed(joined(parts, seq![' '])),
        parts.len() > 0 ==> joined(parts, seq![' ']).len() > 0 && !white_space(
            joined(parts, seq![' ']).last(),
        ),
    decreases parts.len(),
{
    let s = joined(parts, seq![' ']);
    if parts.len() > 1 {
        let front = parts.drop_last();
        assert forall|i: int| 0 <= i < front.len() implies (#[trigger] front[i]).len() > 0 by {
            assert(front[i] == parts[i]);
        }
        assert forall|i: int, j: int| 0 <= i < front.len() && 0 <= j < front[i].len() implies !white_space(
            #[trigger] front[i][j],
        ) by {
            assert(front[i] == parts[i]);
            assert(!white_space(parts[i][j]));
        }
        lemma_words_collapsed(front);
        let f = joined(front, seq![' ']);
        let last = parts.last();
        assert(parts[parts.len() - 1] == last);
        assert(s =~= f + seq![' '] + last);
        assert forall|i: int| 0 <= i < s.len() && white_space(#[trigger] s[i]) implies s[i] == ' '
            && 0 < i < s.len() - 1 && !white_space(s[i - 1]) && !white_space(s[i + 1]) by {
            if i < f.len() {
                assert(s[i] == f[i]);
                assert(white_space(f[i]));
                assert(s[i - 1] == f[i - 1]);
                assert(s[i + 1] == f[i + 1]);
            } else if i == f.len() {
                assert(s[i - 1] == f.last());
                assert(s[i + 1] == last[0]);
                assert(!white_space(parts[parts.len() - 1][0]));
            } else {
                assert(s[i] == last[i - f.len() - 1]);
                assert(!white_space(parts[parts.len() - 1][i - f.len() - 1]));
            }
        }
        assert(s.last() == last.last());
        assert(!white_space(parts[parts.len() - 1][last.len() - 1]));
    } else if parts.len() == 1 {
        assert forall|i: int| 0 <= i < s.len() implies !white_space(#[trigger] s[i]) by {
            assert(!white_space(parts[0][i]));
        }
    }
}

/// Joins `parts` with `sep` between neighbours.
pub fn join(parts: &Vec<String>, sep: &str) -> (r: String)
    ensures
        r@ == joined(texts(parts@), sep@),
{
    let mut r = String::new();
    let mut i: usize = 0;
    while i < parts.len()
        invariant
            i <= parts@.len(),
            r@ == joined(texts(parts@).take(i as int), sep@),
        decreases parts@.len() - i,
    {
        assert(texts(parts@).take(i + 1).drop_last() =~= texts(parts@).take(i as int));
        if i > 0 {
            r.append(sep);
            r.append(parts[i].as_str());
        } else {
            r.append(parts[i].as_str());
            assert(r@ =~= parts@[0]@);
        }
        i = i + 1;
    }
    assert(texts(parts@).take(i as int) =~= texts(parts@));
    r
}

/// The ASCII lower case of a character; any other character is its own.
pub open spec fn ascii_lower(c: char) -> char {
    if 'A' <= c <= 'Z' {
        (c as u32 + 32) as char
    } else {
        c
    }
}

/// `s` with its ASCII letters in lower case.
pub open spec fn ascii_lowered(s: Seq<char>) -> Seq<char> {
    s.map_values(|c: char| ascii_lower(c))
}

/// `s` with its ASCII letters in lower case.
pub fn to_ascii_lower(s: &str) -> (r: String)
    ensures
        r@ == ascii_lowered(s@),
{
    let mut r = String::new();
    for c in it: s.chars()
        invariant
            it.seq() == s@,
            r@ == ascii_lowered(s@.take(it.index())),
    {
        let lower: char = if 'A' <= c && c <= 'Z' {
            ((c as u8) + 32) as char
        } else {
            c
        };
        r.push(lower);
        assert(r@ =~= ascii_lowered(s@.take(it.index() + 1)));
    }
    assert(s@.take(s@.len() as int) =~= s@);
    r
}

/// The numeral of a number below ten.
pub open spec fn digit(d: nat) -> char {
    ('0' as u32 + d) as char
}

/// The decimal numeral of `n`, without leading zeros.
pub open spec fn decimal(n: nat) -> Seq<char>
    decreases n,
{
    if n < 10 {
        seq![digit(n)]
    } else {
        decimal(n / 10).push(digit(n % 10))
    }
}

/// Appends the decimal numeral of `n`.
pub fn push_decimal(s: &mut String, n: usize)
    ensures
        final(s)@ == old(s)@ + decimal(n as nat),
    decreases n,
{
    if n >= 10 {
        push_decimal(s, n / 10);
    }
    let d: u8 = (n % 10) as u8;
    s.push((48u8 + d) as char);
    assert(s@ =~= old(s)@ + decimal(n as nat));
}

/// A numeral consists of digits only.
pub proof fn lemma_decimal_digits(n: nat)
    ensures
        decimal(n).len() > 0,
        forall|i: int| 0 <= i < decimal(n).len() ==> '0' <= #[trigger] decimal(n)[i] <= '9',
    decreases n,
{
    if n >= 10 {
        lemma_decimal_digits(n / 10);
    }
}

/// Different numbers have different numerals.
pub proof fn lemma_decimal_injective(m: nat, n: nat)
    requires
        decimal(m) == decimal(n),
    ensures
        m == n,
    decreases m,
{
    lemma_decimal_digits(m / 10);
    lemma_decimal_digits(n / 10);
    if m >= 10 && n >= 10 {
        assert(decimal(m).drop_last() =~= decimal(m / 10));
        assert(decimal(n).drop_last() =~= decimal(n / 10));
        lemma_decimal_injective(m / 10, n / 10);
        assert(decimal(m).last() == digit(m % 10));
        assert(decimal(n).last() == digit(n % 10));
    } else if m < 10 && n < 10 {
        assert(decimal(m)[0] == digit(m));
        assert(decimal(n)[0] == digit(n));
    } else if m < 10 {
        assert(decimal(m).len() == 1);
        assert(decimal(n).len() == decimal(n / 10).len() + 1);
    } else {
        assert(decimal(n).len() == 1);
        assert(decimal(m).len() == decimal(m / 10).len() + 1);
    }
}

/// Whether a text consists of decimal digits.
pub open spec fn all_digits(s: Seq<char>) -> bool {
    forall|i: int| 0 <= i < s.len() ==> '0' <= #[trigger] s[i] <= '9'
}

/// The value of a sequence of decimal digits.
pub open spec fn digits_value(s: Seq<char>) -> nat
    decreases s.len(),
{
    if s.len() == 0 {
        0
    } else {
        digits_value(s.drop_last()) * 10 + (s.last() as nat - '0' as nat) as nat
    }
}

/// The number that a text stands for: decimal digits, at least one, with an
/// optional plus sign before them, of a value that a `usize` can hold.
pub open spec fn parsed_number(s: Seq<char>) -> Option<nat> {
    let d = if s.len() > 0 && s[0] == '+' {
        s.drop_first()
    } else {
        s
    };
    if d.len() > 0 && all_digits(d) && digits_value(d) <= usize::MAX {
        Some(digits_value(d))
    } else {
        None
    }
}

proof fn lemma_digits_value_grows(s: Seq<char>, n: int)
    requires
        0 <= n <= s.len(),
        all_digits(s),
    ensures
        digits_value(s.take(n)) <= digits_value(s),
    decreases s.len(),
{
    if n < s.len() {
        assert(s.drop_last().take(n) =~= s.take(n));
        assert(all_digits(s.drop_last()));
        lemma_digits_value_grows(s.drop_last(), n);
    } else {
        assert(s.take(n) =~= s);
    }
}

/// The number that `s` stands for.
pub fn parse_number(s: &str) -> (r: Option<usize>)
    ensures
        r is Some <==> parsed_number(s@) is Some,
        r matches Some(n) ==> parsed_number(s@) == Some(n as nat),
{
    let chars = chars_of(s);
    let start: usize = if chars.len() > 0 && chars[0] == '+' {
        1
    } else {
        0
    };
    let ghost d = s@.skip(start as int);
    assert(start == 1 ==> d =~= s@.drop_first());
    assert(start == 0 ==> d =~= s@);
    if start == chars.len() {
        return None;
    }
    let mut value: usize = 0;
    let mut i = start;
    while i < chars.len()
        invariant
            start <= i <= chars@.len(),
            start < chars@.len(),
            chars@ == s@,
            d == s@.skip(start as int),
            all_digits(d.take(i - start)),
            value == digits_value(d.take(i - start)),
            parsed_number(s@) == if d.len() > 0 && all_digits(d) && digits_value(d) <= usize::MAX {
                Some(digits_value(d))
            } else {
                None
            },
        decreases chars@.len() - i,
    {
        let c = chars[i];
        assert(d[i - start] == c);
        if c < '0' || '9' < c {
            return None;
        }
        let digit: usize = (c as u32 - 48) as usize;
        let ghost next = d.take(i - start + 1);
        proof {
            assert(next.drop_last() =~= d.take(i - start));
            assert(digits_value(next) == value * 10 + digit);
            assert forall|j: int| 0 <= j < next.len() implies '0' <= #[trigger] next[j] <= '9' by {
                if j < i - start {
                    assert(d.take(i - start)[j] == next[j]);
                }
            }
            if all_digits(d) {
                lemma_digits_value_grows(d, i - start + 1);
            }
        }
        match value.checked_mul(10) {
            None => { return None; },
            Some(tens) => match tens.checked_add(digit) {
                None => { return None; },
                Some(sum) => { value = sum; },
            },
        }
        i = i + 1;
    }
    assert(d.take(i - start) =~= d);
    Some(value)
}

/// The first place of `c` in `s`.
pub open spec fn first_place(s: Seq<char>, c: char) -> Option<int>
    decreases s.len(),
{
    if s.len() == 0 {
        None
    } else if s[0] == c {
        Some(0)
    } else {
        match first_place(s.drop_first(), c) {
            Some(at) => Some(at + 1),
            None => None,
        }
    }
}

/// The first place of `c` in `chars`.
pub fn find_char(chars: &Vec<char>, c: char) -> (r: Option<usize>)
    ensures
        r is Some <==> first_place(chars@, c) is Some,
        r matches Some(at) ==> at < chars@.len() && first_place(chars@, c) == Some(at as int),
{
    let mut i: usize = 0;
    assert(chars@.skip(0) =~= chars@);
    while i < chars.len()
        invariant
            i <= chars@.len(),
            first_place(chars@, c) == match first_place(chars@.skip(i as int), c) {
                Some(at) => Some(at + i),
                None => None,
            },
        decreases chars@.len() - i,
    {
        assert(chars@.skip(i as int).drop_first() =~= chars@.skip(i + 1));
        if chars[i] == c {
            return Some(i);
        }
        i = i + 1;
    }
    None
}

/// Copies a vector of strings.
pub fn copy_strings(v: &Vec<String>) -> (r: Vec<String>)
    ensures
        texts(r@) == texts(v@),
{
    let mut r: Vec<String> = Vec::new();
    let mut i: usize = 0;
    while i < v.len()
        invariant
            i <= v@.len(),
            texts(r@) == texts(v@).take(i as int),
        decreases v@.len() - i,
    {
        let ghost before = texts(r@);
        r.push(v[i].clone());
        assert(texts(r@) =~= before.push(v@[i as int]@));
        assert(texts(v@).take(i + 1) =~= texts(v@).take(i as int).push(v@[i as int]@));
        i = i + 1;
    }
    assert(texts(v@).take(i as int) =~= texts(v@));
    r
}

// ── what the primitives mean ────────────────────────────────────────────────
/// The views of strings are their characters, string by string.
pub proof fn law_texts(v: Seq<String>)
    ensures
        texts(v).len() == v.len(),
        forall|i: int| 0 <= i < v.len() ==> #[trigger] texts(v)[i] == v[i]@,
{
}

/// A text is split at the given character, at white space, or at what is
/// neither a letter nor a number.
pub proof fn law_separators(c: char, d: char)
    ensures
        Separator::Char(d).holds(c) <==> c == d,
        Separator::WhiteSpace.holds(c) <==> white_space(c),
        Separator::NonAlphanumeric.holds(c) <==> !alphanumeric(c),
{
}

/// A text with a separator in it has the pieces of what stands before the
/// separator, then those of what stands behind it.
pub proof fn law_split_at_separator(a: Seq<char>, c: char, b: Seq<char>, sep: Separator)
    requires
        sep.holds(c),
    ensures
        pieces(a.push(c) + b, sep) == pieces(a, sep) + pieces(b, sep),
    decreases b.len(),
{
    let s = a.push(c) + b;
    if b.len() == 0 {
        assert(s =~= a.push(c));
        assert(s.drop_last() =~= a);
        assert(pieces(s, sep) =~= pieces(a, sep) + pieces(b, sep));
    } else {
        let front = b.drop_last();
        assert(s.drop_last() =~= a.push(c) + front);
        law_split_at_separator(a, c, front, sep);
        lemma_pieces_nonempty(front, sep);
        assert(pieces(s, sep) =~= pieces(a, sep) + pieces(b, sep));
    }
}

/// A text without a separator is one piece.
pub proof fn law_split_without_separator(s: Seq<char>, sep: Separator)
    requires
        forall|i: int| 0 <= i < s.len() ==> !sep.holds(#[trigger] s[i]),
    ensures
        pieces(s, sep) == seq![s],
    decreases s.len(),
{
    if s.len() > 0 {
        let front = s.drop_last();
        assert forall|i: int| 0 <= i < front.len() implies !sep.holds(#[trigger] front[i]) by {
            assert(front[i] == s[i]);
        }
        law_split_without_separator(front, sep);
        assert(!sep.holds(s[s.len() - 1]));
        assert(front.push(s.last()) =~= s);
        assert(pieces(s, sep) =~= seq![s]);
    } else {
        assert(s =~= Seq::<char>::empty());
        assert(pieces(s, sep) =~= seq![s]);
    }
}

/// A text with white space in it has the words of what stands before it, then
/// those of what stands behind it.
pub proof fn law_words_around_white_space(a: Seq<char>, c: char, b: Seq<char>)
    requires
        white_space(c),
    ensures
        words(a.push(c) + b) == words(a) + words(b),
{
    let sep = Separator::WhiteSpace;
    law_split_at_separator(a, c, b, sep);
    Seq::filter_distributes_over_add(
        pieces(a, sep),
        pieces(b, sep),
        |w: Seq<char>| w.len() > 0,
    );
}

/// A text without white space is one word; the empty text has none.
pub proof fn law_one_word(w: Seq<char>)
    requires
        forall|i: int| 0 <= i < w.len() ==> !white_space(#[trigger] w[i]),
    ensures
        w.len() > 0 ==> words(w) == seq![w],
        w.len() == 0 ==> words(w) == Seq::<Seq<char>>::empty(),
{
    law_split_without_separator(w, Separator::WhiteSpace);
    reveal(Seq::filter);
    let keep = |w: Seq<char>| w.len() > 0;
    let one = seq![w];
    assert(one.drop_last() =~= Seq::<Seq<char>>::empty());
    assert(one.drop_last().filter(keep) =~= Seq::<Seq<char>>::empty());
    assert(one.last() == w);
    if w.len() > 0 {
        assert(one.filter(keep) =~= seq![w]);
    } else {
        assert(one.filter(keep) =~= Seq::<Seq<char>>::empty());
    }
}

/// Joining puts the separator between the joined parts; a single part is
/// joined as it is, and nothing is joined to nothing.
pub proof fn law_joined(a: Seq<Seq<char>>, b: Seq<Seq<char>>, part: Seq<char>, sep: Seq<char>)
    ensures
        joined(Seq::empty(), sep) == Seq::<char>::empty(),
        joined(seq![part], sep) == part,
        a.len() > 0 && b.len() > 0 ==> joined(a + b, sep) == joined(a, sep) + sep + joined(b, sep),
    decreases b.len(),
{
    if a.len() > 0 && b.len() > 0 {
        let all = a + b;
        assert(all.last() == b.last());
        if b.len() == 1 {
            assert(all.drop_last() =~= a);
            assert(b =~= seq![b[0]]);
        } else {
            let front = b.drop_last();
            assert(all.drop_last() =~= a + front);
            law_joined(a, front, part, sep);
            assert(joined(all, sep) =~= joined(a, sep) + sep + joined(b, sep));
        }
    }
}

/// The lower case of an ASCII capital is the letter 32 places on; every other
/// character stays, and so does the length of a text.
pub proof fn law_ascii_lower(s: Seq<char>, i: int)
    requires
        0 <= i < s.len(),
    ensures
        ascii_lowered(s).len() == s.len(),
        'A' <= s[i] <= 'Z' ==> ascii_lowered(s)[i] as int == s[i] as int + 32,
        !('A' <= s[i] <= 'Z') ==> ascii_lowered(s)[i] == s[i],
{
}

/// The value of a sequence of digits: a digit more is ten times the value and
/// the digit.
pub proof fn law_digits_value(s: Seq<char>, d: char)
    requires
        '0' <= d <= '9',
    ensures
        digits_value(Seq::empty()) == 0,
        digits_value(s.push(d)) == digits_value(s) * 10 + (d as int - '0' as int),
{
    assert(s.push(d).drop_last() =~= s);
}

/// A numeral has the value of its number, consists of digits, and has no
/// leading zero but that of zero itself.
pub proof fn law_decimal(n: nat)
    ensures
        digits_value(decimal(n)) == n,
        decimal(n).len() > 0,
        forall|i: int| 0 <= i < decimal(n).len() ==> '0' <= #[trigger] decimal(n)[i] <= '9',
        decimal(n)[0] == '0' ==> n == 0,
    decreases n,
{
    lemma_decimal_digits(n);
    reveal_with_fuel(digits_value, 2);
    if n >= 10 {
        law_decimal(n / 10);
        assert(decimal(n).drop_last() =~= decimal(n / 10));
        assert(decimal(n)[0] == decimal(n / 10)[0]);
    } else {
        assert(decimal(n).drop_last() =~= Seq::<char>::empty());
    }
}

/// A text is read as a number where it consists of digits, with an optional
/// plus sign before them, and the value fits; then it is read as that value.
pub proof fn law_parsed_number(s: Seq<char>)
    ensures
        s.len() > 0 && (forall|i: int| 0 <= i < s.len() ==> '0' <= #[trigger] s[i] <= '9') ==> {
            let n = if digits_value(s) <= usize::MAX {
                Some(digits_value(s))
            } else {
                None
            };
            parsed_number(s) == n && parsed_number(seq!['+'] + s) == n
        },
        parsed_number(Seq::empty()) is None,
        parsed_number(seq!['+']) is None,
        forall|i: int|
            0 <= i < s.len() && !('0' <= #[trigger] s[i] <= '9') && !(i == 0 && s[i] == '+')
                ==> parsed_number(s) is None,
{
    let signed = seq!['+'] + s;
    assert(signed.drop_first() =~= s);
    assert(seq!['+'].drop_first() =~= Seq::<char>::empty());
    assert forall|i: int|
        0 <= i < s.len() && !('0' <= #[trigger] s[i] <= '9') && !(i == 0 && s[i]
            == '+') implies parsed_number(s) is None by {
        if s[0] == '+' {
            assert(s.drop_first()[i - 1] == s[i]);
        }
    }
}

/// The first place of a character holds it, and no place before does; it has
/// none only where the text does not hold it.
pub proof fn law_first_place(s: Seq<char>, c: char)
    ensures
        first_place(s, c) matches Some(at) ==> 0 <= at < s.len() && s[at] == c && forall|i: int|
            0 <= i < at ==> #[trigger] s[i] != c,
        first_place(s, c) is None ==> forall|i: int| 0 <= i < s.len() ==> #[trigger] s[i] != c,
    decreases s.len(),
{
    if s.len() > 0 && s[0] != c {
        let rest = s.drop_first();
        law_first_place(rest, c);
        if first_place(s, c) is Some {
            let at = first_place(s, c)->0;
            assert forall|i: int| 0 <= i < at implies #[trigger] s[i] != c by {
                if i > 0 {
                    assert(rest[i - 1] == s[i]);
                }
            }
        } else {
            assert forall|i: int| 0 <= i < s.len() implies #[trigger] s[i] != c by {
                if i > 0 {
                    assert(rest[i - 1] == s[i]);
                }
            }
        }
    }
}

/// Words that are joined by single spaces are the words of the joined text.
pub proof fn law_words_of_joined(parts: Seq<Seq<char>>)
    requires
        forall|i: int| 0 <= i < parts.len() ==> (#[trigger] parts[i]).len() > 0,
        forall|i: int, j: int|
            0 <= i < parts.len() && 0 <= j < parts[i].len() ==> !white_space(
                #[trigger] parts[i][j],
            ),
    ensures
        words(joined(parts, seq![' '])) == parts,
    decreases parts.len(),
{
    if parts.len() == 0 {
        law_one_word(joined(parts, seq![' ']));
        assert(parts =~= Seq::empty());
    } else {
        let front = parts.drop_last();
        let last = parts.last();
        assert forall|j: int| 0 <= j < last.len() implies !white_space(#[trigger] last[j]) by {
            assert(!white_space(parts[parts.len() - 1][j]));
        }
        law_one_word(last);
        assert(parts[parts.len() - 1].len() > 0);
        if parts.len() == 1 {
            assert(parts =~= seq![last]);
        } else {
            assert forall|i: int| 0 <= i < front.len() implies (#[trigger] front[i]).len() > 0 by {
                assert(parts[i].len() > 0);
            }
            assert forall|i: int, j: int|
                0 <= i < front.len() && 0 <= j < front[i].len() implies !white_space(
                #[trigger] front[i][j],
            ) by {
                assert(!white_space(parts[i][j]));
            }
            law_words_of_joined(front);
            let head = joined(front, seq![' ']);
            assert(joined(parts, seq![' ']) =~= head.push(' ') + last);
            law_words_around_white_space(head, ' ', last);
            assert(parts =~= front + seq![last]);
        }
    }
}

/// White space at the ends of a text makes no difference to the trimmed text.
pub proof fn law_trim_ignores_outer_white_space(s: Seq<char>, from: int, to: int)
    requires
        0 <= from <= to <= s.len(),
        forall|i: int| 0 <= i < from || to <= i < s.len() ==> white_space(#[trigger] s[i]),
    ensures
        trimmed(s.subrange(from, to)) == trimmed(s),
{
    let part = s.subrange(from, to);
    let (a, b) = lemma_trimmed(s);
    let (c, d) = lemma_trimmed(part);
    if a < b {
        assert(from <= a && b <= to);
        assert(part[a - from] == s[a]);
        assert(part[b - 1 - from] == s[b - 1]);
        assert(c < d) by {
            if c >= d {
                assert(white_space(part[a - from]));
            }
        }
        assert(part[c] == s[from + c]);
        assert(part[d - 1] == s[from + d - 1]);
        assert(from + c == a) by {
            if from + c < a {
                assert(white_space(s[from + c]));
            }
            if from + c > a {
                assert(white_space(part[a - from]));
            }
        }
        assert(from + d == b) by {
            if from + d < b {
                assert(white_space(part[b - 1 - from]));
            }
            if from + d > b {
                assert(white_space(s[from + d - 1]));
            }
        }
    } else if c < d {
        assert(part[c] == s[from + c]);
        assert(white_space(s[from + c]));
    }
    assert(trimmed(part) =~= trimmed(s));
}

} // verus!
