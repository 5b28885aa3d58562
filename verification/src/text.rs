//! Algorithms on sequences of characters: searching, replacing, splitting
//! and decimal parsing.
//!
//! Every executable function works on a slice of `char` and is specified
//! against a spec function on `Seq<char>`. Texts are taken character by
//! character, never byte by byte, so nothing here depends on an encoding.

use vstd::prelude::*;

verus! {

/// Whether `needle` stands in `hay` at index `i`.
pub open spec fn occurs_at(hay: Seq<char>, needle: Seq<char>, i: int) -> bool {
    &&& 0 <= i
    &&& i + needle.len() <= hay.len()
    &&& hay.subrange(i, i + needle.len()) == needle
}

/// Whether `i` is the least index at which `needle` stands in `hay`.
pub open spec fn is_first_occurrence(hay: Seq<char>, needle: Seq<char>, i: int) -> bool {
    &&& occurs_at(hay, needle, i)
    &&& forall|j: int| 0 <= j < i ==> !occurs_at(hay, needle, j)
}

/// The least index at which `needle` stands in `hay`, if there is one.
pub open spec fn spec_find(hay: Seq<char>, needle: Seq<char>) -> Option<int> {
    if exists|i: int| occurs_at(hay, needle, i) {
        Some(choose|i: int| is_first_occurrence(hay, needle, i))
    } else {
        None
    }
}

/// Among the occurrences of `needle` in `hay` up to index `k` there is a
/// first one.
pub proof fn lemma_first_occurrence_exists(hay: Seq<char>, needle: Seq<char>, k: int)
    requires
        occurs_at(hay, needle, k),
    ensures
        exists|i: int| 0 <= i <= k && is_first_occurrence(hay, needle, i),
    decreases k,
{
    if exists|j: int| 0 <= j < k && occurs_at(hay, needle, j) {
        let j = choose|j: int| 0 <= j < k && occurs_at(hay, needle, j);
        lemma_first_occurrence_exists(hay, needle, j);
        let i = choose|i: int| 0 <= i <= j && is_first_occurrence(hay, needle, i);
        assert(0 <= i <= k && is_first_occurrence(hay, needle, i));
    } else {
        assert(is_first_occurrence(hay, needle, k));
    }
}

/// `spec_find` yields the first occurrence, and nothing exactly when there
/// is no occurrence at all.
pub proof fn lemma_find(hay: Seq<char>, needle: Seq<char>)
    ensures
        match spec_find(hay, needle) {
            Some(i) => is_first_occurrence(hay, needle, i),
            None => forall|i: int| !occurs_at(hay, needle, i),
        },
{
    if exists|i: int| occurs_at(hay, needle, i) {
        let k = choose|i: int| occurs_at(hay, needle, i);
        lemma_first_occurrence_exists(hay, needle, k);
    }
}

/// A first occurrence is the one that `spec_find` yields.
pub proof fn lemma_find_unique(hay: Seq<char>, needle: Seq<char>, i: int)
    requires
        is_first_occurrence(hay, needle, i),
    ensures
        spec_find(hay, needle) == Some(i),
{
    lemma_find(hay, needle);
}

/// Tells whether `needle` stands in `hay` at index `i`.
pub fn matches_at(hay: &[char], needle: &[char], i: usize) -> (found: bool)
    ensures
        found == occurs_at(hay@, needle@, i as int),
{
    if needle.len() > hay.len() || i > hay.len() - needle.len() {
        return false;
    }
    let mut k: usize = 0;
    while k < needle.len()
        invariant
            k <= needle.len(),
            i + needle.len() <= hay.len(),
            forall|j: int| 0 <= j < k ==> hay@[i + j] == needle@[j],
        decreases needle.len() - k,
    {
        if hay[i + k] != needle[k] {
            assert(hay@.subrange(i as int, i + needle.len())[k as int] != needle@[k as int]);
            return false;
        }
        k = k + 1;
    }
    assert(hay@.subrange(i as int, i + needle.len()) =~= needle@);
    true
}

/// Finds the first occurrence of `needle` in `hay`.
pub fn find(hay: &[char], needle: &[char]) -> (found: Option<usize>)
    ensures
        match found {
            Some(i) => spec_find(hay@, needle@) == Some(i as int),
            None => spec_find(hay@, needle@) is None,
        },
{
    let mut i: usize = 0;
    while i < hay.len()
        invariant
            i <= hay.len(),
            forall|j: int| 0 <= j < i ==> !occurs_at(hay@, needle@, j),
        decreases hay.len() - i,
    {
        if matches_at(hay, needle, i) {
            proof {
                lemma_find_unique(hay@, needle@, i as int);
            }
            return Some(i);
        }
        i = i + 1;
    }
    // Only an empty needle can stand at the very end.
    if matches_at(hay, needle, i) {
        proof {
            lemma_find_unique(hay@, needle@, i as int);
        }
        Some(i)
    } else {
        None
    }
}

/// The text `s` with each occurrence of `from` replaced by `to`, the
/// occurrences being taken from left to right and never overlapping. An
/// empty `from` counts as occurring nowhere.
pub open spec fn spec_replace(s: Seq<char>, from: Seq<char>, to: Seq<char>) -> Seq<char>
    decreases s.len(),
{
    if s.len() == 0 {
        s
    } else if from.len() > 0 && occurs_at(s, from, 0) {
        to + spec_replace(s.skip(from.len() as int), from, to)
    } else {
        seq![s[0]] + spec_replace(s.skip(1), from, to)
    }
}

/// Replaces each occurrence of `from` in `text` by `to`. With an empty
/// `from` the text is copied as it is.
pub fn replace(text: &[char], from: &[char], to: &[char]) -> (out: Vec<char>)
    ensures
        out@ == spec_replace(text@, from@, to@),
{
    let mut out: Vec<char> = Vec::new();
    let mut i: usize = 0;
    assert(text@.skip(0) =~= text@);
    assert(out@ + spec_replace(text@, from@, to@) =~= spec_replace(text@, from@, to@));
    while i < text.len()
        invariant
            i <= text.len(),
            spec_replace(text@, from@, to@) == out@ + spec_replace(
                text@.skip(i as int),
                from@,
                to@,
            ),
        decreases text.len() - i,
    {
        let ghost rest = text@.skip(i as int);
        if from.len() > 0 && matches_at(text, from, i) {
            assert(rest.subrange(0, from@.len() as int) =~= text@.subrange(
                i as int,
                i + from@.len(),
            ));
            assert(rest.skip(from@.len() as int) =~= text@.skip(i + from@.len()));
            out.extend_from_slice(to);
            i = i + from.len();
        } else {
            assert(from@.len() > 0 ==> !occurs_at(rest, from@, 0)) by {
                if 0 < from@.len() <= rest.len() {
                    assert(rest.subrange(0, from@.len() as int) =~= text@.subrange(
                        i as int,
                        i + from@.len(),
                    ));
                }
            }
            assert(rest.skip(1) =~= text@.skip(i + 1));
            out.push(text[i]);
            i = i + 1;
        }
    }
    out
}

/// Replacing in a text made of two parts is replacing in each part, as long
/// as no occurrence of `from` lies across the place where the parts meet.
pub proof fn lemma_replace_concat(a: Seq<char>, b: Seq<char>, from: Seq<char>, to: Seq<char>)
    requires
        forall|i: int| a.len() - from.len() < i < a.len() ==> !occurs_at(a + b, from, i),
    ensures
        spec_replace(a + b, from, to) == spec_replace(a, from, to) + spec_replace(b, from, to),
    decreases a.len(),
{
    let n = from.len() as int;
    if a.len() == 0 {
        assert(a + b =~= b);
    } else if n > 0 && occurs_at(a, from, 0) {
        let rest = a.skip(n);
        assert((a + b).subrange(0, n) =~= a.subrange(0, n));
        assert((a + b).skip(n) =~= rest + b);
        assert forall|i: int| rest.len() - n < i < rest.len() implies !occurs_at(
            rest + b,
            from,
            i,
        ) by {
            if 0 <= i && i + n <= (rest + b).len() {
                assert((rest + b).subrange(i, i + n) =~= (a + b).subrange(i + n, i + n + n));
                assert(!occurs_at(a + b, from, i + n));
            }
        }
        lemma_replace_concat(rest, b, from, to);
    } else {
        let rest = a.skip(1);
        assert(n > 0 ==> !occurs_at(a + b, from, 0)) by {
            if 0 < n <= a.len() {
                assert((a + b).subrange(0, n) =~= a.subrange(0, n));
            }
        }
        assert((a + b).skip(1) =~= rest + b);
        assert forall|i: int| rest.len() - n < i < rest.len() implies !occurs_at(
            rest + b,
            from,
            i,
        ) by {
            if 0 <= i && i + n <= (rest + b).len() {
                assert((rest + b).subrange(i, i + n) =~= (a + b).subrange(i + 1, i + 1 + n));
                assert(!occurs_at(a + b, from, i + 1));
            }
        }
        lemma_replace_concat(rest, b, from, to);
    }
}

/// A text in which `from` does not occur is left as it is.
pub proof fn lemma_replace_nothing(s: Seq<char>, from: Seq<char>, to: Seq<char>)
    requires
        forall|i: int| !occurs_at(s, from, i),
    ensures
        spec_replace(s, from, to) == s,
    decreases s.len(),
{
    if s.len() > 0 {
        let rest = s.skip(1);
        assert forall|i: int| !occurs_at(rest, from, i) by {
            if 0 <= i && i + from.len() <= rest.len() {
                assert(rest.subrange(i, i + from.len()) =~= s.subrange(i + 1, i + 1 + from.len()));
                assert(!occurs_at(s, from, i + 1));
            }
        }
        lemma_replace_nothing(rest, from, to);
        assert(seq![s[0]] + rest =~= s);
    }
}

/// The text before and the text after the first occurrence of `pat` in `s`.
pub open spec fn spec_split_once(s: Seq<char>, pat: Seq<char>) -> Option<
    (Seq<char>, Seq<char>),
> {
    match spec_find(s, pat) {
        Some(i) => Some((s.take(i), s.skip(i + pat.len()))),
        None => None,
    }
}

/// Splits `s` at the first occurrence of `pat`.
pub fn split_once<'a>(s: &'a [char], pat: &[char]) -> (parts: Option<(&'a [char], &'a [char])>)
    ensures
        match parts {
            Some((head, tail)) => spec_split_once(s@, pat@) == Some((head@, tail@)),
            None => spec_split_once(s@, pat@) is None,
        },
{
    match find(s, pat) {
        Some(i) => {
            assert(i + pat.len() <= s.len()) by {
                lemma_find(s@, pat@);
            }
            let head = &s[0..i];
            let tail = &s[i + pat.len()..s.len()];
            Some((head, tail))
        },
        None => None,
    }
}

/// What `spec_split_once` yields, said without it: the two parts and the
/// pattern between them make up the text, and the pattern stands nowhere
/// before the place of the cut.
pub proof fn lemma_split_once(s: Seq<char>, pat: Seq<char>)
    ensures
        match spec_split_once(s, pat) {
            Some((head, tail)) => {
                &&& s == head + pat + tail
                &&& forall|j: int| 0 <= j < head.len() ==> !occurs_at(s, pat, j)
            },
            None => forall|i: int| !occurs_at(s, pat, i),
        },
{
    lemma_find(s, pat);
    if let Some(i) = spec_find(s, pat) {
        assert(s =~= s.take(i) + s.subrange(i, i + pat.len()) + s.skip(i + pat.len()));
    }
}

/// A text put together from a head, a pattern and a tail is split into
/// that head and that tail, if the pattern stands nowhere earlier.
pub proof fn lemma_split_once_assembled(head: Seq<char>, pat: Seq<char>, tail: Seq<char>)
    requires
        forall|j: int| 0 <= j < head.len() ==> !occurs_at(head + pat, pat, j),
    ensures
        spec_split_once(head + pat + tail, pat) == Some((head, tail)),
{
    let s = head + pat + tail;
    let i = head.len() as int;
    let n = pat.len() as int;
    assert(s.subrange(i, i + n) =~= pat);
    assert forall|j: int| 0 <= j < i implies !occurs_at(s, pat, j) by {
        if occurs_at(s, pat, j) {
            assert((head + pat).subrange(j, j + n) =~= s.subrange(j, j + n));
            assert(occurs_at(head + pat, pat, j));
        }
    }
    lemma_find_unique(s, pat, i);
    assert(s.take(i) =~= head);
    assert(s.skip(i + n) =~= tail);
}

/// The pieces into which the occurrences of `sep` cut `s`, the occurrences
/// being taken from left to right and never overlapping: one more piece
/// than there are occurrences. An empty `sep` cuts nowhere.
pub open spec fn spec_split(s: Seq<char>, sep: Seq<char>) -> Seq<Seq<char>>
    decreases s.len(),
{
    if sep.len() == 0 {
        seq![s]
    } else {
        match spec_find(s, sep) {
            Some(i) => {
                proof {
                    lemma_find(s, sep);
                }
                seq![s.take(i)] + spec_split(s.skip(i + sep.len()), sep)
            },
            None => seq![s],
        }
    }
}

/// The text made of `pieces` with `sep` between each two of them.
pub open spec fn spec_join(pieces: Seq<Seq<char>>, sep: Seq<char>) -> Seq<char>
    decreases pieces.len(),
{
    if pieces.len() == 0 {
        Seq::empty()
    } else if pieces.len() == 1 {
        pieces[0]
    } else {
        pieces[0] + sep + spec_join(pieces.skip(1), sep)
    }
}

/// Splitting loses nothing: there is at least one piece, the separator
/// stands in none of the pieces, and the pieces joined by the separator
/// are the text again.
pub proof fn lemma_split_join(s: Seq<char>, sep: Seq<char>)
    requires
        sep.len() > 0,
    ensures
        spec_split(s, sep).len() >= 1,
        spec_join(spec_split(s, sep), sep) == s,
        forall|k: int, i: int|
            0 <= k < spec_split(s, sep).len() ==> !#[trigger] occurs_at(
                spec_split(s, sep)[k],
                sep,
                i,
            ),
    decreases s.len(),
{
    lemma_find(s, sep);
    lemma_split_once(s, sep);
    match spec_find(s, sep) {
        Some(at) => {
            let head = s.take(at);
            let tail = s.skip(at + sep.len());
            let rest = spec_split(tail, sep);
            let pieces = spec_split(s, sep);
            lemma_split_join(tail, sep);
            assert(pieces =~= seq![head] + rest);
            assert(pieces.skip(1) =~= rest);
            assert forall|k: int, i: int| 0 <= k < pieces.len() implies !#[trigger] occurs_at(
                pieces[k],
                sep,
                i,
            ) by {
                if k == 0 {
                    if occurs_at(head, sep, i) {
                        assert(s.subrange(i, i + sep.len()) =~= head.subrange(i, i + sep.len()));
                        assert(occurs_at(s, sep, i));
                    }
                } else {
                    assert(pieces[k] == rest[k - 1]);
                }
            }
        },
        None => {
            assert(spec_split(s, sep) =~= seq![s]);
        },
    }
}

/// The views of the slices in `pieces`.
pub open spec fn views(pieces: Seq<&[char]>) -> Seq<Seq<char>> {
    Seq::new(pieces.len(), |k: int| pieces[k]@)
}

/// Splits `s` at each occurrence of `sep`. With an empty `sep` the text is
/// the only piece.
pub fn split<'a>(s: &'a [char], sep: &[char]) -> (pieces: Vec<&'a [char]>)
    ensures
        views(pieces@) == spec_split(s@, sep@),
{
    let mut pieces: Vec<&'a [char]> = Vec::new();
    if sep.len() == 0 {
        pieces.push(s);
        assert(views(pieces@) =~= seq![s@]);
        return pieces;
    }
    let mut rest: &'a [char] = s;
    assert(views(pieces@) + spec_split(rest@, sep@) =~= spec_split(s@, sep@));
    loop
        invariant
            sep@.len() > 0,
            spec_split(s@, sep@) == views(pieces@) + spec_split(rest@, sep@),
        decreases rest@.len(),
    {
        proof {
            lemma_find(rest@, sep@);
        }
        match split_once(rest, sep) {
            Some((head, tail)) => {
                let ghost before = views(pieces@);
                pieces.push(head);
                assert(views(pieces@) =~= before + seq![head@]);
                rest = tail;
            },
            None => {
                let ghost before = views(pieces@);
                pieces.push(rest);
                assert(views(pieces@) =~= before + seq![rest@]);
                return pieces;
            },
        }
    }
}

/// Whether `c` is one of the ten ASCII decimal digits.
pub open spec fn is_digit(c: char) -> bool {
    '0' <= c && c <= '9'
}

/// Whether `s` holds decimal digits only.
pub open spec fn all_digits(s: Seq<char>) -> bool {
    forall|i: int| 0 <= i < s.len() ==> is_digit(#[trigger] s[i])
}

/// The number that the decimal digits `digits` denote; leading zeros count
/// for nothing.
pub open spec fn decimal_value(digits: Seq<char>) -> int
    decreases digits.len(),
{
    if digits.len() == 0 {
        0
    } else {
        decimal_value(digits.drop_last()) * 10 + (digits.last() as int - '0' as int)
    }
}

/// The text `s` without the plus sign that may lead it.
pub open spec fn without_sign(s: Seq<char>) -> Seq<char> {
    if s.len() > 0 && s[0] == '+' {
        s.skip(1)
    } else {
        s
    }
}

/// The number in `0..=255` that `s` denotes in decimal notation: an optional
/// plus sign, then at least one digit and nothing else.
pub open spec fn spec_parse_u8(s: Seq<char>) -> Option<u8> {
    let digits = without_sign(s);
    if digits.len() > 0 && all_digits(digits) && decimal_value(digits) <= u8::MAX {
        Some(decimal_value(digits) as u8)
    } else {
        None
    }
}

/// The value of a run of digits is never negative and never less than the
/// value of one of its prefixes.
pub proof fn lemma_decimal_value_prefix(digits: Seq<char>, k: int)
    requires
        all_digits(digits),
        0 <= k <= digits.len(),
    ensures
        0 <= decimal_value(digits.take(k)) <= decimal_value(digits),
    decreases digits.len(),
{
    if k == digits.len() {
        assert(digits.take(k) =~= digits);
        if k > 0 {
            lemma_decimal_value_prefix(digits.drop_last(), k - 1);
        }
    } else {
        lemma_decimal_value_prefix(digits.drop_last(), k);
        assert(digits.drop_last().take(k) =~= digits.take(k));
        assert(is_digit(digits[digits.len() - 1]));
    }
}

/// Reads `s` as a decimal number that fits in eight bits.
pub fn parse_u8(s: &[char]) -> (value: Option<u8>)
    ensures
        value == spec_parse_u8(s@),
{
    let start: usize = if s.len() > 0 && s[0] == '+' {
        1
    } else {
        0
    };
    let ghost digits = without_sign(s@);
    let mut acc: u32 = 0;
    let mut i: usize = start;
    while i < s.len()
        invariant
            start <= i <= s.len(),
            digits == without_sign(s@),
            digits == s@.skip(start as int),
            all_digits(digits.take(i - start)),
            acc == decimal_value(digits.take(i - start)),
            acc <= u8::MAX,
        decreases s.len() - i,
    {
        let c = s[i];
        if c < '0' || c > '9' {
            assert(!is_digit(digits[i - start]));
            return None;
        }
        let digit: u32 = c as u32 - '0' as u32;
        acc = acc * 10 + digit;
        proof {
            let seen = digits.take(i + 1 - start);
            assert(seen.drop_last() =~= digits.take(i - start));
            assert(seen.last() == c);
            assert(all_digits(seen));
        }
        if acc > 255 {
            proof {
                if all_digits(digits) {
                    lemma_decimal_value_prefix(digits, i + 1 - start);
                }
            }
            return None;
        }
        i = i + 1;
    }
    assert(digits.take(i - start) =~= digits);
    if i == start {
        None
    } else {
        Some(acc as u8)
    }
}

/// What `String::push` of the standard library does, as its documentation
/// has it: it puts `ch` at the end of the string and leaves what came
/// before as it was. This is taken on trust, not proved.
pub assume_specification[ String::push ](s: &mut String, ch: char)
    ensures
        final(s)@ == old(s)@.push(ch),
;

/// The characters of `s`, in order.
pub fn chars_of(s: &str) -> (chars: Vec<char>)
    ensures
        chars@ == s@,
{
    let mut chars: Vec<char> = Vec::new();
    for c in it: s.chars()
        invariant
            it.seq() == s@,
            chars@ == it.seq().take(it.index() as int),
    {
        chars.push(c);
    }
    assert(s@.take(s@.len() as int) =~= s@);
    chars
}

/// The string made of `chars`, in order.
pub fn string_of(chars: &[char]) -> (s: String)
    ensures
        s@ == chars@,
{
    let mut s = String::new();
    let mut i: usize = 0;
    while i < chars.len()
        invariant
            i <= chars.len(),
            s@ == chars@.take(i as int),
        decreases chars.len() - i,
    {
        s.push(chars[i]);
        i = i + 1;
    }
    assert(chars@.take(i as int) =~= chars@);
    s
}

} // verus!
