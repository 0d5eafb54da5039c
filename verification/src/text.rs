//! Text as sequences of characters: splitting, trimming, matching, and reading
//! and writing decimal numbers.
//!
//! The specifications work on `Seq<char>`, the view of `str` and `String`; the
//! functions work on slices of characters, so that a piece of a text is a
//! subrange of it and nothing is copied until a `String` is wanted.

use vstd::prelude::*;
use vstd::slice::slice_subrange;

verus! {

/// `String::push` appends one character.
pub assume_specification[ std::string::String::push ](s: &mut std::string::String, c: char)
    ensures
        final(s)@ == old(s)@.push(c),
;

// ---------------------------------------------------------------------------
// Characters

/// The characters with the Unicode property White_Space.
pub open spec fn white_space(c: char) -> bool {
    ||| '\u{9}' <= c <= '\u{d}'
    ||| c == '\u{20}'
    ||| c == '\u{85}'
    ||| c == '\u{a0}'
    ||| c == '\u{1680}'
    ||| '\u{2000}' <= c <= '\u{200a}'
    ||| c == '\u{2028}'
    ||| c == '\u{2029}'
    ||| c == '\u{202f}'
    ||| c == '\u{205f}'
    ||| c == '\u{3000}'
}

/// Whether `c` is white space.
pub fn is_white_space(c: char) -> (r: bool)
    ensures
        r == white_space(c),
{
    ('\u{9}' <= c && c <= '\u{d}') || c == '\u{20}' || c == '\u{85}' || c == '\u{a0}' || c
        == '\u{1680}' || ('\u{2000}' <= c && c <= '\u{200a}') || c == '\u{2028}' || c == '\u{2029}'
        || c == '\u{202f}' || c == '\u{205f}' || c == '\u{3000}'
}

/// `c` with ASCII capitals made small; every other character stays.
pub open spec fn lower_char(c: char) -> char {
    if 'A' <= c <= 'Z' {
        (c as u32 + 32) as char
    } else {
        c
    }
}

/// Makes an ASCII capital small.
pub fn to_lower_char(c: char) -> (r: char)
    ensures
        r == lower_char(c),
{
    if 'A' <= c && c <= 'Z' {
        ((c as u8) + 32) as char
    } else {
        c
    }
}

pub open spec fn is_digit(c: char) -> bool {
    '0' <= c <= '9'
}

/// What a decimal digit stands for.
pub open spec fn digit_value(c: char) -> nat {
    (c as u32 - '0' as u32) as nat
}

/// The decimal digit that stands for `d`.
pub open spec fn digit_char(d: nat) -> char {
    ('0' as u32 + d) as char
}

// ---------------------------------------------------------------------------
// Between `str` and characters

/// The characters of `s`, in order.
pub fn chars_of(s: &str) -> (r: Vec<char>)
    ensures
        r@ == s@,
{
    let mut out: Vec<char> = Vec::new();
    for c in it: s.chars()
        invariant
            out@ == s@.take(it.index() as int),
            it.seq() == s@,
    {
        out.push(c);
    }
    out
}

/// The text made of `chars`.
pub fn string_of(chars: &[char]) -> (r: String)
    ensures
        r@ == chars@,
{
    let mut out = String::new();
    let mut i: usize = 0;
    while i < chars.len()
        invariant
            i <= chars@.len(),
            out@ == chars@.take(i as int),
        decreases chars@.len() - i,
    {
        out.push(chars[i]);
        i = i + 1;
    }
    out
}

// ---------------------------------------------------------------------------
// Comparing

/// Whether the two texts are the same.
pub fn same(a: &[char], b: &[char]) -> (r: bool)
    ensures
        r == (a@ == b@),
{
    if a.len() != b.len() {
        return false;
    }
    let mut i: usize = 0;
    while i < a.len()
        invariant
            i <= a@.len(),
            a@.len() == b@.len(),
            forall|j: int| 0 <= j < i ==> a@[j] == b@[j],
        decreases a@.len() - i,
    {
        if a[i] != b[i] {
            return false;
        }
        i = i + 1;
    }
    assert(a@ =~= b@);
    true
}

/// Whether `s` is the text `literal`.
pub fn is_text(s: &[char], literal: &str) -> (r: bool)
    ensures
        r == (s@ == literal@),
{
    let chars = chars_of(literal);
    same(s, chars.as_slice())
}

/// Whether the two strings are the same text.
pub fn same_str(a: &str, b: &str) -> (r: bool)
    ensures
        r == (a@ == b@),
{
    let chars = chars_of(a);
    is_text(chars.as_slice(), b)
}

// ---------------------------------------------------------------------------
// Lower case

/// `s` with ASCII capitals made small.
pub open spec fn lower(s: Seq<char>) -> Seq<char> {
    Seq::new(s.len(), |i: int| lower_char(s[i]))
}

/// Makes the ASCII capitals of `s` small.
pub fn to_lower(s: &[char]) -> (r: Vec<char>)
    ensures
        r@ == lower(s@),
{
    let mut out: Vec<char> = Vec::new();
    let mut i: usize = 0;
    while i < s.len()
        invariant
            i <= s@.len(),
            out@ == lower(s@).take(i as int),
        decreases s@.len() - i,
    {
        out.push(to_lower_char(s[i]));
        i = i + 1;
    }
    out
}

// ---------------------------------------------------------------------------
// Trimming

/// `s` without the white space at its start.
pub open spec fn trim_start(s: Seq<char>) -> Seq<char>
    decreases s.len(),
{
    if s.len() > 0 && white_space(s[0]) {
        trim_start(s.skip(1))
    } else {
        s
    }
}

/// `s` without the white space at its end.
pub open spec fn trim_end(s: Seq<char>) -> Seq<char>
    decreases s.len(),
{
    if s.len() > 0 && white_space(s.last()) {
        trim_end(s.drop_last())
    } else {
        s
    }
}

/// `s` without the white space at either end.
pub open spec fn trim(s: Seq<char>) -> Seq<char> {
    trim_end(trim_start(s))
}

/// Removes the white space at both ends.
pub fn trimmed<'a>(s: &'a [char]) -> (r: &'a [char])
    ensures
        r@ == trim(s@),
{
    let mut start: usize = 0;
    assert(s@.skip(0) =~= s@);
    while start < s.len() && is_white_space(s[start])
        invariant
            start <= s@.len(),
            trim_start(s@) == trim_start(s@.skip(start as int)),
        decreases s@.len() - start,
    {
        assert(s@.skip(start as int).skip(1) =~= s@.skip(start + 1));
        start = start + 1;
    }
    let ghost rest = s@.skip(start as int);
    assert(trim_start(s@) == rest);
    let mut end: usize = s.len();
    assert(s@.subrange(start as int, end as int) =~= rest);
    while start < end && is_white_space(s[end - 1])
        invariant
            start <= end <= s@.len(),
            trim_end(rest) == trim_end(s@.subrange(start as int, end as int)),
        decreases end - start,
    {
        assert(s@.subrange(start as int, end as int).drop_last() =~= s@.subrange(
            start as int,
            end - 1,
        ));
        end = end - 1;
    }
    slice_subrange(s, start, end)
}

// ---------------------------------------------------------------------------
// Finding

/// How many characters of `s` come before the first `c`: all of them where it
/// does not occur.
pub open spec fn position(s: Seq<char>, c: char) -> nat
    decreases s.len(),
{
    if s.len() == 0 || s[0] == c {
        0
    } else {
        1 + position(s.skip(1), c)
    }
}

pub proof fn lemma_position(s: Seq<char>, c: char)
    ensures
        position(s, c) <= s.len(),
        forall|i: int| 0 <= i < position(s, c) ==> s[i] != c,
        position(s, c) < s.len() ==> s[position(s, c) as int] == c,
    decreases s.len(),
{
    if s.len() != 0 && s[0] != c {
        let rest = s.skip(1);
        lemma_position(rest, c);
        assert forall|i: int| 0 <= i < position(s, c) implies s[i] != c by {
            if i > 0 {
                assert(rest[i - 1] == s[i]);
            }
        }
    }
}

/// The position is the only place with those properties.
pub proof fn lemma_position_unique(s: Seq<char>, c: char, p: int)
    requires
        0 <= p <= s.len(),
        forall|i: int| 0 <= i < p ==> s[i] != c,
        p < s.len() ==> s[p] == c,
    ensures
        position(s, c) == p,
{
    lemma_position(s, c);
    let q = position(s, c) as int;
    if q < p {
        assert(s[q] != c);
    }
    if p < q {
        assert(s[p] != c);
    }
}

/// Where the first `c` stands; the length where it does not occur.
pub fn position_of(s: &[char], c: char) -> (r: usize)
    ensures
        r == position(s@, c),
        r <= s@.len(),
        r < s@.len() ==> s@[r as int] == c,
{
    let mut i: usize = 0;
    while i < s.len() && s[i] != c
        invariant
            i <= s@.len(),
            forall|j: int| 0 <= j < i ==> s@[j] != c,
        decreases s@.len() - i,
    {
        i = i + 1;
    }
    proof {
        lemma_position_unique(s@, c, i as int);
    }
    i
}

/// Whether `s` begins with `prefix`.
pub open spec fn begins(s: Seq<char>, prefix: Seq<char>) -> bool {
    prefix.len() <= s.len() && s.take(prefix.len() as int) == prefix
}

/// Whether `s` begins with `prefix`.
pub fn begins_with(s: &[char], prefix: &[char]) -> (r: bool)
    ensures
        r == begins(s@, prefix@),
{
    if prefix.len() > s.len() {
        return false;
    }
    same(slice_subrange(s, 0, prefix.len()), prefix)
}

/// What follows `prefix` in `s`, where `s` begins with it.
pub open spec fn after_prefix(s: Seq<char>, prefix: Seq<char>) -> Option<Seq<char>> {
    if begins(s, prefix) {
        Some(s.skip(prefix.len() as int))
    } else {
        None
    }
}

/// What a slice found or not found stands for.
pub open spec fn found(r: Option<&[char]>) -> Option<Seq<char>> {
    match r {
        Some(s) => Some(s@),
        None => None,
    }
}

/// Takes the text `literal` off the start of `s`.
pub fn strip_prefix<'a>(s: &'a [char], literal: &str) -> (r: Option<&'a [char]>)
    ensures
        found(r) == after_prefix(s@, literal@),
{
    let chars = chars_of(literal);
    if begins_with(s, chars.as_slice()) {
        Some(slice_subrange(s, chars.len(), s.len()))
    } else {
        None
    }
}

/// What stands before the last character of `s`, where that is `c`.
pub open spec fn before_last(s: Seq<char>, c: char) -> Option<Seq<char>> {
    if s.len() > 0 && s.last() == c {
        Some(s.drop_last())
    } else {
        None
    }
}

/// Takes one `c` off the end of `s`.
pub fn strip_last<'a>(s: &'a [char], c: char) -> (r: Option<&'a [char]>)
    ensures
        found(r) == before_last(s@, c),
{
    if s.len() > 0 && s[s.len() - 1] == c {
        let out = slice_subrange(s, 0, s.len() - 1);
        assert(out@ =~= s@.drop_last());
        Some(out)
    } else {
        None
    }
}

/// What stands after the first character of `s`, where that is `c`.
pub open spec fn after_first(s: Seq<char>, c: char) -> Option<Seq<char>> {
    if s.len() > 0 && s[0] == c {
        Some(s.skip(1))
    } else {
        None
    }
}

/// Takes one `c` off the start of `s`.
pub fn strip_first<'a>(s: &'a [char], c: char) -> (r: Option<&'a [char]>)
    ensures
        found(r) == after_first(s@, c),
{
    if s.len() > 0 && s[0] == c {
        Some(slice_subrange(s, 1, s.len()))
    } else {
        None
    }
}

/// Where `needle` first occurs in `s`.
pub open spec fn first_occurrence(s: Seq<char>, needle: Seq<char>) -> Option<int>
    decreases s.len(),
{
    if begins(s, needle) {
        Some(0)
    } else if s.len() == 0 {
        None
    } else {
        match first_occurrence(s.skip(1), needle) {
            Some(i) => Some(i + 1),
            None => None,
        }
    }
}

/// Whether `needle` occurs in `s`.
pub open spec fn occurs(s: Seq<char>, needle: Seq<char>) -> bool {
    exists|i: int| 0 <= i <= s.len() && #[trigger] begins(s.skip(i), needle)
}

/// The first occurrence is one, nothing before it is, and there is one exactly
/// where `needle` occurs.
pub proof fn lemma_first_occurrence(s: Seq<char>, needle: Seq<char>)
    ensures
        first_occurrence(s, needle) is Some <==> occurs(s, needle),
        first_occurrence(s, needle) matches Some(i) ==> {
            &&& 0 <= i && i + needle.len() <= s.len()
            &&& s.subrange(i as int, i + needle.len()) == needle
            &&& forall|j: int| 0 <= j < i ==> !#[trigger] begins(s.skip(j), needle)
        },
    decreases s.len(),
{
    assert(s.skip(0) =~= s);
    if begins(s, needle) {
        assert(s.subrange(0, needle.len() as int) =~= needle);
    } else if s.len() > 0 {
        let rest = s.skip(1);
        lemma_first_occurrence(rest, needle);
        assert forall|j: int| 1 <= j <= s.len() implies #[trigger] s.skip(j) == rest.skip(j - 1) by {
            assert(s.skip(j) =~= rest.skip(j - 1));
        }
        if occurs(s, needle) {
            let i = choose|i: int| 0 <= i <= s.len() && #[trigger] begins(s.skip(i), needle);
            assert(begins(rest.skip(i - 1), needle));
        }
        if let Some(k) = first_occurrence(rest, needle) {
            assert(s.subrange(k + 1, k + 1 + needle.len()) =~= rest.subrange(
                k as int,
                k + needle.len(),
            ));
            assert(rest.skip(k as int).take(needle.len() as int) =~= needle);
            assert(begins(rest.skip(k as int), needle));
            assert(begins(s.skip(k + 1), needle));
            assert forall|j: int| 0 <= j < k + 1 implies !#[trigger] begins(s.skip(j), needle) by {
                if j > 0 {
                    assert(!begins(rest.skip(j - 1), needle));
                }
            }
        }
    }
}

/// Finds the first occurrence of `needle`.
pub fn find(s: &[char], needle: &[char]) -> (r: Option<usize>)
    ensures
        match r {
            Some(i) => first_occurrence(s@, needle@) == Some(i as int) && i + needle@.len()
                <= s@.len(),
            None => first_occurrence(s@, needle@) is None,
        },
        r is Some <==> occurs(s@, needle@),
{
    let mut i: usize = 0;
    proof {
        lemma_first_occurrence(s@, needle@);
        assert(s@.skip(0) =~= s@);
    }
    loop
        invariant
            i <= s@.len(),
            first_occurrence(s@, needle@) is Some <==> occurs(s@, needle@),
            match first_occurrence(s@.skip(i as int), needle@) {
                Some(k) => first_occurrence(s@, needle@) == Some(k + i),
                None => first_occurrence(s@, needle@) is None,
            },
        decreases s@.len() - i,
    {
        let rest = slice_subrange(s, i, s.len());
        assert(rest@ =~= s@.skip(i as int));
        if begins_with(rest, needle) {
            return Some(i);
        }
        if i == s.len() {
            return None;
        }
        assert(s@.skip(i as int).skip(1) =~= s@.skip(i + 1));
        i = i + 1;
    }
}

/// Whether `needle` occurs in `s`.
pub fn contains(s: &[char], needle: &[char]) -> (r: bool)
    ensures
        r == occurs(s@, needle@),
{
    find(s, needle).is_some()
}

/// A string of its own with the text of `s`.
pub fn copy_of(s: &str) -> (r: String)
    ensures
        r@ == s@,
{
    let mut out = String::new();
    out.append(s);
    assert(out@ =~= s@);
    out
}

// ---------------------------------------------------------------------------
// Splitting

/// The pieces of `s` between the `c`s; one piece more than there are of them.
pub open spec fn split(s: Seq<char>, c: char) -> Seq<Seq<char>>
    decreases s.len(),
    via split_decreases
{
    let p = position(s, c) as int;
    if p < s.len() {
        seq![s.take(p)] + split(s.skip(p + 1), c)
    } else {
        seq![s]
    }
}

#[via_fn]
proof fn split_decreases(s: Seq<char>, c: char) {
    lemma_position(s, c);
}

/// The pieces of `s` between the first `n - 1` `c`s: at most `n`, the last
/// holding whatever is left.
pub open spec fn split_at_most(s: Seq<char>, n: nat, c: char) -> Seq<Seq<char>>
    decreases n,
{
    let p = position(s, c) as int;
    if n > 1 && p < s.len() {
        seq![s.take(p)] + split_at_most(s.skip(p + 1), (n - 1) as nat, c)
    } else {
        seq![s]
    }
}

/// The texts that a list of strings holds.
pub open spec fn strings(list: Seq<String>) -> Seq<Seq<char>> {
    Seq::new(list.len(), |i: int| list[i]@)
}

/// The pieces that are not empty.
pub open spec fn non_empty(pieces: Seq<Seq<char>>) -> Seq<Seq<char>> {
    pieces.filter(|piece: Seq<char>| piece.len() > 0)
}

/// The texts that a list of slices holds.
pub open spec fn texts(pieces: Seq<&[char]>) -> Seq<Seq<char>> {
    Seq::new(pieces.len(), |i: int| pieces[i]@)
}

/// Splits `s` at every `c`.
pub fn split_on<'a>(s: &'a [char], c: char) -> (r: Vec<&'a [char]>)
    ensures
        texts(r@) == split(s@, c),
{
    let mut out: Vec<&'a [char]> = Vec::new();
    let mut rest: &'a [char] = s;
    assert(texts(out@) =~= Seq::<Seq<char>>::empty());
    assert(split(s@, c) =~= texts(out@) + split(rest@, c));
    loop
        invariant
            split(s@, c) == texts(out@) + split(rest@, c),
        decreases rest@.len(),
    {
        let p = position_of(rest, c);
        if p == rest.len() {
            let ghost before = texts(out@);
            out.push(rest);
            assert(texts(out@) =~= before + seq![rest@]);
            return out;
        }
        let piece = slice_subrange(rest, 0, p);
        let tail = slice_subrange(rest, p + 1, rest.len());
        let ghost before = texts(out@);
        out.push(piece);
        proof {
            assert(tail@ =~= rest@.skip(p + 1));
            assert(texts(out@) =~= before + seq![rest@.take(p as int)]);
            assert(split(s@, c) =~= texts(out@) + split(tail@, c));
        }
        rest = tail;
    }
}

/// Splits `s` at the first `n - 1` `c`s.
pub fn split_on_at_most<'a>(s: &'a [char], n: usize, c: char) -> (r: Vec<&'a [char]>)
    requires
        n >= 1,
    ensures
        texts(r@) == split_at_most(s@, n as nat, c),
{
    let mut out: Vec<&'a [char]> = Vec::new();
    let mut rest: &'a [char] = s;
    let mut left: usize = n;
    assert(split_at_most(s@, n as nat, c) =~= texts(out@) + split_at_most(rest@, left as nat, c));
    loop
        invariant
            left >= 1,
            split_at_most(s@, n as nat, c) == texts(out@) + split_at_most(rest@, left as nat, c),
        decreases left,
    {
        let p = position_of(rest, c);
        if left == 1 || p == rest.len() {
            let ghost before = texts(out@);
            out.push(rest);
            assert(texts(out@) =~= before + seq![rest@]);
            return out;
        }
        let piece = slice_subrange(rest, 0, p);
        let tail = slice_subrange(rest, p + 1, rest.len());
        let ghost before = texts(out@);
        out.push(piece);
        proof {
            assert(tail@ =~= rest@.skip(p + 1));
            assert(texts(out@) =~= before + seq![rest@.take(p as int)]);
            assert(split_at_most(s@, n as nat, c) =~= texts(out@) + split_at_most(
                tail@,
                (left - 1) as nat,
                c,
            ));
        }
        rest = tail;
        left = left - 1;
    }
}

/// What stands before and after the first `c`, where there is one.
pub open spec fn cut(s: Seq<char>, c: char) -> Option<(Seq<char>, Seq<char>)> {
    let p = position(s, c) as int;
    if p < s.len() {
        Some((s.take(p), s.skip(p + 1)))
    } else {
        None
    }
}

/// Cuts `s` at the first `c`.
pub fn split_once<'a>(s: &'a [char], c: char) -> (r: Option<(&'a [char], &'a [char])>)
    ensures
        match r {
            Some((a, b)) => cut(s@, c) == Some((a@, b@)),
            None => cut(s@, c) is None,
        },
{
    let p = position_of(s, c);
    if p == s.len() {
        return None;
    }
    let tail = slice_subrange(s, p + 1, s.len());
    assert(tail@ =~= s@.skip(p + 1));
    Some((slice_subrange(s, 0, p), tail))
}

/// The pieces of a list, with `separator` between each two.
pub open spec fn join(pieces: Seq<Seq<char>>, separator: Seq<char>) -> Seq<char>
    decreases pieces.len(),
{
    if pieces.len() == 0 {
        Seq::empty()
    } else if pieces.len() == 1 {
        pieces[0]
    } else {
        join(pieces.drop_last(), separator) + separator + pieces.last()
    }
}

/// Splitting two texts with a `c` between them splits each.
pub proof fn split_at_separator(a: Seq<char>, b: Seq<char>, c: char)
    ensures
        split(a + seq![c] + b, c) == split(a, c) + split(b, c),
    decreases a.len(),
{
    let whole = a + seq![c] + b;
    let p = position(a, c) as int;
    lemma_position(a, c);
    if p < a.len() {
        assert forall|j: int| 0 <= j < p implies whole[j] != c by {
            assert(whole[j] == a[j]);
        }
        lemma_position_unique(whole, c, p);
        split_at_separator(a.skip(p + 1), b, c);
        assert(whole.take(p) =~= a.take(p));
        assert(whole.skip(p + 1) =~= a.skip(p + 1) + seq![c] + b);
        assert(split(whole, c) =~= split(a, c) + split(b, c));
    } else {
        assert forall|j: int| 0 <= j < a.len() implies whole[j] != c by {
            assert(whole[j] == a[j]);
        }
        lemma_position_unique(whole, c, a.len() as int);
        assert(whole.take(a.len() as int) =~= a);
        assert(whole.skip(a.len() as int + 1) =~= b);
    }
}

/// Splitting undoes joining, where no piece holds the separator.
pub proof fn split_undoes_join(pieces: Seq<Seq<char>>, c: char)
    requires
        pieces.len() > 0,
        forall|i: int| 0 <= i < pieces.len() ==> !(#[trigger] pieces[i]).contains(c),
    ensures
        split(join(pieces, seq![c]), c) == pieces,
    decreases pieces.len(),
{
    let last = pieces.last();
    lemma_position(last, c);
    assert(position(last, c) == last.len());
    assert(split(last, c) =~= seq![last]);
    if pieces.len() == 1 {
        assert(pieces =~= seq![last]);
    } else {
        let head = pieces.drop_last();
        assert forall|i: int| 0 <= i < head.len() implies !(#[trigger] head[i]).contains(c) by {
            assert(head[i] == pieces[i]);
        }
        split_undoes_join(head, c);
        split_at_separator(join(head, seq![c]), last, c);
        assert(head + seq![last] =~= pieces);
    }
}

/// Joins texts, with `separator` between each two.
pub fn joined_by(pieces: &Vec<String>, separator: &str) -> (r: String)
    ensures
        r@ == join(strings(pieces@), separator@),
{
    let mut out = String::new();
    let ghost all = strings(pieces@);
    let mut i: usize = 0;
    assert(out@ =~= join(all.take(0), separator@));
    while i < pieces.len()
        invariant
            i <= pieces@.len(),
            all == strings(pieces@),
            out@ == join(all.take(i as int), separator@),
        decreases pieces@.len() - i,
    {
        proof {
            assert(all.take(i + 1).drop_last() =~= all.take(i as int));
            assert(all.take(i + 1).last() == all[i as int]);
        }
        if i > 0 {
            out.append(separator);
        }
        out.append(pieces[i].as_str());
        assert(out@ =~= join(all.take(i + 1), separator@));
        i = i + 1;
    }
    assert(all.take(i as int) =~= all);
    out
}

/// Joins texts, with one character between each two.
pub fn joined(pieces: &Vec<String>, separator: char) -> (r: String)
    ensures
        r@ == join(strings(pieces@), seq![separator]),
{
    let mut between = String::new();
    between.push(separator);
    assert(between@ =~= seq![separator]);
    joined_by(pieces, between.as_str())
}

// ---------------------------------------------------------------------------
// Decimal numbers

/// Whether every character of `s` is a decimal digit.
pub open spec fn all_digits(s: Seq<char>) -> bool {
    forall|i: int| 0 <= i < s.len() ==> is_digit(#[trigger] s[i])
}

/// The number that a text of decimal digits writes.
pub open spec fn digits_value(s: Seq<char>) -> nat
    decreases s.len(),
{
    if s.len() == 0 {
        0
    } else {
        digits_value(s.drop_last()) * 10 + digit_value(s.last())
    }
}

/// The unsigned number that `s` writes: decimal digits, at least one of them,
/// with an optional `+` in front, and no more than `max`.
pub open spec fn unsigned(s: Seq<char>, max: nat) -> Option<nat> {
    let digits = if s.len() > 0 && s[0] == '+' {
        s.skip(1)
    } else {
        s
    };
    if digits.len() > 0 && all_digits(digits) && digits_value(digits) <= max {
        Some(digits_value(digits))
    } else {
        None
    }
}

proof fn lemma_digits_value_grows(s: Seq<char>, i: int)
    requires
        0 <= i <= s.len(),
    ensures
        digits_value(s.take(i)) <= digits_value(s),
    decreases s.len() - i,
{
    if i < s.len() {
        lemma_digits_value_grows(s, i + 1);
        assert(s.take(i + 1).drop_last() =~= s.take(i));
    } else {
        assert(s.take(i) =~= s);
    }
}

/// Reads an unsigned number that is at most `max`.
pub fn parse_unsigned(s: &[char], max: u64) -> (r: Option<u64>)
    ensures
        match r {
            Some(n) => unsigned(s@, max as nat) == Some(n as nat) && n <= max,
            None => unsigned(s@, max as nat) is None,
        },
{
    let start: usize = if s.len() > 0 && s[0] == '+' {
        1
    } else {
        0
    };
    let digits = slice_subrange(s, start, s.len());
    assert(start == 0 ==> digits@ =~= s@);
    if digits.len() == 0 {
        return None;
    }
    let mut value: u64 = 0;
    let mut i: usize = 0;
    while i < digits.len()
        invariant
            i <= digits@.len(),
            value <= max,
            value == digits_value(digits@.take(i as int)),
            forall|j: int| 0 <= j < i ==> is_digit(#[trigger] digits@[j]),
            digits@ == (if s@.len() > 0 && s@[0] == '+' {
                s@.skip(1)
            } else {
                s@
            }),
        decreases digits@.len() - i,
    {
        let c = digits[i];
        if !('0' <= c && c <= '9') {
            assert(!is_digit(digits@[i as int]));
            return None;
        }
        let d: u128 = (c as u128) - ('0' as u128);
        let next: u128 = value as u128 * 10 + d;
        proof {
            assert(digits@.take(i + 1).drop_last() =~= digits@.take(i as int));
            assert(digits@.take(i + 1).last() == c);
            assert(next == digits_value(digits@.take(i + 1)));
        }
        if next > max as u128 {
            proof {
                lemma_digits_value_grows(digits@, i + 1);
            }
            return None;
        }
        value = next as u64;
        i = i + 1;
    }
    assert(digits@.take(i as int) =~= digits@);
    Some(value)
}

/// `n` in decimal, without leading zeros.
pub open spec fn decimal(n: nat) -> Seq<char>
    decreases n,
{
    if n < 10 {
        seq![digit_char(n)]
    } else {
        decimal(n / 10).push(digit_char(n % 10))
    }
}

/// Writing a number and reading it back gives the number.
pub proof fn decimal_reads_back(n: nat)
    ensures
        decimal(n).len() > 0,
        all_digits(decimal(n)),
        digits_value(decimal(n)) == n,
    decreases n,
{
    if n < 10 {
        assert(decimal(n).drop_last() =~= Seq::<char>::empty());
        assert(digits_value(Seq::<char>::empty()) == 0);
    } else {
        decimal_reads_back(n / 10);
        let head = decimal(n / 10);
        assert(decimal(n).drop_last() =~= head);
        assert(decimal(n).last() == digit_char(n % 10));
        assert forall|i: int| 0 <= i < decimal(n).len() implies is_digit(
            #[trigger] decimal(n)[i],
        ) by {
            if i < head.len() {
                assert(decimal(n)[i] == head[i]);
            }
        }
    }
}

/// Reading the decimal form of a number that is not too large gives it back.
pub proof fn unsigned_reads_decimal(n: nat, max: nat)
    requires
        n <= max,
    ensures
        unsigned(decimal(n), max) == Some(n),
{
    decimal_reads_back(n);
    assert(is_digit(decimal(n)[0]));
}

/// Writes `n` in decimal.
pub fn to_decimal(n: u64) -> (r: Vec<char>)
    ensures
        r@ == decimal(n as nat),
    decreases n,
{
    let d: u64 = n % 10;
    let c: char = (48u8 + d as u8) as char;
    let mut out: Vec<char> = if n < 10 {
        Vec::new()
    } else {
        to_decimal(n / 10)
    };
    out.push(c);
    proof {
        if n < 10 {
            assert(out@ =~= decimal(n as nat));
        }
    }
    out
}

/// `n` in decimal, as a string.
pub fn decimal_string(n: u64) -> (r: String)
    ensures
        r@ == decimal(n as nat),
{
    let digits = to_decimal(n);
    string_of(digits.as_slice())
}

/// Appends `n` in decimal.
pub fn push_decimal(s: &mut String, n: u64)
    ensures
        final(s)@ == old(s)@ + decimal(n as nat),
{
    let digits = decimal_string(n);
    s.append(digits.as_str());
}

// ---------------------------------------------------------------------------
// Order

/// Texts are ordered by their first difference; a text comes before those that it
/// begins.
pub open spec fn text_before(a: Seq<char>, b: Seq<char>) -> bool
    decreases a.len(),
{
    if b.len() == 0 {
        false
    } else if a.len() == 0 {
        true
    } else if a[0] != b[0] {
        a[0] < b[0]
    } else {
        text_before(a.skip(1), b.skip(1))
    }
}

/// Texts are totally ordered.
pub proof fn texts_are_ordered(a: Seq<char>, b: Seq<char>, c: Seq<char>)
    ensures
        !text_before(a, a),
        text_before(a, b) ==> !text_before(b, a),
        text_before(a, b) || text_before(b, a) || a == b,
        text_before(a, b) && text_before(b, c) ==> text_before(a, c),
        !text_before(b, a) && !text_before(c, b) ==> !text_before(c, a),
    decreases a.len() + b.len() + c.len(),
{
    if a.len() > 0 && b.len() > 0 && c.len() > 0 {
        texts_are_ordered(a.skip(1), b.skip(1), c.skip(1));
    } else if a.len() > 0 && b.len() > 0 {
        texts_are_ordered(a.skip(1), b.skip(1), c);
    } else if a.len() > 0 {
        texts_are_ordered(a.skip(1), b, c);
    }
    if a.len() > 0 && b.len() > 0 && a[0] == b[0] && a.skip(1) == b.skip(1) {
        assert(a =~= seq![a[0]] + a.skip(1));
        assert(b =~= seq![b[0]] + b.skip(1));
    }
    if a.len() == 0 && b.len() == 0 {
        assert(a =~= b);
    }
}

/// Compares two texts.
pub fn text_is_before(a: &str, b: &str) -> (r: bool)
    ensures
        r == text_before(a@, b@),
{
    let a = chars_of(a);
    let b = chars_of(b);
    let mut i: usize = 0;
    assert(a@.skip(0) =~= a@);
    assert(b@.skip(0) =~= b@);
    while i < a.len() && i < b.len() && a[i] == b[i]
        invariant
            i <= a@.len(),
            i <= b@.len(),
            text_before(a@, b@) == text_before(a@.skip(i as int), b@.skip(i as int)),
        decreases a@.len() - i,
    {
        proof {
            assert(a@.skip(i as int)[0] == a@[i as int]);
            assert(b@.skip(i as int)[0] == b@[i as int]);
            assert(a@.skip(i as int).skip(1) =~= a@.skip(i + 1));
            assert(b@.skip(i as int).skip(1) =~= b@.skip(i + 1));
        }
        i = i + 1;
    }
    if i == b.len() {
        false
    } else if i == a.len() {
        true
    } else {
        assert(a@.skip(i as int)[0] == a@[i as int]);
        assert(b@.skip(i as int)[0] == b@[i as int]);
        a[i] < b[i]
    }
}

// ---------------------------------------------------------------------------
// Laws

/// White space is what Unicode says: tab to carriage return, space, next line, no-break
/// space, and the spaces and separators further up.
pub proof fn white_space_by_number(c: char)
    ensures
        white_space(c) <==> ({
            let n = c as int;
            (9 <= n <= 13) || n == 32 || n == 133 || n == 160 || n == 5760 || (8192 <= n <= 8202)
                || n == 8232 || n == 8233 || n == 8239 || n == 8287 || n == 12288
        }),
        white_space(' '),
        white_space('\t'),
        white_space('\r'),
        white_space('\n'),
{
}

/// Lower case keeps the length, moves the 26 ASCII capitals by 32 and nothing else, and
/// is done once it is done.
pub proof fn lower_case_moves_capitals_only(s: Seq<char>, i: int)
    requires
        0 <= i < s.len(),
    ensures
        lower(s).len() == s.len(),
        65 <= s[i] as int <= 90 ==> lower(s)[i] as int == s[i] as int + 32,
        !(65 <= s[i] as int <= 90) ==> lower(s)[i] == s[i],
        lower(lower(s)) == lower(s),
{
    assert forall|j: int| 0 <= j < s.len() implies lower(lower(s))[j] == #[trigger] lower(
        s,
    )[j] by {
        let n = s[j] as u32;
        if 65 <= n <= 90 {
            assert(lower(s)[j] as u32 == n + 32);
        }
    }
    assert(lower(lower(s)) =~= lower(s));
}

proof fn lemma_trim_start(s: Seq<char>) -> (r: int)
    ensures
        0 <= r <= s.len(),
        trim_start(s) == s.skip(r),
        forall|i: int| 0 <= i < r ==> white_space(#[trigger] s[i]),
        r < s.len() ==> !white_space(s[r]),
    decreases s.len(),
{
    if s.len() > 0 && white_space(s[0]) {
        let rest = s.skip(1);
        let r = lemma_trim_start(rest);
        assert(rest.skip(r) =~= s.skip(r + 1));
        assert forall|i: int| 0 <= i < r + 1 implies white_space(#[trigger] s[i]) by {
            if i > 0 {
                assert(rest[i - 1] == s[i]);
            }
        }
        r + 1
    } else {
        assert(s.skip(0) =~= s);
        0
    }
}

proof fn lemma_trim_end(s: Seq<char>) -> (r: int)
    ensures
        0 <= r <= s.len(),
        trim_end(s) == s.take(r),
        forall|i: int| r <= i < s.len() ==> white_space(#[trigger] s[i]),
        r > 0 ==> !white_space(s[r - 1]),
    decreases s.len(),
{
    if s.len() > 0 && white_space(s.last()) {
        let rest = s.drop_last();
        let r = lemma_trim_end(rest);
        assert(rest.take(r) =~= s.take(r));
        assert forall|i: int| r <= i < s.len() implies white_space(#[trigger] s[i]) by {
            if i < rest.len() {
                assert(rest[i] == s[i]);
            }
        }
        r
    } else {
        assert(s.take(s.len() as int) =~= s);
        s.len() as int
    }
}

/// Trimming leaves a run of the text, with nothing but white space before and behind it,
/// and none at its own ends.
pub proof fn trimming_takes_white_space_off_both_ends(s: Seq<char>) -> (r: (int, int))
    ensures
        0 <= r.0 <= r.1 <= s.len(),
        trim(s) == s.subrange(r.0, r.1),
        forall|i: int| 0 <= i < r.0 || r.1 <= i < s.len() ==> white_space(#[trigger] s[i]),
        trim(s).len() > 0 ==> !white_space(trim(s)[0]) && !white_space(trim(s).last()),
{
    let a = lemma_trim_start(s);
    let rest = s.skip(a);
    let b = lemma_trim_end(rest);
    assert(rest.take(b) =~= s.subrange(a, a + b));
    assert forall|i: int| 0 <= i < a || a + b <= i < s.len() implies white_space(
        #[trigger] s[i],
    ) by {
        if i >= a {
            assert(rest[i - a] == s[i]);
        }
    }
    if b > 0 {
        assert(rest[0] == s[a]);
    }
    (a, a + b)
}

/// A text with no white space at its ends is left alone, and white space round it goes.
pub proof fn trimming_undoes_padding(before: Seq<char>, s: Seq<char>, behind: Seq<char>)
    requires
        forall|i: int| 0 <= i < before.len() ==> white_space(#[trigger] before[i]),
        forall|i: int| 0 <= i < behind.len() ==> white_space(#[trigger] behind[i]),
        s.len() > 0 ==> !white_space(s[0]) && !white_space(s.last()),
    ensures
        trim(before + s + behind) == s,
        trim(s) == s,
{
    lemma_padded(before, s, behind);
    lemma_padded(Seq::empty(), s, Seq::empty());
    assert(Seq::<char>::empty() + s + Seq::<char>::empty() =~= s);
}

proof fn lemma_padded(before: Seq<char>, s: Seq<char>, behind: Seq<char>)
    requires
        forall|i: int| 0 <= i < before.len() ==> white_space(#[trigger] before[i]),
        forall|i: int| 0 <= i < behind.len() ==> white_space(#[trigger] behind[i]),
        s.len() > 0 ==> !white_space(s[0]) && !white_space(s.last()),
    ensures
        trim(before + s + behind) == s,
{
    let whole = before + s + behind;
    let (a, b) = trimming_takes_white_space_off_both_ends(whole);
    if s.len() == 0 {
        if a < b {
            assert(trim(whole)[0] == whole[a]);
            if a < before.len() {
                assert(whole[a] == before[a]);
            } else {
                assert(whole[a] == behind[a - before.len()]);
            }
        }
        assert(trim(whole) =~= s);
    } else {
        let first = before.len() as int;
        let last = before.len() + s.len() - 1;
        assert(whole[first] == s[0]);
        assert(whole[last] == s.last());
        assert(a <= first && last < b);
        assert(trim(whole)[0] == whole[a]);
        assert(trim(whole).last() == whole[b - 1]);
        if a < first {
            assert(whole[a] == before[a]);
        }
        if b - 1 > last {
            assert(whole[b - 1] == behind[b - 1 - last - 1]);
        }
        assert(trim(whole) =~= s);
    }
}

/// A text begins with another exactly where it is that text with something behind it.
pub proof fn beginnings_can_be_taken_off(s: Seq<char>, prefix: Seq<char>, rest: Seq<char>)
    ensures
        begins(s, prefix) <==> prefix.len() <= s.len() && forall|i: int|
            0 <= i < prefix.len() ==> s[i] == #[trigger] prefix[i],
        after_prefix(s, prefix) == Some(rest) <==> s == prefix + rest,
        after_prefix(s, prefix) is Some <==> begins(s, prefix),
{
    if begins(s, prefix) {
        assert(s =~= prefix + s.skip(prefix.len() as int));
        assert forall|i: int| 0 <= i < prefix.len() implies s[i] == #[trigger] prefix[i] by {
            assert(s.take(prefix.len() as int)[i] == s[i]);
        }
    }
    if prefix.len() <= s.len() && forall|i: int|
        0 <= i < prefix.len() ==> s[i] == #[trigger] prefix[i] {
        assert(s.take(prefix.len() as int) =~= prefix);
    }
    if s == prefix + rest {
        assert(s.take(prefix.len() as int) =~= prefix);
        assert(s.skip(prefix.len() as int) =~= rest);
    }
}

/// A text occurs in another exactly where it stands between two parts of it.
pub proof fn occurrences_stand_inside(a: Seq<char>, needle: Seq<char>, b: Seq<char>, s: Seq<char>)
    ensures
        occurs(a + needle + b, needle),
        occurs(s, needle) <==> exists|i: int|
            0 <= i <= s.len() - needle.len() && #[trigger] s.subrange(i, i + needle.len())
                == needle,
{
    let whole = a + needle + b;
    assert(whole.skip(a.len() as int).take(needle.len() as int) =~= needle);
    assert(begins(whole.skip(a.len() as int), needle));
    if occurs(s, needle) {
        let i = choose|i: int| 0 <= i <= s.len() && #[trigger] begins(s.skip(i), needle);
        assert(s.subrange(i, i + needle.len()) =~= s.skip(i).take(needle.len() as int));
    }
    if exists|i: int|
        0 <= i <= s.len() - needle.len() && #[trigger] s.subrange(i, i + needle.len()) == needle {
        let i = choose|i: int|
            0 <= i <= s.len() - needle.len() && #[trigger] s.subrange(i, i + needle.len())
                == needle;
        assert(s.skip(i).take(needle.len() as int) =~= s.subrange(i, i + needle.len()));
        assert(begins(s.skip(i), needle));
    }
}

/// A text is cut at the first of the characters: what is before it holds none, and the
/// two parts with it between them are the text.
pub proof fn cuts_are_at_the_first(s: Seq<char>, c: char, a: Seq<char>, b: Seq<char>)
    ensures
        cut(s, c) is None <==> !s.contains(c),
        cut(s, c) == Some((a, b)) <==> s == a + seq![c] + b && !a.contains(c),
{
    lemma_position(s, c);
    let p = position(s, c) as int;
    if p < s.len() {
        assert(s =~= s.take(p) + seq![c] + s.skip(p + 1));
        assert forall|i: int| 0 <= i < p implies s.take(p)[i] != c by {
            assert(s.take(p)[i] == s[i]);
        }
        assert(s.contains(c));
    }
    if s == a + seq![c] + b && !a.contains(c) {
        assert(s[a.len() as int] == c);
        assert forall|i: int| 0 <= i < a.len() implies s[i] != c by {
            assert(s[i] == a[i]);
        }
        lemma_position_unique(s, c, a.len() as int);
        assert(s.take(a.len() as int) =~= a);
        assert(s.skip(a.len() as int + 1) =~= b);
    }
}

/// Joining takes its pieces one by one, with the separator before all but the first.
pub proof fn joining_goes_piece_by_piece(
    pieces: Seq<Seq<char>>,
    piece: Seq<char>,
    separator: Seq<char>,
)
    ensures
        join(Seq::empty(), separator) == Seq::<char>::empty(),
        join(seq![piece], separator) == piece,
        pieces.len() > 0 ==> join(pieces.push(piece), separator) == join(pieces, separator)
            + separator + piece,
{
    assert(pieces.push(piece).drop_last() =~= pieces);
}

proof fn lemma_join_front(piece: Seq<char>, pieces: Seq<Seq<char>>, separator: Seq<char>)
    requires
        pieces.len() > 0,
    ensures
        join(seq![piece] + pieces, separator) == piece + separator + join(pieces, separator),
    decreases pieces.len(),
{
    let all = seq![piece] + pieces;
    if pieces.len() == 1 {
        assert(all.drop_last() =~= seq![piece]);
        assert(join(seq![piece], separator) == piece);
        assert(all.last() == pieces[0]);
    } else {
        lemma_join_front(piece, pieces.drop_last(), separator);
        assert(all.drop_last() =~= seq![piece] + pieces.drop_last());
        assert(all.last() == pieces.last());
        assert(join(all, separator) =~= piece + separator + join(pieces, separator));
    }
}

/// Splitting loses nothing: the pieces joined again are the text, there is at least one,
/// and none of them holds the separator.
pub proof fn joining_undoes_splitting(s: Seq<char>, c: char)
    ensures
        split(s, c).len() > 0,
        join(split(s, c), seq![c]) == s,
        forall|i: int| 0 <= i < split(s, c).len() ==> !(#[trigger] split(s, c)[i]).contains(c),
    decreases s.len(),
{
    lemma_position(s, c);
    let p = position(s, c) as int;
    let pieces = split(s, c);
    if p < s.len() {
        let rest = split(s.skip(p + 1), c);
        joining_undoes_splitting(s.skip(p + 1), c);
        lemma_join_front(s.take(p), rest, seq![c]);
        assert(s.take(p) + seq![c] + s.skip(p + 1) =~= s);
        assert forall|i: int| 0 <= i < pieces.len() implies !(#[trigger] pieces[i]).contains(
            c,
        ) by {
            if i == 0 {
                assert forall|j: int| 0 <= j < p implies s.take(p)[j] != c by {
                    assert(s.take(p)[j] == s[j]);
                }
            } else {
                assert(pieces[i] == rest[i - 1]);
            }
        }
    } else {
        assert(pieces =~= seq![s]);
    }
}

/// Splitting into at most so many pieces loses nothing either; only the last piece may
/// hold the separator, and only where there are as many pieces as there may be.
pub proof fn bounded_splitting_loses_nothing(s: Seq<char>, n: nat, c: char)
    requires
        n > 0,
    ensures
        ({
            let pieces = split_at_most(s, n, c);
            &&& 0 < pieces.len() <= n
            &&& join(pieces, seq![c]) == s
            &&& forall|i: int|
                0 <= i < pieces.len() - 1 || (0 <= i < pieces.len() && pieces.len() < n)
                    ==> !(#[trigger] pieces[i]).contains(c)
        }),
    decreases n,
{
    lemma_position(s, c);
    let p = position(s, c) as int;
    let pieces = split_at_most(s, n, c);
    if n > 1 && p < s.len() {
        let rest = split_at_most(s.skip(p + 1), (n - 1) as nat, c);
        bounded_splitting_loses_nothing(s.skip(p + 1), (n - 1) as nat, c);
        lemma_join_front(s.take(p), rest, seq![c]);
        assert(s.take(p) + seq![c] + s.skip(p + 1) =~= s);
        assert forall|i: int|
            0 <= i < pieces.len() - 1 || (0 <= i < pieces.len() && pieces.len() < n) implies !(
        #[trigger] pieces[i]).contains(c) by {
            if i == 0 {
                assert forall|j: int| 0 <= j < p implies s.take(p)[j] != c by {
                    assert(s.take(p)[j] == s[j]);
                }
            } else {
                assert(pieces[i] == rest[i - 1]);
            }
        }
    } else {
        assert(pieces =~= seq![s]);
    }
}

/// Digits write numbers in the base of ten: one more digit makes ten times the number
/// and the digit. What holds any other character, but for a sign in front, is no number,
/// nor is a text without a digit or a number that is too large.
pub proof fn digits_write_numbers(s: Seq<char>, max: nat, i: int, d: char, big: nat)
    ensures
        unsigned(Seq::empty(), max) is None,
        unsigned(seq!['+'], max) is None,
        s.len() > 0 && '0' <= s[0] <= '9' ==> unsigned(seq!['+'] + s, max) == unsigned(s, max),
        0 < i < s.len() && !('0' <= s[i] <= '9') ==> unsigned(s, max) is None,
        s.len() > 0 && !('0' <= s[0] <= '9') && s[0] != '+' ==> unsigned(s, max) is None,
        unsigned(s, max) matches Some(n) ==> n <= max,
        unsigned(s, big) matches Some(n) ==> ('0' <= d <= '9' && 10 * n + (d as int - '0' as int)
            <= max ==> unsigned(s.push(d), max) == Some(
            (10 * n + (d as int - '0' as int)) as nat,
        )),
{
    let signed = seq!['+'] + s;
    assert(signed.skip(1) =~= s);
    assert(seq!['+'].skip(1) =~= Seq::<char>::empty());
    if 0 < i < s.len() && !('0' <= s[i] <= '9') {
        assert(!is_digit(s[i]));
        if s[0] == '+' {
            assert(s.skip(1)[i - 1] == s[i]);
        }
    }
    if s.len() > 0 && !('0' <= s[0] <= '9') {
        assert(!is_digit(s[0]));
    }
    if unsigned(s, big) is Some && '0' <= d <= '9' {
        let digits = if s[0] == '+' {
            s.skip(1)
        } else {
            s
        };
        let more = s.push(d);
        let longer = if more[0] == '+' {
            more.skip(1)
        } else {
            more
        };
        assert(longer =~= digits.push(d));
        assert(longer.drop_last() =~= digits);
        assert forall|k: int| 0 <= k < longer.len() implies is_digit(#[trigger] longer[k]) by {
            if k < digits.len() {
                assert(longer[k] == digits[k]);
            }
        }
    }
}

/// Numbers are written in the base of ten, most significant digit first, without zeros
/// in front.
pub proof fn numbers_are_written_in_digits(n: nat)
    ensures
        decimal(n).last() as int == '0' as int + n as int % 10,
        n < 10 ==> decimal(n).len() == 1,
        n >= 10 ==> decimal(n).drop_last() == decimal(n / 10),
        decimal(n).len() > 1 ==> decimal(n)[0] != '0',
        forall|i: int| 0 <= i < decimal(n).len() ==> '0' <= #[trigger] decimal(n)[i] <= '9',
    decreases n,
{
    decimal_reads_back(n);
    if n >= 10 {
        numbers_are_written_in_digits(n / 10);
        assert(decimal(n).drop_last() =~= decimal(n / 10));
        assert(decimal(n)[0] == decimal(n / 10)[0]);
        if decimal(n / 10).len() == 1 {
            assert(decimal(n / 10)[0] == decimal(n / 10).last());
            if n / 10 >= 10 {
                numbers_are_written_in_digits(n / 10 / 10);
                decimal_reads_back(n / 10 / 10);
            }
        }
    }
    assert forall|i: int| 0 <= i < decimal(n).len() implies '0' <= #[trigger] decimal(n)[i]
        <= '9' by {
        assert(is_digit(decimal(n)[i]));
    }
}

/// The order of texts is that of a dictionary: at the first place where two differ the
/// smaller character comes first, and a text comes before every one that it begins.
pub proof fn texts_are_ordered_by_the_first_difference(
    common: Seq<char>,
    a: Seq<char>,
    b: Seq<char>,
)
    ensures
        text_before(common + a, common + b) == text_before(a, b),
        a.len() > 0 && b.len() > 0 && (a[0] as int) < (b[0] as int) ==> text_before(a, b),
        b.len() > 0 ==> text_before(common, common + b),
        !text_before(common + a, common),
    decreases common.len(),
{
    if common.len() == 0 {
        assert(common + a =~= a);
        assert(common + b =~= b);
    } else {
        let rest = common.skip(1);
        texts_are_ordered_by_the_first_difference(rest, a, b);
        assert((common + a).skip(1) =~= rest + a);
        assert((common + b).skip(1) =~= rest + b);
    }
}

/// What stands before the first separator is the first of a bounded number of pieces.
pub proof fn bounded_splitting_takes_the_front(a: Seq<char>, b: Seq<char>, n: nat, c: char)
    requires
        !a.contains(c),
    ensures
        n > 1 ==> split_at_most(a + seq![c] + b, n, c) == seq![a] + split_at_most(
            b,
            (n - 1) as nat,
            c,
        ),
        split_at_most(a, n, c) == seq![a],
        split_at_most(b, 1, c) == seq![b],
{
    let whole = a + seq![c] + b;
    assert forall|i: int| 0 <= i < a.len() implies whole[i] != c && a[i] != c by {
        assert(whole[i] == a[i]);
    }
    lemma_position_unique(whole, c, a.len() as int);
    lemma_position_unique(a, c, a.len() as int);
    assert(whole.take(a.len() as int) =~= a);
    assert(whole.skip(a.len() as int + 1) =~= b);
}

/// Splitting undoes joining where only the last of as many pieces as there may be holds
/// the separator.
pub proof fn bounded_splitting_undoes_joining(pieces: Seq<Seq<char>>, c: char)
    requires
        pieces.len() > 0,
        forall|i: int| 0 <= i < pieces.len() - 1 ==> !(#[trigger] pieces[i]).contains(c),
    ensures
        split_at_most(join(pieces, seq![c]), pieces.len(), c) == pieces,
    decreases pieces.len(),
{
    if pieces.len() == 1 {
        assert(pieces =~= seq![pieces[0]]);
    } else {
        let rest = pieces.skip(1);
        assert(pieces =~= seq![pieces[0]] + rest);
        assert forall|i: int| 0 <= i < rest.len() - 1 implies !(#[trigger] rest[i]).contains(c) by {
            assert(rest[i] == pieces[i + 1]);
        }
        bounded_splitting_undoes_joining(rest, c);
        lemma_join_front(pieces[0], rest, seq![c]);
        bounded_splitting_takes_the_front(pieces[0], join(rest, seq![c]), pieces.len(), c);
    }
}

/// One character is taken off an end only where it stands there, and what it stood by is
/// left.
pub proof fn single_characters_are_taken_off(rest: Seq<char>, c: char, s: Seq<char>)
    ensures
        after_first(seq![c] + rest, c) == Some(rest),
        before_last(rest.push(c), c) == Some(rest),
        after_first(s, c) matches Some(left) ==> s == seq![c] + left,
        before_last(s, c) matches Some(left) ==> s == left.push(c),
        after_first(Seq::empty(), c) is None,
        before_last(Seq::empty(), c) is None,
{
    assert((seq![c] + rest).skip(1) =~= rest);
    assert(rest.push(c).drop_last() =~= rest);
    if s.len() > 0 {
        assert(s[0] == c ==> s =~= seq![c] + s.skip(1));
        assert(s.last() == c ==> s =~= s.drop_last().push(c));
    }
}

/// Only empty pieces are left out of a list.
pub proof fn only_empty_pieces_are_left_out(pieces: Seq<Seq<char>>, piece: Seq<char>)
    ensures
        non_empty(Seq::empty()).len() == 0,
        piece.len() == 0 ==> non_empty(pieces.push(piece)) == non_empty(pieces),
        piece.len() > 0 ==> non_empty(pieces.push(piece)) == non_empty(pieces).push(piece),
{
    reveal(Seq::filter);
    pieces.lemma_filter_push(piece, |piece: Seq<char>| piece.len() > 0);
}

} // verus!
