//! Text helpers: characters of a string, comparison, search, normalisation,
//! and the two small grammars of the word and prompt files.

use vstd::prelude::*;
use vstd::std_specs::iter::IteratorSpec;
use vstd::utf8::encode_utf8;
use crate::outside::{alphabetic, is_alphabetic, push_char};

verus! {

/// Length of a text in bytes when encoded as UTF-8.
pub open spec fn byte_len(s: Seq<char>) -> nat {
    encode_utf8(s).len()
}

/// ASCII lowercase of a character; other characters are unchanged.
pub open spec fn lower(c: char) -> char {
    if 'A' <= c && c <= 'Z' {
        ((c as u8) + 32) as char
    } else {
        c
    }
}

/// A lowercase ASCII letter.
pub open spec fn is_lower_letter(c: char) -> bool {
    'a' <= c && c <= 'z'
}

/// A guess as the games see it: ASCII-lowercased, alphabetic characters only.
pub open spec fn filtered(s: Seq<char>) -> Seq<char> {
    s.map_values(|c: char| lower(c)).filter(|c: char| alphabetic(c))
}

/// `needle` stands in `hay` at position `i`.
pub open spec fn occurs_at(hay: Seq<char>, needle: Seq<char>, i: int) -> bool {
    0 <= i && i + needle.len() <= hay.len() && hay.subrange(i, i + needle.len()) == needle
}

/// `needle` is a contiguous part of `hay`.
pub open spec fn contains_text(hay: Seq<char>, needle: Seq<char>) -> bool {
    exists|i: int| occurs_at(hay, needle, i)
}

/// How often `c` occurs in `s`.
pub open spec fn count_of(s: Seq<char>, c: char) -> nat {
    s.to_multiset().count(c)
}

/// Every letter of `word` can be drawn from `pool`, each pool letter at most once.
pub open spec fn drawable(word: Seq<char>, pool: Seq<char>) -> bool {
    forall|c: char| count_of(word, c) <= count_of(pool, c)
}

/// Length of a text in bytes.
pub fn byte_length(s: &str) -> (n: usize)
    ensures
        n == byte_len(s@),
{
    s.as_bytes().len()
}

pub fn to_lower(c: char) -> (r: char)
    ensures
        r == lower(c),
{
    if c >= 'A' && c <= 'Z' {
        let b: u8 = c as u8;
        (b + 32) as char
    } else {
        c
    }
}

/// The characters of a string, in order.
pub fn chars_of(s: &str) -> (r: Vec<char>)
    ensures
        r@ == s@,
{
    broadcast use vstd::string::group_string_axioms;

    let mut out: Vec<char> = Vec::new();
    let mut it = s.chars();
    loop
        invariant
            out@ + it.remaining() == s@,
            it.obeys_prophetic_iter_laws(),
            it.decrease() is Some,
        decreases it.decrease()->0,
    {
        match it.next() {
            Some(c) => {
                out.push(c);
                assert(out@ + it.remaining() =~= s@);
            },
            None => {
                assert(out@ =~= s@);
                return out;
            },
        }
    }
}

/// A string made of the given characters.
pub fn string_of(chars: &Vec<char>) -> (r: String)
    ensures
        r@ == chars@,
{
    let mut out = String::new();
    let mut i: usize = 0;
    while i < chars.len()
        invariant
            i <= chars.len(),
            out@ == chars@.subrange(0, i as int),
        decreases chars.len() - i,
    {
        push_char(&mut out, chars[i]);
        i += 1;
        assert(out@ =~= chars@.subrange(0, i as int));
    }
    assert(chars@.subrange(0, i as int) =~= chars@);
    out
}

/// Whether two character vectors hold the same text.
pub fn same_chars(a: &Vec<char>, b: &Vec<char>) -> (r: bool)
    ensures
        r == (a@ == b@),
{
    if a.len() != b.len() {
        return false;
    }
    let mut i: usize = 0;
    while i < a.len()
        invariant
            i <= a.len(),
            a.len() == b.len(),
            a@.subrange(0, i as int) == b@.subrange(0, i as int),
        decreases a.len() - i,
    {
        if a[i] != b[i] {
            assert(a@[i as int] != b@[i as int]);
            return false;
        }
        i += 1;
        assert(a@.subrange(0, i as int) =~= a@.subrange(0, i - 1).push(a@[i - 1]));
        assert(b@.subrange(0, i as int) =~= b@.subrange(0, i - 1).push(b@[i - 1]));
    }
    assert(a@ =~= a@.subrange(0, i as int));
    assert(b@ =~= b@.subrange(0, i as int));
    true
}

/// Whether two strings hold the same text.
pub fn same_text(a: &str, b: &str) -> (r: bool)
    ensures
        r == (a@ == b@),
{
    let x = chars_of(a);
    let y = chars_of(b);
    same_chars(&x, &y)
}

/// Whether `needle` stands in `hay` at position `at`.
fn matches_at(hay: &Vec<char>, needle: &Vec<char>, at: usize) -> (r: bool)
    requires
        at + needle.len() <= hay.len(),
    ensures
        r == occurs_at(hay@, needle@, at as int),
{
    let mut j: usize = 0;
    while j < needle.len()
        invariant
            j <= needle.len(),
            at + needle.len() <= hay.len(),
            hay@.subrange(at as int, at + j) == needle@.subrange(0, j as int),
        decreases needle.len() - j,
    {
        if hay[at + j] != needle[j] {
            assert(hay@.subrange(at as int, at + needle.len())[j as int] != needle@[j as int]);
            return false;
        }
        j += 1;
        assert(hay@.subrange(at as int, at + j) =~= hay@.subrange(at as int, at + j - 1).push(
            hay@[at + j - 1],
        ));
        assert(needle@.subrange(0, j as int) =~= needle@.subrange(0, j - 1).push(needle@[j - 1]));
    }
    assert(needle@.subrange(0, j as int) =~= needle@);
    true
}

/// Substring test on character vectors.
pub fn contains_chars(hay: &Vec<char>, needle: &Vec<char>) -> (r: bool)
    ensures
        r == contains_text(hay@, needle@),
{
    if needle.len() > hay.len() {
        return false;
    }
    let last: usize = hay.len() - needle.len();
    let mut i: usize = 0;
    loop
        invariant
            i <= last,
            last == hay.len() - needle.len(),
            needle.len() <= hay.len(),
            forall|k: int| 0 <= k < i ==> !occurs_at(hay@, needle@, k),
        decreases last - i,
    {
        if matches_at(hay, needle, i) {
            return true;
        }
        if i == last {
            return false;
        }
        i += 1;
    }
}

/// Substring test: the empty text is part of every text.
pub fn contains(hay: &str, needle: &str) -> (r: bool)
    ensures
        r == contains_text(hay@, needle@),
{
    let h = chars_of(hay);
    let n = chars_of(needle);
    contains_chars(&h, &n)
}

/// Normalises a guess in place: ASCII letters are lowercased, and every
/// character that is not alphabetic is removed.
pub fn filter_string(input: &mut String)
    ensures
        final(input)@ == filtered(old(input)@),
{
    let v = chars_of(input.as_str());
    let mut out = String::new();
    let mut i: usize = 0;
    let ghost low = |c: char| lower(c);
    let ghost keep = |c: char| alphabetic(c);
    while i < v.len()
        invariant
            i <= v.len(),
            low == (|c: char| lower(c)),
            keep == (|c: char| alphabetic(c)),
            out@ == v@.subrange(0, i as int).map_values(low).filter(keep),
        decreases v.len() - i,
    {
        let c = to_lower(v[i]);
        let ghost before = v@.subrange(0, i as int).map_values(low);
        proof {
            assert(v@.subrange(0, i + 1).map_values(low) =~= before.push(c));
            before.lemma_filter_push(c, keep);
        }
        if is_alphabetic(c) {
            push_char(&mut out, c);
        }
        i += 1;
    }
    assert(v@.subrange(0, i as int) =~= v@);
    *input = out;
}

/// Dictionary order on texts, character by character: `a` comes strictly
/// before `b`. `k` is the length of their common prefix.
pub open spec fn lex_less(a: Seq<char>, b: Seq<char>) -> bool {
    exists|k: int| lex_less_at(a, b, k)
}

/// `a` and `b` agree on their first `k` characters, and there `a` ends or
/// holds the smaller character.
pub open spec fn lex_less_at(a: Seq<char>, b: Seq<char>, k: int) -> bool {
    &&& 0 <= k <= a.len()
    &&& k < b.len()
    &&& a.subrange(0, k) == b.subrange(0, k)
    &&& (k < a.len() ==> a[k] < b[k])
}

/// No text of the list comes strictly before an earlier one.
pub open spec fn lex_sorted(words: Seq<Seq<char>>) -> bool {
    forall|i: int, j: int| 0 <= i < j < words.len() ==> !lex_less(words[j], words[i])
}

pub proof fn lemma_lex_irreflexive(a: Seq<char>)
    ensures
        !lex_less(a, a),
{
}

pub proof fn lemma_lex_asymmetric(a: Seq<char>, b: Seq<char>)
    requires
        lex_less(a, b),
    ensures
        !lex_less(b, a),
{
    if lex_less(b, a) {
        let k1 = choose|k: int| lex_less_at(a, b, k);
        let k2 = choose|k: int| lex_less_at(b, a, k);
        if k1 < k2 {
            assert(b.subrange(0, k2)[k1] == a.subrange(0, k2)[k1]);
        } else if k2 < k1 {
            assert(a.subrange(0, k1)[k2] == b.subrange(0, k1)[k2]);
        }
    }
}

pub proof fn lemma_lex_transitive(a: Seq<char>, b: Seq<char>, c: Seq<char>)
    requires
        lex_less(a, b),
        lex_less(b, c),
    ensures
        lex_less(a, c),
{
    let k1 = choose|k: int| lex_less_at(a, b, k);
    let k2 = choose|k: int| lex_less_at(b, c, k);
    let k = if k1 <= k2 { k1 } else { k2 };
    assert(a.subrange(0, k) =~= c.subrange(0, k)) by {
        assert forall|i: int| 0 <= i < k implies a[i] == c[i] by {
            assert(a.subrange(0, k1)[i] == b.subrange(0, k1)[i]);
            assert(b.subrange(0, k2)[i] == c.subrange(0, k2)[i]);
        }
    }
    if k1 < k2 {
        assert(b.subrange(0, k2)[k1] == c.subrange(0, k2)[k1]);
    } else if k2 < k1 {
        assert(a.subrange(0, k1)[k2] == b.subrange(0, k1)[k2]);
    }
    assert(lex_less_at(a, c, k));
}

/// How two texts stand in dictionary order.
#[derive(Clone, Copy, Debug, PartialEq, Eq, Structural)]
pub enum Order {
    Before,
    Same,
    After,
}

/// Compares two texts in dictionary order.
pub fn compare_chars(a: &Vec<char>, b: &Vec<char>) -> (r: Order)
    ensures
        r == Order::Before ==> lex_less(a@, b@),
        r == Order::Same ==> a@ == b@,
        r == Order::After ==> lex_less(b@, a@),
{
    let mut i: usize = 0;
    while i < a.len() && i < b.len()
        invariant
            i <= a.len(),
            i <= b.len(),
            a@.subrange(0, i as int) == b@.subrange(0, i as int),
        decreases a.len() - i,
    {
        if a[i] < b[i] {
            assert(lex_less_at(a@, b@, i as int));
            return Order::Before;
        }
        if a[i] > b[i] {
            assert(lex_less_at(b@, a@, i as int));
            return Order::After;
        }
        i += 1;
        assert(a@.subrange(0, i as int) =~= a@.subrange(0, i - 1).push(a@[i - 1]));
        assert(b@.subrange(0, i as int) =~= b@.subrange(0, i - 1).push(b@[i - 1]));
    }
    if i < b.len() {
        assert(lex_less_at(a@, b@, i as int));
        Order::Before
    } else if i < a.len() {
        assert(lex_less_at(b@, a@, i as int));
        Order::After
    } else {
        assert(a@ =~= a@.subrange(0, i as int));
        assert(b@ =~= b@.subrange(0, i as int));
        Order::Same
    }
}

/// How often `c` occurs among the characters.
pub fn count_in(chars: &Vec<char>, c: char) -> (r: usize)
    ensures
        r == count_of(chars@, c),
{
    broadcast use vstd::seq_lib::group_to_multiset_ensures;
    broadcast use vstd::multiset::group_multiset_axioms;

    let mut n: usize = 0;
    let mut i: usize = 0;
    assert(chars@.subrange(0, 0) =~= Seq::<char>::empty());
    while i < chars.len()
        invariant
            i <= chars.len(),
            n <= i,
            n == count_of(chars@.subrange(0, i as int), c),
        decreases chars.len() - i,
    {
        proof {
            let before = chars@.subrange(0, i as int);
            let x = chars@[i as int];
            assert(chars@.subrange(0, i + 1) =~= before.push(x));
            vstd::seq_lib::to_multiset_build(before, x);
            assert(before.to_multiset().insert(x).count(c) == before.to_multiset().count(c) + if x
                == c {
                1int
            } else {
                0int
            });
        }
        if chars[i] == c {
            n += 1;
        }
        i += 1;
    }
    assert(chars@.subrange(0, i as int) =~= chars@);
    n
}

/// Whether every letter of `word` can be drawn from `pool`.
pub fn is_drawable(word: &Vec<char>, pool: &Vec<char>) -> (r: bool)
    ensures
        r == drawable(word@, pool@),
{
    broadcast use vstd::seq_lib::group_to_multiset_ensures;

    let mut i: usize = 0;
    while i < word.len()
        invariant
            i <= word.len(),
            forall|k: int|
                0 <= k < i ==> count_of(word@, #[trigger] word@[k]) <= count_of(pool@, word@[k]),
        decreases word.len() - i,
    {
        if count_in(word, word[i]) > count_in(pool, word[i]) {
            return false;
        }
        i += 1;
    }
    assert forall|c: char| count_of(word@, c) <= count_of(pool@, c) by {
        if word@.contains(c) {
            let k = choose|k: int| 0 <= k < word@.len() && word@[k] == c;
            assert(count_of(word@, word@[k]) <= count_of(pool@, word@[k]));
        }
    }
    true
}

/// The pieces of `s` that end with the separator, without it, in order.
pub open spec fn pieces_before(s: Seq<char>, sep: char) -> Seq<Seq<char>>
    decreases s.len(),
{
    if s.len() == 0 {
        Seq::empty()
    } else if s.last() == sep {
        pieces_before(s.drop_last(), sep).push(piece_after(s.drop_last(), sep))
    } else {
        pieces_before(s.drop_last(), sep)
    }
}

/// What follows the last separator in `s`; all of `s` where there is none.
pub open spec fn piece_after(s: Seq<char>, sep: char) -> Seq<char>
    decreases s.len(),
{
    if s.len() == 0 {
        Seq::empty()
    } else if s.last() == sep {
        Seq::empty()
    } else {
        piece_after(s.drop_last(), sep).push(s.last())
    }
}

/// The text split at every separator: one piece more than there are
/// separators, so a text without any is one piece.
pub open spec fn split_text(s: Seq<char>, sep: char) -> Seq<Seq<char>> {
    pieces_before(s, sep).push(piece_after(s, sep))
}

/// The text without one carriage return at its end, if it has one there.
pub open spec fn strip_cr(s: Seq<char>) -> Seq<char> {
    if s.len() > 0 && s.last() == '\r' {
        s.drop_last()
    } else {
        s
    }
}

/// The lines of a text. A line ends with a line feed, or with a carriage
/// return and a line feed, which are not part of it; what follows the last
/// line feed is a line too, as it stands, unless it is empty.
pub open spec fn split_lines(s: Seq<char>) -> Seq<Seq<char>> {
    let ended = pieces_before(s, '\n').map_values(|line: Seq<char>| strip_cr(line));
    if piece_after(s, '\n').len() > 0 {
        ended.push(piece_after(s, '\n'))
    } else {
        ended
    }
}

/// Where the text has a `sep`, what stands before the first one and what
/// stands after it.
pub open spec fn split_once(s: Seq<char>, sep: char) -> Option<(Seq<char>, Seq<char>)> {
    match s.index_of_first(sep) {
        Some(at) => Some((s.subrange(0, at), s.subrange(at + 1, s.len() as int))),
        None => None,
    }
}

/// A decimal digit.
pub open spec fn is_digit(c: char) -> bool {
    '0' <= c && c <= '9'
}

/// The number that the digits spell; `None` where the text is empty or holds
/// anything but digits.
pub open spec fn digits_value(s: Seq<char>) -> Option<nat>
    decreases s.len(),
{
    if s.len() == 0 {
        None
    } else if !is_digit(s.last()) {
        None
    } else if s.len() == 1 {
        Some((s.last() as u8 - 48) as nat)
    } else {
        match digits_value(s.drop_last()) {
            Some(v) => Some(v * 10 + (s.last() as u8 - 48) as nat),
            None => None,
        }
    }
}

/// The count that a text spells: decimal digits, after a plus sign or
/// without one, as far as a `usize` holds the number.
pub open spec fn parse_count(s: Seq<char>) -> Option<usize> {
    let digits = if s.len() > 0 && s[0] == '+' {
        s.drop_first()
    } else {
        s
    };
    match digits_value(digits) {
        Some(v) => if v <= usize::MAX {
            Some(v as usize)
        } else {
            None
        },
        None => None,
    }
}

/// Splits the characters at every separator.
pub fn split_chars(s: &Vec<char>, sep: char) -> (r: Vec<Vec<char>>)
    ensures
        r.deep_view() == split_text(s@, sep),
{
    let mut done: Vec<Vec<char>> = Vec::new();
    let mut current: Vec<char> = Vec::new();
    let mut i: usize = 0;
    assert(s@.subrange(0, 0) =~= Seq::<char>::empty());
    assert(done.deep_view() =~= pieces_before(s@.subrange(0, 0), sep));
    while i < s.len()
        invariant
            i <= s.len(),
            done.deep_view() == pieces_before(s@.subrange(0, i as int), sep),
            current@ == piece_after(s@.subrange(0, i as int), sep),
        decreases s.len() - i,
    {
        assert(s@.subrange(0, i + 1).drop_last() =~= s@.subrange(0, i as int));
        if s[i] == sep {
            let ghost before = done.deep_view();
            let ghost piece = current@;
            assert(current.deep_view() =~= current@);
            done.push(current);
            assert(done.deep_view() =~= before.push(piece));
            current = Vec::new();
        } else {
            current.push(s[i]);
        }
        i += 1;
    }
    assert(s@.subrange(0, i as int) =~= s@);
    let ghost before = done.deep_view();
    let ghost piece = current@;
    assert(current.deep_view() =~= current@);
    done.push(current);
    assert(done.deep_view() =~= before.push(piece));
    done
}

/// The lines of a text.
pub fn lines(text: &str) -> (r: Vec<String>)
    ensures
        r.deep_view() == split_lines(text@),
{
    let chars = chars_of(text);
    let pieces = split_chars(&chars, '\n');
    let ghost strip = |line: Seq<char>| strip_cr(line);
    let ghost ended = pieces_before(text@, '\n');
    let mut out: Vec<String> = Vec::new();
    let count = pieces.len();
    assert(pieces.deep_view().len() == count);
    let mut k: usize = 0;
    while k + 1 < count
        invariant
            k + 1 <= count,
            count == pieces@.len(),
            count == ended.len() + 1,
            pieces.deep_view() == ended.push(piece_after(text@, '\n')),
            strip == (|line: Seq<char>| strip_cr(line)),
            out.deep_view() == ended.subrange(0, k as int).map_values(strip),
        decreases count - k,
    {
        let piece = &pieces[k];
        assert(piece@ == pieces.deep_view()[k as int]);
        let mut end = piece.len();
        if end > 0 && piece[end - 1] == '\r' {
            end = end - 1;
        }
        let mut line = String::new();
        let mut j: usize = 0;
        while j < end
            invariant
                j <= end <= piece@.len(),
                line@ == piece@.subrange(0, j as int),
            decreases end - j,
        {
            push_char(&mut line, piece[j]);
            j += 1;
            assert(line@ =~= piece@.subrange(0, j as int));
        }
        assert(line@ =~= strip_cr(piece@));
        let ghost before = out.deep_view();
        out.push(line);
        assert(out.deep_view() =~= before.push(line@));
        assert(ended.subrange(0, k + 1).map_values(strip) =~= ended.subrange(
            0,
            k as int,
        ).map_values(strip).push(strip_cr(ended[k as int])));
        k += 1;
    }
    assert(ended.subrange(0, k as int) =~= ended);
    let last = &pieces[count - 1];
    assert(last@ == pieces.deep_view()[count - 1]);
    if last.len() > 0 {
        let line = string_of(last);
        let ghost before = out.deep_view();
        out.push(line);
        assert(out.deep_view() =~= before.push(line@));
    }
    out
}

/// Splits the characters at the first separator, if there is one.
pub fn split_once_chars(s: &Vec<char>, sep: char) -> (r: Option<(Vec<char>, Vec<char>)>)
    ensures
        match r {
            Some(parts) => split_once(s@, sep) == Some((parts.0@, parts.1@)),
            None => split_once(s@, sep) is None,
        },
{
    let mut i: usize = 0;
    while i < s.len()
        invariant
            i <= s.len(),
            forall|k: int| 0 <= k < i ==> s@[k] != sep,
        decreases s.len() - i,
    {
        if s[i] == sep {
            proof {
                assert(s@[i as int] == sep);
                assert(s@.contains(sep));
                s@.index_of_first_ensures(sep);
                let first = s@.index_of_first(sep)->0;
                assert(first == i) by {
                    if first > i {
                        assert(s@[i as int] != sep);
                    }
                }
            }
            let mut head: Vec<char> = Vec::new();
            let mut a: usize = 0;
            while a < i
                invariant
                    a <= i < s.len(),
                    head@ == s@.subrange(0, a as int),
                decreases i - a,
            {
                head.push(s[a]);
                a += 1;
                assert(head@ =~= s@.subrange(0, a as int));
            }
            let mut rest: Vec<char> = Vec::new();
            let mut b: usize = i + 1;
            assert(s@.subrange(i + 1, i + 1) =~= Seq::<char>::empty());
            while b < s.len()
                invariant
                    i + 1 <= b <= s.len(),
                    rest@ == s@.subrange(i + 1, b as int),
                decreases s.len() - b,
            {
                rest.push(s[b]);
                b += 1;
                assert(rest@ =~= s@.subrange(i + 1, b as int));
            }
            return Some((head, rest));
        }
        i += 1;
    }
    proof {
        s@.index_of_first_ensures(sep);
        if s@.contains(sep) {
            let at = choose|at: int| 0 <= at < s@.len() && s@[at] == sep;
            assert(s@[at] != sep);
        }
    }
    None
}

/// The count that a text spells, if it spells one.
pub fn parse_chars(s: &Vec<char>) -> (r: Option<usize>)
    ensures
        r == parse_count(s@),
{
    let start: usize = if s.len() > 0 && s[0] == '+' {
        1
    } else {
        0
    };
    let ghost digits = s@.subrange(start as int, s@.len() as int);
    assert(start == 1 ==> digits =~= s@.drop_first());
    assert(start == 0 ==> digits =~= s@);
    if start >= s.len() {
        return None;
    }
    let mut value: usize = 0;
    let mut too_big = false;
    let mut i: usize = start;
    while i < s.len()
        invariant
            start <= i <= s.len(),
            start < s.len(),
            digits == s@.subrange(start as int, s@.len() as int),
            digits == if s@.len() > 0 && s@[0] == '+' {
                s@.drop_first()
            } else {
                s@
            },
            i > start ==> digits_value(digits.subrange(0, i - start)) is Some,
            i > start && !too_big ==> digits_value(digits.subrange(0, i - start)) == Some(
                value as nat,
            ),
            i > start && too_big ==> digits_value(digits.subrange(0, i - start))->0 > usize::MAX,
            i == start ==> !too_big && value == 0,
        decreases s.len() - i,
    {
        let c = s[i];
        let ghost upto = digits.subrange(0, i + 1 - start);
        assert(upto.drop_last() =~= digits.subrange(0, i - start));
        assert(upto.last() == c);
        if !(c >= '0' && c <= '9') {
            proof {
                assert(digits[i - start] == c);
                lemma_digits_all(digits, i - start);
            }
            return None;
        }
        let digit: usize = (c as u8 - 48) as usize;
        if !too_big {
            match value.checked_mul(10) {
                Some(tens) => match tens.checked_add(digit) {
                    Some(sum) => {
                        value = sum;
                    },
                    None => {
                        too_big = true;
                    },
                },
                None => {
                    too_big = true;
                },
            }
        }
        i += 1;
    }
    assert(digits.subrange(0, i - start) =~= digits);
    if too_big {
        None
    } else {
        Some(value)
    }
}

/// Digits that spell a number are digits throughout.
pub proof fn lemma_digits_all(s: Seq<char>, at: int)
    requires
        0 <= at < s.len(),
        !is_digit(s[at]),
    ensures
        digits_value(s) is None,
    decreases s.len(),
{
    if at < s.len() - 1 {
        lemma_digits_all(s.drop_last(), at);
    }
}

} // verus!
