//! Text as a sequence of characters: conversion from and to strings, length
//! in bytes, order, and search.

use vstd::prelude::*;

verus! {

/// The characters of `s`, in order.
pub fn chars_of(s: &str) -> (chars: Vec<char>)
    ensures
        chars@ == s@,
{
    let mut chars: Vec<char> = Vec::new();
    for c in it: s.chars()
        invariant
            chars@ == s@.take(it.index() as int),
            it.seq() == s@,
    {
        chars.push(c);
    }
    chars
}

/// `String::push` of std: the string grows by the one character, at its end.
#[verifier::external_body]
fn push_char(s: &mut String, c: char)
    ensures
        final(s)@ == old(s)@.push(c),
{
    s.push(c);
}

/// The string that holds `chars`.
pub fn string_of(chars: &Vec<char>) -> (s: String)
    ensures
        s@ == chars@,
{
    let mut s = String::new();
    let mut i: usize = 0;
    while i < chars.len()
        invariant
            i <= chars.len(),
            s@ == chars@.take(i as int),
        decreases chars.len() - i,
    {
        push_char(&mut s, chars[i]);
        proof {
            assert(chars@.take(i + 1) == chars@.take(i as int).push(chars@[i as int]));
        }
        i += 1;
    }
    proof {
        assert(chars@.take(chars.len() as int) == chars@);
    }
    s
}

/// The number of bytes that `c` takes in UTF-8.
pub open spec fn utf8_width(c: char) -> nat {
    if (c as u32) < 0x80 {
        1
    } else if (c as u32) < 0x800 {
        2
    } else if (c as u32) < 0x10000 {
        3
    } else {
        4
    }
}

/// The number of bytes that `chars` take in UTF-8.
pub open spec fn byte_len(chars: Seq<char>) -> nat
    decreases chars.len(),
{
    if chars.len() == 0 {
        0
    } else {
        byte_len(chars.drop_last()) + utf8_width(chars.last())
    }
}

/// A prefix takes no more bytes than the whole, and each character takes at
/// least one byte and at most four.
pub proof fn lemma_byte_len_prefix(chars: Seq<char>, n: int)
    requires
        0 <= n <= chars.len(),
    ensures
        byte_len(chars.take(n)) <= byte_len(chars),
        n <= byte_len(chars.take(n)) <= 4 * n,
    decreases chars.len(),
{
    if n == chars.len() {
        assert(chars.take(n) == chars);
        if n > 0 {
            lemma_byte_len_prefix(chars.drop_last(), n - 1);
            assert(chars.drop_last().take(n - 1) == chars.drop_last());
        }
    } else {
        lemma_byte_len_prefix(chars.drop_last(), n);
        assert(chars.drop_last().take(n) == chars.take(n));
    }
}

/// Decides `utf8_width`.
pub fn width_of(c: char) -> (w: usize)
    ensures
        w == utf8_width(c),
{
    let u = c as u32;
    if u < 0x80 {
        1
    } else if u < 0x800 {
        2
    } else if u < 0x10000 {
        3
    } else {
        4
    }
}

/// The length in bytes of the first `upto` characters of `chars` where it is
/// at most `cap`, and a number above `cap` where it is more.
pub fn prefix_byte_len_capped(chars: &Vec<char>, upto: usize, cap: usize) -> (n: usize)
    requires
        upto <= chars@.len(),
        cap <= usize::MAX - 4,
    ensures
        byte_len(chars@.take(upto as int)) <= cap ==> n == byte_len(chars@.take(upto as int)),
        byte_len(chars@.take(upto as int)) > cap ==> n > cap,
{
    let mut n: usize = 0;
    let mut i: usize = 0;
    while i < upto
        invariant
            i <= upto <= chars@.len(),
            n == byte_len(chars@.take(i as int)),
            n <= cap,
            cap <= usize::MAX - 4,
        decreases upto - i,
    {
        proof {
            assert(chars@.take(i + 1).drop_last() == chars@.take(i as int));
            assert(chars@.take(upto as int).take(i + 1) == chars@.take(i + 1));
            lemma_byte_len_prefix(chars@.take(upto as int), i + 1);
        }
        n = n + width_of(chars[i]);
        if n > cap {
            return n;
        }
        i += 1;
    }
    n
}

/// The length of `chars` in bytes where it is at most `cap`, and a number
/// above `cap` where it is more.
pub fn byte_len_capped(chars: &Vec<char>, cap: usize) -> (n: usize)
    requires
        cap <= usize::MAX - 4,
    ensures
        byte_len(chars@) <= cap ==> n == byte_len(chars@),
        byte_len(chars@) > cap ==> n > cap,
{
    proof {
        assert(chars@.take(chars@.len() as int) == chars@);
    }
    prefix_byte_len_capped(chars, chars.len(), cap)
}

/// The number of characters of the longest prefix of `chars` that takes at
/// most `limit` bytes.
pub open spec fn prefix_within(chars: Seq<char>, limit: nat) -> nat
    decreases chars.len(),
{
    if chars.len() == 0 {
        0
    } else if byte_len(chars) <= limit {
        chars.len()
    } else {
        prefix_within(chars.drop_last(), limit)
    }
}

/// `prefix_within` is the one length whose prefix fits while the prefix one
/// character longer, where there is one, does not.
pub proof fn lemma_prefix_within(chars: Seq<char>, limit: nat, n: int)
    requires
        0 <= n <= chars.len(),
        byte_len(chars.take(n)) <= limit,
        n < chars.len() ==> byte_len(chars.take(n + 1)) > limit,
    ensures
        prefix_within(chars, limit) == n,
    decreases chars.len(),
{
    if chars.len() == 0 {
    } else if n == chars.len() {
        assert(chars.take(n) == chars);
    } else {
        lemma_byte_len_prefix(chars, n + 1);
        assert(byte_len(chars) > limit);
        if n + 1 < chars.len() {
            assert(chars.drop_last().take(n + 1) == chars.take(n + 1));
        } else {
            assert(chars.take(n + 1) == chars);
        }
        assert(chars.drop_last().take(n) == chars.take(n));
        lemma_prefix_within(chars.drop_last(), limit, n);
    }
}

/// Computes `prefix_within`.
pub fn prefix_len_within(chars: &Vec<char>, limit: usize) -> (n: usize)
    requires
        limit <= usize::MAX - 4,
    ensures
        n == prefix_within(chars@, limit as nat),
        n <= chars@.len(),
{
    let mut bytes: usize = 0;
    let mut i: usize = 0;
    while i < chars.len()
        invariant
            i <= chars.len(),
            bytes == byte_len(chars@.take(i as int)),
            bytes <= limit,
            limit <= usize::MAX - 4,
        decreases chars.len() - i,
    {
        proof {
            assert(chars@.take(i + 1).drop_last() == chars@.take(i as int));
        }
        let next = bytes + width_of(chars[i]);
        if next > limit {
            proof {
                lemma_prefix_within(chars@, limit as nat, i as int);
            }
            return i;
        }
        bytes = next;
        i += 1;
    }
    proof {
        lemma_prefix_within(chars@, limit as nat, i as int);
    }
    i
}

/// `a` stands before `b` in the order of strings: character by character, by
/// code point, a proper prefix before what it is a prefix of.
pub open spec fn text_below(a: Seq<char>, b: Seq<char>) -> bool
    decreases a.len(),
{
    if b.len() == 0 {
        false
    } else if a.len() == 0 {
        true
    } else if a[0] != b[0] {
        (a[0] as u32) < (b[0] as u32)
    } else {
        text_below(a.drop_first(), b.drop_first())
    }
}

/// No text stands before itself.
pub proof fn lemma_text_irreflexive(a: Seq<char>)
    ensures
        !text_below(a, a),
    decreases a.len(),
{
    if a.len() > 0 {
        lemma_text_irreflexive(a.drop_first());
    }
}

/// Of two different texts one stands before the other.
pub proof fn lemma_text_total(a: Seq<char>, b: Seq<char>)
    ensures
        text_below(a, b) || text_below(b, a) || a == b,
    decreases a.len(),
{
    if a.len() > 0 && b.len() > 0 {
        lemma_text_total(a.drop_first(), b.drop_first());
        if a[0] != b[0] {
            vstd::utf8::char_u32_cast(a[0], a[0] as u32);
            vstd::utf8::char_u32_cast(b[0], b[0] as u32);
        }
        if a[0] == b[0] && a.drop_first() == b.drop_first() {
            assert(a =~= seq![a[0]] + a.drop_first());
            assert(b =~= seq![b[0]] + b.drop_first());
        }
    } else if a.len() == 0 && b.len() == 0 {
        assert(a =~= b);
    }
}

/// The order of texts is transitive.
pub proof fn lemma_text_transitive(a: Seq<char>, b: Seq<char>, c: Seq<char>)
    requires
        text_below(a, b),
        text_below(b, c),
    ensures
        text_below(a, c),
    decreases a.len(),
{
    if a.len() > 0 && a[0] == b[0] && b[0] == c[0] {
        lemma_text_transitive(a.drop_first(), b.drop_first(), c.drop_first());
    }
}

/// The order of texts is a strict total order.
pub proof fn lemma_text_order(a: Seq<char>, b: Seq<char>, c: Seq<char>)
    ensures
        !text_below(a, a),
        text_below(a, b) && text_below(b, c) ==> text_below(a, c),
        text_below(a, b) || text_below(b, a) || a == b,
        text_below(a, c) ==> text_below(a, b) || text_below(b, c),
{
    lemma_text_irreflexive(a);
    lemma_text_total(a, b);
    if text_below(a, b) && text_below(b, c) {
        lemma_text_transitive(a, b, c);
    }
    if text_below(a, c) && !text_below(a, b) && !text_below(b, c) {
        lemma_text_total(b, c);
        if text_below(c, b) {
            lemma_text_transitive(a, c, b);
        }
    }
}

/// Skipping a common prefix changes nothing in the order of two texts.
proof fn lemma_text_below_skip(a: Seq<char>, b: Seq<char>, n: int)
    requires
        0 <= n <= a.len(),
        n <= b.len(),
        a.take(n) == b.take(n),
    ensures
        text_below(a, b) == text_below(a.skip(n), b.skip(n)),
    decreases n,
{
    if n == 0 {
        assert(a.skip(0) == a);
        assert(b.skip(0) == b);
    } else {
        assert(a[0] == a.take(n)[0]);
        assert(b[0] == b.take(n)[0]);
        assert(a.drop_first().take(n - 1) == a.take(n).drop_first());
        assert(b.drop_first().take(n - 1) == b.take(n).drop_first());
        lemma_text_below_skip(a.drop_first(), b.drop_first(), n - 1);
        assert(a.drop_first().skip(n - 1) == a.skip(n));
        assert(b.drop_first().skip(n - 1) == b.skip(n));
    }
}

/// Decides `text_below`.
pub fn is_text_below(a: &Vec<char>, b: &Vec<char>) -> (r: bool)
    ensures
        r == text_below(a@, b@),
{
    let mut i: usize = 0;
    while i < a.len() && i < b.len()
        invariant
            i <= a.len(),
            i <= b.len(),
            a@.take(i as int) == b@.take(i as int),
        decreases a.len() - i,
    {
        if a[i] != b[i] {
            proof {
                lemma_text_below_skip(a@, b@, i as int);
            }
            return (a[i] as u32) < (b[i] as u32);
        }
        proof {
            assert(a@.take(i + 1) == a@.take(i as int).push(a@[i as int]));
            assert(b@.take(i + 1) == b@.take(i as int).push(b@[i as int]));
        }
        i += 1;
    }
    proof {
        lemma_text_below_skip(a@, b@, i as int);
    }
    i < b.len()
}

/// `needle` stands in `hay` at position `at`.
pub open spec fn occurs_at(hay: Seq<char>, needle: Seq<char>, at: int) -> bool {
    &&& 0 <= at
    &&& at + needle.len() <= hay.len()
    &&& hay.subrange(at, at + needle.len()) == needle
}

/// `needle` stands somewhere in `hay`.
pub open spec fn occurs(hay: Seq<char>, needle: Seq<char>) -> bool {
    exists|at: int| occurs_at(hay, needle, at)
}

/// The first position at which `needle` stands in `hay`, where it stands in
/// it at all.
pub open spec fn first_occurrence(hay: Seq<char>, needle: Seq<char>) -> int {
    choose|at: int|
        occurs_at(hay, needle, at) && forall|k: int| 0 <= k < at ==> !occurs_at(hay, needle, k)
}

/// Decides whether `needle` stands in `hay` at `at`.
fn matches_at(hay: &Vec<char>, needle: &Vec<char>, at: usize) -> (r: bool)
    requires
        at + needle.len() <= hay.len(),
    ensures
        r == occurs_at(hay@, needle@, at as int),
{
    let mut j: usize = 0;
    while j < needle.len()
        invariant
            j <= needle.len(),
            at + needle.len() <= hay.len(),
            forall|k: int| 0 <= k < j ==> hay@[at + k] == needle@[k],
        decreases needle.len() - j,
    {
        if hay[at + j] != needle[j] {
            proof {
                assert(hay@.subrange(at as int, at + needle.len())[j as int] == hay@[at + j]);
            }
            return false;
        }
        j += 1;
    }
    proof {
        assert(hay@.subrange(at as int, at + needle.len()) =~= needle@);
    }
    true
}

/// The first position at which `needle` stands in `hay`: `Some(at)` exactly
/// when it stands at `at` and at no earlier position, `None` when it stands
/// nowhere. The empty needle stands at position 0.
pub fn find_chars(hay: &Vec<char>, needle: &Vec<char>) -> (found: Option<usize>)
    ensures
        found is None <==> !occurs(hay@, needle@),
        found matches Some(at) ==> occurs_at(hay@, needle@, at as int) && (forall|k: int|
            0 <= k < at ==> !occurs_at(hay@, needle@, k)) && at == first_occurrence(
            hay@,
            needle@,
        ),
{
    if needle.len() > hay.len() {
        return None;
    }
    let last: usize = hay.len() - needle.len();
    let mut at: usize = 0;
    loop
        invariant
            at <= last,
            last == hay.len() - needle.len(),
            needle.len() <= hay.len(),
            forall|k: int| 0 <= k < at ==> !occurs_at(hay@, needle@, k),
        decreases last - at,
    {
        if matches_at(hay, needle, at) {
            proof {
                let first = first_occurrence(hay@, needle@);
                assert(occurs_at(hay@, needle@, first) && forall|k: int|
                    0 <= k < first ==> !occurs_at(hay@, needle@, k));
            }
            return Some(at);
        }
        if at == last {
            return None;
        }
        at += 1;
    }
}

/// The lower-case form of a text, as `str::to_lowercase` of std gives it.
pub uninterp spec fn lowercase_of(s: Seq<char>) -> Seq<char>;

/// `str::to_lowercase` of std: each character is replaced by its lower-case
/// mapping in Unicode, which may be more than one character; the result
/// depends on the text alone.
#[verifier::external_body]
pub(crate) fn to_lowercase(s: &str) -> (lower: String)
    ensures
        lower@ == lowercase_of(s@),
{
    s.to_lowercase()
}

/// `c` is white space in Unicode: a blank, a tab, a line break or one of the
/// other separators of lines, paragraphs and words.
pub open spec fn is_white_space(c: char) -> bool {
    let u = c as u32;
    ||| 0x09 <= u <= 0x0d
    ||| u == 0x20
    ||| u == 0x85
    ||| u == 0xa0
    ||| u == 0x1680
    ||| 0x2000 <= u <= 0x200a
    ||| u == 0x2028
    ||| u == 0x2029
    ||| u == 0x202f
    ||| u == 0x205f
    ||| u == 0x3000
}

/// Decides `is_white_space`.
pub fn is_space(c: char) -> (r: bool)
    ensures
        r == is_white_space(c),
{
    let u = c as u32;
    (0x09 <= u && u <= 0x0d) || u == 0x20 || u == 0x85 || u == 0xa0 || u == 0x1680 || (0x2000 <= u
        && u <= 0x200a) || u == 0x2028 || u == 0x2029 || u == 0x202f || u == 0x205f || u == 0x3000
}

/// The number of characters of white space at the start of `s`.
pub open spec fn leading_space(s: Seq<char>) -> nat
    decreases s.len(),
{
    if s.len() > 0 && is_white_space(s[0]) {
        1 + leading_space(s.drop_first())
    } else {
        0
    }
}

/// The number of characters of white space at the end of `s`.
pub open spec fn trailing_space(s: Seq<char>) -> nat
    decreases s.len(),
{
    if s.len() > 0 && is_white_space(s.last()) {
        1 + trailing_space(s.drop_last())
    } else {
        0
    }
}

/// `s` without the white space at its two ends.
pub open spec fn trimmed(s: Seq<char>) -> Seq<char> {
    let rest = s.skip(leading_space(s) as int);
    rest.take(rest.len() - trailing_space(rest))
}

/// The white space at either end of a text is no longer than the text, and a
/// run of white space at an end, with something else or nothing next to it,
/// is all of the white space at that end.
proof fn lemma_space_runs(s: Seq<char>, n: int)
    requires
        0 <= n <= s.len(),
    ensures
        leading_space(s) <= s.len(),
        trailing_space(s) <= s.len(),
        (forall|k: int| 0 <= k < n ==> is_white_space(#[trigger] s[k])) && (n == s.len()
            || !is_white_space(s[n])) ==> leading_space(s) == n,
        (forall|k: int| s.len() - n <= k < s.len() ==> is_white_space(#[trigger] s[k])) && (n
            == s.len() || !is_white_space(s[s.len() - n - 1])) ==> trailing_space(s) == n,
    decreases s.len(),
{
    if s.len() > 0 {
        if n > 0 {
            lemma_space_runs(s.drop_first(), n - 1);
            lemma_space_runs(s.drop_last(), n - 1);
            if forall|k: int| 0 <= k < n ==> is_white_space(#[trigger] s[k]) {
                assert(is_white_space(s[0]));
                assert forall|k: int| 0 <= k < n - 1 implies is_white_space(
                    #[trigger] s.drop_first()[k],
                ) by {
                    assert(s.drop_first()[k] == s[k + 1]);
                }
                if n < s.len() {
                    assert(s.drop_first()[n - 1] == s[n]);
                }
            }
            if forall|k: int| s.len() - n <= k < s.len() ==> is_white_space(#[trigger] s[k]) {
                assert(is_white_space(s[s.len() - 1]));
                assert forall|k: int|
                    s.drop_last().len() - (n - 1) <= k < s.drop_last().len() implies is_white_space(
                    #[trigger] s.drop_last()[k],
                ) by {
                    assert(s.drop_last()[k] == s[k]);
                }
                if n < s.len() {
                    assert(s.drop_last()[s.len() - n - 1] == s[s.len() - n - 1]);
                }
            }
        } else {
            lemma_space_runs(s.drop_first(), 0);
            lemma_space_runs(s.drop_last(), 0);
        }
    }
}

/// `chars` without the white space at its two ends.
pub fn trim_chars(chars: &Vec<char>) -> (out: Vec<char>)
    ensures
        out@ == trimmed(chars@),
{
    let mut start: usize = 0;
    while start < chars.len() && is_space(chars[start])
        invariant
            start <= chars.len(),
            forall|k: int| 0 <= k < start ==> is_white_space(#[trigger] chars@[k]),
        decreases chars.len() - start,
    {
        start += 1;
    }
    proof {
        lemma_space_runs(chars@, start as int);
    }
    let ghost rest = chars@.skip(start as int);
    let mut end: usize = chars.len();
    while end > start && is_space(chars[end - 1])
        invariant
            start <= end <= chars.len(),
            forall|k: int| end <= k < chars.len() ==> is_white_space(#[trigger] chars@[k]),
        decreases end,
    {
        end -= 1;
    }
    proof {
        let n = chars.len() - end;
        assert forall|k: int| rest.len() - n <= k < rest.len() implies is_white_space(
            #[trigger] rest[k],
        ) by {
            assert(rest[k] == chars@[start + k]);
        }
        if n < rest.len() {
            assert(rest[rest.len() - n - 1] == chars@[end - 1]);
        }
        lemma_space_runs(rest, n);
    }
    let mut out: Vec<char> = Vec::new();
    let mut i: usize = start;
    while i < end
        invariant
            start <= i <= end <= chars.len(),
            out@ == chars@.subrange(start as int, i as int),
        decreases end - i,
    {
        out.push(chars[i]);
        proof {
            assert(chars@.subrange(start as int, i + 1) =~= chars@.subrange(
                start as int,
                i as int,
            ).push(chars@[i as int]));
        }
        i += 1;
    }
    proof {
        assert(chars@.subrange(start as int, end as int) =~= trimmed(chars@));
    }
    out
}

/// The texts of `parts`, in order.
pub open spec fn part_views(parts: Seq<Vec<char>>) -> Seq<Seq<char>> {
    parts.map_values(|p: Vec<char>| p@)
}

/// The words of `s`: the longest runs of characters that are no white
/// space, in order.
pub open spec fn words_of(s: Seq<char>) -> Seq<Seq<char>>
    decreases s.len(),
{
    if s.len() == 0 {
        Seq::empty()
    } else {
        let head = words_of(s.drop_last());
        if is_white_space(s.last()) {
            head
        } else if s.len() >= 2 && !is_white_space(s[s.len() - 2]) {
            head.drop_last().push(head.last().push(s.last()))
        } else {
            head.push(seq![s.last()])
        }
    }
}

/// Splits `chars` into its words.
pub fn split_words(chars: &Vec<char>) -> (words: Vec<Vec<char>>)
    ensures
        part_views(words@) == words_of(chars@),
        forall|k: int| 0 <= k < words@.len() ==> (#[trigger] words@[k])@.len() > 0,
{
    let mut words: Vec<Vec<char>> = Vec::new();
    let mut word: Vec<char> = Vec::new();
    let mut i: usize = 0;
    while i < chars.len()
        invariant
            i <= chars.len(),
            word@.len() > 0 <==> i > 0 && !is_white_space(chars@[i - 1]),
            word@.len() > 0 ==> part_views(words@).push(word@) == words_of(chars@.take(i as int)),
            word@.len() == 0 ==> part_views(words@) == words_of(chars@.take(i as int)),
            forall|k: int| 0 <= k < words@.len() ==> (#[trigger] words@[k])@.len() > 0,
        decreases chars.len() - i,
    {
        let c = chars[i];
        proof {
            assert(chars@.take(i + 1).drop_last() == chars@.take(i as int));
            assert(chars@.take(i + 1).last() == c);
            if i > 0 {
                assert(chars@.take(i + 1)[i - 1] == chars@[i - 1]);
            }
        }
        if is_space(c) {
            if word.len() > 0 {
                let ghost before = part_views(words@);
                words.push(word);
                word = Vec::new();
                proof {
                    assert(part_views(words@) =~= before.push(words@.last()@));
                }
            }
        } else {
            let ghost head = words_of(chars@.take(i as int));
            let ghost old_word = word@;
            word.push(c);
            proof {
                let next = chars@.take(i + 1);
                if old_word.len() > 0 {
                    assert(head == part_views(words@).push(old_word));
                    assert(head.last() == old_word);
                    assert(head.drop_last() =~= part_views(words@));
                    assert(next.len() >= 2 && !is_white_space(next[next.len() - 2]));
                    assert(words_of(next) == head.drop_last().push(head.last().push(c)));
                } else {
                    assert(word@ =~= seq![c]);
                    assert(!(next.len() >= 2 && !is_white_space(next[next.len() - 2])));
                    assert(words_of(next) == head.push(seq![c]));
                }
            }
        }
        i += 1;
    }
    proof {
        assert(chars@.take(chars.len() as int) == chars@);
    }
    if word.len() > 0 {
        let ghost before = part_views(words@);
        words.push(word);
        proof {
            assert(part_views(words@) =~= before.push(words@.last()@));
        }
    }
    words
}

/// The position of the first `c` in `s`, and the length of `s` where it
/// holds none.
pub open spec fn first_of(s: Seq<char>, c: char) -> int
    decreases s.len(),
{
    if s.len() == 0 || s[0] == c {
        0
    } else {
        1 + first_of(s.drop_first(), c)
    }
}

/// `first_of` is the position before which no `c` stands and at which one
/// does, or the text ends.
pub proof fn lemma_first_of(s: Seq<char>, c: char, n: int)
    requires
        0 <= n <= s.len(),
        forall|k: int| 0 <= k < n ==> #[trigger] s[k] != c,
        n == s.len() || s[n] == c,
    ensures
        first_of(s, c) == n,
    decreases s.len(),
{
    if n > 0 {
        assert(s[0] != c);
        assert forall|k: int| 0 <= k < n - 1 implies #[trigger] s.drop_first()[k] != c by {
            assert(s.drop_first()[k] == s[k + 1]);
        }
        if n < s.len() {
            assert(s.drop_first()[n - 1] == s[n]);
        }
        lemma_first_of(s.drop_first(), c, n - 1);
    }
}

/// The position of the first `c` in `chars` from `from` on, and the length
/// of `chars` where none follows.
pub fn find_char(chars: &Vec<char>, from: usize, c: char) -> (at: usize)
    requires
        from <= chars@.len(),
    ensures
        from <= at <= chars@.len(),
        at - from == first_of(chars@.skip(from as int), c),
        at < chars@.len() ==> chars@[at as int] == c,
        forall|k: int| from <= k < at ==> #[trigger] chars@[k] != c,
{
    let mut at: usize = from;
    while at < chars.len() && chars[at] != c
        invariant
            from <= at <= chars.len(),
            forall|k: int| from <= k < at ==> #[trigger] chars@[k] != c,
        decreases chars.len() - at,
    {
        at += 1;
    }
    proof {
        let rest = chars@.skip(from as int);
        assert forall|k: int| 0 <= k < at - from implies #[trigger] rest[k] != c by {
            assert(rest[k] == chars@[from + k]);
        }
        lemma_first_of(rest, c, at - from);
    }
    at
}

/// `line` without one carriage return at its end.
pub open spec fn without_return(line: Seq<char>) -> Seq<char> {
    if line.len() > 0 && line.last() == '\r' {
        line.drop_last()
    } else {
        line
    }
}

/// The lines of `s`. A line ends at a line feed, which is no part of it, nor
/// is a carriage return just before the line feed. What follows the last line
/// feed is a line if it is not empty.
pub open spec fn lines_of(s: Seq<char>) -> Seq<Seq<char>>
    decreases s.len(),
{
    if s.len() == 0 {
        Seq::empty()
    } else {
        let n = first_of(s, '\n');
        if n < 0 || n >= s.len() {
            seq![s]
        } else {
            seq![without_return(s.take(n))] + lines_of(s.skip(n + 1))
        }
    }
}

/// The characters of `chars` from `from` up to `to`.
pub fn slice_chars(chars: &Vec<char>, from: usize, to: usize) -> (out: Vec<char>)
    requires
        from <= to <= chars@.len(),
    ensures
        out@ == chars@.subrange(from as int, to as int),
{
    let mut out: Vec<char> = Vec::new();
    let mut i: usize = from;
    while i < to
        invariant
            from <= i <= to <= chars.len(),
            out@ == chars@.subrange(from as int, i as int),
        decreases to - i,
    {
        out.push(chars[i]);
        proof {
            assert(chars@.subrange(from as int, i + 1) =~= chars@.subrange(
                from as int,
                i as int,
            ).push(chars@[i as int]));
        }
        i += 1;
    }
    out
}

/// Splits `chars` into its lines.
pub fn split_lines(chars: &Vec<char>) -> (lines: Vec<Vec<char>>)
    ensures
        part_views(lines@) == lines_of(chars@),
{
    let mut lines: Vec<Vec<char>> = Vec::new();
    let mut start: usize = 0;
    proof {
        assert(chars@.skip(0) == chars@);
        assert(part_views(lines@) + lines_of(chars@) =~= lines_of(chars@));
    }
    while start < chars.len()
        invariant
            start <= chars.len(),
            part_views(lines@) + lines_of(chars@.skip(start as int)) == lines_of(chars@),
        decreases chars.len() - start,
    {
        let ghost rest = chars@.skip(start as int);
        let ghost before = part_views(lines@);
        let end = find_char(chars, start, '\n');
        if end >= chars.len() {
            let line = slice_chars(chars, start, chars.len());
            lines.push(line);
            proof {
                assert(chars@.subrange(start as int, chars.len() as int) =~= rest);
                assert(chars@.skip(chars.len() as int) =~= Seq::empty());
                assert(lines_of(chars@.skip(chars.len() as int)) =~= Seq::empty());
                assert(part_views(lines@) =~= before.push(rest));
                assert(part_views(lines@) + Seq::<Seq<char>>::empty() =~= before + lines_of(rest));
            }
            start = chars.len();
        } else {
            let cut = if end > start && chars[end - 1] == '\r' {
                end - 1
            } else {
                end
            };
            let line = slice_chars(chars, start, cut);
            lines.push(line);
            proof {
                let n = end - start;
                assert(rest.take(n) =~= chars@.subrange(start as int, end as int));
                if n > 0 {
                    assert(rest.take(n).last() == chars@[end - 1]);
                }
                assert(without_return(rest.take(n)) =~= chars@.subrange(start as int, cut as int));
                assert(rest.skip(n + 1) =~= chars@.skip(end + 1));
                assert(part_views(lines@) =~= before.push(without_return(rest.take(n))));
                assert(part_views(lines@) + lines_of(chars@.skip(end + 1)) =~= before + lines_of(
                    rest,
                ));
            }
            start = end + 1;
        }
    }
    proof {
        assert(lines_of(chars@.skip(start as int)) =~= Seq::empty());
        assert(part_views(lines@) + Seq::<Seq<char>>::empty() =~= part_views(lines@));
    }
    lines
}

/// `s` starts with `prefix`.
pub open spec fn starts_with(s: Seq<char>, prefix: Seq<char>) -> bool {
    prefix.len() <= s.len() && s.take(prefix.len() as int) == prefix
}

/// `s` ends with `suffix`.
pub open spec fn ends_with(s: Seq<char>, suffix: Seq<char>) -> bool {
    suffix.len() <= s.len() && s.skip(s.len() - suffix.len()) == suffix
}

/// Decides `starts_with`.
pub fn has_prefix(chars: &Vec<char>, prefix: &Vec<char>) -> (r: bool)
    ensures
        r == starts_with(chars@, prefix@),
{
    if prefix.len() > chars.len() {
        return false;
    }
    let r = matches_at(chars, prefix, 0);
    proof {
        assert(chars@.take(prefix@.len() as int) =~= chars@.subrange(0, prefix@.len() as int));
    }
    r
}

/// Decides `ends_with`.
pub fn has_suffix(chars: &Vec<char>, suffix: &Vec<char>) -> (r: bool)
    ensures
        r == ends_with(chars@, suffix@),
{
    if suffix.len() > chars.len() {
        return false;
    }
    let at = chars.len() - suffix.len();
    let r = matches_at(chars, suffix, at);
    proof {
        assert(chars@.skip(at as int) =~= chars@.subrange(at as int, at + suffix@.len()));
    }
    r
}

/// Whether two texts are the same.
pub fn same_chars(a: &Vec<char>, b: &Vec<char>) -> (r: bool)
    ensures
        r == (a@ == b@),
{
    if a.len() != b.len() {
        return false;
    }
    let r = matches_at(a, b, 0);
    proof {
        assert(a@.subrange(0, b@.len() as int) =~= a@);
    }
    r
}

/// The pieces into which the separator `c` cuts `s`: what stands before the
/// first `c`, between one `c` and the next, and behind the last. A text
/// without `c` is one piece, also where it is empty.
pub open spec fn pieces_of(s: Seq<char>, c: char) -> Seq<Seq<char>>
    decreases s.len(),
{
    let n = first_of(s, c);
    if n < 0 || n >= s.len() {
        seq![s]
    } else {
        seq![s.take(n)] + pieces_of(s.skip(n + 1), c)
    }
}

/// Cuts `chars` into pieces at each `c`.
pub fn split_at_char(chars: &Vec<char>, c: char) -> (pieces: Vec<Vec<char>>)
    ensures
        part_views(pieces@) == pieces_of(chars@, c),
        pieces@.len() >= 1,
{
    let mut pieces: Vec<Vec<char>> = Vec::new();
    let mut start: usize = 0;
    proof {
        assert(chars@.skip(0) == chars@);
        assert(part_views(pieces@) + pieces_of(chars@, c) =~= pieces_of(chars@, c));
    }
    loop
        invariant
            start <= chars.len(),
            part_views(pieces@) + pieces_of(chars@.skip(start as int), c) == pieces_of(chars@, c),
        decreases chars.len() - start,
    {
        let ghost rest = chars@.skip(start as int);
        let ghost before = part_views(pieces@);
        let end = find_char(chars, start, c);
        let piece = slice_chars(chars, start, end);
        pieces.push(piece);
        proof {
            assert(chars@.subrange(start as int, end as int) =~= rest.take(end - start));
            assert(part_views(pieces@) =~= before.push(rest.take(end - start)));
        }
        if end >= chars.len() {
            proof {
                assert(rest.take(end - start) =~= rest);
                assert(part_views(pieces@) =~= before + pieces_of(rest, c));
            }
            return pieces;
        }
        proof {
            assert(rest.skip(end - start + 1) =~= chars@.skip(end + 1));
            assert(part_views(pieces@) + pieces_of(chars@.skip(end + 1), c) =~= before + pieces_of(
                rest,
                c,
            ));
        }
        start = end + 1;
    }
}

/// The texts of `parts`, one after the other, with `between` between each
/// two.
pub open spec fn joined(parts: Seq<Seq<char>>, between: Seq<char>) -> Seq<char>
    decreases parts.len(),
{
    if parts.len() == 0 {
        Seq::empty()
    } else if parts.len() == 1 {
        parts[0]
    } else {
        joined(parts.drop_last(), between) + between + parts.last()
    }
}

/// The text of an optional string.
pub open spec fn text_of(s: Option<String>) -> Option<Seq<char>> {
    match s {
        Some(s) => Some(s@),
        None => None,
    }
}

} // verus!
