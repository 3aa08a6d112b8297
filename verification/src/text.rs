//! Text, seen as a sequence of characters: the few string operations that the
//! rest of the library is stated over.

use vstd::prelude::*;
use vstd::utf8::{encode_utf8, is_ascii_chars};

verus! {

broadcast use vstd::utf8::encode_utf8_decode_utf8;

/// `String::push` appends one character.
pub assume_specification[ String::push ](s: &mut String, c: char)
    ensures
        final(s)@ == old(s)@.push(c),
;

/// The characters of every string of a list.
pub open spec fn texts(list: Seq<String>) -> Seq<Seq<char>> {
    list.map_values(|s: String| s@)
}

/// The characters of `s`.
pub fn chars_of(s: &str) -> (r: Vec<char>)
    ensures
        r@ == s@,
{
    let mut out: Vec<char> = Vec::new();
    for c in it: s.chars()
        invariant
            out@ == it.seq().take(it.index() as int),
            it.seq() == s@,
    {
        out.push(c);
    }
    out
}

/// The text made of the characters `from` to `to` of `chars`.
pub fn text_between(chars: &Vec<char>, from: usize, to: usize) -> (r: String)
    requires
        from <= to <= chars@.len(),
    ensures
        r@ == chars@.subrange(from as int, to as int),
{
    let mut out = String::new();
    for i in from..to
        invariant
            from <= to <= chars@.len(),
            out@ == chars@.subrange(from as int, i as int),
    {
        out.push(chars[i]);
    }
    out
}

/// Whether two texts are the same.
pub fn same_text(a: &str, b: &str) -> (r: bool)
    ensures
        r == (a@ == b@),
{
    let x = a.as_bytes();
    let y = b.as_bytes();
    if x.len() != y.len() {
        return false;
    }
    for i in 0..x.len()
        invariant
            x@ == encode_utf8(a@),
            y@ == encode_utf8(b@),
            x@.len() == y@.len(),
            forall|j: int| 0 <= j < i ==> x@[j] == y@[j],
    {
        if x[i] != y[i] {
            return false;
        }
    }
    assert(x@ == y@);
    assert(vstd::utf8::decode_utf8(encode_utf8(a@)) == vstd::utf8::decode_utf8(encode_utf8(b@)));
    true
}

/// Whether `chars` holds `part` at position `at`.
pub open spec fn holds_at(chars: Seq<char>, part: Seq<char>, at: int) -> bool {
    0 <= at && at + part.len() <= chars.len() && chars.subrange(at, at + part.len()) == part
}

/// Whether `part` occurs in `chars`.
pub open spec fn contains_text(chars: Seq<char>, part: Seq<char>) -> bool {
    exists|at: int| #[trigger] holds_at(chars, part, at)
}

fn match_at(chars: &Vec<char>, part: &Vec<char>, at: usize) -> (r: bool)
    requires
        at + part@.len() <= chars@.len(),
    ensures
        r == holds_at(chars@, part@, at as int),
{
    for i in 0..part.len()
        invariant
            at + part.len() <= chars.len(),
            forall|j: int| 0 <= j < i ==> chars@[at + j] == part@[j],
    {
        if chars[at + i] != part[i] {
            assert(chars@.subrange(at as int, at + part@.len())[i as int] != part@[i as int]);
            return false;
        }
    }
    assert(chars@.subrange(at as int, at + part@.len()) == part@);
    true
}

/// Whether `s` begins with `prefix`.
pub fn starts_with(s: &str, prefix: &str) -> (r: bool)
    ensures
        r == prefix@.is_prefix_of(s@),
{
    let chars = chars_of(s);
    let part = chars_of(prefix);
    if part.len() <= chars.len() {
        match_at(&chars, &part, 0)
    } else {
        false
    }
}

/// What follows `prefix` in `s`, if `s` begins with it.
pub fn strip_prefix(s: &str, prefix: &str) -> (r: Option<String>)
    ensures
        r is Some <==> prefix@.is_prefix_of(s@),
        r matches Some(rest) ==> s@ == prefix@ + rest@,
{
    let chars = chars_of(s);
    let part = chars_of(prefix);
    if part.len() <= chars.len() && match_at(&chars, &part, 0) {
        let rest = text_between(&chars, part.len(), chars.len());
        assert(s@ == prefix@ + rest@);
        Some(rest)
    } else {
        None
    }
}

/// What precedes `suffix` in `s`, if `s` ends with it.
pub fn strip_suffix(s: &str, suffix: &str) -> (r: Option<String>)
    ensures
        r is Some <==> suffix@.is_suffix_of(s@),
        r matches Some(rest) ==> s@ == rest@ + suffix@,
{
    let chars = chars_of(s);
    let part = chars_of(suffix);
    if part.len() <= chars.len() && match_at(&chars, &part, chars.len() - part.len()) {
        let rest = text_between(&chars, 0, chars.len() - part.len());
        assert(s@ == rest@ + suffix@);
        Some(rest)
    } else {
        None
    }
}

/// Whether `part` occurs in `s`.
pub fn contains(s: &str, part: &str) -> (r: bool)
    ensures
        r == contains_text(s@, part@),
{
    let chars = chars_of(s);
    let p = chars_of(part);
    if p.len() > chars.len() {
        return false;
    }
    if match_at(&chars, &p, chars.len() - p.len()) {
        assert(holds_at(s@, part@, chars@.len() - p@.len()));
        return true;
    }
    for at in 0..chars.len() - p.len()
        invariant
            chars@ == s@,
            p@ == part@,
            p@.len() <= chars@.len(),
            forall|j: int| 0 <= j < at ==> !#[trigger] holds_at(chars@, p@, j),
    {
        if match_at(&chars, &p, at) {
            return true;
        }
    }
    false
}

/// Whether the character `c` occurs in `s`.
pub fn contains_char(s: &str, c: char) -> (r: bool)
    ensures
        r == s@.contains(c),
{
    let chars = chars_of(s);
    for i in 0..chars.len()
        invariant
            chars@ == s@,
            forall|j: int| 0 <= j < i ==> chars@[j] != c,
    {
        if chars[i] == c {
            assert(s@[i as int] == c);
            return true;
        }
    }
    false
}

pub open spec fn skip_leading(s: Seq<char>, c: char) -> Seq<char>
    decreases s.len(),
{
    if s.len() > 0 && s[0] == c {
        skip_leading(s.drop_first(), c)
    } else {
        s
    }
}

pub open spec fn skip_trailing(s: Seq<char>, c: char) -> Seq<char>
    decreases s.len(),
{
    if s.len() > 0 && s.last() == c {
        skip_trailing(s.drop_last(), c)
    } else {
        s
    }
}

/// `s` without the characters `c` at its two ends.
pub open spec fn trimmed(s: Seq<char>, c: char) -> Seq<char> {
    skip_trailing(skip_leading(s, c), c)
}

/// `s` without the characters `c` at its two ends.
pub fn trim_char(s: &str, c: char) -> (r: String)
    ensures
        r@ == trimmed(s@, c),
{
    let chars = chars_of(s);
    let mut from: usize = 0;
    assert(chars@.skip(0) == chars@);
    while from < chars.len() && chars[from] == c
        invariant
            from <= chars@.len(),
            skip_leading(chars@.skip(from as int), c) == skip_leading(chars@, c),
        decreases chars@.len() - from,
    {
        assert(chars@.skip(from as int).drop_first() == chars@.skip(from + 1));
        from = from + 1;
    }
    let ghost rest = chars@.skip(from as int);
    let mut to: usize = chars.len();
    assert(chars@.subrange(from as int, to as int) == rest);
    while to > from && chars[to - 1] == c
        invariant
            from <= to <= chars@.len(),
            skip_trailing(chars@.subrange(from as int, to as int), c) == skip_trailing(rest, c),
        decreases to,
    {
        assert(chars@.subrange(from as int, to as int).drop_last() == chars@.subrange(
            from as int,
            to - 1,
        ));
        to = to - 1;
    }
    text_between(&chars, from, to)
}

/// What follows the last `c` of `s`: all of `s` where it has none.
pub open spec fn after_last(s: Seq<char>, c: char) -> Seq<char>
    decreases s.len(),
{
    if s.len() == 0 || s.last() == c {
        Seq::empty()
    } else {
        after_last(s.drop_last(), c).push(s.last())
    }
}

/// What follows the last `c` of `s`: all of `s` where it has none.
pub fn segment_after_last(s: &str, c: char) -> (r: String)
    ensures
        r@ == after_last(s@, c),
{
    let chars = chars_of(s);
    let mut from: usize = chars.len();
    assert(chars@.take(from as int) == chars@);
    assert(chars@.skip(from as int) == Seq::<char>::empty());
    while from > 0 && chars[from - 1] != c
        invariant
            from <= chars@.len(),
            after_last(chars@, c) == after_last(chars@.take(from as int), c) + chars@.skip(
                from as int,
            ),
        decreases from,
    {
        assert(chars@.take(from as int).drop_last() == chars@.take(from - 1));
        assert(after_last(chars@.take(from - 1), c).push(chars@[from - 1]) + chars@.skip(
            from as int,
        ) == after_last(chars@.take(from - 1), c) + chars@.skip(from - 1));
        from = from - 1;
    }
    assert(chars@.skip(from as int) == chars@.subrange(from as int, chars@.len() as int));
    text_between(&chars, from, chars.len())
}

/// The pieces of `s` between the elements `c`.
pub open spec fn split_on<T>(s: Seq<T>, c: T) -> Seq<Seq<T>>
    decreases s.len(),
{
    if s.len() == 0 {
        seq![Seq::empty()]
    } else {
        let pieces = split_on(s.drop_last(), c);
        if s.last() == c {
            pieces.push(Seq::empty())
        } else {
            pieces.drop_last().push(pieces.last().push(s.last()))
        }
    }
}

/// Every text has at least one piece.
pub proof fn lemma_split_nonempty<T>(s: Seq<T>, c: T)
    ensures
        split_on(s, c).len() > 0,
    decreases s.len(),
{
    if s.len() > 0 {
        lemma_split_nonempty(s.drop_last(), c);
    }
}

/// The pieces of `s` between the characters `c`.
pub fn split(s: &str, c: char) -> (r: Vec<String>)
    ensures
        texts(r@) == split_on(s@, c),
{
    let chars = chars_of(s);
    let mut pieces: Vec<String> = Vec::new();
    let mut piece = String::new();
    assert(chars@.take(0) == Seq::<char>::empty());
    assert(texts(pieces@).push(piece@) == split_on(chars@.take(0), c));
    for i in 0..chars.len()
        invariant
            texts(pieces@).push(piece@) == split_on(chars@.take(i as int), c),
    {
        let ghost before = texts(pieces@).push(piece@);
        assert(chars@.take(i + 1).drop_last() == chars@.take(i as int));
        assert(before.drop_last() == texts(pieces@));
        if chars[i] == c {
            pieces.push(piece);
            piece = String::new();
            assert(texts(pieces@) == before);
        } else {
            piece.push(chars[i]);
        }
    }
    assert(chars@.take(chars@.len() as int) == chars@);
    let ghost before = texts(pieces@).push(piece@);
    pieces.push(piece);
    assert(texts(pieces@) == before);
    pieces
}

/// What `str::to_lowercase` makes of `text`.
pub uninterp spec fn lower_text(text: Seq<char>) -> Seq<char>;

/// An ASCII capital as its small letter; any other character as it is.
pub open spec fn ascii_lower(c: char) -> char {
    if 'A' <= c <= 'Z' {
        (c as u32 + 32) as char
    } else {
        c
    }
}

/// An ASCII text in small letters.
pub open spec fn small_letters(text: Seq<char>) -> Seq<char> {
    text.map_values(|c: char| ascii_lower(c))
}

/// A text in small letters.
pub open spec fn lowered(text: Seq<char>) -> Seq<char> {
    if is_ascii_chars(text) {
        small_letters(text)
    } else {
        lower_text(text)
    }
}

/// `str::to_lowercase`. Of a text in ASCII it changes the capital letters and
/// nothing else; what it makes of other texts is only given a name.
#[verifier::external_body]
pub(crate) fn lowercase(text: &str) -> (r: String)
    ensures
        r@ == lower_text(text@),
        is_ascii_chars(text@) ==> r@ == small_letters(text@),
{
    text.to_lowercase()
}

/// The first position whose element passes `test`; the length where none does.
pub open spec fn first_index<T>(list: Seq<T>, test: spec_fn(T) -> bool) -> int
    decreases list.len(),
{
    if list.len() == 0 || test(list[0]) {
        0
    } else {
        1 + first_index(list.skip(1), test)
    }
}

/// The position before which nothing passes is the first that does.
pub proof fn lemma_first_index<T>(list: Seq<T>, test: spec_fn(T) -> bool, i: int)
    requires
        0 <= i <= list.len(),
        forall|j: int| 0 <= j < i ==> !test(#[trigger] list[j]),
        i < list.len() ==> test(list[i]),
    ensures
        first_index(list, test) == i,
    decreases i,
{
    if i > 0 {
        assert(!test(list[0]));
        assert forall|j: int| 0 <= j < i - 1 implies !test(#[trigger] list.skip(1)[j]) by {
            assert(!test(list[j + 1]));
        }
        lemma_first_index(list.skip(1), test, i - 1);
    }
}

/// Nothing before the first position passes, and it does itself.
pub proof fn lemma_first_index_is_first<T>(list: Seq<T>, test: spec_fn(T) -> bool)
    ensures
        0 <= first_index(list, test) <= list.len(),
        forall|j: int| 0 <= j < first_index(list, test) ==> !test(#[trigger] list[j]),
        first_index(list, test) < list.len() ==> test(list[first_index(list, test)]),
    decreases list.len(),
{
    if list.len() > 0 && !test(list[0]) {
        lemma_first_index_is_first(list.skip(1), test);
        let i = first_index(list, test);
        assert forall|j: int| 0 <= j < i implies !test(#[trigger] list[j]) by {
            if j > 0 {
                assert(!test(list.skip(1)[j - 1]));
            }
        }
    }
}

/// Whether `a` sorts no later than `b`: character by character, a text before
/// those that it begins.
pub open spec fn text_le(a: Seq<char>, b: Seq<char>) -> bool
    decreases a.len(),
{
    if a.len() == 0 {
        true
    } else if b.len() == 0 {
        false
    } else if a[0] != b[0] {
        a[0] < b[0]
    } else {
        text_le(a.skip(1), b.skip(1))
    }
}

/// A text sorts no later than itself.
pub proof fn lemma_text_le_itself(a: Seq<char>)
    ensures
        text_le(a, a),
    decreases a.len(),
{
    if a.len() > 0 {
        lemma_text_le_itself(a.skip(1));
    }
}

/// The first character that differs decides.
pub proof fn lemma_text_le_decided(a: Seq<char>, b: Seq<char>, i: int)
    requires
        0 <= i < a.len(),
        i < b.len(),
        forall|j: int| 0 <= j < i ==> a[j] == b[j],
        a[i] < b[i],
    ensures
        text_le(a, b),
        !text_le(b, a),
    decreases i,
{
    if i > 0 {
        assert(a[0] == b[0]);
        assert forall|j: int| 0 <= j < i - 1 implies a.skip(1)[j] == b.skip(1)[j] by {
            assert(a[j + 1] == b[j + 1]);
        }
        lemma_text_le_decided(a.skip(1), b.skip(1), i - 1);
    }
}

/// The decimal digits of `n`.
pub open spec fn decimal(n: nat) -> Seq<char>
    decreases n,
{
    if n < 10 {
        seq![crate::calendar::digit(n as int)]
    } else {
        decimal(n / 10).push(crate::calendar::digit((n % 10) as int))
    }
}

fn digit_char(n: u128) -> (r: char)
    requires
        n < 10,
    ensures
        r == crate::calendar::digit(n as int),
{
    (48 + n as u8) as char
}

/// `n` in decimal.
pub fn number_text(n: u128) -> (r: String)
    ensures
        r@ == decimal(n as nat),
    decreases n,
{
    if n < 10 {
        let mut out = String::new();
        out.push(digit_char(n));
        assert(out@ == decimal(n as nat));
        out
    } else {
        let mut out = number_text(n / 10);
        out.push(digit_char(n % 10));
        out
    }
}

/// The texts of `list` with `separator` between each two.
pub open spec fn joined(list: Seq<Seq<char>>, separator: Seq<char>) -> Seq<char>
    decreases list.len(),
{
    if list.len() == 0 {
        Seq::empty()
    } else if list.len() == 1 {
        list[0]
    } else {
        joined(list.drop_last(), separator) + separator + list.last()
    }
}

/// The texts of `list` with `separator` between each two.
pub fn join(list: &Vec<String>, separator: &str) -> (r: String)
    ensures
        r@ == joined(texts(list@), separator@),
{
    let mut out = String::new();
    assert(texts(list@).take(0) == Seq::<Seq<char>>::empty());
    for i in 0..list.len()
        invariant
            out@ == joined(texts(list@).take(i as int), separator@),
    {
        assert(texts(list@).take(i + 1).drop_last() == texts(list@).take(i as int));
        if i > 0 {
            out.append(separator);
        }
        out.append(list[i].as_str());
        assert(out@ == joined(texts(list@).take(i + 1), separator@));
    }
    assert(texts(list@).take(list@.len() as int) == texts(list@));
    out
}

/// A copy of a list of texts.
pub fn copy_texts(list: &Vec<String>) -> (r: Vec<String>)
    ensures
        texts(r@) == texts(list@),
{
    let mut out: Vec<String> = Vec::new();
    for i in 0..list.len()
        invariant
            texts(out@) == texts(list@).take(i as int),
    {
        let ghost before = texts(out@);
        out.push(list[i].clone());
        assert(texts(out@) == before.push(list@[i as int]@));
        assert(texts(list@).take(i + 1) == texts(list@).take(i as int).push(list@[i as int]@));
    }
    assert(texts(list@).take(list@.len() as int) == texts(list@));
    out
}

/// Joining is concatenation with the separator in between: nothing is added to a
/// single text, and what is joined of two lists is what is joined of each, with
/// one separator between.
pub proof fn law_joining_concatenates(
    one: Seq<Seq<char>>,
    two: Seq<Seq<char>>,
    text: Seq<char>,
    separator: Seq<char>,
)
    ensures
        joined(Seq::empty(), separator) == Seq::<char>::empty(),
        joined(seq![text], separator) == text,
        one.len() > 0 && two.len() > 0 ==> joined(one + two, separator) == joined(one, separator)
            + separator + joined(two, separator),
    decreases two.len(),
{
    if one.len() > 0 && two.len() > 0 {
        let whole = one + two;
        assert(whole.drop_last() == one + two.drop_last());
        if two.len() == 1 {
            assert(one + two.drop_last() == one);
            assert(two.last() == two[0]);
        } else {
            law_joining_concatenates(one, two.drop_last(), text, separator);
            assert(joined(whole, separator) == joined(one, separator) + separator + joined(
                two,
                separator,
            ));
        }
    }
}

/// Splitting cuts at every separator and nowhere else: a text without one is a
/// single piece, and the pieces around a separator are those of the two sides.
pub proof fn law_splitting_cuts_at_every_separator<T>(before: Seq<T>, after: Seq<T>, c: T)
    ensures
        split_on(before.push(c) + after, c) == split_on(before, c) + split_on(after, c),
        !before.contains(c) ==> split_on(before, c) == seq![before],
    decreases before.len() + after.len(),
{
    lemma_split_nonempty(after, c);
    let whole = before.push(c) + after;
    if after.len() == 0 {
        assert(whole == before.push(c));
        assert(whole.drop_last() == before);
        assert(split_on(before, c).push(Seq::empty()) == split_on(before, c) + split_on(after, c));
    } else {
        assert(whole.drop_last() == before.push(c) + after.drop_last());
        law_splitting_cuts_at_every_separator(before, after.drop_last(), c);
        lemma_split_nonempty(after.drop_last(), c);
        let lead = split_on(before, c);
        let rest = split_on(after.drop_last(), c);
        assert((lead + rest).drop_last() == lead + rest.drop_last());
        assert((lead + rest).last() == rest.last());
        if after.last() == c {
            assert((lead + rest).push(Seq::empty()) == lead + rest.push(Seq::empty()));
        } else {
            let last = rest.last().push(after.last());
            assert((lead + rest.drop_last()).push(last) == lead + rest.drop_last().push(last));
        }
    }
    if !before.contains(c) {
        if before.len() == 0 {
            assert(before == Seq::<T>::empty());
        } else {
            let front = before.drop_last();
            assert(before.contains(before.last()));
            if front.contains(c) {
                let k = choose|k: int| 0 <= k < front.len() && front[k] == c;
                assert(before[k] == c);
            }
            law_splitting_cuts_at_every_separator(front, Seq::empty(), c);
            assert(split_on(front, c) == seq![front]);
            assert(seq![front].drop_last().push(front.push(before.last())) == seq![before]) by {
                assert(front.push(before.last()) == before);
                assert(seq![front].drop_last() == Seq::<Seq<T>>::empty());
            }
        }
    }
}

/// Trimming takes away the character at both ends, all of it and nothing else.
pub proof fn law_trimming_takes_only_the_ends(s: Seq<char>, c: char)
    ensures
        ({
            let inner = trimmed(s, c);
            &&& inner.len() == 0 || (inner[0] != c && inner.last() != c)
            &&& exists|from: int|
                0 <= from && from + inner.len() <= s.len() && #[trigger] s.subrange(
                    from,
                    from + inner.len(),
                ) == inner && forall|i: int|
                    0 <= i < s.len() && !(from <= i < from + inner.len()) ==> s[i] == c
        }),
{
    let front = skip_leading(s, c);
    lemma_leading(s, c);
    lemma_trailing(front, c);
    let inner = trimmed(s, c);
    let from = s.len() - front.len();
    assert(s.subrange(from, from + inner.len()) == inner) by {
        assert(front == s.skip(from));
        assert(inner == front.take(inner.len() as int));
    }
    assert forall|i: int| 0 <= i < s.len() && !(from <= i < from + inner.len()) implies s[i]
        == c by {
        if i >= from {
            assert(front[i - from] == s[i]);
        }
    }
    if inner.len() > 0 {
        assert(inner[0] == front[0]);
    }
}

proof fn lemma_leading(s: Seq<char>, c: char)
    ensures
        ({
            let rest = skip_leading(s, c);
            &&& rest.len() <= s.len()
            &&& rest == s.skip(s.len() - rest.len())
            &&& forall|i: int| 0 <= i < s.len() - rest.len() ==> s[i] == c
            &&& rest.len() > 0 ==> rest[0] != c
        }),
    decreases s.len(),
{
    if s.len() > 0 && s[0] == c {
        let tail = s.drop_first();
        lemma_leading(tail, c);
        let rest = skip_leading(s, c);
        assert(rest == s.skip(s.len() - rest.len()));
        assert forall|i: int| 0 <= i < s.len() - rest.len() implies s[i] == c by {
            if i > 0 {
                assert(tail[i - 1] == s[i]);
            }
        }
    } else {
        assert(s.skip(0) == s);
    }
}

proof fn lemma_trailing(s: Seq<char>, c: char)
    ensures
        ({
            let rest = skip_trailing(s, c);
            &&& rest.len() <= s.len()
            &&& rest == s.take(rest.len() as int)
            &&& forall|i: int| rest.len() <= i < s.len() ==> s[i] == c
            &&& rest.len() > 0 ==> rest.last() != c
        }),
    decreases s.len(),
{
    if s.len() > 0 && s.last() == c {
        lemma_trailing(s.drop_last(), c);
        let rest = skip_trailing(s, c);
        assert(rest == s.take(rest.len() as int));
        assert forall|i: int| rest.len() <= i < s.len() implies s[i] == c by {
            if i < s.len() - 1 {
                assert(s.drop_last()[i] == s[i]);
            }
        }
    } else {
        assert(s.take(s.len() as int) == s);
    }
}

/// A text contains another exactly if something can be put before and behind the
/// other to give it.
pub proof fn law_containing_is_having_sides(whole: Seq<char>, part: Seq<char>)
    ensures
        contains_text(whole, part) <==> exists|before: Seq<char>, after: Seq<char>|
            whole == #[trigger] (before + part + after),
{
    if contains_text(whole, part) {
        let at = choose|at: int| #[trigger] holds_at(whole, part, at);
        let before = whole.take(at);
        let after = whole.skip(at + part.len());
        assert(whole == before + part + after);
    }
    if exists|before: Seq<char>, after: Seq<char>| whole == #[trigger] (before + part + after) {
        let (before, after) = choose|before: Seq<char>, after: Seq<char>|
            whole == #[trigger] (before + part + after);
        let at = before.len() as int;
        assert(whole.subrange(at, at + part.len()) == part);
        assert(holds_at(whole, part, at));
    }
}

/// A number is written in the digits `0` to `9` alone, the first of them no zero
/// unless it is the only one; one more digit is ten times the number and that
/// digit.
pub proof fn law_numbers_are_written_in_decimal(n: nat, d: nat)
    requires
        d < 10,
    ensures
        d > 0 || n > 0 ==> decimal(n * 10 + d) == if n == 0 {
            seq![(48 + d) as char]
        } else {
            decimal(n).push((48 + d) as char)
        },
        decimal(0) == seq!['0'],
        decimal(n).len() > 0,
        forall|i: int| 0 <= i < decimal(n).len() ==> '0' <= #[trigger] decimal(n)[i] <= '9',
        n > 0 ==> decimal(n)[0] != '0',
    decreases n,
{
    assert((n * 10 + d) / 10 == n && (n * 10 + d) % 10 == d);
    if n >= 10 {
        law_numbers_are_written_in_decimal(n / 10, n % 10);
        assert(n == (n / 10) * 10 + n % 10);
        let rest = decimal(n / 10);
        assert forall|i: int| 0 <= i < decimal(n).len() implies '0' <= #[trigger] decimal(n)[i]
            <= '9' by {
            if i < rest.len() {
                assert('0' <= rest[i] <= '9');
            }
        }
        assert(decimal(n)[0] == rest[0]);
    }
}

/// A list of strings is seen string by string, each as its own characters.
pub proof fn law_strings_are_seen_one_by_one(list: Seq<String>, i: int)
    ensures
        texts(list).len() == list.len(),
        0 <= i < list.len() ==> texts(list)[i] == list[i]@,
{
}

} // verus!
