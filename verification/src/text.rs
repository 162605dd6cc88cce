//! Strings as sequences of characters: trimming, searching, ASCII case folding
//! and the conversions between `str`, `String` and `Vec<char>`.

use crate::seqs;
use vstd::prelude::*;
use vstd::utf8;

verus! {

/// `String::push` appends one character to the text.
pub assume_specification[ String::push ](s: &mut String, c: char)
    ensures
        final(s)@ == old(s)@.push(c),
;

/// Unicode's `White_Space` property.
pub open spec fn is_white_space(c: char) -> bool {
    let n = c as int;
    ||| 0x9 <= n <= 0xd
    ||| n == 0x20
    ||| n == 0x85
    ||| n == 0xa0
    ||| n == 0x1680
    ||| 0x2000 <= n <= 0x200a
    ||| n == 0x2028
    ||| n == 0x2029
    ||| n == 0x202f
    ||| n == 0x205f
    ||| n == 0x3000
}

/// Decides `is_white_space`.
pub fn white_space(c: char) -> (b: bool)
    ensures
        b == is_white_space(c),
{
    let n: u32 = c as u32;
    (0x9 <= n && n <= 0xd) || n == 0x20 || n == 0x85 || n == 0xa0 || n == 0x1680 || (0x2000 <= n
        && n <= 0x200a) || n == 0x2028 || n == 0x2029 || n == 0x202f || n == 0x205f || n == 0x3000
}

/// The characters of a `str`.
pub fn to_chars(s: &str) -> (v: Vec<char>)
    ensures
        v@ == s@,
{
    let mut v: Vec<char> = Vec::new();
    for c in it: s.chars()
        invariant
            v@ == it.seq().take(it.index() as int),
            it.seq() == s@,
    {
        v.push(c);
    }
    assert(s@.take(s@.len() as int) == s@);
    v
}

/// The text made of `v[from..to]`.
pub fn text_of(v: &Vec<char>, from: usize, to: usize) -> (s: String)
    requires
        from <= to <= v@.len(),
    ensures
        s@ == v@.subrange(from as int, to as int),
{
    let mut s = String::new();
    let mut i: usize = from;
    assert(s@ == v@.subrange(from as int, from as int));
    while i < to
        invariant
            from <= i <= to <= v@.len(),
            s@ == v@.subrange(from as int, i as int),
        decreases to - i,
    {
        s.push(v[i]);
        i += 1;
        assert(v@.subrange(from as int, i as int) == v@.subrange(from as int, i - 1).push(
            v@[i - 1],
        ));
    }
    s
}

/// Decides whether two texts are the same.
pub fn same_text(a: &str, b: &str) -> (r: bool)
    ensures
        r == (a@ == b@),
{
    let x = a.as_bytes();
    let y = b.as_bytes();
    proof {
        utf8::encode_utf8_decode_utf8(a@);
        utf8::encode_utf8_decode_utf8(b@);
    }
    if x.len() != y.len() {
        return false;
    }
    let mut i: usize = 0;
    while i < x.len()
        invariant
            i <= x@.len(),
            x@.len() == y@.len(),
            x@ == utf8::encode_utf8(a@),
            y@ == utf8::encode_utf8(b@),
            x@.take(i as int) == y@.take(i as int),
        decreases x@.len() - i,
    {
        if x[i] != y[i] {
            assert(x@ != y@);
            return false;
        }
        i += 1;
        assert(x@.take(i as int) == x@.take(i - 1).push(x@[i - 1]));
        assert(y@.take(i as int) == y@.take(i - 1).push(y@[i - 1]));
    }
    assert(x@.take(i as int) == x@);
    assert(y@.take(i as int) == y@);
    true
}

/// `s` without the leading characters that meet `p`.
pub open spec fn trim_start_by(s: Seq<char>, p: spec_fn(char) -> bool) -> Seq<char>
    decreases s.len(),
{
    if s.len() > 0 && p(s.first()) {
        trim_start_by(s.drop_first(), p)
    } else {
        s
    }
}

/// `s` without the trailing characters that meet `p`.
pub open spec fn trim_end_by(s: Seq<char>, p: spec_fn(char) -> bool) -> Seq<char>
    decreases s.len(),
{
    if s.len() > 0 && p(s.last()) {
        trim_end_by(s.drop_last(), p)
    } else {
        s
    }
}

/// `s` without the leading and trailing characters that meet `p`.
pub open spec fn trim_by(s: Seq<char>, p: spec_fn(char) -> bool) -> Seq<char> {
    trim_end_by(trim_start_by(s, p), p)
}

/// `s` without leading and trailing white space.
pub open spec fn trimmed(s: Seq<char>) -> Seq<char> {
    trim_by(s, |c: char| is_white_space(c))
}

/// The test for one character.
pub open spec fn equals_char(q: char) -> spec_fn(char) -> bool {
    |c: char| c == q
}

/// `s` without leading and trailing occurrences of `q`.
pub open spec fn unquoted(s: Seq<char>, q: char) -> Seq<char> {
    trim_by(s, equals_char(q))
}

/// Dropping `i` leading characters that meet `p`, and stopping where the next
/// does not, is `trim_start_by`.
proof fn lemma_trim_start(s: Seq<char>, i: int, p: spec_fn(char) -> bool)
    requires
        0 <= i <= s.len(),
        forall|k: int| 0 <= k < i ==> p(#[trigger] s[k]),
        i < s.len() ==> !p(s[i]),
    ensures
        trim_start_by(s, p) == s.subrange(i, s.len() as int),
    decreases i,
{
    if i > 0 {
        assert forall|k: int| 0 <= k < i - 1 implies p(#[trigger] s.drop_first()[k]) by {
            assert(s.drop_first()[k] == s[k + 1]);
        }
        lemma_trim_start(s.drop_first(), i - 1, p);
        assert(p(s[0]));
        assert(s.drop_first().subrange(i - 1, s.len() - 1) == s.subrange(i, s.len() as int));
    } else {
        assert(s.subrange(0, s.len() as int) == s);
    }
}

/// Keeping `j` characters, where the rest meet `p` and the last kept does not,
/// is `trim_end_by`.
proof fn lemma_trim_end(s: Seq<char>, j: int, p: spec_fn(char) -> bool)
    requires
        0 <= j <= s.len(),
        forall|k: int| j <= k < s.len() ==> p(#[trigger] s[k]),
        j > 0 ==> !p(s[j - 1]),
    ensures
        trim_end_by(s, p) == s.subrange(0, j),
    decreases s.len(),
{
    if j < s.len() {
        lemma_trim_end(s.drop_last(), j, p);
        assert(p(s[s.len() - 1]));
        assert(s.drop_last().subrange(0, j) == s.subrange(0, j));
    } else {
        assert(s.subrange(0, j) == s);
    }
}

/// The bounds `(i, j)` of the trimmed text inside `v[from..to]`.
pub fn trim_bounds(v: &Vec<char>, from: usize, to: usize) -> (r: (usize, usize))
    requires
        from <= to <= v@.len(),
    ensures
        from <= r.0 <= r.1 <= to,
        v@.subrange(r.0 as int, r.1 as int) == trimmed(v@.subrange(from as int, to as int)),
{
    let ghost p = |c: char| is_white_space(c);
    let ghost s = v@.subrange(from as int, to as int);
    let mut i: usize = from;
    while i < to && white_space(v[i])
        invariant
            from <= i <= to <= v@.len(),
            forall|k: int| from <= k < i ==> is_white_space(#[trigger] v@[k]),
        decreases to - i,
    {
        i += 1;
    }
    let mut j: usize = to;
    while i < j && white_space(v[j - 1])
        invariant
            from <= i <= j <= to <= v@.len(),
            forall|k: int| j <= k < to ==> is_white_space(#[trigger] v@[k]),
        decreases j,
    {
        j -= 1;
    }
    proof {
        assert forall|k: int| 0 <= k < i - from implies p(#[trigger] s[k]) by {
            assert(s[k] == v@[from + k]);
        }
        lemma_trim_start(s, i - from, p);
        let t = s.subrange(i - from, s.len() as int);
        assert forall|k: int| j - i <= k < t.len() implies p(#[trigger] t[k]) by {
            assert(t[k] == v@[i + k]);
        }
        lemma_trim_end(t, j - i, p);
        assert(t.subrange(0, j - i) == v@.subrange(i as int, j as int));
    }
    (i, j)
}

/// Removes leading and trailing white space, as `str::trim` does.
pub fn trim(s: &str) -> (r: String)
    ensures
        r@ == trimmed(s@),
{
    let v = to_chars(s);
    assert(v@.subrange(0, v@.len() as int) == v@);
    let (i, j) = trim_bounds(&v, 0, v.len());
    text_of(&v, i, j)
}

/// Removes leading and trailing occurrences of `q`, as `str::trim_matches` does.
pub fn trim_char(s: &str, q: char) -> (r: String)
    ensures
        r@ == unquoted(s@, q),
{
    let ghost p = equals_char(q);
    let v = to_chars(s);
    let n: usize = v.len();
    let mut i: usize = 0;
    while i < n && v[i] == q
        invariant
            i <= n == v@.len(),
            forall|k: int| 0 <= k < i ==> #[trigger] v@[k] == q,
        decreases n - i,
    {
        i += 1;
    }
    let mut j: usize = n;
    while i < j && v[j - 1] == q
        invariant
            i <= j <= n == v@.len(),
            forall|k: int| j <= k < n ==> #[trigger] v@[k] == q,
        decreases j,
    {
        j -= 1;
    }
    proof {
        lemma_trim_start(v@, i as int, p);
        let t = v@.subrange(i as int, n as int);
        assert forall|k: int| j - i <= k < t.len() implies p(#[trigger] t[k]) by {
            assert(t[k] == v@[i + k]);
        }
        lemma_trim_end(t, j - i, p);
        assert(t.subrange(0, j - i) == v@.subrange(i as int, j as int));
    }
    text_of(&v, i, j)
}

/// `c` with `A`-`Z` mapped to `a`-`z`.
pub open spec fn lower_char(c: char) -> char {
    if 'A' <= c <= 'Z' {
        (c as int + 32) as char
    } else {
        c
    }
}

/// `s` with every ASCII letter in lower case.
pub open spec fn lower(s: Seq<char>) -> Seq<char> {
    Seq::new(s.len(), |i: int| lower_char(s[i]))
}

/// Decides `lower_char`.
pub fn lower_ascii_char(c: char) -> (r: char)
    ensures
        r == lower_char(c),
{
    if 'A' <= c && c <= 'Z' {
        let n: u8 = c as u8;
        (n + 32) as char
    } else {
        c
    }
}

/// The characters of `s` with ASCII letters in lower case.
pub fn lower_chars(s: &str) -> (v: Vec<char>)
    ensures
        v@ == lower(s@),
{
    let t = to_chars(s);
    let mut v: Vec<char> = Vec::new();
    let mut i: usize = 0;
    while i < t.len()
        invariant
            i <= t@.len(),
            t@ == s@,
            v@ == lower(s@).take(i as int),
        decreases t@.len() - i,
    {
        v.push(lower_ascii_char(t[i]));
        i += 1;
        assert(lower(s@).take(i as int) == lower(s@).take(i - 1).push(lower(s@)[i - 1]));
    }
    assert(lower(s@).take(i as int) == lower(s@));
    v
}

/// `str::to_ascii_lowercase`.
pub fn to_ascii_lowercase(s: &str) -> (r: String)
    ensures
        r@ == lower(s@),
{
    let v = lower_chars(s);
    assert(v@.subrange(0, v@.len() as int) == v@);
    text_of(&v, 0, v.len())
}

/// `needle` stands in `s` at position `i`.
pub open spec fn occurs_at(s: Seq<char>, needle: Seq<char>, i: int) -> bool {
    &&& 0 <= i
    &&& i + needle.len() <= s.len()
    &&& s.subrange(i, i + needle.len()) == needle
}

/// The first position at or after `from` where `needle` stands in `s`.
pub open spec fn find_from(s: Seq<char>, needle: Seq<char>, from: int) -> Option<int>
    decreases s.len() - from + 1,
{
    if from + needle.len() > s.len() {
        None
    } else if occurs_at(s, needle, from) {
        Some(from)
    } else {
        find_from(s, needle, from + 1)
    }
}

/// `needle` stands somewhere in `s`.
pub open spec fn contains(s: Seq<char>, needle: Seq<char>) -> bool {
    exists|i: int| occurs_at(s, needle, i)
}

/// `s` begins with `p`.
pub open spec fn starts_with(s: Seq<char>, p: Seq<char>) -> bool {
    occurs_at(s, p, 0)
}

/// The first position at or after `from` where `s` holds `c`.
pub open spec fn find_char_from(s: Seq<char>, c: char, from: int) -> Option<int>
    decreases s.len() - from,
{
    if from >= s.len() {
        None
    } else if s[from] == c {
        Some(from)
    } else {
        find_char_from(s, c, from + 1)
    }
}

/// Decides `occurs_at`.
pub fn at(s: &Vec<char>, needle: &Vec<char>, i: usize) -> (r: bool)
    ensures
        r == occurs_at(s@, needle@, i as int),
{
    if i > s.len() || needle.len() > s.len() - i {
        return false;
    }
    let mut k: usize = 0;
    while k < needle.len()
        invariant
            k <= needle@.len(),
            i + needle@.len() <= s.len(),
            forall|m: int| 0 <= m < k ==> s@[i + m] == #[trigger] needle@[m],
        decreases needle@.len() - k,
    {
        if s[i + k] != needle[k] {
            assert(s@.subrange(i as int, i + needle@.len())[k as int] != needle@[k as int]);
            return false;
        }
        k += 1;
    }
    assert(s@.subrange(i as int, i + needle@.len()) =~= needle@);
    true
}

/// Computes `find_from`.
pub fn find(s: &Vec<char>, needle: &Vec<char>, from: usize) -> (r: Option<usize>)
    requires
        from <= s@.len(),
    ensures
        match r {
            Some(i) => find_from(s@, needle@, from as int) == Some(i as int) && from <= i && i
                + needle@.len() <= s@.len(),
            None => find_from(s@, needle@, from as int) is None,
        },
{
    let mut i: usize = from;
    loop
        invariant
            from <= i <= s@.len(),
            find_from(s@, needle@, from as int) == find_from(s@, needle@, i as int),
        decreases s@.len() - i + 1,
    {
        if needle.len() > s.len() - i {
            return None;
        }
        if at(s, needle, i) {
            return Some(i);
        }
        assert(needle@.len() == 0 ==> s@.subrange(i as int, i as int) =~= needle@);
        i += 1;
    }
}

/// Computes `find_char_from`.
pub fn find_char(s: &Vec<char>, c: char, from: usize) -> (r: Option<usize>)
    requires
        from <= s@.len(),
    ensures
        match r {
            Some(i) => find_char_from(s@, c, from as int) == Some(i as int) && from <= i < s@.len()
                && s@[i as int] == c,
            None => find_char_from(s@, c, from as int) is None,
        },
{
    let mut i: usize = from;
    while i < s.len()
        invariant
            from <= i <= s@.len(),
            find_char_from(s@, c, from as int) == find_char_from(s@, c, i as int),
        decreases s@.len() - i,
    {
        if s[i] == c {
            return Some(i);
        }
        i += 1;
    }
    None
}

/// `find_from` finds an occurrence exactly when there is one to find.
pub proof fn lemma_find_from(s: Seq<char>, needle: Seq<char>, from: int)
    requires
        0 <= from,
    ensures
        match find_from(s, needle, from) {
            Some(i) => from <= i && occurs_at(s, needle, i) && forall|k: int|
                from <= k < i ==> !#[trigger] occurs_at(s, needle, k),
            None => forall|k: int| from <= k ==> !#[trigger] occurs_at(s, needle, k),
        },
    decreases s.len() - from + 1,
{
    if from + needle.len() <= s.len() && !occurs_at(s, needle, from) {
        lemma_find_from(s, needle, from + 1);
    }
}

/// `find_char_from` finds the first position that holds the character.
pub proof fn lemma_find_char_from(s: Seq<char>, c: char, from: int)
    requires
        0 <= from,
    ensures
        match find_char_from(s, c, from) {
            Some(i) => from <= i < s.len() && s[i] == c && forall|k: int|
                from <= k < i ==> #[trigger] s[k] != c,
            None => forall|k: int| from <= k < s.len() ==> #[trigger] s[k] != c,
        },
    decreases s.len() - from,
{
    if from < s.len() && s[from] != c {
        lemma_find_char_from(s, c, from + 1);
    }
}

/// `str::starts_with`.
pub fn has_prefix(s: &str, p: &str) -> (r: bool)
    ensures
        r == starts_with(s@, p@),
{
    let v = to_chars(s);
    let w = to_chars(p);
    at(&v, &w, 0)
}

/// `str::contains`.
pub fn has_text(s: &Vec<char>, needle: &Vec<char>) -> (r: bool)
    ensures
        r == contains(s@, needle@),
{
    let found = find(s, needle, 0);
    proof {
        lemma_find_from(s@, needle@, 0);
        match found {
            Some(i) => {
                assert(occurs_at(s@, needle@, i as int));
            },
            None => {},
        }
    }
    found.is_some()
}

/// The contents of a list of strings.
pub open spec fn texts(v: Seq<String>) -> Seq<Seq<char>> {
    v.map_values(|s: String| s@)
}

/// `str::split` on a character.
pub fn split_text(s: &str, sep: char) -> (r: Vec<String>)
    ensures
        texts(r@) == seqs::split(s@, sep),
{
    let v = to_chars(s);
    let mut r: Vec<String> = Vec::new();
    let mut from: usize = 0;
    let mut i: usize = 0;
    assert(texts(r@) + seqs::pieces_from(s@, sep, 0) =~= seqs::split(s@, sep));
    while i < v.len()
        invariant
            v@ == s@,
            from <= i <= v@.len(),
            forall|k: int| from <= k < i ==> #[trigger] v@[k] != sep,
            texts(r@) + seqs::pieces_from(v@, sep, from as int) == seqs::split(v@, sep),
        decreases v@.len() - i,
    {
        if v[i] == sep {
            let ghost before = texts(r@);
            proof {
                seqs::lemma_position_is(v@, sep, from as int, i as int);
            }
            r.push(text_of(&v, from, i));
            assert(texts(r@) =~= before.push(v@.subrange(from as int, i as int)));
            from = i + 1;
            assert(texts(r@) + seqs::pieces_from(v@, sep, from as int) =~= seqs::split(v@, sep));
        }
        i += 1;
    }
    let ghost before = texts(r@);
    proof {
        seqs::lemma_position_from(v@, sep, from as int);
    }
    r.push(text_of(&v, from, v.len()));
    assert(texts(r@) =~= before.push(v@.subrange(from as int, v@.len() as int)));
    assert(texts(r@) =~= seqs::split(v@, sep));
    r
}

/// `[String]::join`.
pub fn join_texts(v: &Vec<String>, sep: &str) -> (r: String)
    ensures
        r@ == seqs::join(texts(v@), sep@),
{
    let mut r = String::new();
    let mut i: usize = 0;
    assert(texts(v@).take(0) =~= Seq::<Seq<char>>::empty());
    while i < v.len()
        invariant
            i <= v@.len(),
            r@ == seqs::join(texts(v@).take(i as int), sep@),
        decreases v@.len() - i,
    {
        assert(texts(v@)[i as int] == v@[i as int]@);
        if i > 0 {
            r.append(sep);
        }
        r.append(v[i].as_str());
        i += 1;
        assert(texts(v@).take(i as int).drop_last() =~= texts(v@).take(i - 1));
        assert(r@ =~= seqs::join(texts(v@).take(i as int), sep@));
    }
    assert(texts(v@).take(i as int) =~= texts(v@));
    r
}

/// `find_char_from` points at the first position that holds the character.
pub proof fn lemma_char_at(s: Seq<char>, c: char, from: int, i: int)
    requires
        0 <= from <= i < s.len(),
        s[i] == c,
        forall|k: int| from <= k < i ==> #[trigger] s[k] != c,
    ensures
        find_char_from(s, c, from) == Some(i),
{
    lemma_find_char_from(s, c, from);
}

/// `find_from` points at the first position where the text stands.
pub proof fn lemma_text_at(s: Seq<char>, needle: Seq<char>, from: int, i: int)
    requires
        0 <= from <= i,
        occurs_at(s, needle, i),
        forall|k: int| from <= k < i ==> !#[trigger] occurs_at(s, needle, k),
    ensures
        find_from(s, needle, from) == Some(i),
{
    lemma_find_from(s, needle, from);
}

/// A space, a tab or the end of a line.
pub open spec fn is_blank(c: char) -> bool {
    c == ' ' || c == '\t' || c == '\r' || c == '\n'
}

/// Every character of `s` is blank.
pub open spec fn all_blank(s: Seq<char>) -> bool {
    forall|i: int| 0 <= i < s.len() ==> is_blank(#[trigger] s[i])
}

/// A printable ASCII character other than the space.
pub open spec fn is_graphic(c: char) -> bool {
    '!' <= c <= '~'
}

/// `s` neither begins nor ends with something that trimming takes away.
pub open spec fn is_tight(s: Seq<char>) -> bool {
    s.len() > 0 ==> is_graphic(s.first()) && is_graphic(s.last())
}

/// Trimming takes the blanks around a text away, and nothing else.
pub proof fn law_blanks_are_trimmed(before: Seq<char>, s: Seq<char>, after: Seq<char>)
    requires
        all_blank(before),
        is_tight(s),
        all_blank(after),
    ensures
        trimmed(before + s + after) == s,
{
    let p = |c: char| is_white_space(c);
    let whole = before + s + after;
    if s.len() == 0 {
        assert forall|k: int| 0 <= k < whole.len() implies p(#[trigger] whole[k]) by {
            if k < before.len() {
                assert(is_blank(before[k]));
            } else {
                assert(is_blank(after[k - before.len()]));
            }
        }
        lemma_trim_start(whole, whole.len() as int, p);
        assert(trim_start_by(whole, p) =~= s);
    } else {
        let i = before.len() as int;
        assert forall|k: int| 0 <= k < i implies p(#[trigger] whole[k]) by {
            assert(is_blank(before[k]));
        }
        assert(whole[i] == s.first());
        lemma_trim_start(whole, i, p);
        let rest = whole.subrange(i, whole.len() as int);
        assert(rest =~= s + after);
        let j = s.len() as int;
        assert forall|k: int| j <= k < rest.len() implies p(#[trigger] rest[k]) by {
            assert(is_blank(after[k - j]));
        }
        assert(rest[j - 1] == s.last());
        lemma_trim_end(rest, j, p);
        assert(rest.subrange(0, j) =~= s);
    }
}

/// A text without blanks around it is trimmed already.
pub proof fn lemma_tight_is_trimmed(s: Seq<char>)
    requires
        is_tight(s),
    ensures
        trimmed(s) == s,
{
    let none = Seq::<char>::empty();
    law_blanks_are_trimmed(none, s, none);
    assert(none + s + none =~= s);
}

/// Blanks around a text make no difference to what trimming leaves of it.
pub proof fn law_trimming_blanks_changes_nothing(
    before: Seq<char>,
    s: Seq<char>,
    after: Seq<char>,
)
    requires
        all_blank(before),
        all_blank(after),
    ensures
        trimmed(before + s + after) == trimmed(s),
    decreases before.len() + after.len(),
{
    let p = |c: char| is_white_space(c);
    let whole = before + s + after;
    if before.len() > 0 {
        assert(is_blank(before[0]));
        assert(whole.first() == before[0]);
        assert(whole.drop_first() =~= before.drop_first() + s + after);
        assert forall|i: int| 0 <= i < before.drop_first().len() implies is_blank(
            #[trigger] before.drop_first()[i],
        ) by {
            assert(is_blank(before[i + 1]));
        }
        law_trimming_blanks_changes_nothing(before.drop_first(), s, after);
        assert(trim_start_by(whole, p) == trim_start_by(whole.drop_first(), p));
    } else if after.len() > 0 {
        let c = after.last();
        assert(is_blank(after[after.len() - 1]));
        let shorter = before + s + after.drop_last();
        assert(whole =~= shorter.push(c));
        assert forall|i: int| 0 <= i < after.drop_last().len() implies is_blank(
            #[trigger] after.drop_last()[i],
        ) by {
            assert(is_blank(after[i]));
        }
        law_trimming_blanks_changes_nothing(before, s, after.drop_last());
        lemma_trim_push(shorter, c, p);
    } else {
        assert(whole =~= s);
    }
}

/// A last character that is trimmed makes no difference.
proof fn lemma_trim_push(s: Seq<char>, c: char, p: spec_fn(char) -> bool)
    requires
        p(c),
    ensures
        trim_by(s.push(c), p) == trim_by(s, p),
    decreases s.len(),
{
    let t = s.push(c);
    if s.len() == 0 {
        assert(t.drop_first() =~= s);
        assert(trim_start_by(t, p) == trim_start_by(t.drop_first(), p));
    } else if p(s.first()) {
        assert(t.first() == s.first());
        assert(t.drop_first() =~= s.drop_first().push(c));
        lemma_trim_push(s.drop_first(), c, p);
    } else {
        assert(t.first() == s.first());
        assert(t.drop_last() =~= s);
        assert(trim_end_by(t, p) == trim_end_by(t.drop_last(), p));
    }
}

/// What stands in one of two texts stands in the two together.
pub broadcast proof fn lemma_longer_contains(a: Seq<char>, b: Seq<char>, needle: Seq<char>)
    ensures
        contains(a, needle) || contains(b, needle) ==> #[trigger] contains(a + b, needle),
{
    if contains(a, needle) {
        let i = choose|i: int| occurs_at(a, needle, i);
        assert((a + b).subrange(i, i + needle.len()) =~= a.subrange(i, i + needle.len()));
        assert(occurs_at(a + b, needle, i));
    }
    if contains(b, needle) {
        let i = choose|i: int| occurs_at(b, needle, i);
        let j = a.len() + i;
        assert((a + b).subrange(j, j + needle.len()) =~= b.subrange(i, i + needle.len()));
        assert(occurs_at(a + b, needle, j));
    }
}

/// A text stands between what is put around it.
pub proof fn lemma_between(a: Seq<char>, needle: Seq<char>, b: Seq<char>)
    ensures
        occurs_at(a + needle + b, needle, a.len() as int),
        contains(a + needle + b, needle),
{
    let i = a.len() as int;
    assert((a + needle + b).subrange(i, i + needle.len()) =~= needle);
    assert(occurs_at(a + needle + b, needle, i));
}

/// Each of the letters `A` to `Z` becomes the letter with the same place in
/// `a` to `z`, and nothing else changes.
pub proof fn law_letters_become_small(s: Seq<char>, i: int, k: int)
    requires
        0 <= i < s.len(),
        0 <= k < 26,
    ensures
        lower(s).len() == s.len(),
        s[i] == (65 + k) as char ==> lower(s)[i] == (97 + k) as char,
        !('A' <= s[i] <= 'Z') ==> lower(s)[i] == s[i],
        lower(lower(s)) == lower(s),
{
    let c = s[i];
    if c == (65 + k) as char {
        assert(c as int == 65 + k);
    }
    assert(lower(lower(s)) =~= lower(s)) by {
        assert forall|j: int| 0 <= j < s.len() implies lower(lower(s))[j] == #[trigger] lower(
            s,
        )[j] by {
            lemma_lower_twice(s[j]);
        }
    }
}

/// A small letter stays as it is.
proof fn lemma_lower_twice(c: char)
    ensures
        lower_char(lower_char(c)) == lower_char(c),
{
    if 'A' <= c <= 'Z' {
        assert(lower_char(c) as int == c as int + 32);
    }
}

/// Where a text stands from a position on does not depend on what is in front.
pub proof fn lemma_find_behind(front: Seq<char>, s: Seq<char>, needle: Seq<char>, from: int)
    requires
        0 <= from,
    ensures
        match find_from(s, needle, from) {
            Some(i) => find_from(front + s, needle, front.len() + from) == Some(front.len() + i),
            None => find_from(front + s, needle, front.len() + from) is None,
        },
    decreases s.len() - from + 1,
{
    let whole = front + s;
    let at = front.len() + from;
    if from + needle.len() <= s.len() {
        assert(whole.subrange(at, at + needle.len()) =~= s.subrange(from, from + needle.len()));
        assert(occurs_at(whole, needle, at) == occurs_at(s, needle, from));
        if !occurs_at(s, needle, from) {
            lemma_find_behind(front, s, needle, from + 1);
        }
    }
}

/// Where a character stands from a position on does not depend on what is in front.
pub proof fn lemma_find_char_behind(front: Seq<char>, s: Seq<char>, c: char, from: int)
    requires
        0 <= from,
    ensures
        match find_char_from(s, c, from) {
            Some(i) => find_char_from(front + s, c, front.len() + from) == Some(front.len() + i),
            None => find_char_from(front + s, c, front.len() + from) is None,
        },
    decreases s.len() - from,
{
    if from < s.len() {
        assert((front + s)[front.len() + from] == s[from]);
        if s[from] != c {
            lemma_find_char_behind(front, s, c, from + 1);
        }
    }
}

/// Every character of `s` is `q`.
pub open spec fn all_are(s: Seq<char>, q: char) -> bool {
    forall|i: int| 0 <= i < s.len() ==> #[trigger] s[i] == q
}

/// The quotation marks around a text are taken off, however many there are, and
/// those inside it stay.
pub proof fn law_quotes_are_taken_off(before: Seq<char>, s: Seq<char>, after: Seq<char>, q: char)
    requires
        all_are(before, q),
        all_are(after, q),
        s.len() > 0,
        s.first() != q,
        s.last() != q,
    ensures
        unquoted(before + s + after, q) == s,
{
    let p = equals_char(q);
    let whole = before + s + after;
    let i = before.len() as int;
    assert forall|k: int| 0 <= k < i implies p(#[trigger] whole[k]) by {
        assert(before[k] == q);
    }
    assert(whole[i] == s.first());
    lemma_trim_start(whole, i, p);
    let rest = whole.subrange(i, whole.len() as int);
    assert(rest =~= s + after);
    let j = s.len() as int;
    assert forall|k: int| j <= k < rest.len() implies p(#[trigger] rest[k]) by {
        assert(after[k - j] == q);
    }
    assert(rest[j - 1] == s.last());
    lemma_trim_end(rest, j, p);
    assert(rest.subrange(0, j) =~= s);
}

/// A value between two tags, where more stands around the tags.
pub proof fn lemma_tagged(
    p: Seq<char>,
    front: Seq<char>,
    open: Seq<char>,
    value: Seq<char>,
    close: Seq<char>,
    back: Seq<char>,
    before: Seq<char>,
    behind: Seq<char>,
)
    requires
        before == front + open,
        behind == close + back,
    ensures
        contains(p + before + value + behind, open + value + close),
{
    let it = open + value + close;
    assert(p + before + value + behind =~= (p + front) + it + back);
    lemma_between(p + front, it, back);
}

/// White space is what Unicode calls so: a text of one such character trims to
/// nothing, and one of any other character stays as it is.
pub proof fn law_what_is_white_space(c: char)
    ensures
        ({
            let is_white = '\u{9}' <= c <= '\u{d}' || c == ' ' || c == '\u{85}' || c == '\u{a0}' || c
                == '\u{1680}' || '\u{2000}' <= c <= '\u{200a}' || c == '\u{2028}' || c
                == '\u{2029}' || c == '\u{202f}' || c == '\u{205f}' || c == '\u{3000}';
            trimmed(seq![c]) == if is_white {
                Seq::empty()
            } else {
                seq![c]
            }
        }),
{
    let p = |c: char| is_white_space(c);
    let s = seq![c];
    reveal_with_fuel(trim_start_by, 2);
    reveal_with_fuel(trim_end_by, 2);
    assert(s.first() == c && s.last() == c);
    assert(s.drop_first() =~= Seq::<char>::empty());
    assert(trim_start_by(s, p) == if is_white_space(c) {
        Seq::empty()
    } else {
        s
    });
}

} // verus!
