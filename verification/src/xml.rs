//! Text in XML.

use crate::text;
use vstd::prelude::*;

verus! {

/// A character as it stands in XML text or in an attribute.
pub open spec fn escaped_char(c: char) -> Seq<char> {
    if c == '&' {
        "&amp;"@
    } else if c == '<' {
        "&lt;"@
    } else if c == '>' {
        "&gt;"@
    } else if c == '"' {
        "&quot;"@
    } else if c == '\'' {
        "&apos;"@
    } else {
        seq![c]
    }
}

/// Text as it stands in XML.
pub open spec fn escaped(s: Seq<char>) -> Seq<char>
    decreases s.len(),
{
    if s.len() == 0 {
        Seq::empty()
    } else {
        escaped(s.drop_last()) + escaped_char(s.last())
    }
}

/// Writes text for XML: `&`, `<`, `>` and both quotes become entities.
pub fn xml_escape(s: &str) -> (r: String)
    ensures
        r@ == escaped(s@),
{
    let v = text::to_chars(s);
    let mut r = String::new();
    let mut i: usize = 0;
    assert(v@.take(0) =~= Seq::<char>::empty());
    while i < v.len()
        invariant
            v@ == s@,
            i <= v@.len(),
            r@ == escaped(v@.take(i as int)),
        decreases v@.len() - i,
    {
        let c: char = v[i];
        let ghost before = r@;
        if c == '&' {
            r.append("&amp;");
        } else if c == '<' {
            r.append("&lt;");
        } else if c == '>' {
            r.append("&gt;");
        } else if c == '"' {
            r.append("&quot;");
        } else if c == '\'' {
            r.append("&apos;");
        } else {
            r.push(c);
            assert(r@ =~= before + seq![c]);
        }
        i += 1;
        assert(v@.take(i as int).drop_last() =~= v@.take(i - 1));
    }
    assert(v@.take(i as int) =~= v@);
    r
}

/// The entities, spelled out.
proof fn lemma_entities()
    ensures
        "&amp;"@ =~= seq!['&', 'a', 'm', 'p', ';'],
        "&lt;"@ =~= seq!['&', 'l', 't', ';'],
        "&gt;"@ =~= seq!['&', 'g', 't', ';'],
        "&quot;"@ =~= seq!['&', 'q', 'u', 'o', 't', ';'],
        "&apos;"@ =~= seq!['&', 'a', 'p', 'o', 's', ';'],
{
    reveal_strlit("&amp;");
    reveal_strlit("&lt;");
    reveal_strlit("&gt;");
    reveal_strlit("&quot;");
    reveal_strlit("&apos;");
}

/// Escaped text holds no markup: no angle bracket and no quote.
pub proof fn law_escaped_text_has_no_markup(s: Seq<char>, i: int)
    requires
        0 <= i < escaped(s).len(),
    ensures
        escaped(s)[i] != '<',
        escaped(s)[i] != '>',
        escaped(s)[i] != '"',
        escaped(s)[i] != '\'',
    decreases s.len(),
{
    lemma_entities();
    let head = escaped(s.drop_last());
    if i < head.len() {
        law_escaped_text_has_no_markup(s.drop_last(), i);
    } else {
        assert(escaped(s)[i] == escaped_char(s.last())[i - head.len()]);
    }
}

/// What the entity at the front of escaped text stands for, and how long it is.
spec fn first_meant(t: Seq<char>) -> (char, int) {
    if t[0] != '&' {
        (t[0], 1)
    } else if t[1] == 'a' && t[2] == 'm' {
        ('&', 5)
    } else if t[1] == 'l' {
        ('<', 4)
    } else if t[1] == 'g' {
        ('>', 4)
    } else if t[1] == 'q' {
        ('"', 6)
    } else {
        ('\'', 6)
    }
}

/// Escaping from the front.
proof fn lemma_escaped_front(s: Seq<char>)
    requires
        s.len() > 0,
    ensures
        escaped(s) == escaped_char(s[0]) + escaped(s.drop_first()),
    decreases s.len(),
{
    if s.len() == 1 {
        assert(s.drop_last() =~= Seq::<char>::empty());
        assert(s.drop_first() =~= Seq::<char>::empty());
        assert(escaped(s) =~= escaped_char(s[0]) + escaped(s.drop_first()));
    } else {
        lemma_escaped_front(s.drop_last());
        let mid = s.drop_first();
        assert(s.drop_last().drop_first() =~= mid.drop_last());
        assert(escaped(s) =~= escaped_char(s[0]) + escaped(mid));
    }
}

/// No two texts are escaped alike, so a reader gets back what was written.
pub proof fn law_escaping_loses_nothing(a: Seq<char>, b: Seq<char>)
    requires
        escaped(a) == escaped(b),
    ensures
        a == b,
    decreases a.len(),
{
    lemma_entities();
    if a.len() > 0 {
        lemma_escaped_front(a);
    }
    if b.len() > 0 {
        lemma_escaped_front(b);
    }
    let t = escaped(a);
    if a.len() > 0 && b.len() > 0 {
        let ea = escaped_char(a[0]);
        let eb = escaped_char(b[0]);
        assert(first_meant(t) == (a[0], ea.len() as int)) by {
            assert forall|k: int| 0 <= k < ea.len() implies #[trigger] t[k] == ea[k] by {}
        }
        assert(first_meant(t) == (b[0], eb.len() as int)) by {
            assert forall|k: int| 0 <= k < eb.len() implies #[trigger] t[k] == eb[k] by {}
        }
        let n = ea.len() as int;
        assert(escaped(a.drop_first()) =~= t.subrange(n, t.len() as int));
        assert(escaped(b.drop_first()) =~= t.subrange(n, t.len() as int));
        law_escaping_loses_nothing(a.drop_first(), b.drop_first());
        assert(a =~= seq![a[0]] + a.drop_first());
        assert(b =~= seq![b[0]] + b.drop_first());
    } else if a.len() > 0 {
        assert(t.len() > 0);
    } else if b.len() > 0 {
        assert(t.len() > 0);
    } else {
        assert(a =~= b);
    }
}

/// What the reference at the front of text stands for, and how long it is; a
/// character that begins none stands for itself.
pub open spec fn first_read(t: Seq<char>) -> (char, int) {
    if text::starts_with(t, "&amp;"@) {
        ('&', 5)
    } else if text::starts_with(t, "&lt;"@) {
        ('<', 4)
    } else if text::starts_with(t, "&gt;"@) {
        ('>', 4)
    } else if text::starts_with(t, "&quot;"@) {
        ('"', 6)
    } else if text::starts_with(t, "&apos;"@) {
        ('\'', 6)
    } else {
        (t[0], 1)
    }
}

/// Text as a reader of XML takes it.
pub open spec fn read_text(t: Seq<char>) -> Seq<char>
    decreases t.len(),
{
    if t.len() == 0 {
        Seq::empty()
    } else {
        let (c, n) = first_read(t);
        if 1 <= n <= t.len() {
            seq![c] + read_text(t.subrange(n, t.len() as int))
        } else {
            Seq::empty()
        }
    }
}

/// A reader of XML gets back the text that was escaped.
pub proof fn law_escaped_text_is_read_back(s: Seq<char>)
    ensures
        read_text(escaped(s)) == s,
    decreases s.len(),
{
    lemma_entities();
    if s.len() > 0 {
        lemma_escaped_front(s);
        let e = escaped_char(s[0]);
        let rest = escaped(s.drop_first());
        let t = escaped(s);
        assert(t =~= e + rest);
        lemma_first_read(s[0], rest);
        assert(t.subrange(e.len() as int, t.len() as int) =~= rest);
        law_escaped_text_is_read_back(s.drop_first());
        assert(seq![s[0]] + s.drop_first() =~= s);
    } else {
        assert(escaped(s) =~= Seq::<char>::empty());
        assert(s =~= Seq::<char>::empty());
    }
}

/// An escaped character reads as itself.
proof fn lemma_first_read(c: char, rest: Seq<char>)
    ensures
        first_read(escaped_char(c) + rest) == (c, escaped_char(c).len() as int),
{
    lemma_entities();
    let e = escaped_char(c);
    let t = e + rest;
    assert(t.subrange(0, e.len() as int) =~= e);
    assert(t[0] == e[0]);
    assert(text::starts_with(t, "&amp;"@) ==> t.subrange(0, 5)[1] == 'a' && t.subrange(0, 5)[2]
        == 'm' && t.subrange(0, 5)[0] == '&');
    assert(text::starts_with(t, "&lt;"@) ==> t.subrange(0, 4)[1] == 'l' && t.subrange(0, 4)[0]
        == '&');
    assert(text::starts_with(t, "&gt;"@) ==> t.subrange(0, 4)[1] == 'g' && t.subrange(0, 4)[0]
        == '&');
    assert(text::starts_with(t, "&quot;"@) ==> t.subrange(0, 6)[1] == 'q' && t.subrange(0, 6)[0]
        == '&');
    assert(text::starts_with(t, "&apos;"@) ==> t.subrange(0, 6)[1] == 'a' && t.subrange(0, 6)[2]
        == 'p' && t.subrange(0, 6)[0] == '&');
    if c == '&' {
        assert(text::starts_with(t, "&amp;"@));
    } else if c == '<' {
        assert(text::starts_with(t, "&lt;"@));
        assert(t[1] == 'l');
    } else if c == '>' {
        assert(text::starts_with(t, "&gt;"@));
        assert(t[1] == 'g');
    } else if c == '"' {
        assert(text::starts_with(t, "&quot;"@));
        assert(t[1] == 'q');
    } else if c == '\'' {
        assert(text::starts_with(t, "&apos;"@));
        assert(t[1] == 'a' && t[2] == 'p');
    } else {
        assert(t[0] == c);
    }
}

} // verus!
