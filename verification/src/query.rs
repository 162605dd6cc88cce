//! Search criteria.

use crate::text;
use vstd::prelude::*;

verus! {

/// The quoted terms behind each `contains`, from `from` on. `low` is `c` in lower case.
pub open spec fn terms_from(c: Seq<char>, low: Seq<char>, from: int) -> Seq<Seq<char>>
    decreases c.len() - from,
{
    if from < 0 || from > c.len() || low.len() != c.len() {
        Seq::empty()
    } else {
        match text::find_from(low, "contains"@, from) {
            None => Seq::empty(),
            Some(k) => match text::find_char_from(c, '"', k + 8) {
                None => Seq::empty(),
                Some(q1) => match text::find_char_from(c, '"', q1 + 1) {
                    None => Seq::empty(),
                    Some(q2) => {
                        proof {
                            reveal_strlit("contains");
                            text::lemma_find_from(low, "contains"@, from);
                            text::lemma_find_char_from(c, '"', k + 8);
                            text::lemma_find_char_from(c, '"', q1 + 1);
                        }
                        let term = text::trimmed(c.subrange(q1 + 1, q2));
                        let rest = terms_from(c, low, q2 + 1);
                        if term.len() > 0 {
                            seq![term] + rest
                        } else {
                            rest
                        }
                    },
                },
            },
        }
    }
}

/// The terms that a title must hold.
pub open spec fn title_terms(criteria: Seq<char>) -> Seq<Seq<char>> {
    terms_from(criteria, text::lower(criteria), 0)
}

/// Reads the terms that a title must hold.
pub fn title_search_terms(criteria: &str) -> (r: Vec<String>)
    ensures
        text::texts(r@) == title_terms(criteria@),
{
    let c = text::to_chars(criteria);
    let low = text::lower_chars(criteria);
    let word = text::to_chars("contains");
    let n: usize = c.len();
    let mut terms: Vec<String> = Vec::new();
    let mut from: usize = 0;
    assert(text::texts(terms@) + terms_from(c@, low@, 0) =~= title_terms(criteria@));
    proof {
        reveal_strlit("contains");
    }
    loop
        invariant
            n == c@.len() == low@.len(),
            from <= n,
            word@ == "contains"@,
            word@.len() == 8,
            text::texts(terms@) + terms_from(c@, low@, from as int) == title_terms(criteria@),
        ensures
            text::texts(terms@) == title_terms(criteria@),
        decreases n - from,
    {
        proof {
            text::lemma_find_from(low@, word@, from as int);
        }
        let ghost before = text::texts(terms@);
        let ghost none = Seq::<Seq<char>>::empty();
        assert(before + none =~= before);
        let k: usize = match text::find(&low, &word, from) {
            Some(k) => k,
            None => {
                break;
            },
        };
        proof {
            text::lemma_find_char_from(c@, '"', k + 8);
        }
        let q1: usize = match text::find_char(&c, '"', k + 8) {
            Some(q) => q,
            None => {
                break;
            },
        };
        proof {
            text::lemma_find_char_from(c@, '"', q1 + 1);
        }
        let q2: usize = match text::find_char(&c, '"', q1 + 1) {
            Some(q) => q,
            None => {
                break;
            },
        };
        let inner = text::text_of(&c, q1 + 1, q2);
        let term = text::trim(inner.as_str());
        let ghost rest = terms_from(c@, low@, q2 + 1);
        if !term.as_str().is_empty() {
            let ghost t = term@;
            terms.push(term);
            assert(text::texts(terms@) =~= before.push(t));
            assert(text::texts(terms@) + rest =~= before + (seq![t] + rest));
        }
        from = q2 + 1;
    }
    terms
}

/// A search that leaves nothing out.
pub open spec fn matches_all(criteria: Seq<char>) -> bool {
    text::trimmed(criteria).len() == 0 || text::trimmed(criteria) == "*"@
}

/// A file, by its title and its MIME type, meets search criteria: it is of each
/// kind that they name, and its title holds each term that they ask for. Case
/// makes no difference.
pub open spec fn meets(title: Seq<char>, mime: Seq<char>, criteria: Seq<char>) -> bool {
    let c = text::trimmed(criteria);
    let low = text::lower(c);
    matches_all(criteria) || {
        &&& text::contains(low, "videoitem"@) ==> text::starts_with(mime, "video/"@)
        &&& text::contains(low, "audioitem"@) || text::contains(low, "musictrack"@)
            ==> text::starts_with(mime, "audio/"@)
        &&& forall|i: int|
            0 <= i < title_terms(c).len() ==> text::contains(
                text::lower(title),
                text::lower(#[trigger] title_terms(c)[i]),
            )
    }
}

/// Decides whether a file meets search criteria.
pub fn matches_search(title: &str, mime: &str, criteria: &str) -> (r: bool)
    ensures
        r == meets(title@, mime@, criteria@),
{
    let c = text::trim(criteria);
    if c.as_str().is_empty() || text::same_text(c.as_str(), "*") {
        return true;
    }
    let low = text::lower_chars(c.as_str());
    let video = text::to_chars("videoitem");
    if text::has_text(&low, &video) && !text::has_prefix(mime, "video/") {
        return false;
    }
    let audio = text::to_chars("audioitem");
    let music = text::to_chars("musictrack");
    if (text::has_text(&low, &audio) || text::has_text(&low, &music)) && !text::has_prefix(
        mime,
        "audio/",
    ) {
        return false;
    }
    let terms = title_search_terms(c.as_str());
    let ghost wanted = title_terms(c@);
    let low_title = text::lower_chars(title);
    let mut i: usize = 0;
    while i < terms.len()
        invariant
            i <= terms@.len(),
            text::texts(terms@) == wanted,
            wanted == title_terms(text::trimmed(criteria@)),
            !matches_all(criteria@),
            low_title@ == text::lower(title@),
            forall|k: int|
                0 <= k < i ==> text::contains(
                    text::lower(title@),
                    text::lower(#[trigger] wanted[k]),
                ),
        decreases terms@.len() - i,
    {
        assert(wanted[i as int] == terms@[i as int]@);
        let term = text::lower_chars(terms[i].as_str());
        if !text::has_text(&low_title, &term) {
            return false;
        }
        i += 1;
    }
    true
}

/// The terms behind a position do not depend on what is in front of it.
proof fn lemma_terms_behind(front: Seq<char>, c: Seq<char>, from: int)
    requires
        0 <= from <= c.len(),
    ensures
        terms_from(front + c, text::lower(front + c), front.len() + from) == terms_from(
            c,
            text::lower(c),
            from,
        ),
    decreases c.len() - from,
{
    let low = text::lower(c);
    let whole = front + c;
    reveal_strlit("contains");
    assert(text::lower(whole) =~= text::lower(front) + low);
    text::lemma_find_behind(text::lower(front), low, "contains"@, from);
    text::lemma_find_from(low, "contains"@, from);
    match text::find_from(low, "contains"@, from) {
        None => {},
        Some(k) => {
            text::lemma_find_char_behind(front, c, '"', k + 8);
            text::lemma_find_char_from(c, '"', k + 8);
            match text::find_char_from(c, '"', k + 8) {
                None => {},
                Some(q1) => {
                    text::lemma_find_char_behind(front, c, '"', q1 + 1);
                    text::lemma_find_char_from(c, '"', q1 + 1);
                    match text::find_char_from(c, '"', q1 + 1) {
                        None => {},
                        Some(q2) => {
                            let n = front.len() as int;
                            assert(whole.subrange(n + q1 + 1, n + q2) =~= c.subrange(q1 + 1, q2));
                            lemma_terms_behind(front, c, q2 + 1);
                        },
                    }
                },
            }
        },
    }
}

/// The terms of criteria are the quoted texts behind each `contains`, in
/// whatever case that word is spelled, without the blanks around them; the next
/// `contains` is looked for behind the closing quotation mark.
pub proof fn law_terms_are_the_quoted_texts(
    before: Seq<char>,
    word: Seq<char>,
    between: Seq<char>,
    term: Seq<char>,
    after: Seq<char>,
)
    requires
        text::lower(word) == "contains"@,
        forall|i: int|
            0 <= i < before.len() ==> !#[trigger] text::occurs_at(
                text::lower(before + word),
                "contains"@,
                i,
            ),
        forall|i: int| 0 <= i < between.len() ==> #[trigger] between[i] != '"',
        forall|i: int| 0 <= i < term.len() ==> #[trigger] term[i] != '"',
    ensures
        title_terms(before + word + between + seq!['"'] + term + seq!['"'] + after) == if text::trimmed(
            term,
        ).len() > 0 {
            seq![text::trimmed(term)] + title_terms(after)
        } else {
            title_terms(after)
        },
{
    reveal_strlit("contains");
    let c = before + word + between + seq!['"'] + term + seq!['"'] + after;
    let low = text::lower(c);
    let k = before.len() as int;
    assert(word.len() == 8) by {
        assert(text::lower(word).len() == word.len());
    }
    let head = text::lower(before + word);
    assert(low.subrange(k, k + 8) =~= "contains"@) by {
        assert forall|i: int| 0 <= i < 8 implies low[k + i] == #[trigger] text::lower(word)[i] by {}
    }
    assert forall|i: int| 0 <= i < k implies !#[trigger] text::occurs_at(
        low,
        "contains"@,
        i,
    ) by {
        assert(!text::occurs_at(head, "contains"@, i));
        assert(low.subrange(i, i + 8) =~= head.subrange(i, i + 8));
    }
    text::lemma_text_at(low, "contains"@, 0, k);
    let q1 = k + 8 + between.len();
    assert forall|i: int| k + 8 <= i < q1 implies #[trigger] c[i] != '"' by {
        assert(c[i] == between[i - k - 8]);
    }
    text::lemma_char_at(c, '"', k + 8, q1);
    let q2 = q1 + 1 + term.len();
    assert forall|i: int| q1 + 1 <= i < q2 implies #[trigger] c[i] != '"' by {
        assert(c[i] == term[i - q1 - 1]);
    }
    text::lemma_char_at(c, '"', q1 + 1, q2);
    assert(c.subrange(q1 + 1, q2) =~= term);
    let front = before + word + between + seq!['"'] + term + seq!['"'];
    lemma_terms_behind(front, after, 0);
    assert(front.len() == q2 + 1);
}

/// Criteria without the word `contains` ask for no term.
pub proof fn law_no_terms_without_the_word(c: Seq<char>)
    requires
        !text::contains(text::lower(c), "contains"@),
    ensures
        title_terms(c).len() == 0,
{
    reveal_strlit("contains");
    let low = text::lower(c);
    text::lemma_find_from(low, "contains"@, 0);
    match text::find_from(low, "contains"@, 0) {
        Some(i) => {
            assert(text::occurs_at(low, "contains"@, i));
        },
        None => {},
    }
}

/// Criteria that are empty, or a single asterisk, are met by every file.
pub proof fn law_empty_criteria_are_met(
    title: Seq<char>,
    mime: Seq<char>,
    before: Seq<char>,
    after: Seq<char>,
)
    requires
        text::all_blank(before),
        text::all_blank(after),
    ensures
        meets(title, mime, before + after),
        meets(title, mime, before + "*"@ + after),
{
    let none = Seq::<char>::empty();
    text::law_blanks_are_trimmed(before, none, after);
    assert(before + none + after =~= before + after);
    reveal_strlit("*");
    text::law_blanks_are_trimmed(before, "*"@, after);
}

/// A file that meets criteria holds every quoted term behind a `contains` in its
/// title, in whatever case, also where the criteria name a class.
pub proof fn law_found_titles_hold_the_terms(
    title: Seq<char>,
    mime: Seq<char>,
    criteria: Seq<char>,
    i: int,
)
    requires
        text::is_tight(criteria),
        criteria.len() > 0,
        criteria != "*"@,
        meets(title, mime, criteria),
        0 <= i < title_terms(criteria).len(),
    ensures
        exists|at: int| #[trigger]
            text::occurs_at(text::lower(title), text::lower(title_terms(criteria)[i]), at),
{
    text::lemma_tight_is_trimmed(criteria);
    assert(text::contains(text::lower(title), text::lower(title_terms(criteria)[i])));
}

/// Criteria that name video items are met by video files alone, and criteria
/// that name audio items or music tracks by audio files alone, in whatever case
/// the class is spelled.
pub proof fn law_found_files_are_of_the_class(
    title: Seq<char>,
    mime: Seq<char>,
    criteria: Seq<char>,
)
    requires
        text::is_tight(criteria),
        criteria.len() > 0,
        criteria != "*"@,
        meets(title, mime, criteria),
    ensures
        text::contains(text::lower(criteria), "videoitem"@) ==> text::starts_with(
            mime,
            "video/"@,
        ),
        text::contains(text::lower(criteria), "audioitem"@) ==> text::starts_with(
            mime,
            "audio/"@,
        ),
        text::contains(text::lower(criteria), "musictrack"@) ==> text::starts_with(
            mime,
            "audio/"@,
        ),
{
    text::lemma_tight_is_trimmed(criteria);
}

/// A file that is of the class that criteria name, and whose title holds every
/// term that they quote, meets them.
pub proof fn law_fitting_files_are_found(title: Seq<char>, mime: Seq<char>, criteria: Seq<char>)
    requires
        text::is_tight(criteria),
        text::contains(text::lower(criteria), "videoitem"@) ==> text::starts_with(
            mime,
            "video/"@,
        ),
        text::contains(text::lower(criteria), "audioitem"@) || text::contains(
            text::lower(criteria),
            "musictrack"@,
        ) ==> text::starts_with(mime, "audio/"@),
        forall|i: int|
            0 <= i < title_terms(criteria).len() ==> text::contains(
                text::lower(title),
                text::lower(#[trigger] title_terms(criteria)[i]),
            ),
    ensures
        meets(title, mime, criteria),
{
    text::lemma_tight_is_trimmed(criteria);
}

/// A search for a word in the title finds the files whose title holds it, in
/// whatever case, and no others.
pub proof fn law_titles_are_searched(title: Seq<char>, mime: Seq<char>, term: Seq<char>)
    requires
        term.len() > 0,
        text::is_tight(term),
        forall|i: int| 0 <= i < term.len() ==> #[trigger] term[i] != '"',
        !text::contains(text::lower("dc:title contains \""@ + term + "\""@), "videoitem"@),
        !text::contains(text::lower("dc:title contains \""@ + term + "\""@), "audioitem"@),
        !text::contains(text::lower("dc:title contains \""@ + term + "\""@), "musictrack"@),
    ensures
        meets(title, mime, "dc:title contains \""@ + term + "\""@) <==> text::contains(
            text::lower(title),
            text::lower(term),
        ),
{
    reveal_strlit("dc:title contains \"");
    reveal_strlit("dc:title ");
    reveal_strlit("contains");
    reveal_strlit("\"");
    reveal_strlit("*");
    let c = "dc:title contains \""@ + term + "\""@;
    let none = Seq::<char>::empty();
    let before = "dc:title "@;
    assert(text::lower("contains"@) =~= "contains"@);
    let head = text::lower(before + "contains"@);
    assert forall|i: int| 0 <= i < before.len() implies !#[trigger] text::occurs_at(
        head,
        "contains"@,
        i,
    ) by {
        if text::occurs_at(head, "contains"@, i) {
            assert(head.subrange(i, i + 8)[0] == "contains"@[0]);
            assert(head.subrange(i, i + 8)[1] == "contains"@[1]);
            assert(head[i] == 'c' && head[i + 1] == 'o');
            assert(head[0] == 'd' && head[1] == 'c' && head[2] == ':' && head[3] == 't' && head[4]
                == 'i' && head[5] == 't' && head[6] == 'l' && head[7] == 'e' && head[8] == ' ');
        }
    }
    law_terms_are_the_quoted_texts(before, "contains"@, seq![' '], term, none);
    assert(before + "contains"@ + seq![' '] + seq!['"'] + term + seq!['"'] + none =~= c);
    assert(!text::contains(text::lower(none), "contains"@)) by {
        assert(text::lower(none).len() == 0);
    }
    law_no_terms_without_the_word(none);
    text::lemma_tight_is_trimmed(term);
    assert(title_terms(c) =~= seq![term]);
    assert(c.first() == 'd' && c.last() == '"');
    text::lemma_tight_is_trimmed(c);
    assert(c.len() > 1 && "*"@.len() == 1);
    assert(title_terms(c)[0] == term);
}

/// A search for a word in the titles of the video items finds the video files
/// whose title holds it, in whatever case, and no others.
pub proof fn law_titles_of_a_class_are_searched(title: Seq<char>, mime: Seq<char>, term: Seq<char>)
    requires
        term.len() > 0,
        text::is_tight(term),
        forall|i: int| 0 <= i < term.len() ==> #[trigger] term[i] != '"',
        !text::contains(text::lower(video_search(term)), "audioitem"@),
        !text::contains(text::lower(video_search(term)), "musictrack"@),
    ensures
        meets(title, mime, video_search(term)) <==> text::starts_with(mime, "video/"@)
            && text::contains(text::lower(title), text::lower(term)),
{
    reveal_strlit("upnp:class derivedfrom \"object.item.videoItem\" and dc:title contains \"");
    reveal_strlit("upnp:class derivedfrom \"object.item.videoItem\" and dc:title ");
    reveal_strlit("contains");
    reveal_strlit("videoitem");
    reveal_strlit("\"");
    reveal_strlit("*");
    let c = video_search(term);
    let none = Seq::<char>::empty();
    let before = "upnp:class derivedfrom \"object.item.videoItem\" and dc:title "@;
    assert(text::lower("contains"@) =~= "contains"@);
    let head = text::lower(before + "contains"@);
    assert forall|i: int| 0 <= i < before.len() implies !#[trigger] text::occurs_at(
        head,
        "contains"@,
        i,
    ) by {
        if text::occurs_at(head, "contains"@, i) {
            assert(head.subrange(i, i + 8)[0] == "contains"@[0]);
            assert(head.subrange(i, i + 8)[1] == "contains"@[1]);
            assert(head[i] == 'c' && head[i + 1] == 'o');
            assert(head[i] == before[i] || head[i] == text::lower_char(before[i]));
        }
    }
    law_terms_are_the_quoted_texts(before, "contains"@, seq![' '], term, none);
    assert(before + "contains"@ + seq![' '] + seq!['"'] + term + seq!['"'] + none =~= c);
    assert(!text::contains(text::lower(none), "contains"@)) by {
        assert(text::lower(none).len() == 0);
    }
    law_no_terms_without_the_word(none);
    text::lemma_tight_is_trimmed(term);
    assert(title_terms(c) =~= seq![term]);
    assert(c.first() == 'u' && c.last() == '"');
    text::lemma_tight_is_trimmed(c);
    assert(c.len() > 1 && "*"@.len() == 1);
    assert(title_terms(c)[0] == term);
    assert(text::lower(c).subrange(36, 45) =~= "videoitem"@);
    assert(text::occurs_at(text::lower(c), "videoitem"@, 36));
}

/// The criteria that a client sends to search for a word in the titles of the
/// video items.
pub open spec fn video_search(term: Seq<char>) -> Seq<char> {
    "upnp:class derivedfrom \"object.item.videoItem\" and dc:title contains \""@ + term + "\""@
}

} // verus!
