//! Sequences of any kind of item: splitting, joining and dictionary order.

use vstd::prelude::*;

verus! {

/// The first position at or after `from` that holds `x`.
pub open spec fn position_from<A>(s: Seq<A>, x: A, from: int) -> Option<int>
    decreases s.len() - from,
{
    if from >= s.len() {
        None
    } else if s[from] == x {
        Some(from)
    } else {
        position_from(s, x, from + 1)
    }
}

/// The pieces of `s[from..]` between the occurrences of `sep`.
pub open spec fn pieces_from<A>(s: Seq<A>, sep: A, from: int) -> Seq<Seq<A>>
    decreases s.len() - from + 1,
{
    proof {
        lemma_position_from(s, sep, from);
    }
    match position_from(s, sep, from) {
        Some(i) => seq![s.subrange(from, i)] + pieces_from(s, sep, i + 1),
        None => seq![s.subrange(from, s.len() as int)],
    }
}

/// The pieces of `s` between the occurrences of `sep`; one piece where there is none.
pub open spec fn split<A>(s: Seq<A>, sep: A) -> Seq<Seq<A>> {
    pieces_from(s, sep, 0)
}

/// The pieces one after the other, `sep` between each two.
pub open spec fn join<A>(pieces: Seq<Seq<A>>, sep: Seq<A>) -> Seq<A>
    decreases pieces.len(),
{
    if pieces.len() == 0 {
        Seq::empty()
    } else if pieces.len() == 1 {
        pieces[0]
    } else {
        join(pieces.drop_last(), sep) + sep + pieces.last()
    }
}

/// `position_from` gives the first position, where there is one.
pub proof fn lemma_position_from<A>(s: Seq<A>, x: A, from: int)
    ensures
        match position_from(s, x, from) {
            Some(i) => from <= i < s.len() && s[i] == x && forall|k: int|
                from <= k < i ==> #[trigger] s[k] != x,
            None => forall|k: int| from <= k < s.len() ==> #[trigger] s[k] != x,
        },
    decreases s.len() - from,
{
    if from < s.len() && s[from] != x {
        lemma_position_from(s, x, from + 1);
    }
}

/// The position at which `x` first stands is where `position_from` points.
pub proof fn lemma_position_is<A>(s: Seq<A>, x: A, from: int, i: int)
    requires
        from <= i < s.len(),
        s[i] == x,
        forall|k: int| from <= k < i ==> #[trigger] s[k] != x,
    ensures
        position_from(s, x, from) == Some(i),
{
    lemma_position_from(s, x, from);
}

/// Splitting depends on nothing but what is split.
pub proof fn lemma_pieces_shift<A>(s: Seq<A>, t: Seq<A>, sep: A, from: int, at: int)
    requires
        0 <= from <= s.len(),
        0 <= at <= t.len(),
        s.subrange(from, s.len() as int) == t.subrange(at, t.len() as int),
    ensures
        pieces_from(s, sep, from) == pieces_from(t, sep, at),
    decreases s.len() - from,
{
    let rest = s.subrange(from, s.len() as int);
    let other = t.subrange(at, t.len() as int);
    assert(rest.len() == s.len() - from && other.len() == t.len() - at && rest == other);
    assert forall|m: int| from <= m < s.len() implies #[trigger] s[m] == t[at + (m - from)] by {
        assert(rest[m - from] == s[m]);
        assert(other[m - from] == t[at + (m - from)]);
    }
    assert forall|m: int| at <= m < t.len() implies #[trigger] t[m] == s[from + (m - at)] by {
        assert(rest[m - at] == s[from + (m - at)]);
        assert(other[m - at] == t[m]);
    }
    lemma_position_from(s, sep, from);
    lemma_position_from(t, sep, at);
    match position_from(s, sep, from) {
        Some(i) => {
            let j = at + (i - from);
            lemma_position_is(t, sep, at, j);
            assert(s.subrange(from, i) =~= t.subrange(at, j));
            assert(s.subrange(i + 1, s.len() as int) =~= t.subrange(j + 1, t.len() as int));
            lemma_pieces_shift(s, t, sep, i + 1, j + 1);
        },
        None => {
            match position_from(t, sep, at) {
                Some(j) => {
                    assert(s[from + (j - at)] == t[j]);
                },
                None => {},
            }
        },
    }
}

/// Joining gives the pieces back when none of them holds the separator.
pub proof fn lemma_split_join<A>(pieces: Seq<Seq<A>>, sep: A)
    requires
        pieces.len() > 0,
        forall|i: int| 0 <= i < pieces.len() ==> !(#[trigger] pieces[i]).contains(sep),
    ensures
        split(join(pieces, seq![sep]), sep) == pieces,
    decreases pieces.len(),
{
    lemma_join_front(pieces, seq![sep]);
    let whole = join(pieces, seq![sep]);
    let first = pieces[0];
    if pieces.len() == 1 {
        lemma_position_from(whole, sep, 0);
        match position_from(whole, sep, 0) {
            Some(i) => {
                assert(first.contains(sep));
            },
            None => {},
        }
        assert(whole.subrange(0, whole.len() as int) =~= first);
        assert(pieces =~= seq![first]);
    } else {
        let rest = pieces.drop_first();
        let tail = join(rest, seq![sep]);
        assert(whole == first + seq![sep] + tail);
        assert(whole[first.len() as int] == sep);
        assert forall|k: int| 0 <= k < first.len() implies #[trigger] whole[k] != sep by {
            assert(whole[k] == first[k]);
        }
        lemma_position_is(whole, sep, 0, first.len() as int);
        assert(whole.subrange(0, first.len() as int) =~= first);
        assert(whole.subrange(first.len() as int + 1, whole.len() as int) =~= tail);
        assert(tail.subrange(0, tail.len() as int) =~= tail);
        lemma_pieces_shift(whole, tail, sep, first.len() as int + 1, 0);
        assert forall|i: int| 0 <= i < rest.len() implies !(#[trigger] rest[i]).contains(sep) by {
            assert(rest[i] == pieces[i + 1]);
        }
        lemma_split_join(rest, sep);
        assert(pieces =~= seq![first] + rest);
    }
}

/// Joining what splitting gave is the sequence again.
pub proof fn lemma_join_split<A>(s: Seq<A>, sep: A, from: int)
    requires
        0 <= from <= s.len(),
    ensures
        pieces_from(s, sep, from).len() > 0,
        join(pieces_from(s, sep, from), seq![sep]) == s.subrange(from, s.len() as int),
    decreases s.len() - from,
{
    lemma_position_from(s, sep, from);
    let pieces = pieces_from(s, sep, from);
    match position_from(s, sep, from) {
        Some(i) => {
            lemma_join_split(s, sep, i + 1);
            lemma_join_front(pieces, seq![sep]);
            assert(pieces.drop_first() =~= pieces_from(s, sep, i + 1));
            assert(join(pieces, seq![sep]) =~= s.subrange(from, s.len() as int));
        },
        None => {
            assert(join(pieces, seq![sep]) =~= s.subrange(from, s.len() as int));
        },
    }
}

/// `join` read from the front.
pub proof fn lemma_join_front<A>(pieces: Seq<Seq<A>>, sep: Seq<A>)
    requires
        pieces.len() > 0,
    ensures
        pieces.len() == 1 ==> join(pieces, sep) == pieces[0],
        pieces.len() > 1 ==> join(pieces, sep) == pieces[0] + sep + join(pieces.drop_first(), sep),
    decreases pieces.len(),
{
    if pieces.len() == 2 {
        assert(join(pieces.drop_last(), sep) == pieces[0]);
        assert(join(pieces.drop_first(), sep) == pieces[1]);
    } else if pieces.len() > 2 {
        lemma_join_front(pieces.drop_last(), sep);
        let mid = pieces.drop_first();
        assert(pieces.drop_last().drop_first() =~= mid.drop_last());
        assert(mid.last() == pieces.last());
        assert(join(pieces, sep) =~= pieces[0] + sep + join(mid, sep));
    }
}

/// Dictionary order: the first difference decides, and a prefix comes first.
pub open spec fn lex_less<A>(a: Seq<A>, b: Seq<A>, less: spec_fn(A, A) -> bool) -> bool
    decreases a.len(),
{
    if b.len() == 0 {
        false
    } else if a.len() == 0 {
        true
    } else if a[0] == b[0] {
        lex_less(a.drop_first(), b.drop_first(), less)
    } else {
        less(a[0], b[0])
    }
}

/// `less` is a strict order under which any two different items compare.
pub open spec fn strict_order<A>(less: spec_fn(A, A) -> bool) -> bool {
    &&& forall|x: A| !(#[trigger] less(x, x))
    &&& forall|x: A, y: A, z: A| #[trigger] less(x, y) && #[trigger] less(y, z) ==> less(x, z)
    &&& forall|x: A, y: A| x != y ==> #[trigger] less(x, y) || less(y, x)
}

/// Dictionary order orders no sequence before itself.
pub proof fn lemma_lex_irreflexive<A>(a: Seq<A>, less: spec_fn(A, A) -> bool)
    ensures
        !lex_less(a, a, less),
    decreases a.len(),
{
    if a.len() > 0 {
        lemma_lex_irreflexive(a.drop_first(), less);
    }
}

/// Dictionary order is transitive.
pub proof fn lemma_lex_transitive<A>(
    a: Seq<A>,
    b: Seq<A>,
    c: Seq<A>,
    less: spec_fn(A, A) -> bool,
)
    requires
        strict_order(less),
        lex_less(a, b, less),
        lex_less(b, c, less),
    ensures
        lex_less(a, c, less),
    decreases a.len(),
{
    if a.len() > 0 && a[0] == b[0] && b[0] == c[0] {
        lemma_lex_transitive(a.drop_first(), b.drop_first(), c.drop_first(), less);
    } else if a.len() > 0 && a[0] == c[0] {
        assert(less(a[0], b[0]) && less(b[0], c[0]));
        assert(less(a[0], a[0]));
    }
}

/// Any two different sequences compare.
pub proof fn lemma_lex_total<A>(a: Seq<A>, b: Seq<A>, less: spec_fn(A, A) -> bool)
    requires
        strict_order(less),
        a != b,
    ensures
        lex_less(a, b, less) || lex_less(b, a, less),
    decreases a.len(),
{
    if a.len() == 0 {
        assert(b.len() > 0 || a =~= b);
    } else if b.len() > 0 {
        if a[0] == b[0] {
            if a.drop_first() == b.drop_first() {
                assert(a =~= seq![a[0]] + a.drop_first());
                assert(b =~= seq![b[0]] + b.drop_first());
            }
            lemma_lex_total(a.drop_first(), b.drop_first(), less);
        } else {
            assert(less(a[0], b[0]) || less(b[0], a[0]));
        }
    }
}

/// The numbers below `n` that have the property `p`, in increasing order.
pub open spec fn numbers_where(p: spec_fn(int) -> bool, n: int) -> Seq<usize>
    decreases n,
{
    if n <= 0 {
        Seq::empty()
    } else if p(n - 1) {
        numbers_where(p, n - 1).push((n - 1) as usize)
    } else {
        numbers_where(p, n - 1)
    }
}

/// `numbers_where` lists exactly the numbers that have the property, increasing.
pub proof fn lemma_numbers_where(p: spec_fn(int) -> bool, n: int)
    requires
        n <= usize::MAX + 1,
    ensures
        forall|i: int|
            0 <= i < numbers_where(p, n).len() ==> (#[trigger] numbers_where(p, n)[i]) < n && p(
                numbers_where(p, n)[i] as int,
            ),
        forall|i: int, j: int|
            0 <= i < j < numbers_where(p, n).len() ==> #[trigger] numbers_where(p, n)[i]
                < #[trigger] numbers_where(p, n)[j],
        forall|x: int|
            0 <= x < n && p(x) ==> #[trigger] numbers_where(p, n).contains(x as usize),
    decreases n,
{
    if n > 0 {
        lemma_numbers_where(p, n - 1);
        let before = numbers_where(p, n - 1);
        let now = numbers_where(p, n);
        assert forall|x: int| 0 <= x < n && p(x) implies #[trigger] now.contains(x as usize) by {
            if x == n - 1 {
                assert(now[now.len() - 1] == x as usize);
            } else {
                assert(before.contains(x as usize));
                let i = choose|i: int| 0 <= i < before.len() && before[i] == x as usize;
                assert(now[i] == x as usize);
            }
        }
    }
}

/// Numbers in strictly increasing order.
pub open spec fn increasing(s: Seq<usize>) -> bool {
    forall|i: int, j: int| 0 <= i < j < s.len() ==> #[trigger] s[i] < #[trigger] s[j]
}

/// Puts a number in its place, unless it is there already.
pub fn insert_number(v: &mut Vec<usize>, x: usize)
    requires
        increasing(old(v)@),
    ensures
        increasing(final(v)@),
        forall|y: usize| #[trigger]
            final(v)@.contains(y) == (old(v)@.contains(y) || y == x),
{
    let ghost before = v@;
    let mut at: usize = v.len();
    while at > 0 && v[at - 1] > x
        invariant
            at <= v@.len(),
            v@ == before,
            forall|k: int| at <= k < v@.len() ==> #[trigger] v@[k] > x,
        decreases at,
    {
        at -= 1;
    }
    if at > 0 && v[at - 1] == x {
        assert(before[at - 1] == x);
        return ;
    }
    v.insert(at, x);
    proof {
        let now = v@;
        assert(now =~= before.insert(at as int, x));
        assert forall|i: int, j: int| 0 <= i < j < now.len() implies #[trigger] now[i]
            < #[trigger] now[j] by {
            let a = if i < at {
                i
            } else {
                i - 1
            };
            let b = if j < at {
                j
            } else {
                j - 1
            };
            assert(i != at ==> now[i] == before[a]);
            assert(j != at ==> now[j] == before[b]);
            if i < at {
                assert(before[i] <= before[at - 1]);
            }
        }
        assert forall|y: usize| #[trigger] now.contains(y) == (before.contains(y) || y == x) by {
            if now.contains(y) {
                let k = choose|k: int| 0 <= k < now.len() && now[k] == y;
                if k < at {
                    assert(before[k] == y);
                } else if k > at {
                    assert(before[k - 1] == y);
                }
            }
            if before.contains(y) {
                let k = choose|k: int| 0 <= k < before.len() && before[k] == y;
                if k < at {
                    assert(now[k] == y);
                } else {
                    assert(now[k + 1] == y);
                }
            }
            if y == x {
                assert(now[at as int] == y);
            }
        }
    }
}

/// Numbers below `n` follow those below `k`.
pub proof fn lemma_numbers_follow(p: spec_fn(int) -> bool, k: int, n: int, more: Seq<usize>)
    requires
        0 <= k <= n <= usize::MAX + 1,
        increasing(more),
        forall|i: int| 0 <= i < more.len() ==> k <= #[trigger] more[i] < n,
        forall|x: int| k <= x < n ==> #[trigger] more.contains(x as usize) == p(x),
    ensures
        numbers_where(p, n) == numbers_where(p, k) + more,
    decreases n - k,
{
    if n == k {
        if more.len() > 0 {
            assert(k <= more[0] < n);
        }
        assert(more =~= Seq::<usize>::empty());
        assert(numbers_where(p, k) + more =~= numbers_where(p, k));
    } else {
        let last = (n - 1) as usize;
        assert(more.contains((n - 1) as usize) == p(n - 1));
        if p(n - 1) {
            let i = choose|i: int| 0 <= i < more.len() && more[i] == last;
            if i < more.len() - 1 {
                assert(more[i] < more[more.len() - 1]);
            }
            let less = more.drop_last();
            assert forall|j: int| 0 <= j < less.len() implies k <= #[trigger] less[j] < n - 1 by {
                assert(more[j] < more[more.len() - 1]);
            }
            assert forall|x: int| k <= x < n - 1 implies #[trigger] less.contains(x as usize)
                == p(x) by {
                assert(more.contains(x as usize) == p(x));
                if more.contains(x as usize) {
                    let j = choose|j: int| 0 <= j < more.len() && more[j] == x as usize;
                    assert(less[j] == x as usize);
                }
                if less.contains(x as usize) {
                    let j = choose|j: int| 0 <= j < less.len() && less[j] == x as usize;
                    assert(more[j] == x as usize);
                }
            }
            lemma_numbers_follow(p, k, n - 1, less);
            assert(numbers_where(p, n) =~= numbers_where(p, k) + more);
        } else {
            assert forall|j: int| 0 <= j < more.len() implies k <= #[trigger] more[j] < n - 1 by {
                assert(more.contains(more[j]));
            }
            lemma_numbers_follow(p, k, n - 1, more);
        }
    }
}

/// A sequence begins with another.
pub open spec fn begins<A>(s: Seq<A>, p: Seq<A>) -> bool {
    p.len() <= s.len() && s.subrange(0, p.len() as int) == p
}

/// What is put behind a sequence does not change how it begins.
pub broadcast proof fn lemma_longer_begins<A>(a: Seq<A>, b: Seq<A>, p: Seq<A>)
    requires
        begins(a, p),
    ensures
        #[trigger] begins(a + b, p),
{
    assert((a + b).subrange(0, p.len() as int) =~= a.subrange(0, p.len() as int));
}

/// `a` comes before `b` at position `k`: they are the same up to there, and there
/// `a` ends or has the smaller item.
pub open spec fn is_before_at<A>(
    a: Seq<A>,
    b: Seq<A>,
    less: spec_fn(A, A) -> bool,
    k: int,
) -> bool {
    &&& 0 <= k < b.len()
    &&& k <= a.len()
    &&& a.subrange(0, k) == b.subrange(0, k)
    &&& (k == a.len() || a[k] != b[k] && less(a[k], b[k]))
}

/// In dictionary order the first difference decides, and what ends first comes
/// first.
pub proof fn law_first_difference_decides<A>(
    a: Seq<A>,
    b: Seq<A>,
    less: spec_fn(A, A) -> bool,
)
    ensures
        lex_less(a, b, less) <==> exists|k: int| is_before_at(a, b, less, k),
    decreases a.len(),
{
    if b.len() == 0 {
    } else if a.len() == 0 {
        assert(a.subrange(0, 0) =~= b.subrange(0, 0));
        assert(is_before_at(a, b, less, 0));
    } else if a[0] == b[0] {
        let x = a.drop_first();
        let y = b.drop_first();
        law_first_difference_decides(x, y, less);
        if lex_less(x, y, less) {
            let k = choose|k: int| is_before_at(x, y, less, k);
            assert(a.subrange(0, k + 1) =~= seq![a[0]] + x.subrange(0, k));
            assert(b.subrange(0, k + 1) =~= seq![b[0]] + y.subrange(0, k));
            assert(k < x.len() ==> x[k] == a[k + 1]);
            assert(y[k] == b[k + 1]);
            assert(is_before_at(a, b, less, k + 1));
        }
        if exists|k: int| is_before_at(a, b, less, k) {
            let k = choose|k: int| is_before_at(a, b, less, k);
            assert(k > 0);
            assert(x.subrange(0, k - 1) =~= a.subrange(0, k).drop_first());
            assert(y.subrange(0, k - 1) =~= b.subrange(0, k).drop_first());
            assert(k < a.len() ==> x[k - 1] == a[k]);
            assert(y[k - 1] == b[k]);
            assert(is_before_at(x, y, less, k - 1));
        }
    } else {
        if less(a[0], b[0]) {
            assert(a.subrange(0, 0) =~= b.subrange(0, 0));
            assert(is_before_at(a, b, less, 0));
        }
        if exists|k: int| is_before_at(a, b, less, k) {
            let k = choose|k: int| is_before_at(a, b, less, k);
            if k > 0 {
                assert(a.subrange(0, k)[0] == b.subrange(0, k)[0]);
            }
        }
    }
}

/// Numbers with a property are listed in increasing order, each once: those
/// below the bound that have it, and no others.
pub proof fn law_numbers_with_a_property(p: spec_fn(int) -> bool, n: int, x: usize)
    requires
        0 <= n <= usize::MAX,
    ensures
        numbers_where(p, n).contains(x) <==> x < n && p(x as int),
        increasing(numbers_where(p, n)),
{
    lemma_numbers_where(p, n);
    let all = numbers_where(p, n);
    if all.contains(x) {
        let i = choose|i: int| 0 <= i < all.len() && all[i] == x;
        assert(all[i] < n && p(all[i] as int));
    }
    if x < n && p(x as int) {
        assert(all.contains((x as int) as usize));
    }
}

} // verus!
