//! Stable sorting of indices by name and path.

use crate::path;
use crate::path::MediaPath;
use crate::seqs;
use vstd::prelude::*;

verus! {

/// The order of characters: by code point.
pub open spec fn char_less() -> spec_fn(char, char) -> bool {
    |a: char, b: char| (a as int) < (b as int)
}

/// The order of bytes.
pub open spec fn byte_less() -> spec_fn(u8, u8) -> bool {
    |a: u8, b: u8| a < b
}

/// Text in dictionary order of its characters.
pub open spec fn text_less(a: Seq<char>, b: Seq<char>) -> bool {
    seqs::lex_less(a, b, char_less())
}

/// Where a path component sorts before its spelling counts: the root, then `.`,
/// then `..`, then names.
pub open spec fn part_rank(part: Seq<u8>) -> int {
    if part == path::root_part() {
        0
    } else if part == path::here_part() {
        1
    } else if part == path::up_part() {
        2
    } else {
        3
    }
}

/// The order of path components.
pub open spec fn part_less() -> spec_fn(Seq<u8>, Seq<u8>) -> bool {
    |a: Seq<u8>, b: Seq<u8>|
        part_rank(a) < part_rank(b) || (part_rank(a) == part_rank(b) && part_rank(a) == 3
            && seqs::lex_less(a, b, byte_less()))
}

/// The order of paths: by components.
pub open spec fn path_less(a: Seq<Seq<u8>>, b: Seq<Seq<u8>>) -> bool {
    seqs::lex_less(a, b, part_less())
}

/// What an entry is sorted by: a name, then a path.
pub struct SortKey {
    pub name: Vec<char>,
    pub path: MediaPath,
}

impl View for SortKey {
    type V = (Seq<char>, Seq<Seq<u8>>);

    open spec fn view(&self) -> (Seq<char>, Seq<Seq<u8>>) {
        (self.name@, self.path@)
    }
}

/// The contents of a list of sort keys.
pub open spec fn keys_of(v: Seq<SortKey>) -> Seq<(Seq<char>, Seq<Seq<u8>>)> {
    v.map_values(|k: SortKey| k@)
}

/// The order of sort keys.
pub open spec fn key_less(
    a: (Seq<char>, Seq<Seq<u8>>),
    b: (Seq<char>, Seq<Seq<u8>>),
) -> bool {
    text_less(a.0, b.0) || (a.0 == b.0 && path_less(a.1, b.1))
}

/// Entry `i` sorts before entry `j`: by key, and by position among equal keys.
pub open spec fn entry_less(keys: Seq<(Seq<char>, Seq<Seq<u8>>)>, i: int, j: int) -> bool {
    key_less(keys[i], keys[j]) || (keys[i] == keys[j] && i < j)
}

/// Each of the numbers `lo..hi` occurs in `p` exactly once, and nothing else does.
pub open spec fn rearranges(p: Seq<usize>, lo: int, hi: int) -> bool {
    &&& p.len() == hi - lo
    &&& p.no_duplicates()
    &&& forall|i: int| 0 <= i < p.len() ==> lo <= #[trigger] p[i] < hi
    &&& forall|x: int| lo <= x < hi ==> p.contains(#[trigger] (x as usize))
}

/// `p` lists entries in sorted order, equal ones in their original order.
pub open spec fn in_order(p: Seq<usize>, keys: Seq<(Seq<char>, Seq<Seq<u8>>)>) -> bool {
    forall|i: int, j: int|
        0 <= i < j < p.len() ==> entry_less(keys, #[trigger] p[i] as int, #[trigger] p[j] as int)
}

/// `p` is the stable sort of the entries that `keys` are the keys of.
pub open spec fn stable_sort(p: Seq<usize>, keys: Seq<(Seq<char>, Seq<Seq<u8>>)>) -> bool {
    rearranges(p, 0, keys.len() as int) && in_order(p, keys)
}

/// `out` holds the items of `items` in the order `order`.
pub open spec fn reordered<A>(items: Seq<A>, out: Seq<A>, order: Seq<usize>) -> bool {
    &&& order.len() == out.len()
    &&& forall|i: int| 0 <= i < out.len() ==> #[trigger] out[i] == items[order[i] as int]
}

/// `out` is the stable sort of `items`, whose keys are `keys`.
pub open spec fn is_sort_by<A>(
    items: Seq<A>,
    out: Seq<A>,
    keys: Seq<(Seq<char>, Seq<Seq<u8>>)>,
) -> bool {
    exists|order: Seq<usize>|
        #![trigger reordered(items, out, order)]
        stable_sort(order, keys) && reordered(items, out, order)
}

/// Characters, bytes and path components are each strictly and totally ordered.
proof fn lemma_strict_orders()
    ensures
        seqs::strict_order(char_less()),
        seqs::strict_order(byte_less()),
        seqs::strict_order(part_less()),
{
    let bl = byte_less();
    assert(seqs::strict_order(bl));
    let pl = part_less();
    assert forall|x: Seq<u8>| !(#[trigger] pl(x, x)) by {
        seqs::lemma_lex_irreflexive(x, bl);
    }
    assert forall|x: Seq<u8>, y: Seq<u8>, z: Seq<u8>| #[trigger]
        pl(x, y) && #[trigger] pl(y, z) implies pl(x, z) by {
        if part_rank(x) == 3 && part_rank(y) == 3 && part_rank(z) == 3 {
            seqs::lemma_lex_transitive(x, y, z, bl);
        }
    }
    assert forall|x: Seq<u8>, y: Seq<u8>| x != y implies #[trigger] pl(x, y) || pl(y, x) by {
        if part_rank(x) == 3 && part_rank(y) == 3 {
            seqs::lemma_lex_total(x, y, bl);
        }
    }
}

/// No key sorts before itself, and no two keys sort before each other.
pub proof fn lemma_key_asymmetric(
    a: (Seq<char>, Seq<Seq<u8>>),
    b: (Seq<char>, Seq<Seq<u8>>),
)
    requires
        key_less(a, b),
    ensures
        a != b,
        !key_less(b, a),
{
    lemma_strict_orders();
    seqs::lemma_lex_irreflexive(a.0, char_less());
    seqs::lemma_lex_irreflexive(a.1, part_less());
    if text_less(a.0, b.0) && text_less(b.0, a.0) {
        seqs::lemma_lex_transitive(a.0, b.0, a.0, char_less());
    }
    if path_less(a.1, b.1) && path_less(b.1, a.1) {
        seqs::lemma_lex_transitive(a.1, b.1, a.1, part_less());
    }
}

/// Keys are ordered transitively.
pub proof fn lemma_key_transitive(
    a: (Seq<char>, Seq<Seq<u8>>),
    b: (Seq<char>, Seq<Seq<u8>>),
    c: (Seq<char>, Seq<Seq<u8>>),
)
    requires
        key_less(a, b),
        key_less(b, c),
    ensures
        key_less(a, c),
{
    lemma_strict_orders();
    if text_less(a.0, b.0) && text_less(b.0, c.0) {
        seqs::lemma_lex_transitive(a.0, b.0, c.0, char_less());
    }
    if path_less(a.1, b.1) && path_less(b.1, c.1) {
        seqs::lemma_lex_transitive(a.1, b.1, c.1, part_less());
    }
}

/// Any two different keys compare.
pub proof fn lemma_key_total(
    a: (Seq<char>, Seq<Seq<u8>>),
    b: (Seq<char>, Seq<Seq<u8>>),
)
    requires
        a != b,
    ensures
        key_less(a, b) || key_less(b, a),
{
    lemma_strict_orders();
    if a.0 != b.0 {
        seqs::lemma_lex_total(a.0, b.0, char_less());
    } else {
        seqs::lemma_lex_total(a.1, b.1, part_less());
    }
}

/// Entries are ordered transitively.
proof fn lemma_entry_transitive(keys: Seq<(Seq<char>, Seq<Seq<u8>>)>, i: int, j: int, k: int)
    requires
        entry_less(keys, i, j),
        entry_less(keys, j, k),
    ensures
        entry_less(keys, i, k),
{
    if key_less(keys[i], keys[j]) && key_less(keys[j], keys[k]) {
        lemma_key_transitive(keys[i], keys[j], keys[k]);
    }
}

/// A stable sort is unique: the keys alone decide it.
pub proof fn law_stable_sort_unique(
    p: Seq<usize>,
    q: Seq<usize>,
    keys: Seq<(Seq<char>, Seq<Seq<u8>>)>,
)
    requires
        keys.len() <= usize::MAX,
        stable_sort(p, keys),
        stable_sort(q, keys),
    ensures
        p == q,
{
    assert forall|i: int| 0 <= i < p.len() implies p[i] == q[i] by {
        lemma_unique_up_to(p, q, keys, i);
    }
    assert(p =~= q);
}

/// Two stable sorts agree on their first entries.
proof fn lemma_unique_up_to(
    p: Seq<usize>,
    q: Seq<usize>,
    keys: Seq<(Seq<char>, Seq<Seq<u8>>)>,
    i: int,
)
    requires
        stable_sort(p, keys),
        stable_sort(q, keys),
        0 <= i < keys.len(),
    ensures
        p[i] == q[i],
        forall|k: int| 0 <= k < i ==> #[trigger] p[k] == q[k],
    decreases i,
{
    if i > 0 {
        lemma_unique_up_to(p, q, keys, i - 1);
        assert forall|k: int| 0 <= k < i implies #[trigger] p[k] == q[k] by {}
    }
    if p[i] != q[i] {
        assert(p.contains(q[i] as int as usize));
        assert(q.contains(p[i] as int as usize));
        let a = choose|a: int| 0 <= a < p.len() && p[a] == q[i];
        let b = choose|b: int| 0 <= b < q.len() && q[b] == p[i];
        assert(a > i) by {
            if a < i {
                assert(p[a] == q[a]);
                assert(q[a] != q[i]);
            }
        }
        assert(b > i) by {
            if b < i {
                assert(p[b] == q[b]);
                assert(p[b] != p[i]);
            }
        }
        assert(entry_less(keys, p[i] as int, p[a] as int));
        assert(entry_less(keys, q[i] as int, q[b] as int));
        let x = p[i] as int;
        let y = q[i] as int;
        if key_less(keys[x], keys[y]) {
            lemma_key_asymmetric(keys[x], keys[y]);
        }
        if key_less(keys[y], keys[x]) {
            lemma_key_asymmetric(keys[y], keys[x]);
        }
    }
}

/// How two values compare.
#[derive(Clone, Copy, PartialEq, Eq, Structural)]
enum Compared {
    Before,
    Same,
    After,
}

/// Compares text.
fn compare_text(a: &Vec<char>, b: &Vec<char>) -> (r: Compared)
    ensures
        match r {
            Compared::Before => text_less(a@, b@),
            Compared::Same => a@ == b@,
            Compared::After => text_less(b@, a@),
        },
{
    let mut i: usize = 0;
    assert(a@.skip(0) =~= a@);
    assert(b@.skip(0) =~= b@);
    while i < a.len() && i < b.len()
        invariant
            i <= a@.len(),
            i <= b@.len(),
            a@.take(i as int) == b@.take(i as int),
            text_less(a@, b@) == text_less(a@.skip(i as int), b@.skip(i as int)),
            text_less(b@, a@) == text_less(b@.skip(i as int), a@.skip(i as int)),
        decreases a@.len() - i,
    {
        assert(a@.skip(i as int)[0] == a@[i as int]);
        assert(b@.skip(i as int)[0] == b@[i as int]);
        if a[i] < b[i] {
            return Compared::Before;
        }
        if b[i] < a[i] {
            return Compared::After;
        }
        assert(a@.skip(i as int).drop_first() =~= a@.skip(i + 1));
        assert(b@.skip(i as int).drop_first() =~= b@.skip(i + 1));
        assert(a@.take(i + 1) =~= a@.take(i as int).push(a@[i as int]));
        assert(b@.take(i + 1) =~= b@.take(i as int).push(b@[i as int]));
        i += 1;
    }
    if i < b.len() {
        Compared::Before
    } else if i < a.len() {
        Compared::After
    } else {
        assert(a@.take(i as int) =~= a@);
        assert(b@.take(i as int) =~= b@);
        Compared::Same
    }
}

/// Compares byte strings.
fn compare_bytes(a: &Vec<u8>, b: &Vec<u8>) -> (r: Compared)
    ensures
        match r {
            Compared::Before => seqs::lex_less(a@, b@, byte_less()),
            Compared::Same => a@ == b@,
            Compared::After => seqs::lex_less(b@, a@, byte_less()),
        },
{
    let mut i: usize = 0;
    let ghost less = byte_less();
    assert(a@.skip(0) =~= a@);
    assert(b@.skip(0) =~= b@);
    while i < a.len() && i < b.len()
        invariant
            i <= a@.len(),
            i <= b@.len(),
            less == byte_less(),
            a@.take(i as int) == b@.take(i as int),
            seqs::lex_less(a@, b@, less) == seqs::lex_less(
                a@.skip(i as int),
                b@.skip(i as int),
                less,
            ),
            seqs::lex_less(b@, a@, less) == seqs::lex_less(
                b@.skip(i as int),
                a@.skip(i as int),
                less,
            ),
        decreases a@.len() - i,
    {
        assert(a@.skip(i as int)[0] == a@[i as int]);
        assert(b@.skip(i as int)[0] == b@[i as int]);
        if a[i] < b[i] {
            return Compared::Before;
        }
        if b[i] < a[i] {
            return Compared::After;
        }
        assert(a@.skip(i as int).drop_first() =~= a@.skip(i + 1));
        assert(b@.skip(i as int).drop_first() =~= b@.skip(i + 1));
        assert(a@.take(i + 1) =~= a@.take(i as int).push(a@[i as int]));
        assert(b@.take(i + 1) =~= b@.take(i as int).push(b@[i as int]));
        i += 1;
    }
    if i < b.len() {
        Compared::Before
    } else if i < a.len() {
        Compared::After
    } else {
        assert(a@.take(i as int) =~= a@);
        assert(b@.take(i as int) =~= b@);
        Compared::Same
    }
}

/// Computes `part_rank`.
fn rank(part: &Vec<u8>) -> (r: u8)
    ensures
        r == part_rank(part@),
{
    if part.len() == 0 {
        assert(part@ =~= path::root_part());
        0
    } else if part.len() == 1 && part[0] == path::DOT {
        assert(part@ =~= path::here_part());
        1
    } else if part.len() == 2 && part[0] == path::DOT && part[1] == path::DOT {
        assert(part@ =~= path::up_part());
        2
    } else {
        3
    }
}

/// Compares path components.
fn compare_parts(a: &Vec<u8>, b: &Vec<u8>) -> (r: Compared)
    ensures
        match r {
            Compared::Before => part_less()(a@, b@),
            Compared::Same => a@ == b@,
            Compared::After => part_less()(b@, a@),
        },
{
    let ra: u8 = rank(a);
    let rb: u8 = rank(b);
    if ra < rb {
        Compared::Before
    } else if rb < ra {
        Compared::After
    } else if ra == 3 {
        compare_bytes(a, b)
    } else {
        Compared::Same
    }
}

/// Compares paths.
fn compare_paths(a: &MediaPath, b: &MediaPath) -> (r: Compared)
    ensures
        match r {
            Compared::Before => path_less(a@, b@),
            Compared::Same => a@ == b@,
            Compared::After => path_less(b@, a@),
        },
{
    let mut i: usize = 0;
    assert(a@.skip(0) =~= a@);
    assert(b@.skip(0) =~= b@);
    proof {
        lemma_strict_orders();
    }
    while i < a.parts.len() && i < b.parts.len()
        invariant
            i <= a@.len(),
            i <= b@.len(),
            a@.len() == a.parts@.len(),
            b@.len() == b.parts@.len(),
            seqs::strict_order(part_less()),
            a@.take(i as int) == b@.take(i as int),
            path_less(a@, b@) == path_less(a@.skip(i as int), b@.skip(i as int)),
            path_less(b@, a@) == path_less(b@.skip(i as int), a@.skip(i as int)),
        decreases a@.len() - i,
    {
        assert(a@.skip(i as int)[0] == a@[i as int]);
        assert(b@.skip(i as int)[0] == b@[i as int]);
        assert(a@[i as int] == a.parts@[i as int]@);
        assert(b@[i as int] == b.parts@[i as int]@);
        let c = compare_parts(&a.parts[i], &b.parts[i]);
        if c != Compared::Same {
            return c;
        }
        assert(a@.skip(i as int).drop_first() =~= a@.skip(i + 1));
        assert(b@.skip(i as int).drop_first() =~= b@.skip(i + 1));
        assert(a@.take(i + 1) =~= a@.take(i as int).push(a@[i as int]));
        assert(b@.take(i + 1) =~= b@.take(i as int).push(b@[i as int]));
        i += 1;
    }
    if i < b.parts.len() {
        Compared::Before
    } else if i < a.parts.len() {
        Compared::After
    } else {
        assert(a@.take(i as int) =~= a@);
        assert(b@.take(i as int) =~= b@);
        Compared::Same
    }
}

/// Decides `key_less`.
fn before(a: &SortKey, b: &SortKey) -> (r: bool)
    ensures
        r == key_less(a@, b@),
{
    match compare_text(&a.name, &b.name) {
        Compared::Before => true,
        Compared::After => {
            proof {
                lemma_key_asymmetric(b@, a@);
            }
            false
        },
        Compared::Same => match compare_paths(&a.path, &b.path) {
            Compared::Before => true,
            Compared::After => {
                proof {
                    lemma_key_asymmetric(b@, a@);
                }
                false
            },
            Compared::Same => {
                proof {
                    if key_less(a@, b@) {
                        lemma_key_asymmetric(a@, b@);
                    }
                }
                false
            },
        },
    }
}

/// Merges two sorted runs; each entry of the first has a smaller index than
/// each entry of the second.
fn merge(keys: &Vec<SortKey>, l: Vec<usize>, r: Vec<usize>, lo: usize, mid: usize, hi: usize) -> (p:
    Vec<usize>)
    requires
        lo <= mid <= hi <= keys@.len(),
        rearranges(l@, lo as int, mid as int),
        rearranges(r@, mid as int, hi as int),
        in_order(l@, keys_of(keys@)),
        in_order(r@, keys_of(keys@)),
    ensures
        rearranges(p@, lo as int, hi as int),
        in_order(p@, keys_of(keys@)),
{
    let ghost ks = keys_of(keys@);
    let mut p: Vec<usize> = Vec::new();
    let mut i: usize = 0;
    let mut j: usize = 0;
    while i < l.len() || j < r.len()
        invariant
            lo <= mid <= hi <= keys@.len(),
            ks == keys_of(keys@),
            rearranges(l@, lo as int, mid as int),
            rearranges(r@, mid as int, hi as int),
            in_order(l@, ks),
            in_order(r@, ks),
            i <= l@.len(),
            j <= r@.len(),
            p@.len() == i + j,
            in_order(p@, ks),
            forall|k: int| 0 <= k < p@.len() ==> lo <= #[trigger] p@[k] < hi,
            forall|a: int| 0 <= a < i ==> p@.contains(#[trigger] l@[a]),
            forall|b: int| 0 <= b < j ==> p@.contains(#[trigger] r@[b]),
            forall|k: int, a: int|
                0 <= k < p@.len() && i <= a < l@.len() ==> entry_less(
                    ks,
                    #[trigger] p@[k] as int,
                    #[trigger] l@[a] as int,
                ),
            forall|k: int, b: int|
                0 <= k < p@.len() && j <= b < r@.len() ==> entry_less(
                    ks,
                    #[trigger] p@[k] as int,
                    #[trigger] r@[b] as int,
                ),
        decreases l@.len() + r@.len() - i - j,
    {
        let take_left: bool = if i == l.len() {
            false
        } else if j == r.len() {
            true
        } else {
            let x: usize = l[i];
            let y: usize = r[j];
            assert(ks[x as int] == keys@[x as int]@);
            assert(ks[y as int] == keys@[y as int]@);
            let after = before(&keys[y], &keys[x]);
            proof {
                if after {
                    lemma_key_asymmetric(ks[y as int], ks[x as int]);
                } else if ks[x as int] != ks[y as int] {
                    lemma_key_total(ks[x as int], ks[y as int]);
                }
                assert(after ==> entry_less(ks, y as int, x as int));
                assert(!after ==> entry_less(ks, x as int, y as int));
            }
            !after
        };
        let ghost before_push = p@;
        let ghost (i0, j0) = (i, j);
        let next: usize = if take_left {
            l[i]
        } else {
            r[j]
        };
        p.push(next);
        if take_left {
            i += 1;
        } else {
            j += 1;
        }
        proof {
            assert(p@[before_push.len() as int] == next);
            assert forall|a: int| 0 <= a < i implies p@.contains(#[trigger] l@[a]) by {
                if a < i0 {
                    assert(before_push.contains(l@[a]));
                    let k = choose|k: int| 0 <= k < before_push.len() && before_push[k] == l@[a];
                    assert(p@[k] == l@[a]);
                }
            }
            assert forall|b: int| 0 <= b < j implies p@.contains(#[trigger] r@[b]) by {
                if b < j0 {
                    assert(before_push.contains(r@[b]));
                    let k = choose|k: int| 0 <= k < before_push.len() && before_push[k] == r@[b];
                    assert(p@[k] == r@[b]);
                }
            }
            assert forall|a: int| i <= a < l@.len() implies entry_less(
                ks,
                next as int,
                #[trigger] l@[a] as int,
            ) by {
                if take_left {
                    assert(entry_less(ks, l@[i0 as int] as int, l@[a] as int));
                } else if a > i0 {
                    lemma_entry_transitive(ks, next as int, l@[i0 as int] as int, l@[a] as int);
                }
            }
            assert forall|b: int| j <= b < r@.len() implies entry_less(
                ks,
                next as int,
                #[trigger] r@[b] as int,
            ) by {
                if !take_left {
                    assert(entry_less(ks, r@[j0 as int] as int, r@[b] as int));
                } else if b > j0 {
                    lemma_entry_transitive(ks, next as int, r@[j0 as int] as int, r@[b] as int);
                }
            }
        }
    }
    proof {
        assert forall|x: int| lo <= x < hi implies p@.contains(#[trigger] (x as usize)) by {
            if x < mid {
                assert(l@.contains(x as usize));
                let a = choose|a: int| 0 <= a < l@.len() && l@[a] == x as usize;
                assert(p@.contains(l@[a]));
            } else {
                assert(r@.contains(x as usize));
                let b = choose|b: int| 0 <= b < r@.len() && r@[b] == x as usize;
                assert(p@.contains(r@[b]));
            }
        }
        assert forall|a: int, b: int| 0 <= a < p@.len() && 0 <= b < p@.len() && a != b implies p@[a]
            != p@[b] by {
            if p@[a] == p@[b] {
                let (c, d) = if a < b {
                    (a, b)
                } else {
                    (b, a)
                };
                assert(entry_less(ks, p@[c] as int, p@[d] as int));
                lemma_key_asymmetric(ks[p@[c] as int], ks[p@[d] as int]);
            }
        }
    }
    p
}

/// Sorts the entries `lo..hi`.
fn sort_range(keys: &Vec<SortKey>, lo: usize, hi: usize) -> (p: Vec<usize>)
    requires
        lo <= hi <= keys@.len(),
    ensures
        rearranges(p@, lo as int, hi as int),
        in_order(p@, keys_of(keys@)),
    decreases hi - lo,
{
    if hi - lo == 0 {
        Vec::new()
    } else if hi - lo == 1 {
        let mut p: Vec<usize> = Vec::new();
        p.push(lo);
        assert(p@[0] == lo);
        p
    } else {
        let mid: usize = lo + (hi - lo) / 2;
        let l = sort_range(keys, lo, mid);
        let r = sort_range(keys, mid, hi);
        merge(keys, l, r, lo, mid, hi)
    }
}

/// The stable sort of entries by their keys, as the entries' indices in order.
pub fn sorted_indices(keys: &Vec<SortKey>) -> (p: Vec<usize>)
    ensures
        stable_sort(p@, keys_of(keys@)),
{
    sort_range(keys, 0, keys.len())
}

/// Sorts numbers by their keys.
pub fn sort_numbers(items: &Vec<usize>, keys: &Vec<SortKey>) -> (out: Vec<usize>)
    requires
        items@.len() == keys@.len(),
    ensures
        is_sort_by(items@, out@, keys_of(keys@)),
{
    let order = sorted_indices(keys);
    let mut out: Vec<usize> = Vec::new();
    let mut i: usize = 0;
    while i < order.len()
        invariant
            i <= order@.len(),
            items@.len() == keys@.len(),
            stable_sort(order@, keys_of(keys@)),
            out@.len() == i,
            forall|k: int| 0 <= k < i ==> #[trigger] out@[k] == items@[order@[k] as int],
        decreases order@.len() - i,
    {
        out.push(items[order[i]]);
        i += 1;
    }
    assert(reordered(items@, out@, order@));
    out
}

/// The order that a sort put its items in: each item went to one place.
pub proof fn lemma_sort_order<A>(
    items: Seq<A>,
    out: Seq<A>,
    keys: Seq<(Seq<char>, Seq<Seq<u8>>)>,
) -> (order: Seq<usize>)
    requires
        is_sort_by(items, out, keys),
        keys.len() == items.len(),
        items.len() <= usize::MAX,
    ensures
        out.len() == items.len(),
        reordered(items, out, order),
        order.no_duplicates(),
        forall|k: int| 0 <= k < order.len() ==> 0 <= #[trigger] order[k] < items.len(),
        forall|x: int| 0 <= x < items.len() ==> order.contains(#[trigger] (x as usize)),
{
    choose|order: Seq<usize>|
        #![trigger reordered(items, out, order)]
        stable_sort(order, keys) && reordered(items, out, order)
}

/// Putting items in another order keeps each as often as it is there.
proof fn lemma_reordered_multiset<A>(items: Seq<A>, out: Seq<A>, order: Seq<int>)
    requires
        order.len() == items.len(),
        out.len() == items.len(),
        order.no_duplicates(),
        forall|i: int| 0 <= i < order.len() ==> 0 <= #[trigger] order[i] < items.len(),
        forall|i: int| 0 <= i < out.len() ==> #[trigger] out[i] == items[order[i]],
    ensures
        out.to_multiset() == items.to_multiset(),
    decreases items.len(),
{
    broadcast use vstd::seq_lib::group_to_multiset_ensures;

    if items.len() == 0 {
        assert(out =~= items);
    } else {
        let n = items.len() as int;
        let x = order[n - 1];
        let less = items.remove(x);
        let shorter = out.drop_last();
        let moved = Seq::new(
            (n - 1) as nat,
            |i: int|
                if order[i] > x {
                    order[i] - 1
                } else {
                    order[i]
                },
        );
        assert forall|i: int| 0 <= i < moved.len() implies 0 <= #[trigger] moved[i] < less.len()
            && shorter[i] == less[moved[i]] by {
            assert(order[i] != order[n - 1]);
            assert(out[i] == items[order[i]]);
        }
        assert(moved.no_duplicates()) by {
            assert forall|i: int, j: int|
                0 <= i < moved.len() && 0 <= j < moved.len() && i != j implies moved[i]
                != moved[j] by {
                assert(order[i] != order[j]);
                assert(order[i] != order[n - 1] && order[j] != order[n - 1]);
            }
        }
        lemma_reordered_multiset(less, shorter, moved);
        assert(out =~= shorter.push(items[x]));
        assert(items.contains(items[x]));
        assert(items.to_multiset() =~= items.to_multiset().remove(items[x]).insert(items[x]));
    }
}

/// Sorting keeps every item as often as it is there.
pub proof fn law_sorting_keeps_items<A>(
    items: Seq<A>,
    out: Seq<A>,
    keys: Seq<(Seq<char>, Seq<Seq<u8>>)>,
)
    requires
        is_sort_by(items, out, keys),
        keys.len() == items.len(),
        items.len() <= usize::MAX,
    ensures
        out.to_multiset() == items.to_multiset(),
{
    let order = lemma_sort_order(items, out, keys);
    let places = Seq::new(order.len(), |i: int| order[i] as int);
    assert(places.no_duplicates()) by {
        assert forall|i: int, j: int|
            0 <= i < places.len() && 0 <= j < places.len() && i != j implies places[i]
            != places[j] by {
            assert(order[i] != order[j]);
        }
    }
    lemma_reordered_multiset(items, out, places);
}

/// An entry that sorts before another has no name that comes behind it: nowhere
/// is the other's name the same up to a position and smaller there.
pub proof fn law_sorted_names(
    keys: Seq<(Seq<char>, Seq<Seq<u8>>)>,
    i: int,
    j: int,
    k: int,
)
    requires
        entry_less(keys, i, j),
    ensures
        ({
            let first = keys[i].0;
            let second = keys[j].0;
            !(0 <= k <= second.len() && k < first.len() && first.subrange(0, k)
                == second.subrange(0, k) && (k == second.len() || second[k] < first[k]))
        }),
{
    let first = keys[i].0;
    let second = keys[j].0;
    lemma_strict_orders();
    if 0 <= k <= second.len() && k < first.len() && first.subrange(0, k) == second.subrange(0, k)
        && (k == second.len() || second[k] < first[k]) {
        assert(k < second.len() ==> char_less()(second[k], first[k]));
        assert(seqs::is_before_at(second, first, char_less(), k));
        seqs::law_first_difference_decides(second, first, char_less());
        assert(text_less(second, first));
        if text_less(first, second) {
            seqs::lemma_lex_transitive(first, second, first, char_less());
        }
        seqs::lemma_lex_irreflexive(first, char_less());
    }
}

/// A part of a path comes before another: one that is no name comes before a
/// name, and of two names the one that is smaller at the first difference, or
/// that ends first.
pub open spec fn is_earlier_part(a: Seq<u8>, b: Seq<u8>, at: int) -> bool {
    path::is_name(b) && (!path::is_name(a) || {
        &&& 0 <= at < b.len()
        &&& at <= a.len()
        &&& a.subrange(0, at) == b.subrange(0, at)
        &&& (at == a.len() || a[at] < b[at])
    })
}

/// Of two entries with the same name the paths decide: nowhere is the path of
/// the later one the same up to a part and earlier there.
pub proof fn law_sorted_paths(
    keys: Seq<(Seq<char>, Seq<Seq<u8>>)>,
    i: int,
    j: int,
    k: int,
    at: int,
)
    requires
        entry_less(keys, i, j),
        keys[i].0 == keys[j].0,
    ensures
        ({
            let first = keys[i].1;
            let second = keys[j].1;
            !(0 <= k <= second.len() && k < first.len() && first.subrange(0, k)
                == second.subrange(0, k) && (k == second.len() || is_earlier_part(
                second[k],
                first[k],
                at,
            )))
        }),
{
    let first = keys[i].1;
    let second = keys[j].1;
    lemma_strict_orders();
    if 0 <= k <= second.len() && k < first.len() && first.subrange(0, k) == second.subrange(0, k)
        && (k == second.len() || is_earlier_part(second[k], first[k], at)) {
        if k < second.len() {
            let a = second[k];
            let b = first[k];
            if path::is_name(a) {
                assert(at < a.len() ==> byte_less()(a[at], b[at]));
                assert(seqs::is_before_at(a, b, byte_less(), at));
                seqs::law_first_difference_decides(a, b, byte_less());
            }
            assert(part_less()(a, b));
            seqs::lemma_lex_irreflexive(a, byte_less());
            assert(a != b);
        }
        assert(seqs::is_before_at(second, first, part_less(), k));
        seqs::law_first_difference_decides(second, first, part_less());
        assert(path_less(second, first));
        seqs::lemma_lex_irreflexive(keys[i].0, char_less());
        if path_less(first, second) {
            seqs::lemma_lex_transitive(first, second, first, part_less());
        }
        seqs::lemma_lex_irreflexive(first, part_less());
    }
}

} // verus!
