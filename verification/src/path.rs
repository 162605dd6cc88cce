//! File paths as their components.

use crate::seqs;
use vstd::prelude::*;

verus! {

/// The path separator, `/`.
pub const SLASH: u8 = 47;

/// The full stop, `.`.
pub const DOT: u8 = 46;

/// A Unix path, held as its components. The root directory is the empty
/// component, which can only come first; every other component is a name, `.`
/// (first only) or `..`.
pub struct MediaPath {
    pub parts: Vec<Vec<u8>>,
}

/// The contents of a list of byte strings.
pub open spec fn contents(v: Seq<Vec<u8>>) -> Seq<Seq<u8>> {
    v.map_values(|p: Vec<u8>| p@)
}

impl View for MediaPath {
    type V = Seq<Seq<u8>>;

    open spec fn view(&self) -> Seq<Seq<u8>> {
        contents(self.parts@)
    }
}

/// The contents of a list of paths.
pub open spec fn paths(v: Seq<MediaPath>) -> Seq<Seq<Seq<u8>>> {
    v.map_values(|p: MediaPath| p@)
}

/// The component that stands for the root directory.
pub open spec fn root_part() -> Seq<u8> {
    Seq::empty()
}

/// The component `.`.
pub open spec fn here_part() -> Seq<u8> {
    seq![DOT]
}

/// The component `..`.
pub open spec fn up_part() -> Seq<u8> {
    seq![DOT, DOT]
}

/// A component that names a file or directory.
pub open spec fn is_name(part: Seq<u8>) -> bool {
    part != root_part() && part != here_part() && part != up_part()
}

/// Piece `i` of a path's text counts: it is not empty, and not a `.` past the start.
pub open spec fn counts(pieces: Seq<Seq<u8>>, i: int) -> bool {
    pieces[i].len() > 0 && (i == 0 || pieces[i] != here_part())
}

/// Those of the first `n` pieces that count.
pub open spec fn counted(pieces: Seq<Seq<u8>>, n: int) -> Seq<Seq<u8>>
    decreases n,
{
    if n <= 0 {
        Seq::empty()
    } else if counts(pieces, n - 1) {
        counted(pieces, n - 1).push(pieces[n - 1])
    } else {
        counted(pieces, n - 1)
    }
}

/// The components of a path's text: repeated separators, a trailing separator
/// and every `.` but a leading one make no difference.
pub open spec fn components(text: Seq<u8>) -> Seq<Seq<u8>> {
    let pieces = seqs::split(text, SLASH);
    let names = counted(pieces, pieces.len() as int);
    if text.len() > 0 && text[0] == SLASH {
        seq![root_part()] + names
    } else {
        names
    }
}

/// A sequence of components that some text spells.
pub open spec fn well_formed(p: Seq<Seq<u8>>) -> bool {
    &&& forall|i: int| 0 <= i < p.len() ==> !(#[trigger] p[i]).contains(SLASH)
    &&& forall|i: int| 0 < i < p.len() ==> #[trigger] p[i] != root_part() && p[i] != here_part()
}

/// The text that spells a path.
pub open spec fn path_text(p: Seq<Seq<u8>>) -> Seq<u8> {
    if p == seq![root_part()] {
        seq![SLASH]
    } else {
        seqs::join(p, seq![SLASH])
    }
}

/// The directory that holds `p`; none for the root and for the empty path.
pub open spec fn parent_of(p: Seq<Seq<u8>>) -> Option<Seq<Seq<u8>>> {
    if p.len() > 0 && p.last() != root_part() {
        Some(p.drop_last())
    } else {
        None
    }
}

/// The last component, where that is a name.
pub open spec fn file_name_of(p: Seq<Seq<u8>>) -> Option<Seq<u8>> {
    if p.len() > 0 && is_name(p.last()) {
        Some(p.last())
    } else {
        None
    }
}

/// The last position that holds `x`.
pub open spec fn last_position(s: Seq<u8>, x: u8) -> Option<int>
    decreases s.len(),
{
    if s.len() == 0 {
        None
    } else if s.last() == x {
        Some(s.len() - 1)
    } else {
        last_position(s.drop_last(), x)
    }
}

/// Where a file name's extension begins: past its last full stop, unless that
/// is the name's first character.
pub open spec fn extension_dot(name: Seq<u8>) -> Option<int> {
    match last_position(name, DOT) {
        Some(i) => if i > 0 {
            Some(i)
        } else {
            None
        },
        None => None,
    }
}

/// The extension of a path's file name.
pub open spec fn extension_of(p: Seq<Seq<u8>>) -> Option<Seq<u8>> {
    match file_name_of(p) {
        Some(name) => match extension_dot(name) {
            Some(i) => Some(name.subrange(i + 1, name.len() as int)),
            None => None,
        },
        None => None,
    }
}

/// A file name without its extension.
pub open spec fn stem_of_name(name: Seq<u8>) -> Seq<u8> {
    match extension_dot(name) {
        Some(i) => name.subrange(0, i),
        None => name,
    }
}

/// A path's file name without its extension.
pub open spec fn stem_of(p: Seq<Seq<u8>>) -> Option<Seq<u8>> {
    match file_name_of(p) {
        Some(name) => Some(stem_of_name(name)),
        None => None,
    }
}

/// `p` with its extension replaced by `ext`.
pub open spec fn with_extension_of(p: Seq<Seq<u8>>, ext: Seq<u8>) -> Seq<Seq<u8>> {
    match stem_of(p) {
        Some(stem) => p.drop_last().push(stem + seq![DOT] + ext),
        None => p,
    }
}

/// `p` lies in the tree under `base`, or is `base`.
pub open spec fn under(p: Seq<Seq<u8>>, base: Seq<Seq<u8>>) -> bool {
    base.len() <= p.len() && p.subrange(0, base.len() as int) == base
}

/// What leads from `base` to a path under it.
pub open spec fn relative_to(p: Seq<Seq<u8>>, base: Seq<Seq<u8>>) -> Seq<Seq<u8>> {
    p.subrange(base.len() as int, p.len() as int)
}

/// Decides whether two byte strings are the same.
pub fn same_bytes(a: &[u8], b: &[u8]) -> (r: bool)
    ensures
        r == (a@ == b@),
{
    if a.len() != b.len() {
        return false;
    }
    let mut i: usize = 0;
    while i < a.len()
        invariant
            i <= a@.len(),
            a@.len() == b@.len(),
            forall|k: int| 0 <= k < i ==> #[trigger] a@[k] == b@[k],
        decreases a@.len() - i,
    {
        if a[i] != b[i] {
            return false;
        }
        i += 1;
    }
    assert(a@ =~= b@);
    true
}

/// A copy of `s[from..to]`.
pub fn copy_bytes(s: &[u8], from: usize, to: usize) -> (v: Vec<u8>)
    requires
        from <= to <= s@.len(),
    ensures
        v@ == s@.subrange(from as int, to as int),
{
    let mut v: Vec<u8> = Vec::new();
    let mut i: usize = from;
    while i < to
        invariant
            from <= i <= to <= s@.len(),
            v@ =~= s@.subrange(from as int, i as int),
        decreases to - i,
    {
        v.push(s[i]);
        i += 1;
    }
    v
}

/// Splits a byte string.
pub fn split_bytes(s: &[u8], sep: u8) -> (r: Vec<Vec<u8>>)
    ensures
        contents(r@) == seqs::split(s@, sep),
{
    let mut r: Vec<Vec<u8>> = Vec::new();
    let mut from: usize = 0;
    let mut i: usize = 0;
    assert(contents(r@) + seqs::pieces_from(s@, sep, 0) =~= seqs::split(s@, sep));
    while i < s.len()
        invariant
            from <= i <= s@.len(),
            forall|k: int| from <= k < i ==> #[trigger] s@[k] != sep,
            contents(r@) + seqs::pieces_from(s@, sep, from as int) == seqs::split(s@, sep),
        decreases s@.len() - i,
    {
        if s[i] == sep {
            let ghost before = contents(r@);
            proof {
                seqs::lemma_position_is(s@, sep, from as int, i as int);
            }
            r.push(copy_bytes(s, from, i));
            assert(contents(r@) =~= before.push(s@.subrange(from as int, i as int)));
            from = i + 1;
            assert(contents(r@) + seqs::pieces_from(s@, sep, from as int) =~= seqs::split(s@, sep));
        }
        i += 1;
    }
    let ghost before = contents(r@);
    proof {
        seqs::lemma_position_from(s@, sep, from as int);
    }
    r.push(copy_bytes(s, from, s.len()));
    assert(contents(r@) =~= before.push(s@.subrange(from as int, s@.len() as int)));
    assert(contents(r@) =~= seqs::split(s@, sep));
    r
}

impl MediaPath {
    /// Reads a path from its text.
    pub fn parse(text: &[u8]) -> (p: MediaPath)
        ensures
            p@ == components(text@),
    {
        let pieces = split_bytes(text, SLASH);
        let ghost all = seqs::split(text@, SLASH);
        let mut parts: Vec<Vec<u8>> = Vec::new();
        let ghost mut lead = Seq::<Seq<u8>>::empty();
        if text.len() > 0 && text[0] == SLASH {
            parts.push(Vec::new());
            proof {
                lead = seq![root_part()];
            }
            assert(contents(parts@) =~= lead);
        }
        let mut i: usize = 0;
        assert(contents(parts@) =~= lead + counted(all, 0));
        while i < pieces.len()
            invariant
                i <= pieces@.len(),
                contents(pieces@) == all,
                contents(parts@) == lead + counted(all, i as int),
            decreases pieces@.len() - i,
        {
            assert(all[i as int] == pieces@[i as int]@);
            let here = pieces[i].len() == 1 && pieces[i][0] == DOT;
            assert(here == (all[i as int] =~= here_part()));
            let ghost before = contents(parts@);
            if pieces[i].len() > 0 && (i == 0 || !here) {
                let piece = copy_bytes(pieces[i].as_slice(), 0, pieces[i].len());
                assert(piece@ =~= all[i as int]);
                parts.push(piece);
                assert(contents(parts@) =~= before.push(all[i as int]));
            }
            i += 1;
            assert(contents(parts@) =~= lead + counted(all, i as int));
        }
        let p = MediaPath { parts };
        assert(p@ =~= components(text@));
        p
    }

    /// The text that spells the path.
    pub fn text(&self) -> (r: Vec<u8>)
        ensures
            r@ == path_text(self@),
    {
        let n: usize = self.parts.len();
        let mut r: Vec<u8> = Vec::new();
        if n == 1 && self.parts[0].len() == 0 {
            assert(self.parts@[0]@ =~= root_part());
            assert(self@ =~= seq![root_part()]);
            r.push(SLASH);
            return r;
        }
        assert(n == 1 ==> self@[0] == self.parts@[0]@);
        let mut i: usize = 0;
        assert(self@.take(0) =~= Seq::<Seq<u8>>::empty());
        while i < n
            invariant
                i <= n == self.parts@.len(),
                r@ == seqs::join(self@.take(i as int), seq![SLASH]),
            decreases n - i,
        {
            let ghost part = self@[i as int];
            assert(part == self.parts@[i as int]@);
            if i > 0 {
                r.push(SLASH);
            }
            let mut k: usize = 0;
            let ghost start = r@;
            while k < self.parts[i].len()
                invariant
                    i < n == self.parts@.len(),
                    k <= part.len(),
                    part == self.parts@[i as int]@,
                    r@ =~= start + part.take(k as int),
                decreases part.len() - k,
            {
                r.push(self.parts[i][k]);
                k += 1;
            }
            assert(part.take(k as int) =~= part);
            i += 1;
            assert(self@.take(i as int).drop_last() =~= self@.take(i - 1));
            assert(r@ =~= seqs::join(self@.take(i as int), seq![SLASH]));
        }
        assert(self@.take(n as int) =~= self@);
        r
    }

    /// A copy of the path.
    pub fn copy(&self) -> (p: MediaPath)
        ensures
            p@ == self@,
    {
        self.slice(0, self.parts.len())
    }

    /// The components `from..to`.
    pub fn slice(&self, from: usize, to: usize) -> (p: MediaPath)
        requires
            from <= to <= self@.len(),
        ensures
            p@ == self@.subrange(from as int, to as int),
    {
        let mut parts: Vec<Vec<u8>> = Vec::new();
        let mut i: usize = from;
        while i < to
            invariant
                from <= i <= to <= self.parts@.len(),
                contents(parts@) =~= self@.subrange(from as int, i as int),
            decreases to - i,
        {
            let part = copy_bytes(self.parts[i].as_slice(), 0, self.parts[i].len());
            let ghost before = contents(parts@);
            assert(part@ =~= self@[i as int]);
            parts.push(part);
            assert(contents(parts@) =~= before.push(self@[i as int]));
            i += 1;
        }
        MediaPath { parts }
    }

    /// Decides whether two paths are the same.
    pub fn same(&self, other: &MediaPath) -> (r: bool)
        ensures
            r == (self@ == other@),
    {
        assert(self@.len() == self.parts@.len() && other@.len() == other.parts@.len());
        if self.parts.len() != other.parts.len() {
            return false;
        }
        let mut i: usize = self.parts.len();
        while i > 0
            invariant
                i <= self.parts@.len() == other.parts@.len(),
                forall|k: int| i <= k < self@.len() ==> #[trigger] self@[k] == other@[k],
            decreases i,
        {
            i -= 1;
            assert(self@[i as int] == self.parts@[i as int]@);
            assert(other@[i as int] == other.parts@[i as int]@);
            if !same_bytes(self.parts[i].as_slice(), other.parts[i].as_slice()) {
                return false;
            }
        }
        assert(self@ =~= other@);
        true
    }

    /// `Path::starts_with`: decides `under`.
    pub fn starts_with(&self, base: &MediaPath) -> (r: bool)
        ensures
            r == under(self@, base@),
    {
        if base.parts.len() > self.parts.len() {
            return false;
        }
        let mut i: usize = 0;
        while i < base.parts.len()
            invariant
                i <= base.parts@.len() <= self.parts@.len(),
                forall|k: int| 0 <= k < i ==> #[trigger] self@[k] == base@[k],
            decreases base.parts@.len() - i,
        {
            assert(self@[i as int] == self.parts@[i as int]@);
            assert(base@[i as int] == base.parts@[i as int]@);
            if !same_bytes(self.parts[i].as_slice(), base.parts[i].as_slice()) {
                assert(self@.subrange(0, base@.len() as int)[i as int] != base@[i as int]);
                return false;
            }
            i += 1;
        }
        assert(self@.subrange(0, base@.len() as int) =~= base@);
        true
    }

    /// `Path::strip_prefix`.
    pub fn strip_prefix(&self, base: &MediaPath) -> (r: Option<MediaPath>)
        ensures
            match r {
                Some(p) => under(self@, base@) && p@ == relative_to(self@, base@),
                None => !under(self@, base@),
            },
    {
        if self.starts_with(base) {
            Some(self.slice(base.parts.len(), self.parts.len()))
        } else {
            None
        }
    }

    /// `Path::parent`.
    pub fn parent(&self) -> (r: Option<MediaPath>)
        ensures
            match r {
                Some(p) => parent_of(self@) == Some(p@),
                None => parent_of(self@) is None,
            },
    {
        let n: usize = self.parts.len();
        if n == 0 {
            return None;
        }
        assert(self@.last() == self.parts@[n - 1]@);
        if self.parts[n - 1].len() == 0 {
            assert(self@.last() =~= root_part());
            return None;
        }
        let p = self.slice(0, n - 1);
        assert(p@ =~= self@.drop_last());
        Some(p)
    }

    /// `Path::file_name`.
    pub fn file_name(&self) -> (r: Option<&Vec<u8>>)
        ensures
            match r {
                Some(name) => file_name_of(self@) == Some(name@),
                None => file_name_of(self@) is None,
            },
    {
        let n: usize = self.parts.len();
        if n == 0 {
            return None;
        }
        let last: &Vec<u8> = &self.parts[n - 1];
        assert(self@.last() == last@);
        if last.len() == 0 {
            assert(last@ =~= root_part());
            return None;
        }
        if last.len() == 1 && last[0] == DOT {
            assert(last@ =~= here_part());
            return None;
        }
        if last.len() == 2 && last[0] == DOT && last[1] == DOT {
            assert(last@ =~= up_part());
            return None;
        }
        Some(last)
    }

    /// `Path::extension`.
    pub fn extension(&self) -> (r: Option<Vec<u8>>)
        ensures
            match r {
                Some(e) => extension_of(self@) == Some(e@),
                None => extension_of(self@) is None,
            },
    {
        match self.file_name() {
            Some(name) => match name_dot(name) {
                Some(i) => {
                    let end: usize = name.len();
                    Some(copy_bytes(name.as_slice(), i + 1, end))
                },
                None => None,
            },
            None => None,
        }
    }

    /// `Path::file_stem`.
    pub fn file_stem(&self) -> (r: Option<Vec<u8>>)
        ensures
            match r {
                Some(e) => stem_of(self@) == Some(e@),
                None => stem_of(self@) is None,
            },
    {
        match self.file_name() {
            Some(name) => match name_dot(name) {
                Some(i) => Some(copy_bytes(name.as_slice(), 0, i)),
                None => {
                    assert(name@.subrange(0, name@.len() as int) =~= name@);
                    Some(copy_bytes(name.as_slice(), 0, name.len()))
                },
            },
            None => None,
        }
    }

    /// The path one component longer.
    pub fn child(&self, name: Vec<u8>) -> (p: MediaPath)
        ensures
            p@ == self@.push(name@),
    {
        let mut p = self.copy();
        let ghost before = p@;
        p.parts.push(name);
        assert(p@ =~= before.push(name@));
        p
    }

    /// `Path::with_extension`, for an extension that is not empty.
    pub fn with_extension(&self, ext: &[u8]) -> (p: MediaPath)
        ensures
            p@ == with_extension_of(self@, ext@),
    {
        match self.file_stem() {
            Some(stem) => {
                let mut name = stem;
                name.push(DOT);
                let ghost base = name@;
                let mut k: usize = 0;
                while k < ext.len()
                    invariant
                        k <= ext@.len(),
                        name@ =~= base + ext@.take(k as int),
                    decreases ext@.len() - k,
                {
                    name.push(ext[k]);
                    k += 1;
                }
                assert(ext@.take(k as int) =~= ext@);
                assert(name@ =~= stem@ + seq![DOT] + ext@);
                let dir = self.slice(0, self.parts.len() - 1);
                assert(dir@ =~= self@.drop_last());
                dir.child(name)
            },
            None => self.copy(),
        }
    }
}

/// Pieces that all count, from piece `from` on, are kept as they are.
proof fn lemma_counted_all(pieces: Seq<Seq<u8>>, from: int, n: int)
    requires
        0 <= from <= n <= pieces.len(),
        counted(pieces, from) == Seq::<Seq<u8>>::empty(),
        forall|i: int| from <= i < n ==> #[trigger] counts(pieces, i),
    ensures
        counted(pieces, n) == pieces.subrange(from, n),
    decreases n - from,
{
    if n > from {
        lemma_counted_all(pieces, from, n - 1);
        assert(counts(pieces, n - 1));
        assert(pieces.subrange(from, n) =~= pieces.subrange(from, n - 1).push(pieces[n - 1]));
    } else {
        assert(pieces.subrange(from, n) =~= Seq::<Seq<u8>>::empty());
    }
}

/// Reading a path's text gives the path back.
pub proof fn law_path_text_round_trip(p: Seq<Seq<u8>>)
    requires
        well_formed(p),
    ensures
        components(path_text(p)) == p,
{
    let text = path_text(p);
    let pieces = seqs::split(text, SLASH);
    let none = Seq::<Seq<u8>>::empty();
    if p.len() == 0 {
        assert(seqs::position_from(text, SLASH, 0) is None);
        assert(pieces[0].len() == 0);
        assert(counted(pieces, 0) =~= none);
        assert(components(text) =~= p);
    } else if p == seq![root_part()] {
        assert(text =~= seqs::join(seq![root_part(), root_part()], seq![SLASH])) by {
            seqs::lemma_join_front(seq![root_part(), root_part()], seq![SLASH]);
            assert(seq![root_part(), root_part()].drop_first() =~= seq![root_part()]);
        }
        seqs::lemma_split_join(seq![root_part(), root_part()], SLASH);
        assert(pieces == seq![root_part(), root_part()]);
        assert(counted(pieces, 0) =~= none);
        assert(counted(pieces, 1) =~= none);
        assert(counted(pieces, 2) =~= none);
        assert(components(text) =~= p);
    } else {
        seqs::lemma_split_join(p, SLASH);
        seqs::lemma_join_front(p, seq![SLASH]);
        assert(pieces == p);
        assert(counted(pieces, 0) =~= none);
        let n = p.len() as int;
        if p[0] == root_part() {
            if p.len() == 1 {
                assert(p =~= seq![root_part()]);
            }
            assert(counted(pieces, 1) =~= none);
            assert forall|i: int| 1 <= i < n implies #[trigger] counts(pieces, i) by {
                assert(p[i] != root_part());
                if p[i].len() == 0 {
                    assert(p[i] =~= root_part());
                }
            }
            lemma_counted_all(pieces, 1, n);
            assert(text[0] == SLASH);
            assert(components(text) =~= p);
        } else {
            if p[0].len() == 0 {
                assert(p[0] =~= root_part());
            }
            assert forall|i: int| 0 <= i < n implies #[trigger] counts(pieces, i) by {
                if i > 0 {
                    assert(p[i] != root_part());
                    if p[i].len() == 0 {
                        assert(p[i] =~= root_part());
                    }
                }
            }
            lemma_counted_all(pieces, 0, n);
            assert(text[0] == p[0][0]);
            assert(p[0].contains(p[0][0]));
            assert(components(text) =~= p);
        }
    }
}

/// Computes `extension_dot`.
fn name_dot(name: &Vec<u8>) -> (r: Option<usize>)
    ensures
        match r {
            Some(i) => extension_dot(name@) == Some(i as int) && i < name@.len(),
            None => extension_dot(name@) is None,
        },
{
    let mut i: usize = name.len();
    assert(name@.take(i as int) =~= name@);
    while i > 0
        invariant
            i <= name@.len(),
            last_position(name@, DOT) == last_position(name@.take(i as int), DOT),
        decreases i,
    {
        assert(name@.take(i as int).drop_last() =~= name@.take(i - 1));
        assert(name@.take(i as int).last() == name@[i - 1]);
        if name[i - 1] == DOT {
            if i > 1 {
                return Some(i - 1);
            }
            return None;
        }
        i -= 1;
    }
    None
}

/// The last of several positions is found: none after it holds `x`.
proof fn lemma_last_position(s: Seq<u8>, x: u8, i: int)
    requires
        0 <= i < s.len(),
        s[i] == x,
        forall|k: int| i < k < s.len() ==> #[trigger] s[k] != x,
    ensures
        last_position(s, x) == Some(i),
    decreases s.len(),
{
    if s.len() - 1 > i {
        assert(s.last() == s[s.len() - 1]);
        lemma_last_position(s.drop_last(), x, i);
    }
}

/// A file name after its last full stop is found to lie inside it.
proof fn lemma_position_inside(s: Seq<u8>, x: u8)
    ensures
        match last_position(s, x) {
            Some(i) => 0 <= i < s.len(),
            None => true,
        },
    decreases s.len(),
{
    if s.len() > 0 {
        lemma_position_inside(s.drop_last(), x);
    }
}

/// A path whose extension was replaced has that extension, the same stem and
/// the same folder.
pub proof fn law_replaced_extension(p: Seq<Seq<u8>>, ext: Seq<u8>)
    requires
        file_name_of(p) is Some,
        ext.len() > 0,
        !ext.contains(DOT),
    ensures
        extension_of(with_extension_of(p, ext)) == Some(ext),
        stem_of(with_extension_of(p, ext)) == stem_of(p),
        parent_of(with_extension_of(p, ext)) == parent_of(p),
{
    let name = p.last();
    let stem = stem_of_name(name);
    lemma_position_inside(name, DOT);
    let changed = stem + seq![DOT] + ext;
    let q = with_extension_of(p, ext);
    assert(q == p.drop_last().push(changed));
    assert(stem.len() > 0) by {
        if name.len() == 0 {
            assert(name =~= root_part());
        }
    }
    let at = stem.len() as int;
    assert(changed[at] == DOT);
    assert forall|k: int| at < k < changed.len() implies #[trigger] changed[k] != DOT by {
        assert(changed[k] == ext[k - at - 1]);
    }
    lemma_last_position(changed, DOT, at);
    assert(changed.subrange(at + 1, changed.len() as int) =~= ext);
    assert(changed.subrange(0, at) =~= stem);
    assert(is_name(changed)) by {
        assert(changed.len() >= 3);
        assert(here_part().len() == 1 && up_part().len() == 2 && root_part().len() == 0);
    }
    assert(q.drop_last() =~= p.drop_last());
}

/// A name with a full stop behind its first character has an extension: what
/// stands behind the last one. What stands in front is the stem.
pub proof fn law_extensions_are_read(dir: Seq<Seq<u8>>, stem: Seq<u8>, ext: Seq<u8>)
    requires
        stem.len() > 0,
        ext.len() > 0,
        !ext.contains(DOT),
    ensures
        extension_of(dir.push(stem + seq![DOT] + ext)) == Some(ext),
        stem_of(dir.push(stem + seq![DOT] + ext)) == Some(stem),
        file_name_of(dir.push(stem + seq![DOT] + ext)) == Some(stem + seq![DOT] + ext),
        parent_of(dir.push(stem + seq![DOT] + ext)) == Some(dir),
{
    let name = stem + seq![DOT] + ext;
    let p = dir.push(name);
    let at = stem.len() as int;
    assert(name[at] == DOT);
    assert forall|k: int| at < k < name.len() implies #[trigger] name[k] != DOT by {
        assert(name[k] == ext[k - at - 1]);
        assert(ext.contains(ext[k - at - 1]));
    }
    lemma_last_position(name, DOT, at);
    assert(name.subrange(at + 1, name.len() as int) =~= ext);
    assert(name.subrange(0, at) =~= stem);
    assert(name.len() >= 3);
    assert(here_part().len() == 1 && up_part().len() == 2 && root_part().len() == 0);
    assert(p.drop_last() =~= dir);
}

/// A name without a full stop behind its first character has no extension, and is
/// its own stem.
pub proof fn law_plain_names_have_no_extension(dir: Seq<Seq<u8>>, name: Seq<u8>)
    requires
        is_name(name),
        forall|k: int| 0 < k < name.len() ==> #[trigger] name[k] != DOT,
    ensures
        extension_of(dir.push(name)) is None,
        stem_of(dir.push(name)) == Some(name),
        parent_of(dir.push(name)) == Some(dir),
{
    let p = dir.push(name);
    lemma_no_late_dot(name);
    assert(p.drop_last() =~= dir);
}

/// The last full stop is the first character, or there is none.
proof fn lemma_no_late_dot(name: Seq<u8>)
    requires
        forall|k: int| 0 < k < name.len() ==> #[trigger] name[k] != DOT,
    ensures
        match last_position(name, DOT) {
            Some(i) => i == 0,
            None => true,
        },
    decreases name.len(),
{
    if name.len() > 0 && name.last() != DOT {
        let less = name.drop_last();
        assert forall|k: int| 0 < k < less.len() implies #[trigger] less[k] != DOT by {
            assert(less[k] == name[k]);
        }
        lemma_no_late_dot(less);
    }
}

/// Going down from a folder and looking at where one came from gives the way down
/// back.
pub proof fn law_what_leads_down(base: Seq<Seq<u8>>, rel: Seq<Seq<u8>>)
    ensures
        under(base + rel, base),
        relative_to(base + rel, base) == rel,
{
    assert((base + rel).subrange(0, base.len() as int) =~= base);
    assert(relative_to(base + rel, base) =~= rel);
}

/// The extension of a name is exchanged for another; a path that ends in no name
/// stays as it is.
pub proof fn law_extensions_are_exchanged(
    dir: Seq<Seq<u8>>,
    stem: Seq<u8>,
    ext: Seq<u8>,
    other: Seq<u8>,
)
    requires
        stem.len() > 0,
        ext.len() > 0,
        !ext.contains(DOT),
    ensures
        with_extension_of(dir.push(stem + seq![DOT] + ext), other) == dir.push(
            stem + seq![DOT] + other,
        ),
        file_name_of(dir) is None ==> with_extension_of(dir, other) == dir,
{
    law_extensions_are_read(dir, stem, ext);
    assert(dir.push(stem + seq![DOT] + ext).drop_last() =~= dir);
}

} // verus!
