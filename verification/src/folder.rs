//! The folder tree that media is browsed by.

use crate::encoding;
use crate::media;
use crate::number;
use crate::path;
use crate::path::MediaPath;
use crate::sort;
use crate::sort::SortKey;
use crate::text;
use vstd::prelude::*;

verus! {

/// A folder that holds media, directly or further down.
pub struct FolderNode {
    pub path: MediaPath,
    pub display_name: String,
    /// The folders directly in this one, as indices into the list of folders.
    pub subfolder_indices: Vec<usize>,
    /// The files directly in this folder, as indices into the list of files.
    pub media_indices: Vec<usize>,
}

/// A folder as plain values.
#[verifier::ext_equal]
pub struct Folder {
    pub path: Seq<Seq<u8>>,
    pub name: Seq<char>,
    pub subs: Seq<usize>,
    pub media: Seq<usize>,
}

impl View for FolderNode {
    type V = Folder;

    open spec fn view(&self) -> Folder {
        Folder {
            path: self.path@,
            name: self.display_name@,
            subs: self.subfolder_indices@,
            media: self.media_indices@,
        }
    }
}

/// The contents of a list of folders.
pub open spec fn folders(v: Seq<FolderNode>) -> Seq<Folder> {
    v.map_values(|n: FolderNode| n@)
}

/// A folder that nothing has been put into.
pub open spec fn empty_folder(p: Seq<Seq<u8>>, name: Seq<char>) -> Folder {
    Folder { path: p, name, subs: Seq::empty(), media: Seq::empty() }
}

/// What a folder that was found below a source folder is called.
pub open spec fn folder_name(p: Seq<Seq<u8>>) -> Seq<char> {
    match path::file_name_of(p) {
        Some(name) => encoding::shown(name),
        None => Seq::empty(),
    }
}

/// What source folder `i` is called.
pub open spec fn source_name(p: Seq<Seq<u8>>, i: nat) -> Seq<char> {
    match path::file_name_of(p) {
        Some(name) => encoding::shown(name),
        None => "Source "@ + number::decimal(i),
    }
}

/// The source folders, before any file is put in.
pub open spec fn source_folders(dirs: Seq<Seq<Seq<u8>>>) -> Seq<Folder> {
    Seq::new(dirs.len(), |i: int| empty_folder(dirs[i], source_name(dirs[i], i as nat)))
}

/// The last folder with the path `p`.
pub open spec fn lookup(nodes: Seq<Folder>, p: Seq<Seq<u8>>) -> Option<int>
    decreases nodes.len(),
{
    if nodes.len() == 0 {
        None
    } else if nodes.last().path == p {
        Some(nodes.len() - 1)
    } else {
        lookup(nodes.drop_last(), p)
    }
}

/// `nodes` with `sub` listed last in folder `i`.
pub open spec fn with_sub(nodes: Seq<Folder>, i: int, sub: usize) -> Seq<Folder> {
    nodes.update(i, Folder { subs: nodes[i].subs.push(sub), ..nodes[i] })
}

/// `nodes` with file `file` listed last in folder `i`.
pub open spec fn with_media(nodes: Seq<Folder>, i: int, file: usize) -> Seq<Folder> {
    nodes.update(i, Folder { media: nodes[i].media.push(file), ..nodes[i] })
}

/// The folders with one for `p` among them, and its index. What is missing on
/// the way down from a folder that is there is added, parents first; where no
/// folder on the way up is there, nothing is.
pub open spec fn ensured(nodes: Seq<Folder>, p: Seq<Seq<u8>>) -> Option<(Seq<Folder>, int)>
    decreases p.len(),
{
    match lookup(nodes, p) {
        Some(i) => Some((nodes, i)),
        None => match path::parent_of(p) {
            None => None,
            Some(parent) => match ensured(nodes, parent) {
                None => None,
                Some((above, i)) => Some(
                    (
                        with_sub(
                            above.push(empty_folder(p, folder_name(p))),
                            i,
                            above.len() as usize,
                        ),
                        above.len() as int,
                    ),
                ),
            },
        },
    }
}

/// A path that lies under one of the folders `dirs`.
pub open spec fn is_under_any(dirs: Seq<Seq<Seq<u8>>>, p: Seq<Seq<u8>>) -> bool {
    exists|k: int| 0 <= k < dirs.len() && path::under(p, #[trigger] dirs[k])
}

/// The folders with file number `i`, at `file`, put into the folder that holds it.
pub open spec fn with_file(
    nodes: Seq<Folder>,
    dirs: Seq<Seq<Seq<u8>>>,
    i: int,
    file: Seq<Seq<u8>>,
) -> Seq<Folder> {
    if !is_under_any(dirs, file) {
        nodes
    } else {
        match path::parent_of(file) {
            None => nodes,
            Some(parent) => match ensured(nodes, parent) {
                None => nodes,
                Some((all, at)) => with_media(all, at, i as usize),
            },
        }
    }
}

/// The folders once the first `n` files are put in.
pub open spec fn tree(dirs: Seq<Seq<Seq<u8>>>, files: Seq<Seq<Seq<u8>>>, n: int) -> Seq<Folder>
    decreases n,
{
    if n <= 0 {
        source_folders(dirs)
    } else {
        with_file(tree(dirs, files, n - 1), dirs, n - 1, files[n - 1])
    }
}

/// Computes `lookup`.
fn find_folder(nodes: &Vec<FolderNode>, p: &MediaPath) -> (r: Option<usize>)
    ensures
        match r {
            Some(i) => lookup(folders(nodes@), p@) == Some(i as int) && i < nodes@.len(),
            None => lookup(folders(nodes@), p@) is None,
        },
{
    let ghost all = folders(nodes@);
    let mut n: usize = nodes.len();
    assert(all.take(n as int) =~= all);
    while n > 0
        invariant
            n <= nodes@.len(),
            all == folders(nodes@),
            lookup(all, p@) == lookup(all.take(n as int), p@),
        decreases n,
    {
        assert(all.take(n as int).last() == nodes@[n - 1]@);
        assert(all.take(n as int).drop_last() =~= all.take(n - 1));
        if nodes[n - 1].path.same(p) {
            return Some(n - 1);
        }
        n -= 1;
    }
    None
}

/// A folder's name as it is shown.
fn shown_name(p: &MediaPath) -> (r: String)
    ensures
        r@ == folder_name(p@),
{
    match p.file_name() {
        Some(name) => encoding::from_utf8_lossy(name.as_slice()),
        None => {
            let r = String::new();
            assert(r@ =~= Seq::<char>::empty());
            r
        },
    }
}

/// A folder that nothing has been put into.
fn new_folder(p: &MediaPath, display_name: String) -> (n: FolderNode)
    ensures
        n@ == empty_folder(p@, display_name@),
{
    let n = FolderNode {
        path: p.copy(),
        display_name,
        subfolder_indices: Vec::new(),
        media_indices: Vec::new(),
    };
    assert(n@ =~= empty_folder(p@, display_name@));
    n
}

/// Makes sure that there is a folder for `p`; gives its index, or none where no
/// folder above it is there.
fn ensure_folder(nodes: &mut Vec<FolderNode>, p: &MediaPath) -> (r: Option<usize>)
    ensures
        match r {
            Some(i) => ensured(folders(old(nodes)@), p@) == Some((folders(final(nodes)@), i as int))
                && i < final(nodes)@.len(),
            None => ensured(folders(old(nodes)@), p@) is None && folders(final(nodes)@) == folders(
                old(nodes)@,
            ),
        },
    decreases p@.len(),
{
    let ghost before = folders(nodes@);
    if let Some(i) = find_folder(nodes, p) {
        return Some(i);
    }
    let parent = match p.parent() {
        Some(parent) => parent,
        None => {
            return None;
        },
    };
    let at: usize = match ensure_folder(nodes, &parent) {
        Some(at) => at,
        None => {
            return None;
        },
    };
    let ghost above = folders(nodes@);
    let index: usize = nodes.len();
    let fresh = new_folder(p, shown_name(p));
    let ghost f = fresh@;
    nodes.push(fresh);
    let ghost pushed = folders(nodes@);
    assert(pushed =~= above.push(f));
    assert(pushed[at as int] == nodes@[at as int]@);
    nodes[at].subfolder_indices.push(index);
    assert(folders(nodes@) =~= with_sub(pushed, at as int, index));
    Some(index)
}

/// Decides `is_under_any`.
fn under_any(dirs: &Vec<MediaPath>, p: &MediaPath) -> (r: bool)
    ensures
        r == is_under_any(path::paths(dirs@), p@),
{
    let ghost all = path::paths(dirs@);
    let mut i: usize = 0;
    while i < dirs.len()
        invariant
            i <= dirs@.len(),
            all == path::paths(dirs@),
            forall|k: int| 0 <= k < i ==> !path::under(p@, #[trigger] all[k]),
        decreases dirs@.len() - i,
    {
        assert(all[i as int] == dirs@[i as int]@);
        if p.starts_with(&dirs[i]) {
            return true;
        }
        i += 1;
    }
    false
}

/// Builds the list of folders that hold media. The source folders come first, in
/// their order and whether or not they hold any; the folders below them follow
/// as files are met in them.
pub fn build_folder_tree(media_dirs: &Vec<MediaPath>, media_files: &Vec<MediaPath>) -> (r: Vec<
    FolderNode,
>)
    ensures
        folders(r@) == tree(
            path::paths(media_dirs@),
            path::paths(media_files@),
            media_files@.len() as int,
        ),
        forward_links(folders(r@)),
{
    let ghost dirs = path::paths(media_dirs@);
    let ghost files = path::paths(media_files@);
    let mut nodes: Vec<FolderNode> = Vec::new();
    let mut i: usize = 0;
    while i < media_dirs.len()
        invariant
            i <= media_dirs@.len(),
            dirs == path::paths(media_dirs@),
            folders(nodes@) =~= source_folders(dirs).take(i as int),
        decreases media_dirs@.len() - i,
    {
        let dir: &MediaPath = &media_dirs[i];
        assert(dirs[i as int] == dir@);
        let name = match dir.file_name() {
            Some(name) => encoding::from_utf8_lossy(name.as_slice()),
            None => {
                let mut s = String::from_str("Source ");
                number::push_decimal(&mut s, i as u128);
                s
            },
        };
        let ghost before = folders(nodes@);
        let fresh = new_folder(dir, name);
        let ghost f = fresh@;
        nodes.push(fresh);
        assert(folders(nodes@) =~= before.push(f));
        assert(f == source_folders(dirs)[i as int]);
        i += 1;
    }
    assert(source_folders(dirs).take(i as int) =~= source_folders(dirs));
    let mut j: usize = 0;
    while j < media_files.len()
        invariant
            j <= media_files@.len(),
            dirs == path::paths(media_dirs@),
            files == path::paths(media_files@),
            folders(nodes@) == tree(dirs, files, j as int),
        decreases media_files@.len() - j,
    {
        let file: &MediaPath = &media_files[j];
        assert(files[j as int] == file@);
        let ghost before = folders(nodes@);
        if under_any(media_dirs, file) {
            if let Some(parent) = file.parent() {
                if let Some(at) = ensure_folder(&mut nodes, &parent) {
                    let ghost all = folders(nodes@);
                    assert(all[at as int] == nodes@[at as int]@);
                    nodes[at].media_indices.push(j);
                    assert(folders(nodes@) =~= with_media(all, at as int, j));
                }
            }
        }
        assert(folders(nodes@) == with_file(before, dirs, j as int, file@));
        j += 1;
    }
    proof {
        let all = folders(nodes@);
        assert(all.len() == nodes.len());
        assert(files.len() == media_files.len());
        lemma_tree(dirs, files, files.len() as int);
        assert forall|i: int, k: int| 0 <= i < all.len() && 0 <= k < all[i].subs.len() implies i
            < #[trigger] all[i].subs[k] < all.len() by {
            assert(lists(all, i, k, all[i].subs[k] as int));
        }
    }
    nodes
}

/// What the folders `subs` are sorted by: their names in lower case.
pub open spec fn sub_keys(nodes: Seq<Folder>, subs: Seq<usize>) -> Seq<
    (Seq<char>, Seq<Seq<u8>>),
> {
    Seq::new(
        subs.len(),
        |k: int|
            (encoding::lowercase(nodes[subs[k] as int].name), Seq::<Seq<u8>>::empty()),
    )
}

/// What file `m` is sorted by inside its folder: its name in lower case.
pub open spec fn file_key(files: Seq<Seq<Seq<u8>>>, m: usize) -> Seq<char> {
    if m < files.len() {
        match path::file_name_of(files[m as int]) {
            Some(name) => encoding::lowercase(encoding::shown(name)),
            None => Seq::empty(),
        }
    } else {
        Seq::empty()
    }
}

/// What the files `list` are sorted by.
pub open spec fn file_keys(files: Seq<Seq<Seq<u8>>>, list: Seq<usize>) -> Seq<
    (Seq<char>, Seq<Seq<u8>>),
> {
    Seq::new(list.len(), |k: int| (file_key(files, list[k]), Seq::<Seq<u8>>::empty()))
}

/// `out` is the folder `node` with what it holds sorted by name in lower case.
pub open spec fn is_sorted_folder(
    nodes: Seq<Folder>,
    files: Seq<Seq<Seq<u8>>>,
    node: Folder,
    out: Folder,
) -> bool {
    &&& out.path == node.path
    &&& out.name == node.name
    &&& sort::is_sort_by(node.subs, out.subs, sub_keys(nodes, node.subs))
    &&& sort::is_sort_by(node.media, out.media, file_keys(files, node.media))
}

/// Every folder lists only folders that are there.
pub open spec fn subs_in_range(nodes: Seq<Folder>) -> bool {
    forall|i: int, k: int|
        0 <= i < nodes.len() && 0 <= k < nodes[i].subs.len() ==> #[trigger] nodes[i].subs[k]
            < nodes.len()
}

/// The sort keys of the folders `subs`.
fn keys_of_subs(nodes: &Vec<FolderNode>, subs: &Vec<usize>) -> (keys: Vec<SortKey>)
    requires
        forall|k: int| 0 <= k < subs@.len() ==> #[trigger] subs@[k] < nodes@.len(),
    ensures
        sort::keys_of(keys@) == sub_keys(folders(nodes@), subs@),
{
    let mut keys: Vec<SortKey> = Vec::new();
    let ghost want = sub_keys(folders(nodes@), subs@);
    let mut i: usize = 0;
    while i < subs.len()
        invariant
            i <= subs@.len(),
            want == sub_keys(folders(nodes@), subs@),
            forall|k: int| 0 <= k < subs@.len() ==> #[trigger] subs@[k] < nodes@.len(),
            sort::keys_of(keys@) =~= want.take(i as int),
        decreases subs@.len() - i,
    {
        let at: usize = subs[i];
        let low = encoding::to_lowercase(nodes[at].display_name.as_str());
        let key = SortKey {
            name: text::to_chars(low.as_str()),
            path: MediaPath { parts: Vec::new() },
        };
        assert(folders(nodes@)[at as int] == nodes@[at as int]@);
        assert(key@.1 =~= Seq::<Seq<u8>>::empty());
        assert(key@ == want[i as int]);
        let ghost before = sort::keys_of(keys@);
        keys.push(key);
        assert(sort::keys_of(keys@) =~= before.push(key@));
        i += 1;
    }
    assert(want.take(i as int) =~= want);
    keys
}

/// The sort keys of the files `list`.
fn keys_of_files(files: &Vec<MediaPath>, list: &Vec<usize>) -> (keys: Vec<SortKey>)
    ensures
        sort::keys_of(keys@) == file_keys(path::paths(files@), list@),
{
    let mut keys: Vec<SortKey> = Vec::new();
    let ghost want = file_keys(path::paths(files@), list@);
    let mut i: usize = 0;
    while i < list.len()
        invariant
            i <= list@.len(),
            want == file_keys(path::paths(files@), list@),
            sort::keys_of(keys@) =~= want.take(i as int),
        decreases list@.len() - i,
    {
        let m: usize = list[i];
        let mut name: Vec<char> = Vec::new();
        if m < files.len() {
            assert(path::paths(files@)[m as int] == files@[m as int]@);
            if let Some(n) = files[m].file_name() {
                name = media::lower_shown(n.as_slice());
            }
        }
        assert(name@ =~= file_key(path::paths(files@), m));
        let key = SortKey { name, path: MediaPath { parts: Vec::new() } };
        assert(key@.1 =~= Seq::<Seq<u8>>::empty());
        assert(key@ == want[i as int]);
        let ghost before = sort::keys_of(keys@);
        keys.push(key);
        assert(sort::keys_of(keys@) =~= before.push(key@));
        i += 1;
    }
    assert(want.take(i as int) =~= want);
    keys
}

/// Sorts what each folder holds by name in lower case.
pub fn sort_folder_tree(nodes: &mut Vec<FolderNode>, media_files: &Vec<MediaPath>)
    requires
        subs_in_range(folders(old(nodes)@)),
    ensures
        final(nodes)@.len() == old(nodes)@.len(),
        forall|i: int|
            0 <= i < old(nodes)@.len() ==> is_sorted_folder(
                folders(old(nodes)@),
                path::paths(media_files@),
                old(nodes)@[i]@,
                #[trigger] final(nodes)@[i]@,
            ),
        forward_links(folders(old(nodes)@)) ==> forward_links(folders(final(nodes)@)),
{
    let ghost all = folders(nodes@);
    let ghost files = path::paths(media_files@);
    let n: usize = nodes.len();
    let mut i: usize = 0;
    while i < n
        invariant
            i <= n == nodes@.len(),
            n == all.len(),
            files == path::paths(media_files@),
            subs_in_range(all),
            forall|k: int|
                0 <= k < i ==> is_sorted_folder(all, files, all[k], #[trigger] nodes@[k]@),
            forall|k: int| i <= k < n ==> #[trigger] nodes@[k]@ == all[k],
        decreases n - i,
    {
        let ghost before = nodes@;
        assert(nodes@[i as int]@ == all[i as int]);
        assert forall|k: int| 0 <= k < n implies #[trigger] nodes@[k]@.name == all[k].name by {}
        assert forall|k: int| 0 <= k < nodes@[i as int].subfolder_indices@.len() implies #[trigger] nodes@[i as int].subfolder_indices@[k]
            < nodes@.len() by {
            assert(all[i as int].subs[k] < all.len());
        }
        let sub_order = keys_of_subs(nodes, &nodes[i].subfolder_indices);
        assert(sub_keys(folders(nodes@), all[i as int].subs) =~= sub_keys(
            all,
            all[i as int].subs,
        )) by {
            assert forall|k: int| 0 <= k < all[i as int].subs.len() implies folders(
                nodes@,
            )[all[i as int].subs[k] as int].name == all[all[i as int].subs[k] as int].name by {
                let j = all[i as int].subs[k] as int;
                assert(nodes@[j]@.name == all[j].name);
            }
        }
        let subs = sort::sort_numbers(&nodes[i].subfolder_indices, &sub_order);
        let file_order = keys_of_files(media_files, &nodes[i].media_indices);
        assert(sort::keys_of(file_order@).len() == file_order@.len());
        let media_list = sort::sort_numbers(&nodes[i].media_indices, &file_order);
        nodes[i].subfolder_indices = subs;
        nodes[i].media_indices = media_list;
        assert forall|k: int| 0 <= k < i + 1 implies is_sorted_folder(
            all,
            files,
            all[k],
            #[trigger] nodes@[k]@,
        ) by {
            if k < i {
                assert(nodes@[k] == before[k]);
            }
        }
        assert forall|k: int| i + 1 <= k < n implies #[trigger] nodes@[k]@ == all[k] by {
            assert(nodes@[k] == before[k]);
        }
        i += 1;
    }
    proof {
        let out = folders(nodes@);
        if forward_links(all) {
            assert forall|a: int, k: int| 0 <= a < out.len() && 0 <= k < out[a].subs.len() implies a
                < #[trigger] out[a].subs[k] < out.len() by {
                assert(is_sorted_folder(all, files, all[a], nodes@[a]@));
                let subs = all[a].subs;
                let sorted = out[a].subs;
                let order = choose|order: Seq<usize>|
                    #![trigger sort::reordered(subs, sorted, order)]
                    sort::stable_sort(order, sub_keys(all, subs)) && sort::reordered(
                        subs,
                        sorted,
                        order,
                    );
                assert(sorted[k] == subs[order[k] as int]);
                assert(all[a].subs[order[k] as int] < all.len());
            }
        }
    }
}

/// Folder `j` is listed at place `k` of folder `i`.
pub open spec fn lists(nodes: Seq<Folder>, i: int, k: int, j: int) -> bool {
    0 <= i < nodes.len() && 0 <= k < nodes[i].subs.len() && nodes[i].subs[k] == j
}

/// Some folder lists folder `j`.
pub open spec fn is_listed(nodes: Seq<Folder>, j: int) -> bool {
    exists|i: int, k: int| lists(nodes, i, k, j)
}

/// Each listed folder comes later in the list than the folder that lists it.
pub open spec fn forward_links(nodes: Seq<Folder>) -> bool {
    forall|i: int, k: int|
        0 <= i < nodes.len() && 0 <= k < nodes[i].subs.len() ==> i < #[trigger] nodes[i].subs[k]
            < nodes.len()
}

/// Beyond the first `sources` folders each folder is listed exactly once, by the
/// folder that holds it; the first `sources` are listed by none.
pub open spec fn linked(nodes: Seq<Folder>, sources: int) -> bool {
    &&& sources <= nodes.len()
    &&& forall|i: int, k: int, j: int| #[trigger]
        lists(nodes, i, k, j) ==> i < j < nodes.len() && sources <= j && path::parent_of(
            nodes[j].path,
        ) == Some(nodes[i].path)
    &&& forall|j: int|
        sources <= j < nodes.len() ==> #[trigger] is_listed(nodes, j)
    &&& forall|i: int, k: int, i2: int, k2: int, j: int| #[trigger]
        lists(nodes, i, k, j) && #[trigger] lists(nodes, i2, k2, j) ==> i == i2 && k == k2
}

/// A looked-up folder is there, and has the path looked for.
proof fn lemma_lookup(nodes: Seq<Folder>, p: Seq<Seq<u8>>)
    ensures
        match lookup(nodes, p) {
            Some(i) => 0 <= i < nodes.len() && nodes[i].path == p,
            None => forall|i: int| 0 <= i < nodes.len() ==> (#[trigger] nodes[i]).path != p,
        },
    decreases nodes.len(),
{
    if nodes.len() > 0 && nodes.last().path != p {
        lemma_lookup(nodes.drop_last(), p);
        assert forall|i: int| 0 <= i < nodes.len() && lookup(nodes, p) is None implies (
        #[trigger] nodes[i]).path != p by {
            if i < nodes.len() - 1 {
                assert(nodes.drop_last()[i] == nodes[i]);
            }
        }
    }
}

/// What `ensured` gives holds a folder for `p`, keeps the folders that were
/// there, and keeps the tree linked.
proof fn lemma_ensured(nodes: Seq<Folder>, p: Seq<Seq<u8>>, sources: int)
    requires
        linked(nodes, sources),
        0 <= sources,
        match ensured(nodes, p) {
            Some((out, _)) => out.len() <= usize::MAX,
            None => true,
        },
    ensures
        match ensured(nodes, p) {
            Some((out, i)) => {
                &&& linked(out, sources)
                &&& 0 <= i < out.len()
                &&& out[i].path == p
                &&& nodes.len() <= out.len()
                &&& forall|k: int|
                    0 <= k < nodes.len() ==> (#[trigger] out[k]).path == nodes[k].path
                        && out[k].media == nodes[k].media && out[k].name == nodes[k].name
                &&& forall|k: int|
                    nodes.len() <= k < out.len() ==> (#[trigger] out[k]).media.len() == 0
            },
            None => true,
        },
    decreases p.len(),
{
    lemma_lookup(nodes, p);
    if lookup(nodes, p) is None && path::parent_of(p) is Some {
        let parent = path::parent_of(p)->0;
        if let Some((above, at)) = ensured(nodes, parent) {
            let j = above.len() as int;
            let (out, _) = ensured(nodes, p)->0;
            let pushed = above.push(empty_folder(p, folder_name(p)));
            lemma_ensured_grows(nodes, parent);
            assert(out.len() == j + 1);
            lemma_ensured(nodes, parent, sources);
            assert(out =~= with_sub(pushed, at, j as usize));
            let last = above[at].subs.len() as int;
            assert forall|i: int, k: int, x: int| #[trigger] lists(out, i, k, x) implies lists(
                above,
                i,
                k,
                x,
            ) || (i == at && k == last && x == j) by {
                if i < j {
                    if i == at && k < last {
                        assert(lists(above, i, k, x));
                    }
                }
            }
            assert forall|i: int, k: int, x: int| #[trigger] lists(above, i, k, x) implies lists(
                out,
                i,
                k,
                x,
            ) by {}
            assert(lists(out, at, last, j));
            assert forall|x: int| sources <= x < out.len() implies #[trigger] is_listed(out, x) by {
                if x < j {
                    assert(is_listed(above, x));
                    let (i, k) = choose|i: int, k: int| lists(above, i, k, x);
                    assert(lists(out, i, k, x));
                }
            }
            assert forall|i: int, k: int, x: int| #[trigger] lists(out, i, k, x) implies i < x
                < out.len() && sources <= x && path::parent_of(out[x].path) == Some(
                out[i].path,
            ) by {
                if !(i == at && k == last && x == j) {
                    assert(lists(above, i, k, x));
                }
            }
            assert forall|i: int, k: int, i2: int, k2: int, x: int| #[trigger]
                lists(out, i, k, x) && #[trigger] lists(out, i2, k2, x) implies i == i2 && k
                == k2 by {
                if x == j {
                    if lists(above, i, k, x) || lists(above, i2, k2, x) {
                        assert(x < above.len());
                    }
                } else {
                    assert(lists(above, i, k, x) && lists(above, i2, k2, x));
                }
            }
            assert(linked(out, sources));
        }
    }
}

/// File `m` is listed at place `k` of folder `i`.
pub open spec fn holds(nodes: Seq<Folder>, i: int, k: int, m: int) -> bool {
    0 <= i < nodes.len() && 0 <= k < nodes[i].media.len() && nodes[i].media[k] == m
}

/// Each listed file is one of the first `n`, stands in the folder that lists it
/// and lies under a source folder; and no file is listed twice.
pub open spec fn filed(
    nodes: Seq<Folder>,
    dirs: Seq<Seq<Seq<u8>>>,
    files: Seq<Seq<Seq<u8>>>,
    n: int,
) -> bool {
    &&& forall|i: int, k: int, m: int| #[trigger]
        holds(nodes, i, k, m) ==> 0 <= m < n && path::parent_of(files[m]) == Some(nodes[i].path)
            && is_under_any(dirs, files[m])
    &&& forall|i: int, k: int, i2: int, k2: int, m: int| #[trigger]
        holds(nodes, i, k, m) && #[trigger] holds(nodes, i2, k2, m) ==> i == i2 && k == k2
}

/// The first folders are the source folders.
pub open spec fn starts_with_sources(nodes: Seq<Folder>, dirs: Seq<Seq<Seq<u8>>>) -> bool {
    &&& dirs.len() <= nodes.len()
    &&& forall|i: int|
        0 <= i < dirs.len() ==> (#[trigger] nodes[i]).path == dirs[i] && nodes[i].name
            == source_name(dirs[i], i as nat)
}

/// Putting a file in adds to what is there.
proof fn lemma_with_file(
    nodes: Seq<Folder>,
    dirs: Seq<Seq<Seq<u8>>>,
    files: Seq<Seq<Seq<u8>>>,
    n: int,
)
    requires
        0 <= n < files.len() <= usize::MAX,
        with_file(nodes, dirs, n, files[n]).len() <= usize::MAX,
        starts_with_sources(nodes, dirs),
        linked(nodes, dirs.len() as int),
        filed(nodes, dirs, files, n),
    ensures
        starts_with_sources(with_file(nodes, dirs, n, files[n]), dirs),
        linked(with_file(nodes, dirs, n, files[n]), dirs.len() as int),
        filed(with_file(nodes, dirs, n, files[n]), dirs, files, n + 1),
        forall|i: int, k: int, m: int| #[trigger]
            holds(nodes, i, k, m) ==> holds(with_file(nodes, dirs, n, files[n]), i, k, m),
{
    let out = with_file(nodes, dirs, n, files[n]);
    let r = dirs.len() as int;
    if is_under_any(dirs, files[n]) && path::parent_of(files[n]) is Some {
        let parent = path::parent_of(files[n])->0;
        if let Some((all, at)) = ensured(nodes, parent) {
            lemma_ensured_grows(nodes, parent);
            lemma_ensured(nodes, parent, r);
            assert(out =~= with_media(all, at, n as usize));
            let last = all[at].media.len() as int;
            assert forall|i: int, k: int, x: int| #[trigger] lists(out, i, k, x) implies lists(
                all,
                i,
                k,
                x,
            ) by {}
            assert forall|i: int, k: int, x: int| #[trigger] lists(all, i, k, x) implies lists(
                out,
                i,
                k,
                x,
            ) by {}
            assert forall|x: int| r <= x < out.len() implies #[trigger] is_listed(out, x) by {
                assert(is_listed(all, x));
                let (i, k) = choose|i: int, k: int| lists(all, i, k, x);
                assert(lists(out, i, k, x));
            }
            assert(linked(out, r));
            assert forall|i: int, k: int, m: int| #[trigger] holds(out, i, k, m) implies holds(
                nodes,
                i,
                k,
                m,
            ) || (i == at && k == last && m == n) by {
                assert(out[i].media == all[i].media || i == at);
                if i >= nodes.len() && i != at {
                    assert(all[i].media.len() == 0);
                }
            }
            assert forall|i: int, k: int, m: int| #[trigger] holds(nodes, i, k, m) implies holds(
                out,
                i,
                k,
                m,
            ) by {
                assert(all[i].media == nodes[i].media);
            }
            assert forall|i: int, k: int, i2: int, k2: int, m: int| #[trigger]
                holds(out, i, k, m) && #[trigger] holds(out, i2, k2, m) implies i == i2 && k
                == k2 by {
                if m == n {
                    if holds(nodes, i, k, m) || holds(nodes, i2, k2, m) {
                        assert(m < n);
                    }
                } else {
                    assert(holds(nodes, i, k, m) && holds(nodes, i2, k2, m));
                }
            }
            assert forall|i: int, k: int, m: int| #[trigger] holds(out, i, k, m) implies 0 <= m < n
                + 1 && path::parent_of(files[m]) == Some(out[i].path) && is_under_any(
                dirs,
                files[m],
            ) by {
                if m != n || i != at {
                    assert(holds(nodes, i, k, m));
                    assert(all[i].path == nodes[i].path);
                }
            }
        }
    }
}

/// The tree only grows as files are put in.
proof fn lemma_tree(
    dirs: Seq<Seq<Seq<u8>>>,
    files: Seq<Seq<Seq<u8>>>,
    n: int,
)
    requires
        0 <= n <= files.len() <= usize::MAX,
        tree(dirs, files, files.len() as int).len() <= usize::MAX,
    ensures
        tree(dirs, files, n).len() <= usize::MAX,
        starts_with_sources(tree(dirs, files, n), dirs),
        linked(tree(dirs, files, n), dirs.len() as int),
        filed(tree(dirs, files, n), dirs, files, n),
    decreases n,
{
    lemma_tree_grows(dirs, files, n, files.len() as int);
    if n == 0 {
        let nodes = source_folders(dirs);
        assert(forall|i: int, k: int, j: int| !(#[trigger] lists(nodes, i, k, j)));
        assert(forall|i: int, k: int, m: int| !(#[trigger] holds(nodes, i, k, m)));
    } else {
        lemma_tree(dirs, files, n - 1);
        lemma_with_file(tree(dirs, files, n - 1), dirs, files, n - 1);
    }
}

/// No folder ever leaves the tree.
proof fn lemma_tree_grows(dirs: Seq<Seq<Seq<u8>>>, files: Seq<Seq<Seq<u8>>>, n: int, more: int)
    requires
        0 <= n <= more,
    ensures
        tree(dirs, files, n).len() <= tree(dirs, files, more).len(),
    decreases more - n,
{
    if n < more {
        lemma_tree_grows(dirs, files, n, more - 1);
        let nodes = tree(dirs, files, more - 1);
        match path::parent_of(files[more - 1]) {
            Some(parent) => lemma_ensured_grows(nodes, parent),
            None => {},
        }
    }
}

/// `ensured` only adds folders, and gives the index of one.
proof fn lemma_ensured_grows(nodes: Seq<Folder>, p: Seq<Seq<u8>>)
    ensures
        match ensured(nodes, p) {
            Some((out, i)) => nodes.len() <= out.len() && 0 <= i < out.len(),
            None => true,
        },
    decreases p.len(),
{
    lemma_lookup(nodes, p);
    if lookup(nodes, p) is None && path::parent_of(p) is Some {
        lemma_ensured_grows(nodes, path::parent_of(p)->0);
    }
}

/// The folder tree begins with the source folders, in their order. Every other
/// folder is listed exactly once, in the folder that holds it.
pub proof fn law_folder_tree_is_linked(
    dirs: Seq<Seq<Seq<u8>>>,
    files: Seq<Seq<Seq<u8>>>,
)
    requires
        files.len() <= usize::MAX,
        tree(dirs, files, files.len() as int).len() <= usize::MAX,
    ensures
        starts_with_sources(tree(dirs, files, files.len() as int), dirs),
        linked(tree(dirs, files, files.len() as int), dirs.len() as int),
{
    lemma_tree(dirs, files, files.len() as int);
}

/// A file is listed in the folder that it stands in, and nowhere else.
pub proof fn law_files_stand_in_their_folders(
    dirs: Seq<Seq<Seq<u8>>>,
    files: Seq<Seq<Seq<u8>>>,
)
    requires
        files.len() <= usize::MAX,
        tree(dirs, files, files.len() as int).len() <= usize::MAX,
    ensures
        filed(tree(dirs, files, files.len() as int), dirs, files, files.len() as int),
{
    lemma_tree(dirs, files, files.len() as int);
}

/// Where a source folder is in the list, there is a folder for each path below it.
proof fn lemma_ensured_below(
    nodes: Seq<Folder>,
    dirs: Seq<Seq<Seq<u8>>>,
    k: int,
    p: Seq<Seq<u8>>,
)
    requires
        starts_with_sources(nodes, dirs),
        0 <= k < dirs.len(),
        dirs[k].len() > 0,
        path::under(p, dirs[k]),
        forall|i: int| 0 < i < p.len() ==> #[trigger] p[i] != path::root_part(),
    ensures
        ensured(nodes, p) is Some,
    decreases p.len(),
{
    lemma_lookup(nodes, p);
    if lookup(nodes, p) is None {
        assert(nodes[k].path == dirs[k]);
        assert(p.len() > dirs[k].len()) by {
            if p.len() == dirs[k].len() {
                assert(p.subrange(0, dirs[k].len() as int) =~= p);
            }
        }
        assert(p[p.len() - 1] != path::root_part());
        let parent = p.drop_last();
        assert(parent.subrange(0, dirs[k].len() as int) =~= p.subrange(0, dirs[k].len() as int));
        assert forall|i: int| 0 < i < parent.len() implies #[trigger] parent[i]
            != path::root_part() by {
            assert(parent[i] == p[i]);
        }
        lemma_ensured_below(nodes, dirs, k, parent);
    }
}

/// Every file below a source folder is listed.
pub proof fn law_every_file_is_listed(
    dirs: Seq<Seq<Seq<u8>>>,
    files: Seq<Seq<Seq<u8>>>,
    m: int,
    d: int,
)
    requires
        files.len() <= usize::MAX,
        tree(dirs, files, files.len() as int).len() <= usize::MAX,
        0 <= m < files.len(),
        0 <= d < dirs.len(),
        dirs[d].len() > 0,
        path::well_formed(files[m]),
        path::under(files[m], dirs[d]),
        files[m] != dirs[d],
    ensures
        exists|i: int, k: int| holds(tree(dirs, files, files.len() as int), i, k, m),
{
    let file = files[m];
    let nodes = tree(dirs, files, m);
    lemma_tree(dirs, files, m);
    lemma_tree_grows(dirs, files, m + 1, files.len() as int);
    assert(file.len() > dirs[d].len()) by {
        if file.len() == dirs[d].len() {
            assert(file.subrange(0, dirs[d].len() as int) =~= file);
        }
    }
    let parent = file.drop_last();
    assert(file[file.len() - 1] != path::root_part());
    assert(parent.subrange(0, dirs[d].len() as int) =~= file.subrange(0, dirs[d].len() as int));
    assert forall|i: int| 0 < i < parent.len() implies #[trigger] parent[i]
        != path::root_part() by {
        assert(parent[i] == file[i]);
    }
    lemma_ensured_below(nodes, dirs, d, parent);
    let (all, at) = ensured(nodes, parent)->0;
    let out = tree(dirs, files, m + 1);
    assert(is_under_any(dirs, file));
    assert(out == with_media(all, at, m as usize));
    lemma_ensured_grows(nodes, parent);
    lemma_ensured(nodes, parent, dirs.len() as int);
    assert(holds(out, at, all[at].media.len() as int, m));
    lemma_holds_stays(dirs, files, at, all[at].media.len() as int, m, m + 1, files.len() as int);
}

/// A file that is listed stays listed as further files are put in.
proof fn lemma_holds_stays(
    dirs: Seq<Seq<Seq<u8>>>,
    files: Seq<Seq<Seq<u8>>>,
    i: int,
    k: int,
    m: int,
    n: int,
    more: int,
)
    requires
        files.len() <= usize::MAX,
        tree(dirs, files, files.len() as int).len() <= usize::MAX,
        0 <= n <= more <= files.len(),
        holds(tree(dirs, files, n), i, k, m),
    ensures
        holds(tree(dirs, files, more), i, k, m),
    decreases more - n,
{
    if n < more {
        lemma_holds_stays(dirs, files, i, k, m, n, more - 1);
        lemma_tree(dirs, files, more - 1);
        lemma_tree_grows(dirs, files, more, files.len() as int);
        lemma_with_file(tree(dirs, files, more - 1), dirs, files, more - 1);
    }
}

/// What the folders hold can be counted.
pub open spec fn countable(nodes: Seq<Folder>) -> bool {
    forall|i: int|
        0 <= i < nodes.len() ==> (#[trigger] nodes[i]).subs.len() <= usize::MAX
            && nodes[i].media.len() <= usize::MAX
}

/// Each folder of `out` is the one of `nodes` with what it holds sorted.
pub open spec fn is_sorted_list(
    nodes: Seq<Folder>,
    files: Seq<Seq<Seq<u8>>>,
    out: Seq<Folder>,
) -> bool {
    &&& out.len() == nodes.len()
    &&& forall|i: int|
        0 <= i < nodes.len() ==> is_sorted_folder(nodes, files, nodes[i], #[trigger] out[i])
}

/// What a sorted folder lists, it listed before.
proof fn lemma_lists_before(
    nodes: Seq<Folder>,
    files: Seq<Seq<Seq<u8>>>,
    out: Seq<Folder>,
    i: int,
)
    requires
        is_sorted_list(nodes, files, out),
        countable(nodes),
        0 <= i < nodes.len(),
    ensures
        forall|k: int, j: int| #[trigger]
            lists(out, i, k, j) ==> exists|q: int| lists(nodes, i, q, j),
        forall|q: int, j: int| #[trigger]
            lists(nodes, i, q, j) ==> exists|k: int| lists(out, i, k, j),
{
    assert(is_sorted_folder(nodes, files, nodes[i], out[i]));
    let before = nodes[i].subs;
    let after = out[i].subs;
    let order = sort::lemma_sort_order(before, after, sub_keys(nodes, before));
    assert forall|k: int, j: int| #[trigger] lists(out, i, k, j) implies exists|q: int|
        lists(nodes, i, q, j) by {
        assert(after[k] == before[order[k] as int]);
        assert(lists(nodes, i, order[k] as int, j));
    }
    assert forall|q: int, j: int| #[trigger] lists(nodes, i, q, j) implies exists|k: int|
        lists(out, i, k, j) by {
        assert(order.contains(q as usize));
        let k = choose|k: int| 0 <= k < order.len() && order[k] == q as usize;
        assert(after[k] == before[order[k] as int]);
        assert(lists(out, i, k, j));
    }
}

/// A folder that listed nothing twice lists nothing twice when it is sorted.
proof fn lemma_lists_once(
    nodes: Seq<Folder>,
    files: Seq<Seq<Seq<u8>>>,
    out: Seq<Folder>,
    sources: int,
    i: int,
    k: int,
    k2: int,
    j: int,
)
    requires
        is_sorted_list(nodes, files, out),
        countable(nodes),
        linked(nodes, sources),
        lists(out, i, k, j),
        lists(out, i, k2, j),
    ensures
        k == k2,
{
    assert(is_sorted_folder(nodes, files, nodes[i], out[i]));
    let before = nodes[i].subs;
    let after = out[i].subs;
    let order = sort::lemma_sort_order(before, after, sub_keys(nodes, before));
    assert(after[k] == before[order[k] as int]);
    assert(after[k2] == before[order[k2] as int]);
    assert(lists(nodes, i, order[k] as int, j));
    assert(lists(nodes, i, order[k2] as int, j));
    assert(order[k] == order[k2]);
}

/// A tree stays one when what its folders hold is sorted.
proof fn lemma_sorted_is_linked(
    nodes: Seq<Folder>,
    files: Seq<Seq<Seq<u8>>>,
    out: Seq<Folder>,
    sources: int,
)
    requires
        is_sorted_list(nodes, files, out),
        countable(nodes),
        linked(nodes, sources),
    ensures
        linked(out, sources),
{
    assert forall|i: int, k: int, j: int| #[trigger] lists(out, i, k, j) implies i < j < out.len()
        && sources <= j && path::parent_of(out[j].path) == Some(out[i].path) by {
        lemma_lists_before(nodes, files, out, i);
        let q = choose|q: int| lists(nodes, i, q, j);
        assert(lists(nodes, i, q, j));
        assert(is_sorted_folder(nodes, files, nodes[i], out[i]));
        assert(is_sorted_folder(nodes, files, nodes[j], out[j]));
    }
    assert forall|j: int| sources <= j < out.len() implies #[trigger] is_listed(out, j) by {
        assert(is_listed(nodes, j));
        let (i, q) = choose|i: int, q: int| lists(nodes, i, q, j);
        lemma_lists_before(nodes, files, out, i);
        assert(lists(nodes, i, q, j));
    }
    assert forall|i: int, k: int, i2: int, k2: int, j: int| #[trigger]
        lists(out, i, k, j) && #[trigger] lists(out, i2, k2, j) implies i == i2 && k == k2 by {
        lemma_lists_before(nodes, files, out, i);
        lemma_lists_before(nodes, files, out, i2);
        let q = choose|q: int| lists(nodes, i, q, j);
        let q2 = choose|q: int| lists(nodes, i2, q, j);
        assert(lists(nodes, i, q, j) && lists(nodes, i2, q2, j));
        lemma_lists_once(nodes, files, out, sources, i, k, k2, j);
    }
}

/// The files that a sorted folder holds are those that it held before.
proof fn lemma_holds_before(
    nodes: Seq<Folder>,
    files: Seq<Seq<Seq<u8>>>,
    out: Seq<Folder>,
    i: int,
)
    requires
        is_sorted_list(nodes, files, out),
        countable(nodes),
        0 <= i < nodes.len(),
    ensures
        forall|k: int, m: int| #[trigger]
            holds(out, i, k, m) ==> exists|q: int| holds(nodes, i, q, m),
        forall|q: int, m: int| #[trigger]
            holds(nodes, i, q, m) ==> exists|k: int| holds(out, i, k, m),
{
    assert(is_sorted_folder(nodes, files, nodes[i], out[i]));
    let before = nodes[i].media;
    let after = out[i].media;
    let order = sort::lemma_sort_order(before, after, file_keys(files, before));
    assert forall|k: int, m: int| #[trigger] holds(out, i, k, m) implies exists|q: int|
        holds(nodes, i, q, m) by {
        assert(after[k] == before[order[k] as int]);
        assert(holds(nodes, i, order[k] as int, m));
    }
    assert forall|q: int, m: int| #[trigger] holds(nodes, i, q, m) implies exists|k: int|
        holds(out, i, k, m) by {
        assert(order.contains(q as usize));
        let k = choose|k: int| 0 <= k < order.len() && order[k] == q as usize;
        assert(after[k] == before[order[k] as int]);
        assert(holds(out, i, k, m));
    }
}

/// A folder that held no file twice holds none twice when it is sorted.
proof fn lemma_holds_once(
    nodes: Seq<Folder>,
    dirs: Seq<Seq<Seq<u8>>>,
    files: Seq<Seq<Seq<u8>>>,
    out: Seq<Folder>,
    i: int,
    k: int,
    k2: int,
    m: int,
)
    requires
        is_sorted_list(nodes, files, out),
        countable(nodes),
        filed(nodes, dirs, files, files.len() as int),
        holds(out, i, k, m),
        holds(out, i, k2, m),
    ensures
        k == k2,
{
    assert(is_sorted_folder(nodes, files, nodes[i], out[i]));
    let before = nodes[i].media;
    let after = out[i].media;
    let order = sort::lemma_sort_order(before, after, file_keys(files, before));
    assert(after[k] == before[order[k] as int]);
    assert(after[k2] == before[order[k2] as int]);
    assert(holds(nodes, i, order[k] as int, m));
    assert(holds(nodes, i, order[k2] as int, m));
    assert(order[k] == order[k2]);
}

/// Files stay in their folders when what the folders hold is sorted.
proof fn lemma_sorted_is_filed(
    nodes: Seq<Folder>,
    dirs: Seq<Seq<Seq<u8>>>,
    files: Seq<Seq<Seq<u8>>>,
    out: Seq<Folder>,
)
    requires
        is_sorted_list(nodes, files, out),
        countable(nodes),
        filed(nodes, dirs, files, files.len() as int),
    ensures
        filed(out, dirs, files, files.len() as int),
{
    assert forall|i: int, k: int, m: int| #[trigger] holds(out, i, k, m) implies 0 <= m
        < files.len() && path::parent_of(files[m]) == Some(out[i].path) && is_under_any(
        dirs,
        files[m],
    ) by {
        lemma_holds_before(nodes, files, out, i);
        let q = choose|q: int| holds(nodes, i, q, m);
        assert(holds(nodes, i, q, m));
        assert(is_sorted_folder(nodes, files, nodes[i], out[i]));
    }
    assert forall|i: int, k: int, i2: int, k2: int, m: int| #[trigger]
        holds(out, i, k, m) && #[trigger] holds(out, i2, k2, m) implies i == i2 && k == k2 by {
        lemma_holds_before(nodes, files, out, i);
        lemma_holds_before(nodes, files, out, i2);
        let q = choose|q: int| holds(nodes, i, q, m);
        let q2 = choose|q: int| holds(nodes, i2, q, m);
        assert(holds(nodes, i, q, m) && holds(nodes, i2, q2, m));
        lemma_holds_once(nodes, dirs, files, out, i, k, k2, m);
    }
}

/// Sorting what the folders hold keeps the tree: the source folders come first,
/// every other folder is listed exactly once, in the folder that holds it, and a
/// file is listed in the folder that it stands in, and nowhere else.
pub proof fn law_sorted_tree_is_linked(
    dirs: Seq<Seq<Seq<u8>>>,
    files: Seq<Seq<Seq<u8>>>,
    out: Seq<Folder>,
)
    requires
        files.len() <= usize::MAX,
        out.len() <= usize::MAX,
        countable(tree(dirs, files, files.len() as int)),
        is_sorted_list(tree(dirs, files, files.len() as int), files, out),
    ensures
        starts_with_sources(out, dirs),
        linked(out, dirs.len() as int),
        filed(out, dirs, files, files.len() as int),
{
    let nodes = tree(dirs, files, files.len() as int);
    law_folder_tree_is_linked(dirs, files);
    law_files_stand_in_their_folders(dirs, files);
    lemma_sorted_is_linked(nodes, files, out, dirs.len() as int);
    lemma_sorted_is_filed(nodes, dirs, files, out);
    assert forall|i: int| 0 <= i < dirs.len() implies #[trigger] out[i].path == dirs[i] by {
        assert(is_sorted_folder(nodes, files, nodes[i], out[i]));
    }
}

/// Every file below a source folder is listed in the sorted tree.
pub proof fn law_sorted_tree_lists_every_file(
    dirs: Seq<Seq<Seq<u8>>>,
    files: Seq<Seq<Seq<u8>>>,
    out: Seq<Folder>,
    m: int,
    d: int,
)
    requires
        files.len() <= usize::MAX,
        out.len() <= usize::MAX,
        countable(tree(dirs, files, files.len() as int)),
        is_sorted_list(tree(dirs, files, files.len() as int), files, out),
        0 <= m < files.len(),
        0 <= d < dirs.len(),
        dirs[d].len() > 0,
        path::well_formed(files[m]),
        path::under(files[m], dirs[d]),
        files[m] != dirs[d],
    ensures
        exists|i: int, k: int| holds(out, i, k, m),
{
    let nodes = tree(dirs, files, files.len() as int);
    law_every_file_is_listed(dirs, files, m, d);
    let (i, q) = choose|i: int, q: int| holds(nodes, i, q, m);
    lemma_holds_before(nodes, files, out, i);
    assert(holds(nodes, i, q, m));
}

/// Folders beyond the first `sources` are called by the last part of their path.
pub open spec fn are_named(nodes: Seq<Folder>, sources: int) -> bool {
    forall|i: int|
        sources <= i < nodes.len() ==> (#[trigger] nodes[i]).name == match path::file_name_of(
            nodes[i].path,
        ) {
            Some(name) => encoding::shown(name),
            None => Seq::empty(),
        }
}

/// Folders beyond the first `sources`, but for one, hold something.
pub open spec fn are_in_use(nodes: Seq<Folder>, sources: int, but: int) -> bool {
    forall|i: int|
        sources <= i < nodes.len() && i != but ==> (#[trigger] nodes[i]).subs.len() > 0
            || nodes[i].media.len() > 0
}

/// No two folders are the same.
pub open spec fn are_different(nodes: Seq<Folder>) -> bool {
    forall|i: int, j: int|
        0 <= i < j < nodes.len() ==> (#[trigger] nodes[i]).path != (#[trigger] nodes[j]).path
}

/// The folders that are added on the way down to a path are called by their
/// paths, hold something, but for the last, and were not there before.
proof fn lemma_ensured_folders(nodes: Seq<Folder>, p: Seq<Seq<u8>>, sources: int)
    requires
        0 <= sources <= nodes.len(),
        are_named(nodes, sources),
        are_in_use(nodes, sources, -1),
        are_different(nodes),
    ensures
        match ensured(nodes, p) {
            Some((out, at)) => {
                &&& nodes.len() <= out.len()
                &&& 0 <= at < out.len()
                &&& are_named(out, sources)
                &&& are_in_use(out, sources, at)
                &&& are_different(out)
                &&& forall|k: int|
                    nodes.len() <= k < out.len() ==> (#[trigger] out[k]).path.len() <= p.len()
                &&& forall|k: int|
                    0 <= k < nodes.len() ==> (#[trigger] out[k]).path == nodes[k].path
            },
            None => true,
        },
    decreases p.len(),
{
    lemma_lookup(nodes, p);
    if lookup(nodes, p) is None && path::parent_of(p) is Some {
        let parent = path::parent_of(p)->0;
        lemma_ensured_folders(nodes, parent, sources);
        if let Some((above, i)) = ensured(nodes, parent) {
            let (out, at) = ensured(nodes, p)->0;
            let pushed = above.push(empty_folder(p, folder_name(p)));
            assert(out =~= with_sub(pushed, i, above.len() as usize));
            assert forall|k: int| sources <= k < out.len() && k != at implies (
            #[trigger] out[k]).subs.len() > 0 || out[k].media.len() > 0 by {
                if k != i {
                    assert(out[k] == above[k]);
                }
            }
            assert forall|k: int| 0 <= k < above.len() implies (#[trigger] out[k]).path
                == above[k].path by {}
            assert forall|a: int, b: int| 0 <= a < b < out.len() implies (#[trigger] out[a]).path
                != (#[trigger] out[b]).path by {
                if b == above.len() {
                    assert(out[a].path == above[a].path);
                    if a < nodes.len() {
                        assert(above[a].path == nodes[a].path);
                        assert(nodes[a].path != p);
                    } else {
                        assert(above[a].path.len() <= parent.len());
                    }
                } else {
                    assert(above[a].path != above[b].path);
                }
            }
            assert forall|k: int| sources <= k < out.len() implies (#[trigger] out[k]).name
                == match path::file_name_of(out[k].path) {
                Some(name) => encoding::shown(name),
                None => Seq::empty(),
            } by {
                if k < above.len() {
                    assert(out[k].name == above[k].name && out[k].path == above[k].path);
                }
            }
        }
    }
}

/// Below the source folders the tree has one folder for each folder of the disk
/// that holds media, or folders that do. It is called as on the disk, and none is
/// empty or there twice. A source folder without a name is called by its number.
pub proof fn law_folders_mirror_the_disk(
    dirs: Seq<Seq<Seq<u8>>>,
    files: Seq<Seq<Seq<u8>>>,
    n: int,
)
    requires
        0 <= n <= files.len(),
        forall|i: int, j: int| 0 <= i < j < dirs.len() ==> #[trigger] dirs[i] != #[trigger] dirs[j],
    ensures
        dirs.len() <= tree(dirs, files, n).len(),
        are_named(tree(dirs, files, n), dirs.len() as int),
        are_in_use(tree(dirs, files, n), dirs.len() as int, -1),
        are_different(tree(dirs, files, n)),
        forall|i: int|
            0 <= i < dirs.len() ==> (#[trigger] tree(dirs, files, n)[i]).path == dirs[i] && tree(
                dirs,
                files,
                n,
            )[i].name == match path::file_name_of(dirs[i]) {
                Some(name) => encoding::shown(name),
                None => "Source "@ + number::decimal(i as nat),
            },
    decreases n,
{
    let r = dirs.len() as int;
    if n > 0 {
        law_folders_mirror_the_disk(dirs, files, n - 1);
        let nodes = tree(dirs, files, n - 1);
        let out = tree(dirs, files, n);
        let file = files[n - 1];
        if is_under_any(dirs, file) && path::parent_of(file) is Some {
            let parent = path::parent_of(file)->0;
            lemma_ensured_folders(nodes, parent, r);
            if let Some((all, at)) = ensured(nodes, parent) {
                assert(out =~= with_media(all, at, (n - 1) as usize));
                lemma_ensured_names(nodes, parent);
                assert forall|i: int| 0 <= i < out.len() implies (#[trigger] out[i]).path
                    == all[i].path && out[i].name == all[i].name by {}
                assert forall|k: int| r <= k < out.len() implies (#[trigger] out[k]).subs.len() > 0
                    || out[k].media.len() > 0 by {
                    if k != at {
                        assert(out[k] == all[k]);
                    }
                }
                assert forall|a: int, b: int| 0 <= a < b < out.len() implies (
                #[trigger] out[a]).path != (#[trigger] out[b]).path by {
                    assert(all[a].path != all[b].path);
                }
                assert forall|k: int| r <= k < out.len() implies (#[trigger] out[k]).name
                    == match path::file_name_of(out[k].path) {
                    Some(name) => encoding::shown(name),
                    None => Seq::empty(),
                } by {
                    assert(all[k].name == out[k].name && all[k].path == out[k].path);
                }
            }
        }
    } else {
        let nodes = source_folders(dirs);
        assert forall|a: int, b: int| 0 <= a < b < nodes.len() implies (#[trigger] nodes[a]).path
            != (#[trigger] nodes[b]).path by {
            assert(dirs[a] != dirs[b]);
        }
    }
}

/// The folders that are there keep their names.
proof fn lemma_ensured_names(nodes: Seq<Folder>, p: Seq<Seq<u8>>)
    ensures
        match ensured(nodes, p) {
            Some((out, _)) => nodes.len() <= out.len() && forall|k: int|
                0 <= k < nodes.len() ==> (#[trigger] out[k]).path == nodes[k].path && out[k].name
                    == nodes[k].name,
            None => true,
        },
    decreases p.len(),
{
    lemma_lookup(nodes, p);
    if lookup(nodes, p) is None && path::parent_of(p) is Some {
        let parent = path::parent_of(p)->0;
        lemma_ensured_names(nodes, parent);
        if let Some((above, i)) = ensured(nodes, parent) {
            lemma_ensured_grows(nodes, parent);
            let (out, _) = ensured(nodes, p)->0;
            let pushed = above.push(empty_folder(p, folder_name(p)));
            assert(out =~= with_sub(pushed, i, above.len() as usize));
            assert forall|k: int| 0 <= k < nodes.len() implies (#[trigger] out[k]).path
                == nodes[k].path && out[k].name == nodes[k].name by {
                assert(above[k].path == nodes[k].path);
            }
        }
    }
}

/// Inside a folder what it lists is sorted by name, without regard to case: the
/// folders, and the files. Of two entries the name of the later one does not come
/// before that of the earlier one, at any position.
pub proof fn law_folders_are_in_order(
    nodes: Seq<Folder>,
    files: Seq<Seq<Seq<u8>>>,
    node: Folder,
    out: Folder,
    i: int,
    j: int,
    k: int,
    a: Seq<u8>,
    b: Seq<u8>,
)
    requires
        is_sorted_folder(nodes, files, node, out),
        0 <= i < j,
    ensures
        j < out.subs.len() ==> ({
            let first = encoding::lowercase(nodes[out.subs[i] as int].name);
            let second = encoding::lowercase(nodes[out.subs[j] as int].name);
            !(0 <= k <= second.len() && k < first.len() && first.subrange(0, k)
                == second.subrange(0, k) && (k == second.len() || second[k] < first[k]))
        }),
        j < out.media.len() && out.media[i] < files.len() && out.media[j] < files.len()
            && path::file_name_of(files[out.media[i] as int]) == Some(a) && path::file_name_of(
            files[out.media[j] as int],
        ) == Some(b) ==> ({
            let first = encoding::lowercase(encoding::shown(a));
            let second = encoding::lowercase(encoding::shown(b));
            !(0 <= k <= second.len() && k < first.len() && first.subrange(0, k)
                == second.subrange(0, k) && (k == second.len() || second[k] < first[k]))
        }),
{
    if j < out.subs.len() {
        let keys = sub_keys(nodes, node.subs);
        let order = choose|order: Seq<usize>|
            #![trigger sort::reordered(node.subs, out.subs, order)]
            sort::stable_sort(order, keys) && sort::reordered(node.subs, out.subs, order);
        assert(out.subs[i] == node.subs[order[i] as int] && out.subs[j]
            == node.subs[order[j] as int]);
        sort::law_sorted_names(keys, order[i] as int, order[j] as int, k);
    }
    if j < out.media.len() && out.media[i] < files.len() && out.media[j] < files.len()
        && path::file_name_of(files[out.media[i] as int]) == Some(a) && path::file_name_of(
        files[out.media[j] as int],
    ) == Some(b) {
        let keys = file_keys(files, node.media);
        let order = choose|order: Seq<usize>|
            #![trigger sort::reordered(node.media, out.media, order)]
            sort::stable_sort(order, keys) && sort::reordered(node.media, out.media, order);
        assert(out.media[i] == node.media[order[i] as int] && out.media[j]
            == node.media[order[j] as int]);
        sort::law_sorted_names(keys, order[i] as int, order[j] as int, k);
        assert(keys[order[i] as int].0 == encoding::lowercase(encoding::shown(a)));
        assert(keys[order[j] as int].0 == encoding::lowercase(encoding::shown(b)));
    }
}

} // verus!
