//! Which files a request may reach, and the playlist of all of them.

use crate::encoding;
use crate::media;
use crate::number;
use crate::path;
use crate::path::MediaPath;
use crate::seqs;
use crate::text;
use crate::url;
use vstd::prelude::*;

verus! {

/// What is served: the source folders, and the media files under them.
pub struct AppState {
    pub media_dirs: Vec<MediaPath>,
    pub media_files: Vec<MediaPath>,
}

/// A relative path that goes down only: names, and perhaps a leading `.`.
pub open spec fn goes_down(rel: Seq<Seq<u8>>) -> bool {
    forall|i: int|
        0 <= i < rel.len() ==> path::is_name(#[trigger] rel[i]) || rel[i] == path::here_part()
}

/// The first `n` components of a relative path without `.`.
pub open spec fn names_upto(rel: Seq<Seq<u8>>, n: int) -> Seq<Seq<u8>>
    decreases n,
{
    if n <= 0 {
        Seq::empty()
    } else if rel[n - 1] == path::here_part() {
        names_upto(rel, n - 1)
    } else {
        names_upto(rel, n - 1).push(rel[n - 1])
    }
}

/// The names that a relative path goes through.
pub open spec fn names_of(rel: Seq<Seq<u8>>) -> Seq<Seq<u8>> {
    names_upto(rel, rel.len() as int)
}

/// What a path's component is.
#[derive(Clone, Copy, PartialEq, Eq, Structural)]
enum PartKind {
    Name,
    Here,
    Other,
}

/// Tells what a path's component is.
fn part_kind(part: &Vec<u8>) -> (r: PartKind)
    ensures
        (r == PartKind::Name) == path::is_name(part@),
        (r == PartKind::Here) == (part@ == path::here_part()),
{
    if part.len() == 0 {
        assert(part@ =~= path::root_part());
        PartKind::Other
    } else if part.len() == 1 && part[0] == path::DOT {
        assert(part@ =~= path::here_part());
        PartKind::Here
    } else if part.len() == 2 && part[0] == path::DOT && part[1] == path::DOT {
        assert(part@ =~= path::up_part());
        PartKind::Other
    } else {
        PartKind::Name
    }
}

/// The names that a relative path goes through; none where it leaves the tree.
pub fn plain_names(relative: &MediaPath) -> (r: Option<Vec<Vec<u8>>>)
    ensures
        match r {
            Some(names) => goes_down(relative@) && path::contents(names@) == names_of(relative@),
            None => !goes_down(relative@),
        },
{
    let ghost rel = relative@;
    let mut names: Vec<Vec<u8>> = Vec::new();
    let mut i: usize = 0;
    assert(path::contents(names@) =~= names_upto(rel, 0));
    while i < relative.parts.len()
        invariant
            i <= relative.parts@.len(),
            rel == relative@,
            path::contents(names@) == names_upto(rel, i as int),
            forall|k: int|
                0 <= k < i ==> path::is_name(#[trigger] rel[k]) || rel[k] == path::here_part(),
        decreases relative.parts@.len() - i,
    {
        let ghost before = path::contents(names@);
        let part: &Vec<u8> = &relative.parts[i];
        assert(rel[i as int] == part@);
        match part_kind(part) {
            PartKind::Name => {
                let name = path::copy_bytes(part.as_slice(), 0, part.len());
                assert(name@ =~= part@);
                names.push(name);
                assert(path::contents(names@) =~= before.push(part@));
            },
            PartKind::Here => {},
            PartKind::Other => {
                assert(!goes_down(rel));
                return None;
            },
        }
        i += 1;
    }
    Some(names)
}

/// The paths on the way down from `root`, one for each of the first `n` names.
pub open spec fn steps_upto(root: Seq<Seq<u8>>, names: Seq<Seq<u8>>, n: int) -> Seq<Seq<Seq<u8>>> {
    Seq::new(n as nat, |i: int| root + names.take(i + 1))
}

/// The paths on the way from `root` to a file, each of which must not be a
/// symbolic link; none where the relative path leaves the tree.
pub fn safe_media_steps(root: &MediaPath, relative: &MediaPath) -> (r: Option<Vec<MediaPath>>)
    ensures
        match r {
            Some(steps) => goes_down(relative@) && path::paths(steps@) == steps_upto(
                root@,
                names_of(relative@),
                names_of(relative@).len() as int,
            ),
            None => !goes_down(relative@),
        },
{
    let names = match plain_names(relative) {
        Some(names) => names,
        None => {
            return None;
        },
    };
    let ghost all = path::contents(names@);
    let mut steps: Vec<MediaPath> = Vec::new();
    let mut cur = root.copy();
    let mut i: usize = 0;
    assert(path::paths(steps@) =~= steps_upto(root@, all, 0));
    assert(cur@ =~= root@ + all.take(0));
    while i < names.len()
        invariant
            i <= names@.len(),
            all == path::contents(names@),
            cur@ == root@ + all.take(i as int),
            path::paths(steps@) == steps_upto(root@, all, i as int),
        decreases names@.len() - i,
    {
        let ghost before = path::paths(steps@);
        assert(all[i as int] == names@[i as int]@);
        let name = path::copy_bytes(names[i].as_slice(), 0, names[i].len());
        assert(name@ =~= all[i as int]);
        cur = cur.child(name);
        assert(cur@ =~= root@ + all.take(i + 1));
        steps.push(cur.copy());
        assert(path::paths(steps@) =~= before.push(cur@));
        i += 1;
        assert(path::paths(steps@) =~= steps_upto(root@, all, i as int));
    }
    Some(steps)
}

/// What the file system says of a path, without following a link.
#[derive(Clone, Copy, Debug, PartialEq, Eq, Structural)]
pub enum EntryKind {
    Missing,
    Symlink,
    Other,
}

/// Every step on the way is there, and none is a link.
pub open spec fn all_plain(kinds: Seq<EntryKind>, n: int) -> bool {
    kinds.len() == n && forall|i: int| 0 <= i < n ==> #[trigger] kinds[i] == EntryKind::Other
}

/// The file that `relative` names under `root`, given what each step on the way
/// is and whether the file is a regular one: none where the path leaves the
/// tree, goes through a link or has an extension that is not served.
pub open spec fn safe_path_of(
    root: Seq<Seq<u8>>,
    relative: Seq<Seq<u8>>,
    kinds: Seq<EntryKind>,
    is_file: bool,
) -> Option<Seq<Seq<u8>>> {
    let p = root + names_of(relative);
    if goes_down(relative) && all_plain(kinds, names_of(relative).len() as int)
        && media::path_mime_of(p) is Some && is_file {
        Some(p)
    } else {
        None
    }
}

/// Resolves a relative path under a source folder.
pub fn safe_media_path(
    root: &MediaPath,
    relative: &MediaPath,
    kinds: &[EntryKind],
    is_file: bool,
) -> (r: Option<MediaPath>)
    ensures
        match r {
            Some(p) => safe_path_of(root@, relative@, kinds@, is_file) == Some(p@),
            None => safe_path_of(root@, relative@, kinds@, is_file) is None,
        },
{
    let steps = match safe_media_steps(root, relative) {
        Some(steps) => steps,
        None => {
            return None;
        },
    };
    let ghost names = names_of(relative@);
    let n: usize = steps.len();
    assert(path::paths(steps@).len() == n);
    if kinds.len() != n {
        return None;
    }
    let mut i: usize = 0;
    while i < n
        invariant
            i <= n == kinds@.len(),
            n == names_of(relative@).len(),
            forall|k: int| 0 <= k < i ==> #[trigger] kinds@[k] == EntryKind::Other,
        decreases n - i,
    {
        if kinds[i] != EntryKind::Other {
            assert(!all_plain(kinds@, n as int));
            return None;
        }
        i += 1;
    }
    let p = if n == 0 {
        assert(root@ + names =~= root@);
        root.copy()
    } else {
        assert(path::paths(steps@)[n - 1] == steps@[n - 1]@);
        assert(names.take(n as int) =~= names);
        steps[n - 1].copy()
    };
    if media::path_mime(&p).is_none() || !is_file {
        return None;
    }
    Some(p)
}

/// A resolved file lies under its source folder, and its path goes down only.
pub proof fn law_safe_path_stays_inside(
    root: Seq<Seq<u8>>,
    relative: Seq<Seq<u8>>,
    kinds: Seq<EntryKind>,
    is_file: bool,
    p: Seq<Seq<u8>>,
)
    requires
        safe_path_of(root, relative, kinds, is_file) == Some(p),
    ensures
        path::under(p, root),
        forall|i: int| root.len() <= i < p.len() ==> path::is_name(#[trigger] p[i]),
        media::path_mime_of(p) is Some,
{
    assert(p.subrange(0, root.len() as int) =~= root);
    lemma_names(relative, relative.len() as int);
    assert forall|i: int| root.len() <= i < p.len() implies path::is_name(#[trigger] p[i]) by {
        assert(p[i] == names_of(relative)[i - root.len()]);
    }
}

/// What a path that goes down goes through is names.
proof fn lemma_names(rel: Seq<Seq<u8>>, n: int)
    requires
        goes_down(rel),
        0 <= n <= rel.len(),
    ensures
        forall|i: int|
            0 <= i < names_upto(rel, n).len() ==> path::is_name(#[trigger] names_upto(rel, n)[i]),
    decreases n,
{
    if n > 0 {
        lemma_names(rel, n - 1);
        let before = names_upto(rel, n - 1);
        let now = names_upto(rel, n);
        assert(path::is_name(rel[n - 1]) || rel[n - 1] == path::here_part());
        assert forall|i: int| 0 <= i < now.len() implies path::is_name(#[trigger] now[i]) by {
            if i < before.len() {
                assert(now[i] == before[i]);
            }
        }
    }
}

/// The folders to open one inside the other, the file to open in the last, and
/// its MIME type.
pub struct OpenPlan {
    pub dirs: Vec<Vec<u8>>,
    pub file_name: Vec<u8>,
    pub mime: &'static str,
}

/// The MIME type that a file name's extension stands for.
pub open spec fn name_mime(name: Seq<u8>) -> Option<Seq<char>> {
    media::path_mime_of(seq![name])
}

/// A relative path may be opened: it goes down only, names a file, and the
/// file's extension is served.
pub open spec fn may_open(relative: Seq<Seq<u8>>) -> bool {
    let names = names_of(relative);
    goes_down(relative) && names.len() > 0 && !names.last().contains(0) && name_mime(names.last())
        is Some
}

/// Decides which folders and file to open for a relative path, none of them
/// through a link.
pub fn open_media_plan(relative: &MediaPath) -> (r: Option<OpenPlan>)
    ensures
        match r {
            Some(plan) => may_open(relative@) && path::contents(plan.dirs@) == names_of(
                relative@,
            ).drop_last() && plan.file_name@ == names_of(relative@).last() && name_mime(
                plan.file_name@,
            ) == Some(plan.mime@),
            None => !may_open(relative@),
        },
{
    let mut dirs = match plain_names(relative) {
        Some(names) => names,
        None => {
            return None;
        },
    };
    let ghost names = names_of(relative@);
    let ghost before = dirs@;
    let file_name: Vec<u8> = match dirs.pop() {
        Some(name) => name,
        None => {
            return None;
        },
    };
    assert(path::contents(dirs@) =~= names.drop_last());
    assert(names.last() == before.last()@);
    let mut i: usize = 0;
    while i < file_name.len()
        invariant
            i <= file_name@.len(),
            file_name@ == names_of(relative@).last(),
            forall|k: int| 0 <= k < i ==> #[trigger] file_name@[k] != 0,
        decreases file_name@.len() - i,
    {
        if file_name[i] == 0 {
            assert(file_name@.contains(0));
            return None;
        }
        i += 1;
    }
    let mut parts: Vec<Vec<u8>> = Vec::new();
    let name = path::copy_bytes(file_name.as_slice(), 0, file_name.len());
    assert(name@ =~= file_name@);
    parts.push(name);
    let alone = MediaPath { parts };
    assert(alone@ =~= seq![file_name@]);
    match media::path_mime(&alone) {
        Some(mime) => Some(OpenPlan { dirs, file_name, mime }),
        None => None,
    }
}

/// A source folder to look for a picture in, and where in it.
pub struct Place {
    pub root: usize,
    pub relative: MediaPath,
}

/// Those of the first `n` source folders that hold a file, as numbers.
pub open spec fn holds_file(dirs: Seq<Seq<Seq<u8>>>, file: Seq<Seq<u8>>) -> spec_fn(int) -> bool {
    |i: int| path::under(file, dirs[i])
}

/// The source folders to look for a file in, in order.
pub fn places_of(file: &MediaPath, dirs: &Vec<MediaPath>) -> (r: Vec<Place>)
    ensures
        r@.map_values(|p: Place| p.root) == seqs::numbers_where(
            holds_file(path::paths(dirs@), file@),
            dirs@.len() as int,
        ),
        forall|k: int|
            0 <= k < r@.len() ==> r@[k].root < dirs@.len() && (#[trigger] r@[k]).relative@
                == path::relative_to(file@, dirs@[r@[k].root as int]@),
{
    let ghost all = path::paths(dirs@);
    let mut r: Vec<Place> = Vec::new();
    let mut i: usize = 0;
    assert(r@.map_values(|p: Place| p.root) =~= Seq::<usize>::empty());
    while i < dirs.len()
        invariant
            i <= dirs@.len(),
            all == path::paths(dirs@),
            r@.map_values(|p: Place| p.root) == seqs::numbers_where(
                holds_file(all, file@),
                i as int,
            ),
            forall|k: int|
                0 <= k < r@.len() ==> r@[k].root < dirs@.len() && (#[trigger] r@[k]).relative@
                    == path::relative_to(file@, dirs@[r@[k].root as int]@),
        decreases dirs@.len() - i,
    {
        assert(all[i as int] == dirs@[i as int]@);
        let ghost before = r@.map_values(|p: Place| p.root);
        if let Some(relative) = file.strip_prefix(&dirs[i]) {
            r.push(Place { root: i, relative });
            assert(r@.map_values(|p: Place| p.root) =~= before.push(i));
        }
        i += 1;
    }
    r
}

/// Decides whether a request is worth a line in the log.
pub fn is_logged(uri_path: &str) -> (r: bool)
    ensures
        r == (text::starts_with(uri_path@, "/m/"@) || text::starts_with(uri_path@, "/upnp/"@)
            || text::starts_with(uri_path@, "/art/"@)),
{
    text::has_prefix(uri_path, "/m/") || text::has_prefix(uri_path, "/upnp/") || text::has_prefix(
        uri_path,
        "/art/",
    )
}

/// The name that a playlist shows for a file.
pub open spec fn playlist_name(file: Seq<Seq<u8>>) -> Seq<char> {
    match path::file_name_of(file) {
        Some(name) => encoding::shown(name),
        None => Seq::empty(),
    }
}

/// The playlist of the first `n` files; those that have no URL are left out.
pub open spec fn playlist_upto(
    files: Seq<Seq<Seq<u8>>>,
    dirs: Seq<Seq<Seq<u8>>>,
    hostname: Seq<char>,
    n: int,
) -> Seq<char>
    decreases n,
{
    if n <= 0 {
        "#EXTM3U\n"@
    } else {
        let before = playlist_upto(files, dirs, hostname, n - 1);
        match url::media_url_of(files[n - 1], dirs) {
            None => before,
            Some((d, tail)) => before + "#EXTINF:-1,"@ + playlist_name(files[n - 1]) + "\nhttp://"@
                + hostname + "/m/"@ + number::decimal(d as nat) + "/"@ + tail + "\n"@,
        }
    }
}

/// Writes an M3U playlist of the given files.
pub fn m3u_playlist(files: &Vec<MediaPath>, dirs: &Vec<MediaPath>, hostname: &str) -> (r: String)
    ensures
        r@ == playlist_upto(
            path::paths(files@),
            path::paths(dirs@),
            hostname@,
            files@.len() as int,
        ),
{
    let ghost all = path::paths(files@);
    let ghost roots = path::paths(dirs@);
    let mut r = String::from_str("#EXTM3U\n");
    let mut i: usize = 0;
    while i < files.len()
        invariant
            i <= files@.len(),
            all == path::paths(files@),
            roots == path::paths(dirs@),
            r@ == playlist_upto(all, roots, hostname@, i as int),
        decreases files@.len() - i,
    {
        let file: &MediaPath = &files[i];
        assert(all[i as int] == file@);
        if let Some((d, tail)) = url::media_url_path(file, dirs) {
            let name = match file.file_name() {
                Some(name) => encoding::from_utf8_lossy(name.as_slice()),
                None => {
                    let none = String::new();
                    assert(none@ =~= Seq::<char>::empty());
                    none
                },
            };
            r.append("#EXTINF:-1,");
            r.append(name.as_str());
            r.append("\nhttp://");
            r.append(hostname);
            r.append("/m/");
            number::push_decimal(&mut r, d as u128);
            r.append("/");
            r.append(tail.as_str());
            r.append("\n");
        }
        i += 1;
    }
    r
}

/// A path of names goes through all of them.
proof fn lemma_names_are_kept(rel: Seq<Seq<u8>>, n: int)
    requires
        forall|k: int| 0 <= k < rel.len() ==> path::is_name(#[trigger] rel[k]),
        0 <= n <= rel.len(),
    ensures
        names_upto(rel, n) == rel.take(n),
    decreases n,
{
    if n > 0 {
        lemma_names_are_kept(rel, n - 1);
        assert(path::is_name(rel[n - 1]));
        assert(rel.take(n) =~= rel.take(n - 1).push(rel[n - 1]));
    } else {
        assert(rel.take(n) =~= Seq::<Seq<u8>>::empty());
    }
}

/// A file of the library, or one next to it, can be opened under the URL that it
/// is listed with: the request asks for the path that leads to it from its
/// source folder, that path is one that may be opened, and it is served as the
/// type that it is listed with.
pub proof fn law_listed_files_can_be_opened(
    file: Seq<Seq<u8>>,
    dirs: Seq<Seq<Seq<u8>>>,
    i: int,
    s: Seq<char>,
)
    requires
        path::well_formed(file),
        dirs.len() <= usize::MAX,
        url::media_url_of(file, dirs) == Some((i, s)),
        media::path_mime_of(file) is Some,
        forall|k: int| dirs[i].len() <= k < file.len() ==> path::is_name(#[trigger] file[k]),
        file != dirs[i],
        !file.last().contains(0),
    ensures
        ({
            let rel = path::relative_to(file, dirs[i]);
            &&& url::media_request_of("/m/"@ + number::decimal(i as nat) + "/"@ + s) == Some(
                (i, rel),
            )
            &&& may_open(rel)
            &&& dirs[i] + names_of(rel) == file
            &&& name_mime(names_of(rel).last()) == media::path_mime_of(file)
        }),
{
    url::law_media_url_round_trip(file, dirs, i, s);
    url::lemma_root_from(file, dirs, 0);
    let rel = path::relative_to(file, dirs[i]);
    let from = dirs[i].len() as int;
    assert forall|k: int| 0 <= k < rel.len() implies path::is_name(#[trigger] rel[k]) by {
        assert(rel[k] == file[from + k]);
    }
    lemma_names_are_kept(rel, rel.len() as int);
    assert(rel.take(rel.len() as int) =~= rel);
    if rel.len() == 0 {
        assert(file.subrange(0, from) =~= file);
    }
    assert(rel.last() == file.last());
    assert(seq![file.last()].last() == file.last());
    assert(dirs[i] + rel =~= file);
}

/// No path that goes up, or that starts at the top, may be opened, and neither
/// may a file whose extension is not served.
pub proof fn law_only_media_below_can_be_opened(relative: Seq<Seq<u8>>)
    requires
        may_open(relative),
    ensures
        forall|k: int|
            0 <= k < relative.len() ==> #[trigger] relative[k] != path::up_part() && relative[k]
                != path::root_part(),
        name_mime(names_of(relative).last()) is Some,
{
    assert forall|k: int| 0 <= k < relative.len() implies #[trigger] relative[k]
        != path::up_part() && relative[k] != path::root_part() by {
        assert(path::is_name(relative[k]) || relative[k] == path::here_part());
        assert(path::here_part().len() == 1 && path::up_part().len() == 2);
    }
}

/// A longer playlist begins with a shorter one.
proof fn lemma_playlist_grows(
    files: Seq<Seq<Seq<u8>>>,
    dirs: Seq<Seq<Seq<u8>>>,
    hostname: Seq<char>,
    k: int,
    n: int,
)
    requires
        0 <= k <= n <= files.len(),
    ensures
        seqs::begins(
            playlist_upto(files, dirs, hostname, n),
            playlist_upto(files, dirs, hostname, k),
        ),
    decreases n - k,
{
    broadcast use seqs::lemma_longer_begins;

    let short = playlist_upto(files, dirs, hostname, k);
    if k < n {
        lemma_playlist_grows(files, dirs, hostname, k, n - 1);
    } else {
        assert(short.subrange(0, short.len() as int) =~= short);
    }
}

/// The playlist has an entry for every file in a source folder: its name, and
/// behind it a URL on the host that leads back to the file.
pub proof fn law_playlists_lead_to_the_files(
    files: Seq<Seq<Seq<u8>>>,
    dirs: Seq<Seq<Seq<u8>>>,
    hostname: Seq<char>,
    k: int,
    i: int,
    name: Seq<u8>,
)
    requires
        0 <= k < files.len(),
        path::well_formed(files[k]),
        dirs.len() <= usize::MAX,
        0 <= i < dirs.len(),
        path::under(files[k], dirs[i]),
        files[k] != dirs[i],
        forall|j: int| 0 <= j < i ==> !path::under(files[k], #[trigger] dirs[j]),
        path::file_name_of(files[k]) == Some(name),
    ensures
        exists|uri: Seq<char>|
            {
                &&& #[trigger] text::contains(
                    playlist_upto(files, dirs, hostname, files.len() as int),
                    "#EXTINF:-1,"@ + encoding::shown(name) + "\nhttp://"@ + hostname + uri + "\n"@,
                )
                &&& url::media_request_of(uri) == Some((i, path::relative_to(files[k], dirs[i])))
                &&& dirs[i] + path::relative_to(files[k], dirs[i]) == files[k]
            },
        text::starts_with(
            playlist_upto(files, dirs, hostname, files.len() as int),
            "#EXTM3U\n"@,
        ),
{
    let n = files.len() as int;
    url::law_files_have_a_url(files[k], dirs, i);
    let (d, tail) = url::media_url_of(files[k], dirs)->0;
    let uri = "/m/"@ + number::decimal(i as nat) + "/"@ + tail;
    let entry = "#EXTINF:-1,"@ + encoding::shown(name) + "\nhttp://"@ + hostname + uri + "\n"@;
    let before = playlist_upto(files, dirs, hostname, k);
    let now = playlist_upto(files, dirs, hostname, k + 1);
    let whole = playlist_upto(files, dirs, hostname, n);
    lemma_entry(before, encoding::shown(name), hostname, number::decimal(i as nat), tail);
    assert(now == before + entry);
    lemma_playlist_grows(files, dirs, hostname, k + 1, n);
    let at = before.len() as int;
    assert(whole.subrange(at, at + entry.len()) =~= whole.subrange(0, now.len() as int).subrange(
        at,
        at + entry.len(),
    ));
    assert(now.subrange(at, at + entry.len()) =~= entry);
    assert(text::occurs_at(whole, entry, at));
    assert(text::contains(whole, entry));
    lemma_playlist_grows(files, dirs, hostname, 0, n);
    assert(playlist_upto(files, dirs, hostname, 0) == "#EXTM3U\n"@);
}

/// One entry behind the others.
proof fn lemma_entry(
    before: Seq<char>,
    name: Seq<char>,
    hostname: Seq<char>,
    d: Seq<char>,
    tail: Seq<char>,
)
    ensures
        before + "#EXTINF:-1,"@ + name + "\nhttp://"@ + hostname + "/m/"@ + d + "/"@ + tail
            + "\n"@ == before + ("#EXTINF:-1,"@ + name + "\nhttp://"@ + hostname + ("/m/"@ + d
            + "/"@ + tail) + "\n"@),
{
    assert(before + "#EXTINF:-1,"@ + name + "\nhttp://"@ + hostname + "/m/"@ + d + "/"@ + tail
        + "\n"@ =~= before + ("#EXTINF:-1,"@ + name + "\nhttp://"@ + hostname + ("/m/"@ + d
        + "/"@ + tail) + "\n"@));
}

/// What goes through two paths, one behind the other, goes through the names of
/// both.
proof fn lemma_names_of_both(a: Seq<Seq<u8>>, b: Seq<Seq<u8>>)
    ensures
        names_of(a + b) == names_of(a) + names_of(b),
    decreases b.len(),
{
    if b.len() == 0 {
        assert(a + b =~= a);
        assert(names_of(a) + names_of(b) =~= names_of(a));
    } else {
        let c = b.drop_last();
        lemma_names_of_both(a, c);
        lemma_names_of_front(a + b, a + c);
        lemma_names_of_front(b, c);
        assert(names_of(a + b) =~= names_of(a) + names_of(b));
    }
}

/// One more part makes one more step.
proof fn lemma_names_of_front(whole: Seq<Seq<u8>>, front: Seq<Seq<u8>>)
    requires
        whole.len() == front.len() + 1,
        forall|k: int| 0 <= k < front.len() ==> #[trigger] front[k] == whole[k],
    ensures
        names_of(whole) == if whole.last() == path::here_part() {
            names_of(front)
        } else {
            names_of(front).push(whole.last())
        },
{
    lemma_same_names(whole, front, front.len() as int);
}

/// The first parts decide the first names.
proof fn lemma_same_names(a: Seq<Seq<u8>>, b: Seq<Seq<u8>>, n: int)
    requires
        n <= a.len(),
        n <= b.len(),
        forall|k: int| 0 <= k < n ==> #[trigger] b[k] == a[k],
    ensures
        names_upto(a, n) == names_upto(b, n),
    decreases n,
{
    if n > 0 {
        lemma_same_names(a, b, n - 1);
        assert(b[n - 1] == a[n - 1]);
    }
}

/// A path of names may be opened where the last one names a file that is served
/// and that the system can open; it leads through the names as they are. Single
/// full stops in between change nothing.
pub proof fn law_what_may_be_opened(front: Seq<Seq<u8>>, back: Seq<Seq<u8>>, name: Seq<u8>)
    requires
        forall|k: int| 0 <= k < front.len() ==> path::is_name(#[trigger] front[k]),
        forall|k: int| 0 <= k < back.len() ==> path::is_name(#[trigger] back[k]),
        path::is_name(name),
    ensures
        names_of(front + back.push(name)) == front + back.push(name),
        may_open(front + back.push(name)) <==> media::path_mime_of(seq![name]) is Some
            && !name.contains(0),
        names_of(front.push(seq![path::DOT]) + back.push(name)) == front + back.push(name),
        may_open(front.push(seq![path::DOT]) + back.push(name)) <==> may_open(
            front + back.push(name),
        ),
{
    let plain = front + back.push(name);
    let dotted = front.push(seq![path::DOT]) + back.push(name);
    assert forall|k: int| 0 <= k < plain.len() implies path::is_name(#[trigger] plain[k]) by {
        if k < front.len() {
            assert(plain[k] == front[k]);
        } else if k < front.len() + back.len() {
            assert(plain[k] == back[k - front.len()]);
        }
    }
    lemma_names_are_kept(plain, plain.len() as int);
    assert(plain.take(plain.len() as int) =~= plain);
    assert(plain.last() == name);
    lemma_names_of_both(front, back.push(name));
    lemma_names_of_both(front.push(seq![path::DOT]), back.push(name));
    lemma_names_of_front(front.push(seq![path::DOT]), front);
    assert forall|k: int| 0 <= k < dotted.len() implies path::is_name(#[trigger] dotted[k])
        || dotted[k] == path::here_part() by {
        if k < front.len() {
            assert(dotted[k] == plain[k]);
        } else if k > front.len() {
            assert(dotted[k] == plain[k - 1]);
        }
    }
    assert(goes_down(plain));
    assert(goes_down(dotted));
}

/// A path of names is served where every step on the way is there and is no link,
/// where the last one is a file, and where its type is served; it is not served
/// where any of that fails.
pub proof fn law_what_is_served(
    root: Seq<Seq<u8>>,
    names: Seq<Seq<u8>>,
    kinds: Seq<EntryKind>,
    is_file: bool,
)
    requires
        forall|k: int| 0 <= k < names.len() ==> path::is_name(#[trigger] names[k]),
        kinds.len() == names.len(),
    ensures
        safe_path_of(root, names, kinds, is_file) == Some(root + names) || safe_path_of(
            root,
            names,
            kinds,
            is_file,
        ) is None,
        safe_path_of(root, names, kinds, is_file) is None <==> !is_file || media::path_mime_of(
            root + names,
        ) is None || exists|k: int|
            0 <= k < kinds.len() && #[trigger] kinds[k] != EntryKind::Other,
{
    lemma_names_are_kept(names, names.len() as int);
    assert(names.take(names.len() as int) =~= names);
}

} // verus!
