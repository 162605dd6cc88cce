//! The ContentDirectory and ConnectionManager services.

use crate::didl;
use crate::didl::Listed;
use crate::didl::Listing;
use crate::encoding;
use crate::folder;
use crate::folder::Folder;
use crate::folder::FolderNode;
use crate::host;
use crate::library::DlnaConfig;
use crate::library::Library;
use crate::media;
use crate::number;
use crate::path;
use crate::profile;
use crate::query;
use crate::seqs;
use crate::soap;
use crate::soap::Reply;
use crate::text;
use crate::url;
use crate::xml;
use vstd::prelude::*;
use vstd::utf8;

verus! {

/// The ContentDirectory service.
pub const CD_SERVICE: &'static str = "urn:schemas-upnp-org:service:ContentDirectory:1";

/// The ConnectionManager service.
pub const CM_SERVICE: &'static str = "urn:schemas-upnp-org:service:ConnectionManager:1";

/// A folder that holds media or folders that do.
pub open spec fn is_active(node: Folder) -> bool {
    node.subs.len() > 0 || node.media.len() > 0
}

/// Whether source folder `i` holds media.
pub open spec fn active_source(lib: Library) -> spec_fn(int) -> bool {
    |i: int| is_active(lib.nodes[i])
}

/// How many of the folders are source folders.
pub open spec fn source_count(lib: Library) -> int {
    if lib.dirs.len() <= lib.nodes.len() {
        lib.dirs.len() as int
    } else {
        lib.nodes.len() as int
    }
}

/// The source folders that hold media.
pub open spec fn active_sources(lib: Library) -> Seq<usize> {
    seqs::numbers_where(active_source(lib), source_count(lib))
}

/// Lists the source folders that hold media.
fn active_root_folders(config: &DlnaConfig) -> (r: Vec<usize>)
    ensures
        r@ == active_sources(config@),
{
    let ghost lib = config@;
    let n: usize = if config.media_dirs.len() <= config.folder_nodes.len() {
        config.media_dirs.len()
    } else {
        config.folder_nodes.len()
    };
    let mut r: Vec<usize> = Vec::new();
    let mut i: usize = 0;
    while i < n
        invariant
            i <= n <= config.folder_nodes@.len(),
            lib == config@,
            r@ == seqs::numbers_where(active_source(lib), i as int),
        decreases n - i,
    {
        let node: &FolderNode = &config.folder_nodes[i];
        assert(lib.nodes[i as int] == node@);
        if node.subfolder_indices.len() > 0 || node.media_indices.len() > 0 {
            r.push(i);
        }
        i += 1;
    }
    r
}

/// The source folders that hold media, described.
pub open spec fn source_entries(lib: Library) -> Seq<Seq<char>> {
    active_sources(lib).map_values(
        |i: usize| didl::folder_text(i as nat, didl::FOLDER_ID@, lib.nodes[i as int]),
    )
}

/// The containers at the top: those of videos, audio and folders that hold anything.
pub open spec fn top_entries(lib: Library) -> Seq<Seq<char>> {
    (if lib.video.len() > 0 {
        seq![didl::category_text(didl::VIDEO_ID@, "Videos"@, lib.video.len())]
    } else {
        Seq::empty()
    }) + (if lib.audio.len() > 0 {
        seq![didl::category_text(didl::AUDIO_ID@, "Music"@, lib.audio.len())]
    } else {
        Seq::empty()
    }) + (if active_sources(lib).len() > 0 {
        seq![didl::category_text(didl::FOLDER_ID@, "By folder"@, active_sources(lib).len())]
    } else {
        Seq::empty()
    })
}

/// The descriptions of those of the first `n` files in `list` that can be described.
pub open spec fn items_upto(
    lib: Library,
    list: Seq<usize>,
    n: int,
    parent: Seq<char>,
    base: Seq<char>,
) -> Seq<Seq<char>>
    decreases n,
{
    if n <= 0 {
        Seq::empty()
    } else {
        let before = items_upto(lib, list, n - 1, parent, base);
        let i = list[n - 1];
        if i < lib.files.len() {
            match didl::item_of(
                lib,
                i as nat,
                lib.files[i as int],
                didl::item_id_text(parent, i as nat),
                parent,
                base,
            ) {
                Some(item) => before.push(item),
                None => before,
            }
        } else {
            before
        }
    }
}

/// The descriptions of the files in `list`.
pub open spec fn items_of(lib: Library, list: Seq<usize>, parent: Seq<char>, base: Seq<char>) -> Seq<
    Seq<char>,
> {
    items_upto(lib, list, list.len() as int, parent, base)
}

/// Describes the files `list[from..to]`, after the entries in `out`.
fn push_items(
    out: &mut Vec<String>,
    list: &Vec<usize>,
    from: usize,
    to: usize,
    parent: &str,
    config: &DlnaConfig,
    base: &str,
)
    requires
        from <= to <= list@.len(),
    ensures
        text::texts(final(out)@) == text::texts(old(out)@) + items_of(
            config@,
            list@.subrange(from as int, to as int),
            parent@,
            base@,
        ),
{
    let ghost lib = config@;
    let ghost slice = list@.subrange(from as int, to as int);
    let ghost start = text::texts(out@);
    let mut i: usize = from;
    assert(text::texts(out@) =~= start + items_upto(lib, slice, 0, parent@, base@));
    while i < to
        invariant
            from <= i <= to <= list@.len(),
            lib == config@,
            slice == list@.subrange(from as int, to as int),
            text::texts(out@) == start + items_upto(lib, slice, i - from, parent@, base@),
        decreases to - i,
    {
        let at: usize = list[i];
        let ghost before = text::texts(out@);
        assert(slice[i - from] == at);
        if at < config.media_files.len() {
            assert(lib.files[at as int] == config.media_files@[at as int]@);
            let oid = didl::item_id(parent, at);
            match didl::item_xml(at, &config.media_files[at], oid.as_str(), parent, config, base) {
                Some(item) => {
                    let ghost it = item@;
                    out.push(item);
                    assert(text::texts(out@) =~= before.push(it));
                },
                None => {},
            }
        }
        i += 1;
        assert(text::texts(out@) =~= start + items_upto(lib, slice, i - from, parent@, base@));
    }
}

/// One page of a list of files.
pub open spec fn category_listing(
    lib: Library,
    list: Seq<usize>,
    parent: Seq<char>,
    start: nat,
    count: nat,
    base: Seq<char>,
) -> Listing {
    let s = didl::page_start(start, list.len());
    let e = didl::page_end(start, count, list.len());
    let items = items_of(lib, list.subrange(s as int, e as int), parent, base);
    Listing { didl: didl::didl_text(items), returned: items.len(), total: list.len() }
}

/// Lists one page of a list of files.
pub fn category_children(
    indices: &Vec<usize>,
    parent: &str,
    start: usize,
    count: usize,
    config: &DlnaConfig,
    public_base: &str,
) -> (r: Listed)
    ensures
        r@ == category_listing(
            config@,
            indices@,
            parent@,
            start as nat,
            count as nat,
            public_base@,
        ),
{
    let total: usize = indices.len();
    let (from, to) = didl::page_slice(start, count, total);
    let mut items: Vec<String> = Vec::new();
    assert(text::texts(items@) =~= Seq::<Seq<char>>::empty());
    push_items(&mut items, indices, from, to, parent, config, public_base);
    let ghost want = items_of(
        config@,
        indices@.subrange(from as int, to as int),
        parent@,
        public_base@,
    );
    assert(text::texts(items@) =~= want);
    let returned: usize = items.len();
    Listed { didl: didl::didl_wrap(&items), returned, total }
}

/// Those of the first `n` folders in `subs` that are there, described.
pub open spec fn subfolder_entries(lib: Library, subs: Seq<usize>, n: int, parent: Seq<char>) -> Seq<
    Seq<char>,
>
    decreases n,
{
    if n <= 0 {
        Seq::empty()
    } else {
        let before = subfolder_entries(lib, subs, n - 1, parent);
        let i = subs[n - 1];
        if i < lib.nodes.len() {
            before.push(didl::folder_text(i as nat, parent, lib.nodes[i as int]))
        } else {
            before
        }
    }
}

/// The id of folder `idx`.
pub open spec fn folder_id(idx: nat) -> Seq<char> {
    "f:"@ + number::decimal(idx)
}

/// Makes the id of a folder.
pub fn folder_id_text(idx: usize) -> (r: String)
    ensures
        r@ == folder_id(idx as nat),
{
    let mut r = String::from_str("f:");
    number::push_decimal(&mut r, idx as u128);
    r
}

/// What folder `idx` holds: folders first, then files.
pub open spec fn folder_entries(lib: Library, idx: nat, base: Seq<char>) -> Seq<Seq<char>> {
    let node = lib.nodes[idx as int];
    subfolder_entries(lib, node.subs, node.subs.len() as int, folder_id(idx)) + items_of(
        lib,
        node.media,
        folder_id(idx),
        base,
    )
}

/// Lists one page of what a folder holds.
pub fn folder_children(
    idx: usize,
    start: usize,
    count: usize,
    config: &DlnaConfig,
    public_base: &str,
) -> (r: Listed)
    requires
        idx < config@.nodes.len(),
    ensures
        r@ == didl::page_of(
            folder_entries(config@, idx as nat, public_base@),
            start as nat,
            count as nat,
        ),
{
    let ghost lib = config@;
    let self_id = folder_id_text(idx);
    let node: &FolderNode = &config.folder_nodes[idx];
    assert(lib.nodes[idx as int] == node@);
    let ghost subs = node.subfolder_indices@;
    let mut entries: Vec<String> = Vec::new();
    let mut i: usize = 0;
    assert(text::texts(entries@) =~= subfolder_entries(lib, subs, 0, self_id@));
    while i < node.subfolder_indices.len()
        invariant
            i <= subs.len(),
            lib == config@,
            subs == node.subfolder_indices@,
            text::texts(entries@) == subfolder_entries(lib, subs, i as int, self_id@),
        decreases subs.len() - i,
    {
        let at: usize = node.subfolder_indices[i];
        let ghost before = text::texts(entries@);
        if at < config.folder_nodes.len() {
            assert(lib.nodes[at as int] == config.folder_nodes@[at as int]@);
            let e = didl::folder_container_xml(at, self_id.as_str(), &config.folder_nodes[at]);
            let ghost it = e@;
            entries.push(e);
            assert(text::texts(entries@) =~= before.push(it));
        }
        i += 1;
    }
    let n: usize = node.media_indices.len();
    push_items(
        &mut entries,
        &node.media_indices,
        0,
        n,
        self_id.as_str(),
        config,
        public_base,
    );
    assert(node.media_indices@.subrange(0, n as int) =~= node.media_indices@);
    didl::paginate(&entries, start, count)
}

/// The first folder from `from` on that lists folder `idx`.
pub open spec fn lister_from(nodes: Seq<Folder>, idx: usize, from: int) -> Option<int>
    decreases nodes.len() - from,
{
    if from >= nodes.len() {
        None
    } else if nodes[from].subs.contains(idx) {
        Some(from)
    } else {
        lister_from(nodes, idx, from + 1)
    }
}

/// The container that lists folder `idx`: that of the source folders for one of
/// them, and else the folder that holds it.
pub open spec fn folder_parent(lib: Library, idx: usize) -> Seq<char> {
    if idx < lib.dirs.len() {
        didl::FOLDER_ID@
    } else {
        match lister_from(lib.nodes, idx, 0) {
            Some(i) => folder_id(i as nat),
            None => didl::FOLDER_ID@,
        }
    }
}

/// Decides whether a list holds a number.
fn holds_number(v: &Vec<usize>, x: usize) -> (r: bool)
    ensures
        r == v@.contains(x),
{
    let mut i: usize = 0;
    while i < v.len()
        invariant
            i <= v@.len(),
            forall|k: int| 0 <= k < i ==> #[trigger] v@[k] != x,
        decreases v@.len() - i,
    {
        if v[i] == x {
            assert(v@[i as int] == x);
            return true;
        }
        i += 1;
    }
    false
}

/// Finds the container that lists a folder.
pub fn folder_parent_id(config: &DlnaConfig, idx: usize) -> (r: String)
    ensures
        r@ == folder_parent(config@, idx),
{
    let ghost lib = config@;
    if idx < config.media_dirs.len() {
        return String::from_str(didl::FOLDER_ID);
    }
    let mut i: usize = 0;
    while i < config.folder_nodes.len()
        invariant
            i <= config.folder_nodes@.len(),
            lib == config@,
            idx >= lib.dirs.len(),
            lister_from(lib.nodes, idx, 0) == lister_from(lib.nodes, idx, i as int),
        decreases config.folder_nodes@.len() - i,
    {
        assert(lib.nodes[i as int] == config.folder_nodes@[i as int]@);
        if holds_number(&config.folder_nodes[i].subfolder_indices, idx) {
            return folder_id_text(i);
        }
        i += 1;
    }
    String::from_str(didl::FOLDER_ID)
}

/// The first folder from `from` on that lists file `m`.
pub open spec fn holder_from(nodes: Seq<Folder>, m: usize, from: int) -> Option<int>
    decreases nodes.len() - from,
{
    if from >= nodes.len() {
        None
    } else if nodes[from].media.contains(m) {
        Some(from)
    } else {
        holder_from(nodes, m, from + 1)
    }
}

/// The folder that lists file `m`.
pub open spec fn media_parent(lib: Library, m: usize) -> Seq<char> {
    match holder_from(lib.nodes, m, 0) {
        Some(i) => folder_id(i as nat),
        None => didl::FOLDER_ID@,
    }
}

/// Finds the folder that lists a file.
pub fn folder_parent_for_media(config: &DlnaConfig, media_idx: usize) -> (r: String)
    ensures
        r@ == media_parent(config@, media_idx),
{
    let ghost lib = config@;
    let mut i: usize = 0;
    while i < config.folder_nodes.len()
        invariant
            i <= config.folder_nodes@.len(),
            lib == config@,
            holder_from(lib.nodes, media_idx, 0) == holder_from(lib.nodes, media_idx, i as int),
        decreases config.folder_nodes@.len() - i,
    {
        assert(lib.nodes[i as int] == config.folder_nodes@[i as int]@);
        if holds_number(&config.folder_nodes[i].media_indices, media_idx) {
            return folder_id_text(i);
        }
        i += 1;
    }
    String::from_str(didl::FOLDER_ID)
}

/// A browse that asks for the object itself and not for what it holds.
pub open spec fn asks_metadata(flag: Seq<char>) -> bool {
    flag == "BrowseMetadata"@
}

/// How many containers there are at the top.
pub open spec fn top_count(lib: Library) -> nat {
    ((if lib.video.len() > 0 {
        1int
    } else {
        0
    }) + (if lib.audio.len() > 0 {
        1int
    } else {
        0
    }) + (if active_sources(lib).len() > 0 {
        1int
    } else {
        0
    })) as nat
}

/// What browsing a folder gives; nothing for one that there is not.
pub open spec fn browse_folder(
    lib: Library,
    id: Seq<char>,
    flag: Seq<char>,
    start: nat,
    count: nat,
    base: Seq<char>,
) -> Option<Listing> {
    match number::unsigned(id.subrange(2, id.len() as int), usize::MAX as nat) {
        None => None,
        Some(idx) => if idx >= lib.nodes.len() {
            None
        } else if asks_metadata(flag) {
            Some(
                didl::single(
                    didl::folder_text(
                        idx,
                        folder_parent(lib, idx as usize),
                        lib.nodes[idx as int],
                    ),
                ),
            )
        } else {
            Some(didl::page_of(folder_entries(lib, idx, base), start, count))
        },
    }
}

/// What browsing a file gives; nothing for one that there is not.
pub open spec fn browse_item(
    lib: Library,
    id: Seq<char>,
    view: Seq<char>,
    idx: nat,
    flag: Seq<char>,
    base: Seq<char>,
) -> Option<Listing> {
    if !asks_metadata(flag) {
        Some(Listing { didl: didl::didl_text(Seq::empty()), returned: 0, total: 0 })
    } else if idx >= lib.files.len() {
        None
    } else {
        let parent = if view == "m"@ {
            media_parent(lib, idx as usize)
        } else {
            view
        };
        match didl::item_of(lib, idx, lib.files[idx as int], id, parent, base) {
            Some(item) => Some(didl::single(item)),
            None => None,
        }
    }
}

/// What browsing object `id` gives; nothing for an object that there is not.
pub open spec fn browse_listing(
    lib: Library,
    id: Seq<char>,
    flag: Seq<char>,
    start: nat,
    count: nat,
    base: Seq<char>,
) -> Option<Listing> {
    if id == didl::ROOT_ID@ {
        Some(
            if asks_metadata(flag) {
                didl::single(didl::root_text(top_count(lib)))
            } else {
                didl::page_of(top_entries(lib), start, count)
            },
        )
    } else if id == didl::VIDEO_ID@ {
        Some(
            if asks_metadata(flag) {
                didl::single(didl::category_text(didl::VIDEO_ID@, "Videos"@, lib.video.len()))
            } else {
                category_listing(lib, lib.video, didl::VIDEO_ID@, start, count, base)
            },
        )
    } else if id == didl::AUDIO_ID@ {
        Some(
            if asks_metadata(flag) {
                didl::single(didl::category_text(didl::AUDIO_ID@, "Music"@, lib.audio.len()))
            } else {
                category_listing(lib, lib.audio, didl::AUDIO_ID@, start, count, base)
            },
        )
    } else if id == didl::FOLDER_ID@ {
        Some(
            if asks_metadata(flag) {
                didl::single(
                    didl::category_text(
                        didl::FOLDER_ID@,
                        "By folder"@,
                        active_sources(lib).len(),
                    ),
                )
            } else {
                didl::page_of(source_entries(lib), start, count)
            },
        )
    } else if text::starts_with(id, "f:"@) {
        browse_folder(lib, id, flag, start, count, base)
    } else {
        match didl::item_of_id(id) {
            Some((view, idx)) => browse_item(lib, id, view, idx, flag, base),
            None => None,
        }
    }
}

/// Describes the containers at the top.
fn top_containers(config: &DlnaConfig, sources: usize) -> (r: Vec<String>)
    requires
        sources == active_sources(config@).len(),
    ensures
        text::texts(r@) == top_entries(config@),
{
    let mut r: Vec<String> = Vec::new();
    let ghost lib = config@;
    assert(text::texts(r@) =~= Seq::<Seq<char>>::empty());
    if config.video_idx.len() > 0 {
        let ghost before = text::texts(r@);
        let c = didl::category_container_xml(didl::VIDEO_ID, "Videos", config.video_idx.len());
        let ghost it = c@;
        r.push(c);
        assert(text::texts(r@) =~= before.push(it));
    }
    if config.audio_idx.len() > 0 {
        let ghost before = text::texts(r@);
        let c = didl::category_container_xml(didl::AUDIO_ID, "Music", config.audio_idx.len());
        let ghost it = c@;
        r.push(c);
        assert(text::texts(r@) =~= before.push(it));
    }
    if sources > 0 {
        let ghost before = text::texts(r@);
        let c = didl::category_container_xml(didl::FOLDER_ID, "By folder", sources);
        let ghost it = c@;
        r.push(c);
        assert(text::texts(r@) =~= before.push(it));
    }
    assert(text::texts(r@) =~= top_entries(lib));
    r
}

/// Describes the source folders that hold media.
fn source_containers(config: &DlnaConfig, sources: &Vec<usize>) -> (r: Vec<String>)
    requires
        sources@ == active_sources(config@),
    ensures
        text::texts(r@) == source_entries(config@),
{
    let ghost lib = config@;
    let mut r: Vec<String> = Vec::new();
    let mut i: usize = 0;
    let n: usize = config.folder_nodes.len();
    proof {
        assert(lib.nodes.len() == n);
        lemma_sources_in_range(lib);
    }
    while i < sources.len()
        invariant
            i <= sources@.len(),
            lib == config@,
            sources@ == active_sources(lib),
            forall|k: int| 0 <= k < sources@.len() ==> #[trigger] sources@[k] < lib.nodes.len(),
            text::texts(r@) =~= source_entries(lib).take(i as int),
        decreases sources@.len() - i,
    {
        let at: usize = sources[i];
        assert(lib.nodes[at as int] == config.folder_nodes@[at as int]@);
        let ghost before = text::texts(r@);
        let c = didl::folder_container_xml(at, didl::FOLDER_ID, &config.folder_nodes[at]);
        let ghost it = c@;
        r.push(c);
        assert(text::texts(r@) =~= before.push(it));
        assert(source_entries(lib)[i as int] == it);
        i += 1;
    }
    assert(source_entries(lib).take(i as int) =~= source_entries(lib));
    r
}

/// Active source folders are folders.
proof fn lemma_sources_in_range(lib: Library)
    requires
        lib.nodes.len() <= usize::MAX,
    ensures
        forall|k: int|
            0 <= k < active_sources(lib).len() ==> #[trigger] active_sources(lib)[k]
                < lib.nodes.len(),
{
    seqs::lemma_numbers_where(active_source(lib), source_count(lib));
}

/// Browses a folder.
fn browse_folder_id(
    config: &DlnaConfig,
    id: &str,
    flag: &str,
    start: usize,
    count: usize,
    base: &str,
) -> (r: Option<Listed>)
    requires
        text::starts_with(id@, "f:"@),
    ensures
        match r {
            Some(l) => browse_folder(config@, id@, flag@, start as nat, count as nat, base@)
                == Some(l@),
            None => browse_folder(config@, id@, flag@, start as nat, count as nat, base@) is None,
        },
{
    let v = text::to_chars(id);
    proof {
        reveal_strlit("f:");
    }
    let idx: usize = match number::parse_in(&v, 2, v.len(), usize::MAX as u64) {
        Some(n) => n as usize,
        None => {
            return None;
        },
    };
    if idx >= config.folder_nodes.len() {
        return None;
    }
    assert(config@.nodes[idx as int] == config.folder_nodes@[idx as int]@);
    if text::same_text(flag, "BrowseMetadata") {
        let parent = folder_parent_id(config, idx);
        let entry = didl::folder_container_xml(idx, parent.as_str(), &config.folder_nodes[idx]);
        Some(didl::list_one(entry))
    } else {
        Some(folder_children(idx, start, count, config, base))
    }
}

/// Browses a file.
fn browse_item_id(
    config: &DlnaConfig,
    id: &str,
    view: &str,
    idx: usize,
    flag: &str,
    base: &str,
) -> (r: Option<Listed>)
    ensures
        match r {
            Some(l) => browse_item(config@, id@, view@, idx as nat, flag@, base@) == Some(l@),
            None => browse_item(config@, id@, view@, idx as nat, flag@, base@) is None,
        },
{
    if !text::same_text(flag, "BrowseMetadata") {
        let none: Vec<String> = Vec::new();
        assert(text::texts(none@) =~= Seq::<Seq<char>>::empty());
        return Some(Listed { didl: didl::didl_wrap(&none), returned: 0, total: 0 });
    }
    if idx >= config.media_files.len() {
        return None;
    }
    assert(config@.files[idx as int] == config.media_files@[idx as int]@);
    let parent = if text::same_text(view, "m") {
        folder_parent_for_media(config, idx)
    } else {
        view.to_owned()
    };
    match didl::item_xml(idx, &config.media_files[idx], id, parent.as_str(), config, base) {
        Some(item) => Some(didl::list_one(item)),
        None => None,
    }
}

/// Browses object `id`; gives nothing for an object that there is not.
pub fn browse_object(
    config: &DlnaConfig,
    id: &str,
    flag: &str,
    start: usize,
    count: usize,
    base: &str,
) -> (r: Option<Listed>)
    ensures
        match r {
            Some(l) => browse_listing(config@, id@, flag@, start as nat, count as nat, base@)
                == Some(l@),
            None => browse_listing(config@, id@, flag@, start as nat, count as nat, base@) is None,
        },
{
    let metadata = text::same_text(flag, "BrowseMetadata");
    let sources = active_root_folders(config);
    if text::same_text(id, didl::ROOT_ID) {
        if metadata {
            let mut children: usize = 0;
            if config.video_idx.len() > 0 {
                children += 1;
            }
            if config.audio_idx.len() > 0 {
                children += 1;
            }
            if sources.len() > 0 {
                children += 1;
            }
            Some(didl::list_one(didl::root_container_xml(children)))
        } else {
            let entries = top_containers(config, sources.len());
            Some(didl::paginate(&entries, start, count))
        }
    } else if text::same_text(id, didl::VIDEO_ID) {
        if metadata {
            Some(
                didl::list_one(
                    didl::category_container_xml(didl::VIDEO_ID, "Videos", config.video_idx.len()),
                ),
            )
        } else {
            Some(category_children(&config.video_idx, didl::VIDEO_ID, start, count, config, base))
        }
    } else if text::same_text(id, didl::AUDIO_ID) {
        if metadata {
            Some(
                didl::list_one(
                    didl::category_container_xml(didl::AUDIO_ID, "Music", config.audio_idx.len()),
                ),
            )
        } else {
            Some(category_children(&config.audio_idx, didl::AUDIO_ID, start, count, config, base))
        }
    } else if text::same_text(id, didl::FOLDER_ID) {
        if metadata {
            Some(
                didl::list_one(
                    didl::category_container_xml(didl::FOLDER_ID, "By folder", sources.len()),
                ),
            )
        } else {
            let entries = source_containers(config, &sources);
            Some(didl::paginate(&entries, start, count))
        }
    } else if text::has_prefix(id, "f:") {
        browse_folder_id(config, id, flag, start, count, base)
    } else {
        match didl::parse_item_id(id) {
            Some((view, idx)) => browse_item_id(config, id, view, idx, flag, base),
            None => None,
        }
    }
}

/// The value of an element, or a default.
pub open spec fn tag_or(body: Seq<char>, name: Seq<char>, default: Seq<char>) -> Seq<char> {
    match soap::tag_value(body, name) {
        Some(v) => v,
        None => default,
    }
}

/// The number in an element; 0 where there is none.
pub open spec fn tag_number(body: Seq<char>, name: Seq<char>) -> nat {
    match soap::tag_value(body, name) {
        Some(v) => match number::unsigned(v, usize::MAX as nat) {
            Some(n) => n,
            None => 0,
        },
        None => 0,
    }
}

/// Reads the value of an element.
fn read_tag(body: &str, name: &str, default: &str) -> (r: String)
    ensures
        r@ == tag_or(body@, name@, default@),
{
    match soap::extract_tag_value(body, name) {
        Some(v) => v,
        None => default.to_owned(),
    }
}

/// Reads the number in an element.
fn read_number(body: &str, name: &str) -> (r: usize)
    ensures
        r == tag_number(body@, name@),
{
    match soap::extract_tag_value(body, name) {
        Some(v) => match number::parse_unsigned(v.as_str(), usize::MAX as u64) {
            Some(n) => n as usize,
            None => 0,
        },
        None => 0,
    }
}

/// What a reply to a browse or search says of a listing.
pub open spec fn listing_text(l: Listing) -> Seq<char> {
    "<Result>"@ + xml::escaped(l.didl) + "</Result><NumberReturned>"@ + number::decimal(l.returned)
        + "</NumberReturned><TotalMatches>"@ + number::decimal(l.total)
        + "</TotalMatches><UpdateID>1</UpdateID>"@
}

/// Writes a listing for a reply.
fn write_listing(l: &Listed) -> (r: String)
    ensures
        r@ == listing_text(l@),
{
    let mut r = String::from_str("<Result>");
    r.append(xml::xml_escape(l.didl.as_str()).as_str());
    r.append("</Result><NumberReturned>");
    number::push_decimal(&mut r, l.returned as u128);
    r.append("</NumberReturned><TotalMatches>");
    number::push_decimal(&mut r, l.total as u128);
    r.append("</TotalMatches><UpdateID>1</UpdateID>");
    r
}

/// The reply to an action that gives a listing.
pub open spec fn listing_reply(action: Seq<char>, l: Option<Listing>) -> (u16, Seq<char>) {
    match l {
        Some(l) => (200u16, soap::response_text(action, CD_SERVICE@, listing_text(l))),
        None => soap::no_such_object(),
    }
}

/// The host that the URLs in a reply are made with.
pub open spec fn base_of(host: Option<Seq<char>>, lib: Library) -> Seq<char> {
    host::public_base_of(host, lib.ip, lib.ip_text, lib.port)
}

/// The reply to a `Browse` request.
pub open spec fn browse_reply(host: Option<Seq<char>>, body: Seq<char>, lib: Library) -> (
    u16,
    Seq<char>,
) {
    listing_reply(
        "Browse"@,
        browse_listing(
            lib,
            tag_or(body, "ObjectID"@, didl::ROOT_ID@),
            tag_or(body, "BrowseFlag"@, "BrowseDirectChildren"@),
            tag_number(body, "StartingIndex"@),
            tag_number(body, "RequestedCount"@),
            base_of(host, lib),
        ),
    )
}

/// A header's text, where there is one.
pub open spec fn header_text(h: Option<&str>) -> Option<Seq<char>> {
    match h {
        Some(s) => Some(s@),
        None => None,
    }
}

/// Answers a `Browse` request.
pub fn browse(host: Option<&str>, body: &str, config: &DlnaConfig) -> (r: Reply)
    ensures
        soap::reply_view(r) == browse_reply(header_text(host), body@, config@),
{
    let object_id = read_tag(body, "ObjectID", didl::ROOT_ID);
    let flag = read_tag(body, "BrowseFlag", "BrowseDirectChildren");
    let start: usize = read_number(body, "StartingIndex");
    let count: usize = read_number(body, "RequestedCount");
    let base = host::public_base(host, &config.local_ip, config.http_port);
    match browse_object(config, object_id.as_str(), flag.as_str(), start, count, base.as_str()) {
        Some(l) => {
            let inner = write_listing(&l);
            soap::ok(soap::response("Browse", CD_SERVICE, inner.as_str()))
        },
        None => soap::refuse_object(),
    }
}

/// Folder `b` is one of the folders `lo..hi`, or `steps` steps down from them at most.
pub open spec fn is_within(nodes: Seq<Folder>, lo: int, hi: int, steps: nat, b: int) -> bool
    decreases steps,
{
    if steps == 0 {
        lo <= b < hi
    } else {
        is_within(nodes, lo, hi, (steps - 1) as nat, b) || exists|i: int|
            0 <= i < nodes.len() && #[trigger] nodes[i].subs.contains(b as usize) && is_within(
                nodes,
                lo,
                hi,
                (steps - 1) as nat,
                i,
            )
    }
}

/// Folder `b` is one of the folders `lo..hi`, or lies below one.
pub open spec fn is_below(nodes: Seq<Folder>, lo: int, hi: int, b: int) -> bool {
    exists|steps: nat| is_within(nodes, lo, hi, steps, b)
}

/// Whether file `m` is listed below the folders `lo..hi`.
pub open spec fn media_below(nodes: Seq<Folder>, lo: int, hi: int) -> spec_fn(int) -> bool {
    |m: int|
        exists|i: int|
            0 <= i < nodes.len() && #[trigger] nodes[i].media.contains(m as usize) && is_below(
                nodes,
                lo,
                hi,
                i,
            )
}

/// The numbers of the files listed below the folders `lo..hi`, in increasing order.
pub open spec fn subtree_media(lib: Library, lo: int, hi: int) -> Seq<usize> {
    seqs::numbers_where(media_below(lib.nodes, lo, hi), usize::MAX + 1)
}

/// The files that a search in container `id` looks through; nothing for an
/// object that there is not.
pub open spec fn candidates(lib: Library, id: Seq<char>) -> Option<Seq<usize>> {
    if id == didl::ROOT_ID@ {
        Some(Seq::new(lib.files.len(), |i: int| i as usize))
    } else if id == didl::VIDEO_ID@ {
        Some(lib.video)
    } else if id == didl::AUDIO_ID@ {
        Some(lib.audio)
    } else if id == didl::FOLDER_ID@ {
        Some(subtree_media(lib, 0, source_count(lib)))
    } else if text::starts_with(id, "f:"@) {
        match number::unsigned(id.subrange(2, id.len() as int), usize::MAX as nat) {
            Some(idx) => if idx < lib.nodes.len() {
                Some(subtree_media(lib, idx as int, idx as int + 1))
            } else {
                None
            },
            None => None,
        }
    } else if didl::item_of_id(id) is Some {
        Some(Seq::empty())
    } else {
        None
    }
}

/// How many marks are set.
spec fn marked(r: Seq<bool>) -> nat
    decreases r.len(),
{
    if r.len() == 0 {
        0
    } else {
        marked(r.drop_last()) + (if r.last() {
            1nat
        } else {
            0
        })
    }
}

/// Setting a mark makes them one more.
proof fn lemma_marked(r: Seq<bool>, i: int)
    requires
        0 <= i < r.len(),
        !r[i],
    ensures
        marked(r.update(i, true)) == marked(r) + 1,
    decreases r.len(),
{
    let set = r.update(i, true);
    if i == r.len() - 1 {
        assert(set.drop_last() =~= r.drop_last());
    } else {
        lemma_marked(r.drop_last(), i);
        assert(set.drop_last() =~= r.drop_last().update(i, true));
    }
}

/// There are no more marks set than there are marks.
proof fn lemma_marked_bound(r: Seq<bool>)
    ensures
        marked(r) <= r.len(),
    decreases r.len(),
{
    if r.len() > 0 {
        lemma_marked_bound(r.drop_last());
    }
}

/// Every folder that is listed in one of the first `upto` marked folders is marked.
spec fn is_closed(nodes: Seq<Folder>, r: Seq<bool>, upto: int) -> bool {
    forall|a: int, k: int|
        0 <= a < upto && r[a] && 0 <= k < nodes[a].subs.len() && (#[trigger] nodes[a].subs[k])
            < r.len() ==> r[nodes[a].subs[k] as int]
}

/// What a marked folder lists lies below, as it does itself.
proof fn lemma_below_step(nodes: Seq<Folder>, lo: int, hi: int, a: int, k: int)
    requires
        0 <= a < nodes.len(),
        0 <= k < nodes[a].subs.len(),
        is_below(nodes, lo, hi, a),
    ensures
        is_below(nodes, lo, hi, nodes[a].subs[k] as int),
{
    let steps = choose|steps: nat| is_within(nodes, lo, hi, steps, a);
    let b = nodes[a].subs[k] as int;
    assert(nodes[a].subs.contains(b as usize));
    assert(is_within(nodes, lo, hi, steps + 1, b));
}

/// Marks that are closed hold every folder that lies below.
proof fn lemma_closed_is_complete(
    nodes: Seq<Folder>,
    r: Seq<bool>,
    lo: int,
    hi: int,
    steps: nat,
    b: int,
)
    requires
        r.len() == nodes.len() <= usize::MAX,
        is_closed(nodes, r, nodes.len() as int),
        forall|k: int| 0 <= k < r.len() && lo <= k < hi ==> #[trigger] r[k],
        0 <= b < r.len(),
        is_within(nodes, lo, hi, steps, b),
    ensures
        r[b],
    decreases steps,
{
    if steps > 0 {
        let fewer = (steps - 1) as nat;
        if is_within(nodes, lo, hi, fewer, b) {
            lemma_closed_is_complete(nodes, r, lo, hi, fewer, b);
        } else {
            let i = choose|i: int|
                0 <= i < nodes.len() && #[trigger] nodes[i].subs.contains(b as usize)
                    && is_within(nodes, lo, hi, fewer, i);
            lemma_closed_is_complete(nodes, r, lo, hi, fewer, i);
            let k = choose|k: int| 0 <= k < nodes[i].subs.len() && nodes[i].subs[k] == b as usize;
            assert(r[nodes[i].subs[k] as int]);
        }
    }
}

/// Marks what the marked folder `a` lists; tells whether that set any mark.
fn mark_listed(nodes: &Vec<FolderNode>, a: usize, r: &mut Vec<bool>, lo: usize, hi: usize) -> (
    changed: bool)
    requires
        a < nodes@.len(),
        old(r)@.len() == nodes@.len(),
        old(r)@[a as int],
        forall|k: int|
            0 <= k < old(r)@.len() && #[trigger] old(r)@[k] ==> is_below(
                folder::folders(nodes@),
                lo as int,
                hi as int,
                k,
            ),
    ensures
        final(r)@.len() == old(r)@.len(),
        forall|k: int| 0 <= k < old(r)@.len() && old(r)@[k] ==> #[trigger] final(r)@[k],
        forall|k: int|
            0 <= k < final(r)@.len() && #[trigger] final(r)@[k] ==> is_below(
                folder::folders(nodes@),
                lo as int,
                hi as int,
                k,
            ),
        changed ==> marked(final(r)@) > marked(old(r)@),
        !changed ==> final(r)@ == old(r)@ && forall|k: int|
            0 <= k < folder::folders(nodes@)[a as int].subs.len() && (#[trigger] folder::folders(
                nodes@,
            )[a as int].subs[k]) < final(r)@.len() ==> final(r)@[folder::folders(
                nodes@,
            )[a as int].subs[k] as int],
{
    let ghost all = folder::folders(nodes@);
    let ghost start = r@;
    let n: usize = nodes.len();
    assert(all[a as int] == nodes@[a as int]@);
    let ghost subs = all[a as int].subs;
    let mut changed = false;
    let mut k: usize = 0;
    while k < nodes[a].subfolder_indices.len()
        invariant
            a < n == nodes@.len(),
            all == folder::folders(nodes@),
            subs == all[a as int].subs,
            subs == nodes@[a as int].subfolder_indices@,
            start.len() == n,
            start[a as int],
            k <= subs.len(),
            r@.len() == n,
            forall|j: int| 0 <= j < n && start[j] ==> #[trigger] r@[j],
            forall|j: int|
                0 <= j < n && #[trigger] r@[j] ==> is_below(all, lo as int, hi as int, j),
            changed ==> marked(r@) > marked(start),
            !changed ==> r@ == start,
            forall|q: int| 0 <= q < k && (#[trigger] subs[q]) < n ==> r@[subs[q] as int],
        decreases subs.len() - k,
    {
        let sub: usize = nodes[a].subfolder_indices[k];
        assert(subs[k as int] == sub);
        if sub < n && !r[sub] {
            proof {
                lemma_marked(r@, sub as int);
                assert(r@[a as int]);
                lemma_below_step(all, lo as int, hi as int, a as int, k as int);
            }
            r.set(sub, true);
            changed = true;
        }
        k += 1;
    }
    changed
}

/// Marks the folders that lie below the folders `lo..hi`.
fn mark_below(nodes: &Vec<FolderNode>, lo: usize, hi: usize) -> (r: Vec<bool>)
    ensures
        r@.len() == nodes@.len(),
        forall|i: int|
            0 <= i < r@.len() ==> #[trigger] r@[i] == is_below(
                folder::folders(nodes@),
                lo as int,
                hi as int,
                i,
            ),
{
    let ghost all = folder::folders(nodes@);
    let n: usize = nodes.len();
    let mut r: Vec<bool> = Vec::new();
    let mut i: usize = 0;
    while i < n
        invariant
            i <= n == all.len(),
            r@.len() == i,
            forall|k: int| 0 <= k < i ==> #[trigger] r@[k] == (lo <= k < hi),
        decreases n - i,
    {
        r.push(lo <= i && i < hi);
        i += 1;
    }
    assert forall|k: int| 0 <= k < n && #[trigger] r@[k] implies is_below(
        all,
        lo as int,
        hi as int,
        k,
    ) by {
        assert(is_within(all, lo as int, hi as int, 0, k));
    }
    let mut changed = true;
    while changed
        invariant
            n == all.len() == nodes@.len(),
            all == folder::folders(nodes@),
            r@.len() == n,
            forall|k: int| 0 <= k < n && lo <= k < hi ==> #[trigger] r@[k],
            forall|k: int|
                0 <= k < n && #[trigger] r@[k] ==> is_below(all, lo as int, hi as int, k),
            !changed ==> is_closed(all, r@, n as int),
        decreases n - marked(r@), changed as int,
    {
        proof {
            lemma_marked_bound(r@);
        }
        changed = false;
        let ghost start = r@;
        let mut a: usize = 0;
        while a < n
            invariant
                a <= n == all.len(),
                n == nodes@.len(),
                all == folder::folders(nodes@),
                r@.len() == n,
                forall|k: int| 0 <= k < n && lo <= k < hi ==> #[trigger] r@[k],
                forall|k: int|
                    0 <= k < n && #[trigger] r@[k] ==> is_below(all, lo as int, hi as int, k),
                changed ==> marked(r@) > marked(start),
                !changed ==> r@ == start && is_closed(all, r@, a as int),
            decreases n - a,
        {
            if r[a] {
                let ghost before = r@;
                let set = mark_listed(nodes, a, &mut r, lo, hi);
                if set {
                    changed = true;
                }
                assert(marked(r@) >= marked(before));
            }
            a += 1;
        }
        proof {
            lemma_marked_bound(r@);
        }
    }
    proof {
        assert forall|k: int| 0 <= k < n implies #[trigger] r@[k] == is_below(
            all,
            lo as int,
            hi as int,
            k,
        ) by {
            if is_below(all, lo as int, hi as int, k) {
                let steps = choose|steps: nat| is_within(all, lo as int, hi as int, steps, k);
                lemma_closed_is_complete(all, r@, lo as int, hi as int, steps, k);
            }
        }
    }
    r
}

/// Lists the files below the folders `lo..hi`.
fn folder_subtree_media(config: &DlnaConfig, lo: usize, hi: usize) -> (r: Vec<usize>)
    ensures
        r@ == subtree_media(config@, lo as int, hi as int),
{
    let ghost lib = config@;
    let below = mark_below(&config.folder_nodes, lo, hi);
    let n: usize = config.media_files.len();
    let mut listed: Vec<bool> = Vec::new();
    let mut i: usize = 0;
    while i < n
        invariant
            i <= n,
            listed@.len() == i,
            forall|k: int| 0 <= k < i ==> #[trigger] listed@[k] == false,
        decreases n - i,
    {
        listed.push(false);
        i += 1;
    }
    let ghost nodes = lib.nodes;
    let mut beyond: Vec<usize> = Vec::new();
    let mut a: usize = 0;
    while a < config.folder_nodes.len()
        invariant
            a <= nodes.len(),
            nodes == folder::folders(config.folder_nodes@),
            n == lib.files.len(),
            seqs::increasing(beyond@),
            forall|k: int| 0 <= k < beyond@.len() ==> n <= #[trigger] beyond@[k],
            forall|m: int|
                n <= m <= usize::MAX ==> #[trigger] beyond@.contains(m as usize) == is_held(
                    nodes,
                    lo as int,
                    hi as int,
                    a as int,
                    m,
                ),
            listed@.len() == n,
            below@.len() == nodes.len(),
            forall|k: int|
                0 <= k < below@.len() ==> #[trigger] below@[k] == is_below(
                    nodes,
                    lo as int,
                    hi as int,
                    k,
                ),
            forall|m: int|
                0 <= m < n ==> #[trigger] listed@[m] == is_held(
                    nodes,
                    lo as int,
                    hi as int,
                    a as int,
                    m,
                ),
        decreases nodes.len() - a,
    {
        assert(nodes[a as int] == config.folder_nodes@[a as int]@);
        let ghost before = listed@;
        let ghost past = beyond@;
        let ghost media_list = nodes[a as int].media;
        if below[a] {
            let mut k: usize = 0;
            while k < config.folder_nodes[a].media_indices.len()
                invariant
                    a < config.folder_nodes@.len(),
                    media_list == config.folder_nodes@[a as int].media_indices@,
                    k <= media_list.len(),
                    listed@.len() == n,
                    before.len() == n,
                    seqs::increasing(beyond@),
                    forall|i: int| 0 <= i < beyond@.len() ==> n <= #[trigger] beyond@[i],
                    forall|m: int|
                        n <= m <= usize::MAX ==> #[trigger] beyond@.contains(m as usize) == (
                        past.contains(m as usize) || exists|q: int|
                            0 <= q < k && media_list[q] == m),
                    forall|m: int|
                        0 <= m < n ==> #[trigger] listed@[m] == (before[m] || exists|q: int|
                            0 <= q < k && media_list[q] == m),
                decreases media_list.len() - k,
            {
                let at: usize = config.folder_nodes[a].media_indices[k];
                let ghost inner = listed@;
                let ghost outer = beyond@;
                if at < n {
                    listed.set(at, true);
                } else {
                    seqs::insert_number(&mut beyond, at);
                    assert forall|i: int| 0 <= i < beyond@.len() implies n <= #[trigger] beyond@[i] by {
                        assert(beyond@.contains(beyond@[i]));
                        if outer.contains(beyond@[i]) {
                            let j = choose|j: int| 0 <= j < outer.len() && outer[j] == beyond@[i];
                            assert(n <= outer[j]);
                        }
                    }
                }
                k += 1;
                assert forall|m: int| n <= m <= usize::MAX implies #[trigger] beyond@.contains(
                    m as usize,
                ) == (past.contains(m as usize) || exists|q: int|
                    0 <= q < k && media_list[q] == m) by {
                    assert(outer.contains(m as usize) == (past.contains(m as usize) || exists|q: int|
                        0 <= q < k - 1 && media_list[q] == m));
                    if m == at {
                        assert(media_list[k - 1] == m);
                    }
                }
                assert forall|m: int| 0 <= m < n implies #[trigger] listed@[m] == (before[m]
                    || exists|q: int| 0 <= q < k && media_list[q] == m) by {
                    assert(inner[m] == (before[m] || exists|q: int|
                        0 <= q < k - 1 && media_list[q] == m));
                    if m == at {
                        assert(media_list[k - 1] == m);
                    }
                }
            }
        }
        assert forall|m: int| 0 <= m < n implies #[trigger] listed@[m] == is_held(
            nodes,
            lo as int,
            hi as int,
            a as int + 1,
            m,
        ) by {
            assert(before[m] == is_held(nodes, lo as int, hi as int, a as int, m));
            lemma_held_step(nodes, lo as int, hi as int, a as int, m);
        }
        assert forall|m: int| n <= m <= usize::MAX implies #[trigger] beyond@.contains(m as usize)
            == is_held(nodes, lo as int, hi as int, a as int + 1, m) by {
            assert(past.contains(m as usize) == is_held(nodes, lo as int, hi as int, a as int, m));
            lemma_held_step(nodes, lo as int, hi as int, a as int, m);
        }
        a += 1;
    }
    let mut r: Vec<usize> = Vec::new();
    let ghost wanted = media_below(nodes, lo as int, hi as int);
    let mut m: usize = 0;
    while m < n
        invariant
            m <= n,
            listed@.len() == n,
            wanted == media_below(nodes, lo as int, hi as int),
            forall|k: int|
                0 <= k < n ==> #[trigger] listed@[k] == is_held(
                    nodes,
                    lo as int,
                    hi as int,
                    nodes.len() as int,
                    k,
                ),
            r@ == seqs::numbers_where(wanted, m as int),
        decreases n - m,
    {
        assert(listed@[m as int] == is_held(
            nodes,
            lo as int,
            hi as int,
            nodes.len() as int,
            m as int,
        ));
        assert(is_held(nodes, lo as int, hi as int, nodes.len() as int, m as int) == wanted(
            m as int,
        ));
        if listed[m] {
            r.push(m);
        }
        m += 1;
    }
    proof {
        assert forall|x: int| n <= x < usize::MAX + 1 implies #[trigger] beyond@.contains(
            x as usize,
        ) == wanted(x) by {
            assert(is_held(nodes, lo as int, hi as int, nodes.len() as int, x) == wanted(x));
        }
        seqs::lemma_numbers_follow(wanted, n as int, usize::MAX + 1, beyond@);
    }
    r.append(&mut beyond);
    r
}

/// File `m` is listed in one of the first `upto` folders that lies below `lo..hi`.
spec fn is_held(nodes: Seq<Folder>, lo: int, hi: int, upto: int, m: int) -> bool {
    exists|i: int|
        0 <= i < upto && i < nodes.len() && #[trigger] nodes[i].media.contains(m as usize)
            && is_below(nodes, lo, hi, i)
}

/// Looking at the files of one folder more.
proof fn lemma_held_step(nodes: Seq<Folder>, lo: int, hi: int, a: int, m: int)
    requires
        0 <= a < nodes.len(),
        0 <= m <= usize::MAX,
    ensures
        is_held(nodes, lo, hi, a + 1, m) == (is_held(nodes, lo, hi, a, m) || (is_below(
            nodes,
            lo,
            hi,
            a,
        ) && exists|q: int| 0 <= q < nodes[a].media.len() && nodes[a].media[q] == m)),
{
    if is_held(nodes, lo, hi, a + 1, m) && !is_held(nodes, lo, hi, a, m) {
        let i = choose|i: int|
            0 <= i < a + 1 && i < nodes.len() && #[trigger] nodes[i].media.contains(m as usize)
                && is_below(nodes, lo, hi, i);
        assert(i == a);
        let q = choose|q: int| 0 <= q < nodes[a].media.len() && nodes[a].media[q] == m as usize;
        assert(nodes[a].media[q] == m);
    }
    if is_below(nodes, lo, hi, a) && exists|q: int|
        0 <= q < nodes[a].media.len() && nodes[a].media[q] == m {
        assert(nodes[a].media.contains(m as usize));
    }
}

/// Lists the files that a search in a container looks through.
pub fn search_candidates(object_id: &str, config: &DlnaConfig) -> (r: Option<Vec<usize>>)
    ensures
        match r {
            Some(v) => candidates(config@, object_id@) == Some(v@),
            None => candidates(config@, object_id@) is None,
        },
{
    let ghost lib = config@;
    if text::same_text(object_id, didl::ROOT_ID) {
        let n: usize = config.media_files.len();
        let mut v: Vec<usize> = Vec::new();
        let mut i: usize = 0;
        while i < n
            invariant
                i <= n,
                v@ =~= Seq::new(i as nat, |k: int| k as usize),
            decreases n - i,
        {
            v.push(i);
            i += 1;
        }
        assert(v@ =~= Seq::new(lib.files.len(), |i: int| i as usize));
        Some(v)
    } else if text::same_text(object_id, didl::VIDEO_ID) {
        Some(copy_numbers(&config.video_idx))
    } else if text::same_text(object_id, didl::AUDIO_ID) {
        Some(copy_numbers(&config.audio_idx))
    } else if text::same_text(object_id, didl::FOLDER_ID) {
        let n: usize = if config.media_dirs.len() <= config.folder_nodes.len() {
            config.media_dirs.len()
        } else {
            config.folder_nodes.len()
        };
        Some(folder_subtree_media(config, 0, n))
    } else if text::has_prefix(object_id, "f:") {
        let v = text::to_chars(object_id);
        proof {
            reveal_strlit("f:");
        }
        let idx: usize = match number::parse_in(&v, 2, v.len(), usize::MAX as u64) {
            Some(n) => n as usize,
            None => {
                return None;
            },
        };
        if idx >= config.folder_nodes.len() {
            return None;
        }
        Some(folder_subtree_media(config, idx, idx + 1))
    } else {
        match didl::parse_item_id(object_id) {
            Some(_) => {
                let v: Vec<usize> = Vec::new();
                assert(v@ =~= Seq::<usize>::empty());
                Some(v)
            },
            None => None,
        }
    }
}

/// A copy of a list of numbers.
fn copy_numbers(v: &Vec<usize>) -> (r: Vec<usize>)
    ensures
        r@ == v@,
{
    let mut r: Vec<usize> = Vec::new();
    let mut i: usize = 0;
    while i < v.len()
        invariant
            i <= v@.len(),
            r@ =~= v@.take(i as int),
        decreases v@.len() - i,
    {
        r.push(v[i]);
        i += 1;
    }
    assert(v@.take(i as int) =~= v@);
    r
}

/// The title that a search looks at.
pub open spec fn search_title(file: Seq<Seq<u8>>) -> Seq<char> {
    match path::file_name_of(file) {
        Some(name) => if utf8::valid_utf8(name) {
            utf8::decode_utf8(name)
        } else {
            "unknown"@
        },
        None => "unknown"@,
    }
}

/// The MIME type that a search looks at.
pub open spec fn search_mime(file: Seq<Seq<u8>>) -> Seq<char> {
    match media::path_mime_of(file) {
        Some(m) => m,
        None => "video/mpeg"@,
    }
}

/// File `i` is there, and meets search criteria.
pub open spec fn is_match(lib: Library, criteria: Seq<char>, i: usize) -> bool {
    i < lib.files.len() && query::meets(
        search_title(lib.files[i as int]),
        search_mime(lib.files[i as int]),
        criteria,
    )
}

/// Those of the first `n` files in `list` that meet search criteria.
pub open spec fn matches_upto(lib: Library, list: Seq<usize>, criteria: Seq<char>, n: int) -> Seq<
    usize,
>
    decreases n,
{
    if n <= 0 {
        Seq::empty()
    } else if is_match(lib, criteria, list[n - 1]) {
        matches_upto(lib, list, criteria, n - 1).push(list[n - 1])
    } else {
        matches_upto(lib, list, criteria, n - 1)
    }
}

/// Decides `is_match`.
fn file_matches(config: &DlnaConfig, criteria: &str, i: usize) -> (r: bool)
    ensures
        r == is_match(config@, criteria@, i),
{
    if i >= config.media_files.len() {
        return false;
    }
    let file = &config.media_files[i];
    assert(config@.files[i as int] == file@);
    let title = match file.file_name() {
        Some(name) => match encoding::from_utf8(name.as_slice()) {
            Some(s) => s,
            None => String::from_str("unknown"),
        },
        None => String::from_str("unknown"),
    };
    let mime: &str = match media::path_mime(file) {
        Some(m) => m,
        None => "video/mpeg",
    };
    query::matches_search(title.as_str(), mime, criteria)
}

/// What a search gives; nothing for an object that there is not.
pub open spec fn search_listing(
    lib: Library,
    id: Seq<char>,
    criteria: Seq<char>,
    start: nat,
    count: nat,
    base: Seq<char>,
) -> Option<Listing> {
    match candidates(lib, id) {
        None => None,
        Some(list) => Some(
            category_listing(
                lib,
                matches_upto(lib, list, criteria, list.len() as int),
                id,
                start,
                count,
                base,
            ),
        ),
    }
}

/// Searches container `id`; gives nothing for an object that there is not.
pub fn search_object(
    config: &DlnaConfig,
    id: &str,
    criteria: &str,
    start: usize,
    count: usize,
    base: &str,
) -> (r: Option<Listed>)
    ensures
        match r {
            Some(l) => search_listing(config@, id@, criteria@, start as nat, count as nat, base@)
                == Some(l@),
            None => search_listing(config@, id@, criteria@, start as nat, count as nat, base@)
                is None,
        },
{
    let list = match search_candidates(id, config) {
        Some(list) => list,
        None => {
            return None;
        },
    };
    let ghost lib = config@;
    let mut matched: Vec<usize> = Vec::new();
    let mut i: usize = 0;
    while i < list.len()
        invariant
            i <= list@.len(),
            lib == config@,
            matched@ == matches_upto(lib, list@, criteria@, i as int),
        decreases list@.len() - i,
    {
        if file_matches(config, criteria, list[i]) {
            matched.push(list[i]);
        }
        i += 1;
    }
    Some(category_children(&matched, id, start, count, config, base))
}

/// The container that a search asks for.
pub open spec fn search_id(body: Seq<char>) -> Seq<char> {
    match soap::tag_value(body, "ContainerID"@) {
        Some(v) => v,
        None => tag_or(body, "ObjectID"@, didl::ROOT_ID@),
    }
}

/// The reply to a `Search` request.
pub open spec fn search_reply(host: Option<Seq<char>>, body: Seq<char>, lib: Library) -> (
    u16,
    Seq<char>,
) {
    listing_reply(
        "Search"@,
        search_listing(
            lib,
            search_id(body),
            tag_or(body, "SearchCriteria"@, "*"@),
            tag_number(body, "StartingIndex"@),
            tag_number(body, "RequestedCount"@),
            base_of(host, lib),
        ),
    )
}

/// Answers a `Search` request.
pub fn search(host: Option<&str>, body: &str, config: &DlnaConfig) -> (r: Reply)
    ensures
        soap::reply_view(r) == search_reply(header_text(host), body@, config@),
{
    let object_id = match soap::extract_tag_value(body, "ContainerID") {
        Some(id) => id,
        None => read_tag(body, "ObjectID", didl::ROOT_ID),
    };
    let criteria = read_tag(body, "SearchCriteria", "*");
    let start: usize = read_number(body, "StartingIndex");
    let count: usize = read_number(body, "RequestedCount");
    let base = host::public_base(host, &config.local_ip, config.http_port);
    match search_object(
        config,
        object_id.as_str(),
        criteria.as_str(),
        start,
        count,
        base.as_str(),
    ) {
        Some(l) => {
            let inner = write_listing(&l);
            soap::ok(soap::response("Search", CD_SERVICE, inner.as_str()))
        },
        None => soap::refuse_object(),
    }
}

/// The reply of success to an action of the ContentDirectory.
pub open spec fn cd_success(action: Seq<char>, inner: Seq<char>) -> (u16, Seq<char>) {
    (200u16, soap::response_text(action, CD_SERVICE@, inner))
}

/// The reply to a request to the ContentDirectory.
pub open spec fn contentdirectory_reply(
    soapaction: Option<Seq<char>>,
    host: Option<Seq<char>>,
    body: Seq<char>,
    lib: Library,
) -> (u16, Seq<char>) {
    let action = soap::requested_action(soapaction);
    if action == "Browse"@ {
        browse_reply(host, body, lib)
    } else if action == "Search"@ {
        search_reply(host, body, lib)
    } else if action == "GetSystemUpdateID"@ {
        cd_success("GetSystemUpdateID"@, "<Id>1</Id>"@)
    } else if action == "GetSearchCapabilities"@ {
        cd_success("GetSearchCapabilities"@, "<SearchCaps>dc:title,upnp:class</SearchCaps>"@)
    } else if action == "GetSortCapabilities"@ {
        cd_success("GetSortCapabilities"@, "<SortCaps></SortCaps>"@)
    } else {
        soap::invalid_action()
    }
}

/// Answers a request to the ContentDirectory, given its `SOAPACTION` and `Host`
/// headers and its body.
pub fn handle_contentdirectory(
    soapaction: Option<&str>,
    host: Option<&str>,
    body: &str,
    config: &DlnaConfig,
) -> (r: Reply)
    ensures
        soap::reply_view(r) == contentdirectory_reply(
            header_text(soapaction),
            header_text(host),
            body@,
            config@,
        ),
{
    let action = soap::request_action(soapaction);
    if text::same_text(action.as_str(), "Browse") {
        browse(host, body, config)
    } else if text::same_text(action.as_str(), "Search") {
        search(host, body, config)
    } else if text::same_text(action.as_str(), "GetSystemUpdateID") {
        soap::ok(soap::response("GetSystemUpdateID", CD_SERVICE, "<Id>1</Id>"))
    } else if text::same_text(action.as_str(), "GetSearchCapabilities") {
        soap::ok(
            soap::response(
                "GetSearchCapabilities",
                CD_SERVICE,
                "<SearchCaps>dc:title,upnp:class</SearchCaps>",
            ),
        )
    } else if text::same_text(action.as_str(), "GetSortCapabilities") {
        soap::ok(soap::response("GetSortCapabilities", CD_SERVICE, "<SortCaps></SortCaps>"))
    } else {
        soap::refuse_action()
    }
}

/// What `GetCurrentConnectionInfo` says of the one connection that there is.
pub const CONNECTION_INFO: &'static str =
    "<RcsID>-1</RcsID><AVTransportID>-1</AVTransportID><ProtocolInfo></ProtocolInfo><PeerConnectionManager></PeerConnectionManager><PeerConnectionID>-1</PeerConnectionID><Direction>Output</Direction><Status>OK</Status>";

/// The reply to a request to the ConnectionManager.
pub open spec fn connectionmanager_reply(soapaction: Option<Seq<char>>) -> (u16, Seq<char>) {
    let action = soap::requested_action(soapaction);
    if action == "GetProtocolInfo"@ {
        (
            200u16,
            soap::response_text(
                "GetProtocolInfo"@,
                CM_SERVICE@,
                "<Source>"@ + seqs::join(profile::source_entries(), ","@)
                    + "</Source><Sink></Sink>"@,
            ),
        )
    } else if action == "GetCurrentConnectionIDs"@ {
        (
            200u16,
            soap::response_text(
                "GetCurrentConnectionIDs"@,
                CM_SERVICE@,
                "<ConnectionIDs>0</ConnectionIDs>"@,
            ),
        )
    } else if action == "GetCurrentConnectionInfo"@ {
        (
            200u16,
            soap::response_text("GetCurrentConnectionInfo"@, CM_SERVICE@, CONNECTION_INFO@),
        )
    } else {
        soap::invalid_action()
    }
}

/// Answers a request to the ConnectionManager, given its `SOAPACTION` header.
pub fn handle_connectionmanager(soapaction: Option<&str>) -> (r: Reply)
    ensures
        soap::reply_view(r) == connectionmanager_reply(header_text(soapaction)),
{
    let action = soap::request_action(soapaction);
    if text::same_text(action.as_str(), "GetProtocolInfo") {
        let mut inner = String::from_str("<Source>");
        inner.append(profile::source_protocol_info().as_str());
        inner.append("</Source><Sink></Sink>");
        soap::ok(soap::response("GetProtocolInfo", CM_SERVICE, inner.as_str()))
    } else if text::same_text(action.as_str(), "GetCurrentConnectionIDs") {
        soap::ok(
            soap::response(
                "GetCurrentConnectionIDs",
                CM_SERVICE,
                "<ConnectionIDs>0</ConnectionIDs>",
            ),
        )
    } else if text::same_text(action.as_str(), "GetCurrentConnectionInfo") {
        soap::ok(soap::response("GetCurrentConnectionInfo", CM_SERVICE, CONNECTION_INFO))
    } else {
        soap::refuse_action()
    }
}

/// The root says that it has as many children as it lists.
pub proof fn law_root_counts_its_children(lib: Library)
    ensures
        top_count(lib) == top_entries(lib).len(),
{
}

/// A container at the top says that it has as many children as browsing it says
/// that there are, whatever the page.
pub proof fn law_categories_count_their_children(
    lib: Library,
    start: nat,
    count: nat,
    base: Seq<char>,
)
    ensures
        category_listing(lib, lib.video, didl::VIDEO_ID@, start, count, base).total
            == lib.video.len(),
        category_listing(lib, lib.audio, didl::AUDIO_ID@, start, count, base).total
            == lib.audio.len(),
        didl::page_of(source_entries(lib), start, count).total == active_sources(lib).len(),
{
}

/// File `i` is there, and can be described wherever it is listed.
pub open spec fn is_describable(lib: Library, i: usize) -> bool {
    &&& i < lib.files.len()
    &&& url::media_url_of(lib.files[i as int], lib.dirs) is Some
    &&& path::file_name_of(lib.files[i as int]) is Some
}

/// Every file of a list can be described.
pub open spec fn all_describable(lib: Library, list: Seq<usize>) -> bool {
    forall|k: int| 0 <= k < list.len() ==> is_describable(lib, #[trigger] list[k])
}

/// A folder says that it has as many children as it lists, where what it lists
/// is there.
pub proof fn law_folders_count_their_children(lib: Library, idx: int, base: Seq<char>)
    requires
        0 <= idx < lib.nodes.len(),
        folder::subs_in_range(lib.nodes),
        all_describable(lib, lib.nodes[idx].media),
    ensures
        folder_entries(lib, idx as nat, base).len() == lib.nodes[idx].subs.len()
            + lib.nodes[idx].media.len(),
{
    let node = lib.nodes[idx];
    lemma_subfolders_in_order(lib, node.subs, node.subs.len() as int, folder_id(idx as nat));
    lemma_items_in_order(lib, node.media, node.media.len() as int, folder_id(idx as nat), base);
}

/// The folder that is given as another folder's parent lists it.
pub proof fn law_parent_folder_lists_the_folder(lib: Library, idx: usize)
    requires
        folder::linked(lib.nodes, lib.dirs.len() as int),
        lib.dirs.len() <= idx < lib.nodes.len(),
    ensures
        exists|i: int|
            0 <= i < lib.nodes.len() && (#[trigger] lib.nodes[i]).subs.contains(idx)
                && folder_parent(lib, idx) == folder_id(i as nat),
{
    assert(folder::is_listed(lib.nodes, idx as int));
    let (i, k) = choose|i: int, k: int| folder::lists(lib.nodes, i, k, idx as int);
    assert(lib.nodes[i].subs[k] == idx);
    assert(lib.nodes[i].subs.contains(idx));
    lemma_lister(lib.nodes, idx, 0, i);
    let j = lister_from(lib.nodes, idx, 0)->0;
    assert(lib.nodes[j].subs.contains(idx));
}

/// A folder that is listed has a first folder that lists it.
proof fn lemma_lister(nodes: Seq<Folder>, idx: usize, from: int, i: int)
    requires
        0 <= from <= i < nodes.len(),
        nodes[i].subs.contains(idx),
    ensures
        match lister_from(nodes, idx, from) {
            Some(j) => from <= j < nodes.len() && nodes[j].subs.contains(idx),
            None => false,
        },
    decreases i - from,
{
    if !nodes[from].subs.contains(idx) {
        lemma_lister(nodes, idx, from + 1, i);
    }
}

/// The folder that is given as a file's parent lists the file.
pub proof fn law_parent_folder_lists_the_file(lib: Library, m: usize, i: int, k: int)
    requires
        folder::holds(lib.nodes, i, k, m as int),
    ensures
        exists|j: int|
            0 <= j < lib.nodes.len() && (#[trigger] lib.nodes[j]).media.contains(m)
                && media_parent(lib, m) == folder_id(j as nat),
{
    assert(lib.nodes[i].media[k] == m);
    assert(lib.nodes[i].media.contains(m));
    lemma_holder(lib.nodes, m, 0, i);
    let j = holder_from(lib.nodes, m, 0)->0;
    assert(lib.nodes[j].media.contains(m));
}

/// A file that is listed has a first folder that lists it.
proof fn lemma_holder(nodes: Seq<Folder>, m: usize, from: int, i: int)
    requires
        0 <= from <= i < nodes.len(),
        nodes[i].media.contains(m),
    ensures
        match holder_from(nodes, m, from) {
            Some(j) => from <= j < nodes.len() && nodes[j].media.contains(m),
            None => false,
        },
    decreases i - from,
{
    if !nodes[from].media.contains(m) {
        lemma_holder(nodes, m, from + 1, i);
    }
}

/// A search gives the files that it looks through and that meet its criteria,
/// and no others.
pub proof fn law_search_gives_what_matches(
    lib: Library,
    id: Seq<char>,
    criteria: Seq<char>,
    i: usize,
)
    requires
        candidates(lib, id) is Some,
    ensures
        matches_upto(
            lib,
            candidates(lib, id)->0,
            criteria,
            (candidates(lib, id)->0).len() as int,
        ).contains(i) == ((candidates(lib, id)->0).contains(i) && is_match(lib, criteria, i)),
{
    let list = candidates(lib, id)->0;
    lemma_matches(lib, list, criteria, list.len() as int, i);
    assert(list.take(list.len() as int) =~= list);
}

/// What matches among the first files.
proof fn lemma_matches(lib: Library, list: Seq<usize>, criteria: Seq<char>, n: int, i: usize)
    requires
        0 <= n <= list.len(),
    ensures
        matches_upto(lib, list, criteria, n).contains(i) == (list.take(n).contains(i) && is_match(
            lib,
            criteria,
            i,
        )),
    decreases n,
{
    if n > 0 {
        lemma_matches(lib, list, criteria, n - 1, i);
        let before = matches_upto(lib, list, criteria, n - 1);
        let now = matches_upto(lib, list, criteria, n);
        let shorter = list.take(n - 1);
        let longer = list.take(n);
        assert(longer =~= shorter.push(list[n - 1]));
        if now.contains(i) {
            let k = choose|k: int| 0 <= k < now.len() && now[k] == i;
            if k < before.len() {
                assert(before[k] == i);
                let q = choose|q: int| 0 <= q < shorter.len() && shorter[q] == i;
                assert(longer[q] == i);
            } else {
                assert(longer[n - 1] == i);
            }
        }
        if longer.contains(i) && is_match(lib, criteria, i) {
            let q = choose|q: int| 0 <= q < longer.len() && longer[q] == i;
            if q < n - 1 {
                assert(shorter[q] == i);
                let k = choose|k: int| 0 <= k < before.len() && before[k] == i;
                assert(now[k] == i);
            } else {
                assert(now[now.len() - 1] == i);
            }
        }
    }
}

/// A search through everything looks at every file.
pub proof fn law_searching_the_root_looks_at_every_file(lib: Library, i: int)
    requires
        lib.files.len() <= usize::MAX,
        0 <= i < lib.files.len(),
    ensures
        candidates(lib, didl::ROOT_ID@) is Some,
        (candidates(lib, didl::ROOT_ID@)->0).contains(i as usize),
{
    let list = candidates(lib, didl::ROOT_ID@)->0;
    assert(list[i] == i as usize);
}

/// An id that names no container, folder or file.
pub open spec fn is_unknown(lib: Library, id: Seq<char>) -> bool {
    &&& id != didl::ROOT_ID@
    &&& id != didl::VIDEO_ID@
    &&& id != didl::AUDIO_ID@
    &&& id != didl::FOLDER_ID@
    &&& text::starts_with(id, "f:"@) ==> match number::unsigned(
        id.subrange(2, id.len() as int),
        usize::MAX as nat,
    ) {
        Some(idx) => idx >= lib.nodes.len(),
        None => true,
    }
    &&& !text::starts_with(id, "f:"@) ==> didl::item_of_id(id) is None
}

/// Whoever browses or searches an object that there is not is told so.
pub proof fn law_unknown_objects_are_refused(
    lib: Library,
    host: Option<Seq<char>>,
    body: Seq<char>,
)
    ensures
        is_unknown(lib, tag_or(body, "ObjectID"@, didl::ROOT_ID@)) ==> browse_reply(host, body, lib)
            == soap::no_such_object(),
        is_unknown(lib, search_id(body)) ==> search_reply(host, body, lib)
            == soap::no_such_object(),
{
}

/// Whoever asks for an action that a service does not have is told so.
pub proof fn law_unknown_actions_are_refused(
    soapaction: Option<Seq<char>>,
    host: Option<Seq<char>>,
    body: Seq<char>,
    lib: Library,
)
    ensures
        ({
            let action = soap::requested_action(soapaction);
            &&& action != "Browse"@ && action != "Search"@ && action != "GetSystemUpdateID"@
                && action != "GetSearchCapabilities"@ && action != "GetSortCapabilities"@
                ==> contentdirectory_reply(soapaction, host, body, lib) == soap::invalid_action()
            &&& action != "GetProtocolInfo"@ && action != "GetCurrentConnectionIDs"@ && action
                != "GetCurrentConnectionInfo"@ ==> connectionmanager_reply(soapaction)
                == soap::invalid_action()
        }),
{
}

/// Containers that hold nothing are not listed at the top: there are as many as
/// hold something, and each says that it has children.
pub proof fn law_empty_containers_are_hidden(lib: Library, i: int)
    requires
        0 <= i < top_entries(lib).len(),
    ensures
        top_entries(lib).len() <= 3,
        top_entries(lib).len() == 3 <==> lib.video.len() > 0 && lib.audio.len() > 0
            && active_sources(lib).len() > 0,
        exists|id: Seq<char>, title: Seq<char>, n: nat|
            n > 0 && top_entries(lib)[i] == #[trigger] didl::category_text(id, title, n),
{
    let video = didl::category_text(didl::VIDEO_ID@, "Videos"@, lib.video.len());
    let audio = didl::category_text(didl::AUDIO_ID@, "Music"@, lib.audio.len());
    let folders = didl::category_text(didl::FOLDER_ID@, "By folder"@, active_sources(lib).len());
    let e = top_entries(lib)[i];
    assert(e == video && lib.video.len() > 0 || e == audio && lib.audio.len() > 0 || e == folders
        && active_sources(lib).len() > 0);
}

/// The description of file `i` as it stands in the container `parent`.
pub open spec fn item_in(lib: Library, i: usize, parent: Seq<char>, base: Seq<char>) -> Seq<char> {
    didl::item_of(
        lib,
        i as nat,
        lib.files[i as int],
        didl::item_id_text(parent, i as nat),
        parent,
        base,
    )->0
}

/// Files that can be described are described one by one, in their order.
proof fn lemma_items_in_order(
    lib: Library,
    list: Seq<usize>,
    n: int,
    parent: Seq<char>,
    base: Seq<char>,
)
    requires
        0 <= n <= list.len(),
        all_describable(lib, list),
    ensures
        items_upto(lib, list, n, parent, base).len() == n,
        forall|k: int|
            0 <= k < n ==> #[trigger] items_upto(lib, list, n, parent, base)[k] == item_in(
                lib,
                list[k],
                parent,
                base,
            ),
    decreases n,
{
    if n > 0 {
        lemma_items_in_order(lib, list, n - 1, parent, base);
        assert(is_describable(lib, list[n - 1]));
    }
}

/// A page of a list of files is the page of their descriptions.
proof fn lemma_category_page(
    lib: Library,
    list: Seq<usize>,
    parent: Seq<char>,
    start: nat,
    count: nat,
    base: Seq<char>,
)
    requires
        all_describable(lib, list),
    ensures
        items_of(lib, list, parent, base).len() == list.len(),
        category_listing(lib, list, parent, start, count, base) == didl::page_of(
            items_of(lib, list, parent, base),
            start,
            count,
        ),
{
    let s = didl::page_start(start, list.len()) as int;
    let e = didl::page_end(start, count, list.len()) as int;
    didl::law_pages_follow_each_other(start, count, list.len());
    let part = list.subrange(s, e);
    assert(all_describable(lib, part)) by {
        assert forall|k: int| 0 <= k < part.len() implies is_describable(
            lib,
            #[trigger] part[k],
        ) by {
            assert(part[k] == list[s + k]);
        }
    }
    lemma_items_in_order(lib, list, list.len() as int, parent, base);
    lemma_items_in_order(lib, part, part.len() as int, parent, base);
    let all = items_of(lib, list, parent, base);
    let some = items_of(lib, part, parent, base);
    assert(some =~= all.subrange(s, e)) by {
        assert forall|k: int| 0 <= k < some.len() implies some[k] == all.subrange(s, e)[k] by {
            assert(some[k] == item_in(lib, part[k], parent, base));
            assert(all[s + k] == item_in(lib, list[s + k], parent, base));
        }
    }
}

/// The folder that an id names.
pub open spec fn folder_of_id(lib: Library, id: Seq<char>) -> Option<nat> {
    match number::unsigned(id.subrange(2, id.len() as int), usize::MAX as nat) {
        Some(idx) => if idx < lib.nodes.len() {
            Some(idx)
        } else {
            None
        },
        None => None,
    }
}

/// The descriptions of all children of a container; nothing for an object that is
/// none.
pub open spec fn children_of(lib: Library, id: Seq<char>, base: Seq<char>) -> Option<
    Seq<Seq<char>>,
> {
    if id == didl::ROOT_ID@ {
        Some(top_entries(lib))
    } else if id == didl::VIDEO_ID@ {
        Some(items_of(lib, lib.video, didl::VIDEO_ID@, base))
    } else if id == didl::AUDIO_ID@ {
        Some(items_of(lib, lib.audio, didl::AUDIO_ID@, base))
    } else if id == didl::FOLDER_ID@ {
        Some(source_entries(lib))
    } else if text::starts_with(id, "f:"@) {
        match folder_of_id(lib, id) {
            Some(idx) => Some(folder_entries(lib, idx, base)),
            None => None,
        }
    } else {
        None
    }
}

/// How many children a container has.
pub open spec fn child_count(lib: Library, id: Seq<char>) -> nat {
    if id == didl::ROOT_ID@ {
        top_count(lib)
    } else if id == didl::VIDEO_ID@ {
        lib.video.len()
    } else if id == didl::AUDIO_ID@ {
        lib.audio.len()
    } else if id == didl::FOLDER_ID@ {
        active_sources(lib).len()
    } else {
        match folder_of_id(lib, id) {
            Some(idx) => lib.nodes[idx as int].subs.len() + lib.nodes[idx as int].media.len(),
            None => 0,
        }
    }
}

/// Every child of a container is there and can be described.
pub open spec fn children_describable(lib: Library, id: Seq<char>) -> bool {
    if id == didl::ROOT_ID@ {
        true
    } else if id == didl::VIDEO_ID@ {
        all_describable(lib, lib.video)
    } else if id == didl::AUDIO_ID@ {
        all_describable(lib, lib.audio)
    } else if id == didl::FOLDER_ID@ {
        true
    } else {
        folder::subs_in_range(lib.nodes) && match folder_of_id(lib, id) {
            Some(idx) => all_describable(lib, lib.nodes[idx as int].media),
            None => true,
        }
    }
}

/// Whoever browses a container page by page is given every child once: each page
/// tells the same total, which is how many children the container says that it has;
/// a page holds as many entries as it says, a whole page or what is left; and the
/// pages, one after the other, are the list of the children.
pub proof fn law_browsing_pages_gives_every_child_once(
    lib: Library,
    id: Seq<char>,
    flag: Seq<char>,
    base: Seq<char>,
    n: nat,
    k: nat,
)
    requires
        !asks_metadata(flag),
        n > 0,
        children_of(lib, id, base) is Some,
        children_describable(lib, id),
    ensures
        ({
            let all = children_of(lib, id, base)->0;
            let page = browse_listing(lib, id, flag, k * n, n, base)->0;
            &&& browse_listing(lib, id, flag, k * n, n, base) is Some
            &&& all.len() == child_count(lib, id)
            &&& page.total == child_count(lib, id)
            &&& page.returned == didl::page_length(page.total, n, k)
            &&& page.returned == didl::page_entries(all, n, k).len()
            &&& page.didl == didl::didl_text(didl::page_entries(all, n, k))
            &&& didl::pages_joined(all, n, k) == all.take(
                didl::page_start(k * n, all.len()) as int,
            )
            &&& k * n >= all.len() ==> didl::pages_joined(all, n, k) == all
        }),
{
    let all = children_of(lib, id, base)->0;
    assert(k * n >= 0) by (nonlinear_arith);
    if id == didl::ROOT_ID@ {
    } else if id == didl::VIDEO_ID@ {
        lemma_category_page(lib, lib.video, didl::VIDEO_ID@, k * n, n, base);
    } else if id == didl::AUDIO_ID@ {
        lemma_category_page(lib, lib.audio, didl::AUDIO_ID@, k * n, n, base);
    } else if id == didl::FOLDER_ID@ {
    } else {
        let idx = folder_of_id(lib, id)->0;
        law_folders_count_their_children(lib, idx as int, base);
    }
    didl::law_pages_follow_each_other(k * n, n, all.len());
    didl::law_pages_give_every_entry_once(all, n, k);
}

/// The children of a list of files are the descriptions of these files, in their
/// order.
pub proof fn law_children_are_in_order(
    lib: Library,
    list: Seq<usize>,
    parent: Seq<char>,
    base: Seq<char>,
    i: int,
)
    requires
        all_describable(lib, list),
        0 <= i < list.len(),
    ensures
        items_of(lib, list, parent, base).len() == list.len(),
        items_of(lib, list, parent, base)[i] == item_in(lib, list[i], parent, base),
{
    lemma_items_in_order(lib, list, list.len() as int, parent, base);
}

/// Whoever searches page by page is given every match once, in the same way.
pub proof fn law_searching_pages_gives_every_match_once(
    lib: Library,
    id: Seq<char>,
    criteria: Seq<char>,
    base: Seq<char>,
    n: nat,
    k: nat,
)
    requires
        n > 0,
        candidates(lib, id) is Some,
        all_describable(lib, found_by(lib, id, criteria)),
    ensures
        ({
            let found = found_by(lib, id, criteria);
            let all = items_of(lib, found, id, base);
            let page = search_listing(lib, id, criteria, k * n, n, base)->0;
            &&& search_listing(lib, id, criteria, k * n, n, base) is Some
            &&& all.len() == found.len()
            &&& page.total == found.len()
            &&& page.returned == didl::page_length(page.total, n, k)
            &&& page.returned == didl::page_entries(all, n, k).len()
            &&& page.didl == didl::didl_text(didl::page_entries(all, n, k))
            &&& k * n >= all.len() ==> didl::pages_joined(all, n, k) == all
        }),
{
    let found = found_by(lib, id, criteria);
    let all = items_of(lib, found, id, base);
    assert(k * n >= 0) by (nonlinear_arith);
    lemma_category_page(lib, found, id, k * n, n, base);
    didl::law_pages_follow_each_other(k * n, n, all.len());
    didl::law_pages_give_every_entry_once(all, n, k);
}

/// The files that a search finds.
pub open spec fn found_by(lib: Library, id: Seq<char>, criteria: Seq<char>) -> Seq<usize> {
    let list = candidates(lib, id)->0;
    matches_upto(lib, list, criteria, list.len() as int)
}

/// No child of a container is listed in it twice.
pub open spec fn children_distinct(lib: Library, id: Seq<char>) -> bool {
    if id == didl::ROOT_ID@ {
        true
    } else if id == didl::VIDEO_ID@ {
        lib.video.no_duplicates()
    } else if id == didl::AUDIO_ID@ {
        lib.audio.no_duplicates()
    } else if id == didl::FOLDER_ID@ {
        true
    } else {
        match folder_of_id(lib, id) {
            Some(idx) => lib.nodes[idx as int].subs.no_duplicates()
                && lib.nodes[idx as int].media.no_duplicates(),
            None => true,
        }
    }
}

/// Different files are described differently.
proof fn lemma_items_differ(lib: Library, list: Seq<usize>, parent: Seq<char>, base: Seq<char>)
    requires
        all_describable(lib, list),
        list.no_duplicates(),
    ensures
        items_of(lib, list, parent, base).no_duplicates(),
{
    let items = items_of(lib, list, parent, base);
    lemma_items_in_order(lib, list, list.len() as int, parent, base);
    assert forall|a: int, b: int|
        0 <= a < items.len() && 0 <= b < items.len() && a != b implies items[a] != items[b] by {
        lemma_item_at(lib, list, parent, base, a);
        lemma_item_at(lib, list, parent, base, b);
        if items[a] == items[b] {
            number::lemma_one_number(
                items[a],
                didl::item_head(parent),
                list[a] as nat,
                list[b] as nat,
            );
        }
    }
}

/// The description of a file in a list begins with the file's number.
proof fn lemma_item_at(
    lib: Library,
    list: Seq<usize>,
    parent: Seq<char>,
    base: Seq<char>,
    a: int,
)
    requires
        all_describable(lib, list),
        0 <= a < list.len(),
    ensures
        items_of(lib, list, parent, base).len() == list.len(),
        number::is_numbered(
            items_of(lib, list, parent, base)[a],
            didl::item_head(parent),
            list[a] as nat,
        ),
{
    lemma_items_in_order(lib, list, list.len() as int, parent, base);
    let i = list[a];
    assert(is_describable(lib, i));
    didl::lemma_item_is_numbered(lib, i as nat, lib.files[i as int], parent, base);
}

/// The folders in a list are described one by one, in their order.
proof fn lemma_subfolders_in_order(lib: Library, subs: Seq<usize>, n: int, parent: Seq<char>)
    requires
        0 <= n <= subs.len(),
        forall|k: int| 0 <= k < subs.len() ==> #[trigger] subs[k] < lib.nodes.len(),
    ensures
        subfolder_entries(lib, subs, n, parent).len() == n,
        forall|k: int|
            0 <= k < n ==> #[trigger] subfolder_entries(lib, subs, n, parent)[k]
                == didl::folder_text(subs[k] as nat, parent, lib.nodes[subs[k] as int]),
    decreases n,
{
    if n > 0 {
        lemma_subfolders_in_order(lib, subs, n - 1, parent);
    }
}

/// What a folder lists is described differently, one child from the other.
#[verifier::spinoff_prover]
#[verifier::rlimit(60)]
proof fn lemma_folder_entries_differ(lib: Library, idx: nat, base: Seq<char>)
    requires
        idx < lib.nodes.len(),
        folder::subs_in_range(lib.nodes),
        all_describable(lib, lib.nodes[idx as int].media),
        lib.nodes[idx as int].subs.no_duplicates(),
        lib.nodes[idx as int].media.no_duplicates(),
    ensures
        folder_entries(lib, idx, base).no_duplicates(),
{
    let node = lib.nodes[idx as int];
    let parent = folder_id(idx);
    let n = node.subs.len() as int;
    let subs = subfolder_entries(lib, node.subs, n, parent);
    let items = items_of(lib, node.media, parent, base);
    let all = folder_entries(lib, idx, base);
    lemma_subfolders_in_order(lib, node.subs, n, parent);
    lemma_items_differ(lib, node.media, parent, base);
    lemma_items_in_order(lib, node.media, node.media.len() as int, parent, base);
    reveal_strlit("<container id=\"f:");
    reveal_strlit("<item id=\"");
    assert("<container id=\"f:"@[1] == 'c');
    assert("<item id=\""@[1] == 'i');
    assert forall|a: int| 0 <= a < n implies number::is_numbered(
        #[trigger] subs[a],
        didl::folder_head(),
        node.subs[a] as nat,
    ) && subs[a][1] == 'c' by {
        let i = node.subs[a];
        didl::lemma_folder_is_numbered(i as nat, parent, lib.nodes[i as int]);
        assert(subs[a] == didl::folder_text(i as nat, parent, lib.nodes[i as int]));
        assert(subs[a][1] == didl::folder_head()[1]);
    }
    assert forall|b: int| 0 <= b < items.len() implies (#[trigger] items[b])[1] == 'i' by {
        lemma_item_at(lib, node.media, parent, base, b);
        let k = didl::item_head(parent).len() + number::decimal(node.media[b] as nat).len();
        assert(items[b][1] == items[b].subrange(0, k as int)[1]);
        assert(didl::item_head(parent)[1] == "<item id=\""@[1]);
    }
    assert forall|a: int, b: int|
        0 <= a < all.len() && 0 <= b < all.len() && a != b implies all[a] != all[b] by {
        if a < n && b < n {
            assert(all[a] == subs[a] && all[b] == subs[b]);
            if all[a] == all[b] {
                number::lemma_one_number(
                    subs[a],
                    didl::folder_head(),
                    node.subs[a] as nat,
                    node.subs[b] as nat,
                );
            }
        } else if a >= n && b >= n {
            assert(all[a] == items[a - n] && all[b] == items[b - n]);
        } else if a < n {
            assert(all[a] == subs[a] && all[b] == items[b - n]);
        } else {
            assert(all[a] == items[a - n] && all[b] == subs[b]);
        }
    }
}

/// The source folders are described differently.
proof fn lemma_sources_differ(lib: Library)
    requires
        lib.nodes.len() <= usize::MAX,
    ensures
        source_entries(lib).no_duplicates(),
{
    let list = active_sources(lib);
    let all = source_entries(lib);
    seqs::lemma_numbers_where(active_source(lib), source_count(lib));
    assert forall|a: int, b: int|
        0 <= a < all.len() && 0 <= b < all.len() && a != b implies all[a] != all[b] by {
        let f = didl::FOLDER_ID@;
        didl::lemma_folder_is_numbered(list[a] as nat, f, lib.nodes[list[a] as int]);
        didl::lemma_folder_is_numbered(list[b] as nat, f, lib.nodes[list[b] as int]);
        if all[a] == all[b] {
            number::lemma_one_number(
                all[a],
                didl::folder_head(),
                list[a] as nat,
                list[b] as nat,
            );
        }
    }
}

/// The containers at the top are described differently.
proof fn lemma_top_differs(lib: Library)
    ensures
        top_entries(lib).no_duplicates(),
{
    reveal_strlit("<container id=\"");
    reveal_strlit("V");
    reveal_strlit("A");
    reveal_strlit("F");
    let video = didl::category_text(didl::VIDEO_ID@, "Videos"@, lib.video.len());
    let audio = didl::category_text(didl::AUDIO_ID@, "Music"@, lib.audio.len());
    let folders = didl::category_text(didl::FOLDER_ID@, "By folder"@, active_sources(lib).len());
    assert(video[15] == 'V' && audio[15] == 'A' && folders[15] == 'F');
}

/// No child is described as another is, so that none comes twice in the pages of a
/// container.
pub proof fn law_children_are_told_apart(lib: Library, id: Seq<char>, base: Seq<char>)
    requires
        lib.nodes.len() <= usize::MAX,
        children_of(lib, id, base) is Some,
        children_describable(lib, id),
        children_distinct(lib, id),
    ensures
        (children_of(lib, id, base)->0).no_duplicates(),
{
    if id == didl::ROOT_ID@ {
        lemma_top_differs(lib);
    } else if id == didl::VIDEO_ID@ {
        lemma_items_differ(lib, lib.video, didl::VIDEO_ID@, base);
    } else if id == didl::AUDIO_ID@ {
        lemma_items_differ(lib, lib.audio, didl::AUDIO_ID@, base);
    } else if id == didl::FOLDER_ID@ {
        lemma_sources_differ(lib);
    } else {
        lemma_folder_entries_differ(lib, folder_of_id(lib, id)->0, base);
    }
}

/// A file that a search finds holds every quoted term behind a `contains` in its
/// title, in whatever case, and is of the class that the criteria name. The
/// title is the file's name.
pub proof fn law_found_files_hold_the_terms(
    lib: Library,
    criteria: Seq<char>,
    i: usize,
    title: Seq<char>,
    k: int,
)
    requires
        text::is_tight(criteria),
        criteria.len() > 0,
        criteria != "*"@,
        is_match(lib, criteria, i),
        path::file_name_of(lib.files[i as int]) == Some(utf8::encode_utf8(title)),
        0 <= k < query::title_terms(criteria).len(),
    ensures
        exists|at: int| #[trigger]
            text::occurs_at(
                text::lower(title),
                text::lower(query::title_terms(criteria)[k]),
                at,
            ),
        text::contains(text::lower(criteria), "videoitem"@) ==> text::starts_with(
            search_mime(lib.files[i as int]),
            "video/"@,
        ),
        text::contains(text::lower(criteria), "audioitem"@) ==> text::starts_with(
            search_mime(lib.files[i as int]),
            "audio/"@,
        ),
        text::contains(text::lower(criteria), "musictrack"@) ==> text::starts_with(
            search_mime(lib.files[i as int]),
            "audio/"@,
        ),
{
    let file = lib.files[i as int];
    utf8::encode_utf8_valid_utf8(title);
    utf8::encode_utf8_decode_utf8(title);
    query::law_found_titles_hold_the_terms(title, search_mime(file), criteria, k);
    query::law_found_files_are_of_the_class(title, search_mime(file), criteria);
}

/// A search for a word in the titles finds the files whose name holds it, in
/// whatever case, and no others.
pub proof fn law_names_are_searched(lib: Library, i: usize, title: Seq<char>, term: Seq<char>)
    requires
        i < lib.files.len(),
        path::file_name_of(lib.files[i as int]) == Some(utf8::encode_utf8(title)),
        term.len() > 0,
        text::is_tight(term),
        forall|j: int| 0 <= j < term.len() ==> #[trigger] term[j] != '"',
        !text::contains(text::lower("dc:title contains \""@ + term + "\""@), "videoitem"@),
        !text::contains(text::lower("dc:title contains \""@ + term + "\""@), "audioitem"@),
        !text::contains(text::lower("dc:title contains \""@ + term + "\""@), "musictrack"@),
    ensures
        is_match(lib, "dc:title contains \""@ + term + "\""@, i) <==> text::contains(
            text::lower(title),
            text::lower(term),
        ),
{
    utf8::encode_utf8_valid_utf8(title);
    utf8::encode_utf8_decode_utf8(title);
    query::law_titles_are_searched(title, search_mime(lib.files[i as int]), term);
}

/// A search without criteria finds every file that it looks through.
pub proof fn law_a_search_for_everything_finds_everything(lib: Library, i: usize)
    requires
        i < lib.files.len(),
    ensures
        is_match(lib, "*"@, i),
        is_match(lib, Seq::empty(), i),
{
    let none = Seq::<char>::empty();
    let file = lib.files[i as int];
    query::law_empty_criteria_are_met(search_title(file), search_mime(file), none, none);
    assert(none + none =~= none);
    assert(none + "*"@ + none =~= "*"@);
}

/// A folder of a number.
proof fn lemma_folder_id(idx: nat)
    requires
        idx <= usize::MAX,
    ensures
        text::starts_with(folder_id(idx), "f:"@),
        number::unsigned(
            folder_id(idx).subrange(2, folder_id(idx).len() as int),
            usize::MAX as nat,
        ) == Some(idx),
        folder_id(idx) != didl::ROOT_ID@,
        folder_id(idx) != didl::VIDEO_ID@,
        folder_id(idx) != didl::AUDIO_ID@,
        folder_id(idx) != didl::FOLDER_ID@,
{
    reveal_strlit("f:");
    reveal_strlit("0");
    reveal_strlit("V");
    reveal_strlit("A");
    reveal_strlit("F");
    let id = folder_id(idx);
    assert(id.subrange(0, 2) =~= "f:"@);
    assert(id.subrange(2, id.len() as int) =~= number::decimal(idx));
    number::law_numeral_round_trip(idx, usize::MAX as nat);
    number::lemma_decimal_digits(idx);
    assert(id.len() >= 3);
}

/// What a search in a folder looks through is what the folder lists, and what a
/// search in each of its folders looks through; and nothing else.
pub proof fn law_a_search_goes_down(lib: Library, idx: usize, m: usize)
    requires
        idx < lib.nodes.len(),
        lib.nodes.len() <= usize::MAX,
        folder::subs_in_range(lib.nodes),
    ensures
        candidates(lib, folder_id(idx as nat)) is Some,
        (candidates(lib, folder_id(idx as nat))->0).contains(m) <==> {
            ||| lib.nodes[idx as int].media.contains(m)
            ||| exists|j: usize|
                lib.nodes[idx as int].subs.contains(j) && (#[trigger] candidates(
                    lib,
                    folder_id(j as nat),
                )->0).contains(m)
        },
{
    lemma_folder_id(idx as nat);
    lemma_below_split(lib, idx, m);
    lemma_candidates_of(lib, idx, m);
    let nodes = lib.nodes;
    assert forall|j: usize| nodes[idx as int].subs.contains(j) implies (#[trigger] candidates(
        lib,
        folder_id(j as nat),
    )->0).contains(m) == is_held_below(nodes, j, m) by {
        let q = choose|q: int| 0 <= q < nodes[idx as int].subs.len() && nodes[idx as int].subs[q]
            == j;
        assert(nodes[idx as int].subs[q] < nodes.len());
        lemma_candidates_of(lib, j, m);
    }
    if exists|j: usize| nodes[idx as int].subs.contains(j) && #[trigger] is_held_below(nodes, j, m) {
        let j = choose|j: usize|
            nodes[idx as int].subs.contains(j) && #[trigger] is_held_below(nodes, j, m);
        assert((candidates(lib, folder_id(j as nat))->0).contains(m));
    }
    if exists|j: usize|
        nodes[idx as int].subs.contains(j) && (#[trigger] candidates(
            lib,
            folder_id(j as nat),
        )->0).contains(m) {
        let j = choose|j: usize|
            nodes[idx as int].subs.contains(j) && (#[trigger] candidates(
                lib,
                folder_id(j as nat),
            )->0).contains(m);
        assert(is_held_below(nodes, j, m));
    }
}

/// File `m` is listed in folder `j` or below it.
pub open spec fn is_held_below(nodes: Seq<Folder>, j: usize, m: usize) -> bool {
    exists|i: int|
        0 <= i < nodes.len() && #[trigger] nodes[i].media.contains(m) && is_below(
            nodes,
            j as int,
            j as int + 1,
            i,
        )
}

/// What a search in a folder looks through.
proof fn lemma_candidates_of(lib: Library, idx: usize, m: usize)
    requires
        idx < lib.nodes.len(),
    ensures
        candidates(lib, folder_id(idx as nat)) is Some,
        (candidates(lib, folder_id(idx as nat))->0).contains(m) == is_held_below(
            lib.nodes,
            idx,
            m,
        ),
{
    lemma_folder_id(idx as nat);
    let p = media_below(lib.nodes, idx as int, idx as int + 1);
    let list = subtree_media(lib, idx as int, idx as int + 1);
    seqs::lemma_numbers_where(p, usize::MAX + 1);
    assert((m as int) as usize == m);
    let nodes = lib.nodes;
    let lo = idx as int;
    let hi = lo + 1;
    assert(p(m as int) == exists|i: int|
        0 <= i < nodes.len() && #[trigger] nodes[i].media.contains((m as int) as usize) && is_below(
            nodes,
            lo,
            hi,
            i,
        ));
    assert(p(m as int) == is_held_below(nodes, idx, m));
    if list.contains(m) {
        let k = choose|k: int| 0 <= k < list.len() && list[k] == m;
        assert(p(list[k] as int));
    }
    if p(m as int) {
        assert(list.contains((m as int) as usize));
    }
}

/// What lies in or below a folder lies in it, or in or below one of its folders.
proof fn lemma_below_split(lib: Library, idx: usize, m: usize)
    requires
        idx < lib.nodes.len(),
        lib.nodes.len() <= usize::MAX,
        folder::subs_in_range(lib.nodes),
    ensures
        is_held_below(lib.nodes, idx, m) <==> {
            ||| lib.nodes[idx as int].media.contains(m)
            ||| exists|j: usize|
                lib.nodes[idx as int].subs.contains(j) && #[trigger] is_held_below(
                    lib.nodes,
                    j,
                    m,
                )
        },
{
    let nodes = lib.nodes;
    let lo = idx as int;
    if nodes[lo].media.contains(m) {
        assert(is_within(nodes, lo, lo + 1, 0, lo));
        assert(is_below(nodes, lo, lo + 1, lo));
    }
    if exists|j: usize| nodes[lo].subs.contains(j) && #[trigger] is_held_below(nodes, j, m) {
        let j = choose|j: usize| nodes[lo].subs.contains(j) && #[trigger] is_held_below(
            nodes,
            j,
            m,
        );
        let i = choose|i: int|
            0 <= i < nodes.len() && #[trigger] nodes[i].media.contains(m) && is_below(
                nodes,
                j as int,
                j as int + 1,
                i,
            );
        let at = j as int;
        let hi = at + 1;
        let steps = choose|steps: nat| is_within(nodes, at, hi, steps, i);
        lemma_below_a_sub(nodes, idx, j, steps, i);
        assert(is_below(nodes, lo, lo + 1, i));
    }
    if is_held_below(nodes, idx, m) {
        let i = choose|i: int|
            0 <= i < nodes.len() && #[trigger] nodes[i].media.contains(m) && is_below(
                nodes,
                lo,
                lo + 1,
                i,
            );
        let hi = lo + 1;
        let steps = choose|steps: nat| is_within(nodes, lo, hi, steps, i);
        lemma_within_split(nodes, idx, steps, i);
        if i != lo {
            let j = choose|j: usize|
                nodes[lo].subs.contains(j) && #[trigger] is_below(nodes, j as int, j as int + 1, i);
            assert(is_held_below(nodes, j, m));
        }
    }
}

/// What lies below a folder's folder lies below the folder.
proof fn lemma_below_a_sub(nodes: Seq<Folder>, idx: usize, j: usize, steps: nat, b: int)
    requires
        idx < nodes.len(),
        nodes[idx as int].subs.contains(j),
        is_within(nodes, j as int, j as int + 1, steps, b),
    ensures
        is_within(nodes, idx as int, idx as int + 1, steps + 1, b),
    decreases steps,
{
    let lo = idx as int;
    if steps == 0 {
        assert(b == j as int);
        assert(is_within(nodes, lo, lo + 1, 0, lo));
        assert(nodes[lo].subs.contains(b as usize));
        assert(is_within(nodes, lo, lo + 1, 1, b));
    } else if is_within(nodes, j as int, j as int + 1, (steps - 1) as nat, b) {
        lemma_below_a_sub(nodes, idx, j, (steps - 1) as nat, b);
    } else {
        let i = choose|i: int|
            0 <= i < nodes.len() && #[trigger] nodes[i].subs.contains(b as usize) && is_within(
                nodes,
                j as int,
                j as int + 1,
                (steps - 1) as nat,
                i,
            );
        lemma_below_a_sub(nodes, idx, j, (steps - 1) as nat, i);
        assert(nodes[i].subs.contains(b as usize));
    }
}

/// What lies below a folder, and is not the folder, lies in or below one of its
/// folders.
proof fn lemma_within_split(nodes: Seq<Folder>, idx: usize, steps: nat, b: int)
    requires
        idx < nodes.len(),
        nodes.len() <= usize::MAX,
        0 <= b < nodes.len(),
        is_within(nodes, idx as int, idx as int + 1, steps, b),
    ensures
        b == idx || exists|j: usize|
            nodes[idx as int].subs.contains(j) && #[trigger] is_below(
                nodes,
                j as int,
                j as int + 1,
                b,
            ),
    decreases steps,
{
    let lo = idx as int;
    if steps > 0 {
        if is_within(nodes, lo, lo + 1, (steps - 1) as nat, b) {
            lemma_within_split(nodes, idx, (steps - 1) as nat, b);
        } else {
            let i = choose|i: int|
                0 <= i < nodes.len() && #[trigger] nodes[i].subs.contains(b as usize) && is_within(
                    nodes,
                    lo,
                    lo + 1,
                    (steps - 1) as nat,
                    i,
                );
            lemma_within_split(nodes, idx, (steps - 1) as nat, i);
            if i == lo {
                let j = b as usize;
                assert(is_within(nodes, j as int, j as int + 1, 0, b));
                assert(is_below(nodes, j as int, j as int + 1, b));
            } else {
                let j = choose|j: usize|
                    nodes[lo].subs.contains(j) && #[trigger] is_below(
                        nodes,
                        j as int,
                        j as int + 1,
                        i,
                    );
                let at = j as int;
                let hi = at + 1;
                let k = choose|k: nat| is_within(nodes, at, hi, k, i);
                assert(is_within(nodes, j as int, j as int + 1, k + 1, b));
                assert(is_below(nodes, j as int, j as int + 1, b));
            }
        }
    }
}

/// A container at the top is described by its metadata as the root lists it.
pub proof fn law_metadata_of_the_top_is_what_the_root_lists(
    lib: Library,
    start: nat,
    count: nat,
    base: Seq<char>,
)
    ensures
        lib.video.len() > 0 ==> exists|i: int|
            0 <= i < top_entries(lib).len() && browse_listing(
                lib,
                "V"@,
                "BrowseMetadata"@,
                start,
                count,
                base,
            ) == Some(didl::single(#[trigger] top_entries(lib)[i])) && text::contains(
                top_entries(lib)[i],
                "<dc:title>"@ + "Videos"@ + "</dc:title>"@,
            ),
        lib.audio.len() > 0 ==> exists|i: int|
            0 <= i < top_entries(lib).len() && browse_listing(
                lib,
                "A"@,
                "BrowseMetadata"@,
                start,
                count,
                base,
            ) == Some(didl::single(#[trigger] top_entries(lib)[i])) && text::contains(
                top_entries(lib)[i],
                "<dc:title>"@ + "Music"@ + "</dc:title>"@,
            ),
        active_sources(lib).len() > 0 ==> exists|i: int|
            0 <= i < top_entries(lib).len() && browse_listing(
                lib,
                "F"@,
                "BrowseMetadata"@,
                start,
                count,
                base,
            ) == Some(didl::single(#[trigger] top_entries(lib)[i])) && text::contains(
                top_entries(lib)[i],
                "<dc:title>"@ + "By folder"@ + "</dc:title>"@,
            ),
{
    reveal_strlit("0");
    reveal_strlit("V");
    reveal_strlit("A");
    reveal_strlit("F");
    assert("0"@[0] == '0' && "V"@[0] == 'V' && "A"@[0] == 'A' && "F"@[0] == 'F');
    let top = top_entries(lib);
    let v = if lib.video.len() > 0 {
        1int
    } else {
        0
    };
    let a = if lib.audio.len() > 0 {
        1int
    } else {
        0
    };
    didl::law_categories_tell_what_they_are("V"@, "Videos"@, lib.video.len());
    didl::law_categories_tell_what_they_are("A"@, "Music"@, lib.audio.len());
    didl::law_categories_tell_what_they_are("F"@, "By folder"@, active_sources(lib).len());
    if lib.video.len() > 0 {
        assert(top[0] == didl::category_text("V"@, "Videos"@, lib.video.len()));
    }
    if lib.audio.len() > 0 {
        assert(top[v] == didl::category_text("A"@, "Music"@, lib.audio.len()));
    }
    if active_sources(lib).len() > 0 {
        assert(top[v + a] == didl::category_text(
            "F"@,
            "By folder"@,
            active_sources(lib).len(),
        ));
    }
}

/// A folder is described by its metadata as the container lists it that the
/// metadata names as its parent.
pub proof fn law_metadata_of_a_folder_is_what_its_parent_lists(
    lib: Library,
    idx: usize,
    start: nat,
    count: nat,
    base: Seq<char>,
)
    requires
        folder::linked(lib.nodes, lib.dirs.len() as int),
        folder::subs_in_range(lib.nodes),
        lib.dirs.len() <= idx < lib.nodes.len(),
        lib.nodes.len() <= usize::MAX,
    ensures
        exists|i: int, k: int|
            0 <= i < lib.nodes.len() && 0 <= k < folder_entries(lib, i as nat, base).len()
                && folder_parent(lib, idx) == folder_id(i as nat) && browse_listing(
                lib,
                folder_id(idx as nat),
                "BrowseMetadata"@,
                start,
                count,
                base,
            ) == Some(didl::single(#[trigger] folder_entries(lib, i as nat, base)[k])),
{
    law_parent_folder_lists_the_folder(lib, idx);
    let i = choose|i: int|
        0 <= i < lib.nodes.len() && (#[trigger] lib.nodes[i]).subs.contains(idx) && folder_parent(
            lib,
            idx,
        ) == folder_id(i as nat);
    let subs = lib.nodes[i].subs;
    let k = choose|k: int| 0 <= k < subs.len() && subs[k] == idx;
    assert forall|j: int| 0 <= j < subs.len() implies #[trigger] subs[j] < lib.nodes.len() by {
        assert(lib.nodes[i].subs[j] < lib.nodes.len());
    }
    lemma_subfolders_in_order(lib, subs, subs.len() as int, folder_id(i as nat));
    lemma_folder_id(idx as nat);
    let all = folder_entries(lib, i as nat, base);
    assert(all[k] == didl::folder_text(idx as nat, folder_id(i as nat), lib.nodes[idx as int]));
}

/// A source folder that holds media is described by its metadata as the container
/// of the source folders lists it.
pub proof fn law_metadata_of_a_source_is_listed(
    lib: Library,
    idx: usize,
    start: nat,
    count: nat,
    base: Seq<char>,
)
    requires
        idx < lib.dirs.len(),
        idx < lib.nodes.len(),
        lib.nodes[idx as int].subs.len() > 0 || lib.nodes[idx as int].media.len() > 0,
        lib.nodes.len() <= usize::MAX,
    ensures
        exists|k: int|
            0 <= k < source_entries(lib).len() && browse_listing(
                lib,
                folder_id(idx as nat),
                "BrowseMetadata"@,
                start,
                count,
                base,
            ) == Some(didl::single(#[trigger] source_entries(lib)[k])),
        folder_parent(lib, idx) == "F"@,
{
    let list = active_sources(lib);
    seqs::lemma_numbers_where(active_source(lib), source_count(lib));
    assert(active_source(lib)(idx as int));
    assert(list.contains((idx as int) as usize));
    let k = choose|k: int| 0 <= k < list.len() && list[k] == idx;
    lemma_folder_id(idx as nat);
    assert(source_entries(lib)[k] == didl::folder_text(
        idx as nat,
        didl::FOLDER_ID@,
        lib.nodes[idx as int],
    ));
}

/// A file is described by its metadata as the view lists it that its id names.
pub proof fn law_metadata_of_a_file_is_what_its_view_lists(
    lib: Library,
    list: Seq<usize>,
    view: Seq<char>,
    k: int,
    start: nat,
    count: nat,
    base: Seq<char>,
)
    requires
        view == "V"@ || view == "A"@,
        list == if view == "V"@ {
            lib.video
        } else {
            lib.audio
        },
        all_describable(lib, list),
        0 <= k < list.len(),
    ensures
        browse_listing(
            lib,
            didl::item_id_text(view, list[k] as nat),
            "BrowseMetadata"@,
            start,
            count,
            base,
        ) == Some(didl::single(items_of(lib, list, view, base)[k])),
{
    let i = list[k];
    let id = didl::item_id_text(view, i as nat);
    assert(is_describable(lib, i));
    lemma_items_in_order(lib, list, list.len() as int, view, base);
    didl::law_item_id_round_trip(view, i as nat);
    lemma_item_id_is_its_own(view, i as nat);
    reveal_strlit("V");
    reveal_strlit("A");
    reveal_strlit("m");
    assert("V"@[0] == 'V' && "A"@[0] == 'A' && "m"@[0] == 'm');
}

/// The id of a file is none of a container or a folder.
proof fn lemma_item_id_is_its_own(parent: Seq<char>, index: nat)
    ensures
        didl::item_id_text(parent, index) != didl::ROOT_ID@,
        didl::item_id_text(parent, index) != didl::VIDEO_ID@,
        didl::item_id_text(parent, index) != didl::AUDIO_ID@,
        didl::item_id_text(parent, index) != didl::FOLDER_ID@,
        !text::starts_with(didl::item_id_text(parent, index), "f:"@),
{
    reveal_strlit("0");
    reveal_strlit("V");
    reveal_strlit("A");
    reveal_strlit("F");
    reveal_strlit("f:");
    reveal_strlit("v:");
    reveal_strlit("a:");
    reveal_strlit("m:");
    let id = didl::item_id_text(parent, index);
    assert(id.len() >= 2);
    assert(id[0] == 'v' || id[0] == 'a' || id[0] == 'm');
    assert(text::starts_with(id, "f:"@) ==> id.subrange(0, 2)[0] == 'f');
}

/// A file that a folder lists is described by its metadata as the folder lists
/// it, where no other folder lists it first.
pub proof fn law_metadata_of_a_file_is_what_its_folder_lists(
    lib: Library,
    f: int,
    k: int,
    start: nat,
    count: nat,
    base: Seq<char>,
)
    requires
        0 <= f < lib.nodes.len(),
        lib.nodes.len() <= usize::MAX,
        folder::subs_in_range(lib.nodes),
        all_describable(lib, lib.nodes[f].media),
        0 <= k < lib.nodes[f].media.len(),
        forall|j: int| 0 <= j < f ==> !(#[trigger] lib.nodes[j]).media.contains(lib.nodes[f].media[k]),
    ensures
        browse_listing(
            lib,
            didl::item_id_text(folder_id(f as nat), lib.nodes[f].media[k] as nat),
            "BrowseMetadata"@,
            start,
            count,
            base,
        ) == Some(
            didl::single(folder_entries(lib, f as nat, base)[lib.nodes[f].subs.len() + k]),
        ),
{
    let node = lib.nodes[f];
    let m = node.media[k];
    let parent = folder_id(f as nat);
    lemma_folder_id(f as nat);
    assert forall|j: int| 0 <= j < node.subs.len() implies #[trigger] node.subs[j]
        < lib.nodes.len() by {
        assert(lib.nodes[f].subs[j] < lib.nodes.len());
    }
    lemma_subfolders_in_order(lib, node.subs, node.subs.len() as int, parent);
    lemma_items_in_order(lib, node.media, node.media.len() as int, parent, base);
    assert(node.media.contains(m));
    lemma_first_holder(lib.nodes, m, 0, f);
    assert(is_describable(lib, m));
    didl::law_item_id_round_trip(parent, m as nat);
    lemma_item_id_is_its_own(parent, m as nat);
    let all = folder_entries(lib, f as nat, base);
    let items = items_of(lib, node.media, parent, base);
    assert(all[node.subs.len() + k] == items[k]);
}

/// The first folder that lists a file is the one that is found.
proof fn lemma_first_holder(nodes: Seq<Folder>, m: usize, from: int, f: int)
    requires
        0 <= from <= f < nodes.len(),
        nodes[f].media.contains(m),
        forall|j: int| from <= j < f ==> !(#[trigger] nodes[j]).media.contains(m),
    ensures
        holder_from(nodes, m, from) == Some(f),
    decreases f - from,
{
    if from < f {
        assert(!nodes[from].media.contains(m));
        lemma_first_holder(nodes, m, from + 1, f);
    }
}

/// A file has no children.
pub proof fn law_files_have_no_children(
    lib: Library,
    parent: Seq<char>,
    index: nat,
    flag: Seq<char>,
    start: nat,
    count: nat,
    base: Seq<char>,
)
    requires
        index <= usize::MAX,
        flag != "BrowseMetadata"@,
    ensures
        match browse_listing(lib, didl::item_id_text(parent, index), flag, start, count, base) {
            Some(l) => l.returned == 0 && l.total == 0 && l.didl == didl::didl_text(Seq::empty()),
            None => false,
        },
{
    lemma_item_id_is_its_own(parent, index);
    didl::law_item_id_round_trip(parent, index);
}

/// A browse request gives the page that it asks for, of the object that it asks
/// for; one that leaves something out asks for the children of the root, from
/// the first on.
pub proof fn law_browse_requests_are_obeyed(
    host: Option<Seq<char>>,
    body: Seq<char>,
    lib: Library,
    id: Seq<char>,
    flag: Seq<char>,
    start: nat,
    count: nat,
)
    requires
        start <= usize::MAX,
        count <= usize::MAX,
        soap::tag_value(body, "ObjectID"@) == Some(id) || soap::tag_value(body, "ObjectID"@)
            is None && id == "0"@,
        soap::tag_value(body, "BrowseFlag"@) == Some(flag) || soap::tag_value(
            body,
            "BrowseFlag"@,
        ) is None && flag == "BrowseDirectChildren"@,
        soap::tag_value(body, "StartingIndex"@) == Some(number::decimal(start))
            || start == 0 && is_no_number(soap::tag_value(body, "StartingIndex"@)),
        soap::tag_value(body, "RequestedCount"@) == Some(number::decimal(count))
            || count == 0 && is_no_number(soap::tag_value(body, "RequestedCount"@)),
    ensures
        match browse_listing(lib, id, flag, start, count, base_of(host, lib)) {
            Some(l) => browse_reply(host, body, lib).0 == 200 && tells_listing(
                browse_reply(host, body, lib).1,
                l,
            ) && is_answer(
                browse_reply(host, body, lib).1,
                "Browse"@,
                "urn:schemas-upnp-org:service:ContentDirectory:1"@,
                listing_text(l),
            ),
            None => browse_reply(host, body, lib).0 == 500 && text::contains(
                browse_reply(host, body, lib).1,
                "<errorCode>"@ + number::decimal(701) + "</errorCode>"@,
            ),
        },
{
    number::law_numeral_round_trip(start, usize::MAX as nat);
    number::law_numeral_round_trip(count, usize::MAX as nat);
    match browse_listing(lib, id, flag, start, count, base_of(host, lib)) {
        Some(l) => {
            lemma_listing_is_told("Browse"@, l);
            soap::law_replies_hold_their_contents("Browse"@, CD_SERVICE@, listing_text(l));
        },
        None => {
            soap::law_faults_tell_the_error(701, "No Such Object"@);
        },
    }
}

/// A search request gives the page that it asks for, of what its criteria find in
/// the container that it names.
pub proof fn law_search_requests_are_obeyed(
    host: Option<Seq<char>>,
    body: Seq<char>,
    lib: Library,
    id: Seq<char>,
    criteria: Seq<char>,
    start: nat,
    count: nat,
)
    requires
        start <= usize::MAX,
        count <= usize::MAX,
        soap::tag_value(body, "ContainerID"@) == Some(id) || soap::tag_value(
            body,
            "ContainerID"@,
        ) is None && (soap::tag_value(body, "ObjectID"@) == Some(id) || soap::tag_value(
            body,
            "ObjectID"@,
        ) is None && id == "0"@),
        soap::tag_value(body, "SearchCriteria"@) == Some(criteria) || soap::tag_value(
            body,
            "SearchCriteria"@,
        ) is None && criteria == "*"@,
        soap::tag_value(body, "StartingIndex"@) == Some(number::decimal(start))
            || start == 0 && is_no_number(soap::tag_value(body, "StartingIndex"@)),
        soap::tag_value(body, "RequestedCount"@) == Some(number::decimal(count))
            || count == 0 && is_no_number(soap::tag_value(body, "RequestedCount"@)),
    ensures
        match search_listing(lib, id, criteria, start, count, base_of(host, lib)) {
            Some(l) => search_reply(host, body, lib).0 == 200 && tells_listing(
                search_reply(host, body, lib).1,
                l,
            ) && is_answer(
                search_reply(host, body, lib).1,
                "Search"@,
                "urn:schemas-upnp-org:service:ContentDirectory:1"@,
                listing_text(l),
            ),
            None => search_reply(host, body, lib).0 == 500 && text::contains(
                search_reply(host, body, lib).1,
                "<errorCode>"@ + number::decimal(701) + "</errorCode>"@,
            ),
        },
{
    number::law_numeral_round_trip(start, usize::MAX as nat);
    number::law_numeral_round_trip(count, usize::MAX as nat);
    match search_listing(lib, id, criteria, start, count, base_of(host, lib)) {
        Some(l) => {
            lemma_listing_is_told("Search"@, l);
            soap::law_replies_hold_their_contents("Search"@, CD_SERVICE@, listing_text(l));
        },
        None => {
            soap::law_faults_tell_the_error(701, "No Such Object"@);
        },
    }
}

/// A reply holds a listing, how many entries are in it, and how many there are.
pub open spec fn tells_listing(reply: Seq<char>, l: Listing) -> bool {
    &&& text::contains(reply, "<Result>"@ + xml::escaped(l.didl) + "</Result>"@)
    &&& text::contains(
        reply,
        "<NumberReturned>"@ + number::decimal(l.returned) + "</NumberReturned>"@,
    )
    &&& text::contains(reply, "<TotalMatches>"@ + number::decimal(l.total) + "</TotalMatches>"@)
    &&& text::contains(reply, "<UpdateID>1</UpdateID>"@)
}

/// What a request says is no number that can be read, or it says nothing.
pub open spec fn is_no_number(said: Option<Seq<char>>) -> bool {
    match said {
        Some(v) => number::unsigned(v, usize::MAX as nat) is None,
        None => true,
    }
}

/// A reply holds the answer to an action of a service, with these contents.
pub open spec fn is_answer(
    reply: Seq<char>,
    action: Seq<char>,
    service: Seq<char>,
    inner: Seq<char>,
) -> bool {
    text::contains(
        reply,
        "<u:"@ + action + "Response xmlns:u=\""@ + service + "\">\n      "@ + inner + "\n    </u:"@
            + action + "Response>"@,
    )
}

/// A listing in a reply.
proof fn lemma_listing_is_told(action: Seq<char>, l: Listing)
    ensures
        tells_listing(soap::response_text(action, CD_SERVICE@, listing_text(l)), l),
{
    lemma_listing_parts(l);
    let inner = listing_text(l);
    lemma_inner_kept(
        action,
        CD_SERVICE@,
        inner,
        "<Result>"@ + xml::escaped(l.didl) + "</Result>"@,
    );
    lemma_inner_kept(
        action,
        CD_SERVICE@,
        inner,
        "<NumberReturned>"@ + number::decimal(l.returned) + "</NumberReturned>"@,
    );
    lemma_inner_kept(
        action,
        CD_SERVICE@,
        inner,
        "<TotalMatches>"@ + number::decimal(l.total) + "</TotalMatches>"@,
    );
    lemma_inner_kept(action, CD_SERVICE@, inner, "<UpdateID>1</UpdateID>"@);
}

/// The parts of a listing.
proof fn lemma_listing_parts(l: Listing)
    ensures
        tells_listing(listing_text(l), l),
{
    reveal_strlit("</Result><NumberReturned>");
    reveal_strlit("</Result>");
    reveal_strlit("<NumberReturned>");
    reveal_strlit("</NumberReturned><TotalMatches>");
    reveal_strlit("</NumberReturned>");
    reveal_strlit("<TotalMatches>");
    reveal_strlit("</TotalMatches><UpdateID>1</UpdateID>");
    reveal_strlit("</TotalMatches>");
    reveal_strlit("<UpdateID>1</UpdateID>");
    assert("</Result><NumberReturned>"@ =~= "</Result>"@ + "<NumberReturned>"@);
    assert("</NumberReturned><TotalMatches>"@ =~= "</NumberReturned>"@ + "<TotalMatches>"@);
    assert("</TotalMatches><UpdateID>1</UpdateID>"@ =~= "</TotalMatches>"@
        + "<UpdateID>1</UpdateID>"@);
    let none = Seq::<char>::empty();
    let e = xml::escaped(l.didl);
    let r = number::decimal(l.returned);
    let t = number::decimal(l.total);
    assert("<Result>"@ =~= none + "<Result>"@);
    text::lemma_tagged(
        none,
        none,
        "<Result>"@,
        e,
        "</Result>"@,
        "<NumberReturned>"@,
        "<Result>"@,
        "</Result><NumberReturned>"@,
    );
    assert(none + "<Result>"@ + e + "</Result><NumberReturned>"@ =~= "<Result>"@ + e
        + "</Result><NumberReturned>"@);
    let a = "<Result>"@ + e;
    text::lemma_tagged(
        a,
        "</Result>"@,
        "<NumberReturned>"@,
        r,
        "</NumberReturned>"@,
        "<TotalMatches>"@,
        "</Result><NumberReturned>"@,
        "</NumberReturned><TotalMatches>"@,
    );
    let b = a + "</Result><NumberReturned>"@ + r;
    text::lemma_tagged(
        b,
        "</NumberReturned>"@,
        "<TotalMatches>"@,
        t,
        "</TotalMatches>"@,
        "<UpdateID>1</UpdateID>"@,
        "</NumberReturned><TotalMatches>"@,
        "</TotalMatches><UpdateID>1</UpdateID>"@,
    );
    let i1 = "<Result>"@ + e + "</Result>"@;
    let i2 = "<NumberReturned>"@ + r + "</NumberReturned>"@;
    text::lemma_longer_contains(a + "</Result><NumberReturned>"@, r, i1);
    text::lemma_longer_contains(b, "</NumberReturned><TotalMatches>"@, i1);
    text::lemma_longer_contains(b + "</NumberReturned><TotalMatches>"@, t, i1);
    text::lemma_longer_contains(
        b + "</NumberReturned><TotalMatches>"@ + t,
        "</TotalMatches><UpdateID>1</UpdateID>"@,
        i1,
    );
    text::lemma_longer_contains(b + "</NumberReturned><TotalMatches>"@, t, i2);
    text::lemma_longer_contains(
        b + "</NumberReturned><TotalMatches>"@ + t,
        "</TotalMatches><UpdateID>1</UpdateID>"@,
        i2,
    );
    let u = "<UpdateID>1</UpdateID>"@;
    assert("</TotalMatches>"@ + u + none =~= "</TotalMatches><UpdateID>1</UpdateID>"@);
    text::lemma_between("</TotalMatches>"@, u, none);
    text::lemma_longer_contains(
        b + "</NumberReturned><TotalMatches>"@ + t,
        "</TotalMatches><UpdateID>1</UpdateID>"@,
        u,
    );
}

/// What stands in the contents of a reply stands in the reply.
proof fn lemma_inner_kept(
    action: Seq<char>,
    service: Seq<char>,
    inner: Seq<char>,
    it: Seq<char>,
)
    requires
        text::contains(inner, it),
    ensures
        text::contains(soap::response_text(action, service, inner), it),
{
    broadcast use text::lemma_longer_contains;

}

/// The services answer the actions that a client asks for by name.
pub proof fn law_actions_are_answered(
    action: Seq<char>,
    host: Option<Seq<char>>,
    body: Seq<char>,
    lib: Library,
)
    requires
        action.len() > 0,
        action.first() != '"',
        action.last() != '"',
        text::is_graphic(action.last()),
        forall|i: int| 0 <= i < action.len() ==> #[trigger] action[i] != '#',
    ensures
        ({
            let header = "\""@ + "urn:schemas-upnp-org:service:ContentDirectory:1"@ + "#"@ + action
                + "\""@;
            let reply = contentdirectory_reply(Some(header), host, body, lib);
            &&& action == "Browse"@ ==> reply == browse_reply(host, body, lib)
            &&& action == "Search"@ ==> reply == search_reply(host, body, lib)
            &&& action == "GetSystemUpdateID"@ ==> reply.0 == 200 && is_answer(
                reply.1,
                action,
                "urn:schemas-upnp-org:service:ContentDirectory:1"@,
                "<Id>1</Id>"@,
            )
            &&& action == "GetSearchCapabilities"@ ==> reply.0 == 200 && is_answer(
                reply.1,
                action,
                "urn:schemas-upnp-org:service:ContentDirectory:1"@,
                "<SearchCaps>dc:title,upnp:class</SearchCaps>"@,
            )
            &&& action == "GetSortCapabilities"@ ==> reply.0 == 200 && is_answer(
                reply.1,
                action,
                "urn:schemas-upnp-org:service:ContentDirectory:1"@,
                "<SortCaps></SortCaps>"@,
            )
        }),
        ({
            let header = "\""@ + "urn:schemas-upnp-org:service:ConnectionManager:1"@ + "#"@
                + action + "\""@;
            let reply = connectionmanager_reply(Some(header));
            &&& action == "GetProtocolInfo"@ ==> reply.0 == 200 && is_answer(
                reply.1,
                action,
                "urn:schemas-upnp-org:service:ConnectionManager:1"@,
                "<Source>"@ + seqs::join(profile::source_entries(), ","@)
                    + "</Source><Sink></Sink>"@,
            )
            &&& action == "GetCurrentConnectionIDs"@ ==> reply.0 == 200 && is_answer(
                reply.1,
                action,
                "urn:schemas-upnp-org:service:ConnectionManager:1"@,
                "<ConnectionIDs>0</ConnectionIDs>"@,
            )
            &&& action == "GetCurrentConnectionInfo"@ ==> reply.0 == 200 && is_answer(
                reply.1,
                action,
                "urn:schemas-upnp-org:service:ConnectionManager:1"@,
                CONNECTION_INFO@,
            )
        }),
{
    reveal_strlit("urn:schemas-upnp-org:service:ContentDirectory:1");
    reveal_strlit("urn:schemas-upnp-org:service:ConnectionManager:1");
    lemma_action_read("urn:schemas-upnp-org:service:ContentDirectory:1"@, action);
    lemma_action_read("urn:schemas-upnp-org:service:ConnectionManager:1"@, action);
    lemma_action_names();
    soap::law_replies_hold_their_contents(action, CD_SERVICE@, "<Id>1</Id>"@);
    soap::law_replies_hold_their_contents(action, CD_SERVICE@, "<SearchCaps>dc:title,upnp:class</SearchCaps>"@);
    soap::law_replies_hold_their_contents(action, CD_SERVICE@, "<SortCaps></SortCaps>"@);
    soap::law_replies_hold_their_contents(
        action,
        CM_SERVICE@,
        "<Source>"@ + seqs::join(profile::source_entries(), ","@) + "</Source><Sink></Sink>"@,
    );
    soap::law_replies_hold_their_contents(action, CM_SERVICE@, "<ConnectionIDs>0</ConnectionIDs>"@);
    soap::law_replies_hold_their_contents(action, CM_SERVICE@, CONNECTION_INFO@);
}

/// The action that a header of the usual form names.
proof fn lemma_action_read(service: Seq<char>, action: Seq<char>)
    requires
        service.len() > 0,
        text::is_graphic(service.first()),
        service.first() != '"',
        action.len() > 0,
        action.first() != '"',
        action.last() != '"',
        text::is_graphic(action.last()),
        forall|i: int| 0 <= i < action.len() ==> #[trigger] action[i] != '#',
    ensures
        soap::requested_action(Some("\""@ + service + "#"@ + action + "\""@)) == action,
{
    let none = Seq::<char>::empty();
    let header = "\""@ + service + "#"@ + action + "\""@;
    soap::law_actions_are_read(none, service, action, none);
    assert(none + header + none =~= header);
}

/// The actions have different names.
proof fn lemma_action_names()
    ensures
        "Search"@ != "Browse"@,
        "GetSystemUpdateID"@ != "Browse"@ && "GetSystemUpdateID"@ != "Search"@,
        "GetSearchCapabilities"@ != "Browse"@ && "GetSearchCapabilities"@ != "Search"@
            && "GetSearchCapabilities"@ != "GetSystemUpdateID"@,
        "GetSortCapabilities"@ != "Browse"@ && "GetSortCapabilities"@ != "Search"@
            && "GetSortCapabilities"@ != "GetSystemUpdateID"@ && "GetSortCapabilities"@
            != "GetSearchCapabilities"@,
        "GetCurrentConnectionIDs"@ != "GetProtocolInfo"@,
        "GetCurrentConnectionInfo"@ != "GetProtocolInfo"@ && "GetCurrentConnectionInfo"@
            != "GetCurrentConnectionIDs"@,
{
    reveal_strlit("Browse");
    reveal_strlit("Search");
    reveal_strlit("GetSystemUpdateID");
    reveal_strlit("GetSearchCapabilities");
    reveal_strlit("GetSortCapabilities");
    reveal_strlit("GetProtocolInfo");
    reveal_strlit("GetCurrentConnectionIDs");
    reveal_strlit("GetCurrentConnectionInfo");
    assert("Browse"@[0] == 'B' && "Search"@[0] == 'S');
    assert("GetSystemUpdateID"@.len() == 17 && "GetSearchCapabilities"@.len() == 21
        && "GetSortCapabilities"@.len() == 19);
    assert("GetSystemUpdateID"@[0] == 'G' && "GetSearchCapabilities"@[0] == 'G'
        && "GetSortCapabilities"@[0] == 'G');
    assert("GetProtocolInfo"@.len() == 15 && "GetCurrentConnectionIDs"@.len() == 23
        && "GetCurrentConnectionInfo"@.len() == 24);
}

/// A search goes by the type that a file is served as; a file of no known type
/// counts as a video.
pub proof fn law_files_are_searched_by_their_type(file: Seq<Seq<u8>>, mime: Seq<char>)
    ensures
        media::path_mime_of(file) == Some(mime) ==> search_mime(file) == mime,
        media::path_mime_of(file) is None ==> text::starts_with(search_mime(file), "video/"@),
{
    reveal_strlit("video/mpeg");
    reveal_strlit("video/");
    assert("video/mpeg"@.subrange(0, 6) =~= "video/"@);
}

} // verus!
