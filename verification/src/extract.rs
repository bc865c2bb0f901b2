//! Deciding what to write where when an archive is extracted.
use crate::cluster::{blob_table, cluster_blob, cluster_content, ClusterGuard, Extent};
use crate::content::content_place;
use crate::directory_entry::{DirectoryEntry, EntryView, Target};
use crate::errors::{Error, Result};
use crate::header::header_of;
use crate::mime_type::{MimeType, MimeView};
use crate::namespace::Namespace;
use crate::text::{same_text, starts_with};
use crate::zim::{cluster_of, entry_of, Zim};
use vstd::prelude::*;
use vstd::string::{StrSliceExecFns, StringExecFns};

verus! {

/// The contents of the entry at `idx` are in this cluster.
pub open spec fn in_cluster(raw: Seq<u8>, idx: int, cluster: u32) -> bool {
    entry_of(raw, idx) matches Ok(entry) && entry.target matches Some(Target::Cluster(c, _)) && c
        == cluster
}

/// The entry at `idx` is a redirect.
pub open spec fn is_redirect(raw: Seq<u8>, idx: int) -> bool {
    entry_of(raw, idx) matches Ok(entry) && entry.target matches Some(Target::Redirect(_))
}

/// Which of the first `n` entries have their contents in this cluster, in path order.
pub open spec fn cluster_members(raw: Seq<u8>, cluster: u32, n: int) -> Seq<u32>
    decreases n,
{
    if n <= 0 {
        Seq::empty()
    } else if in_cluster(raw, n - 1, cluster) {
        cluster_members(raw, cluster, n - 1).push((n - 1) as u32)
    } else {
        cluster_members(raw, cluster, n - 1)
    }
}

/// Which of the first `n` entries are redirects, in path order.
pub open spec fn redirects_of(raw: Seq<u8>, n: int) -> Seq<u32>
    decreases n,
{
    if n <= 0 {
        Seq::empty()
    } else if is_redirect(raw, n - 1) {
        redirects_of(raw, n - 1).push((n - 1) as u32)
    } else {
        redirects_of(raw, n - 1)
    }
}

/// Which of the first `n` entries cannot be read, and why, in path order.
pub open spec fn unreadable_of(raw: Seq<u8>, n: int) -> Seq<(u32, Error)>
    decreases n,
{
    if n <= 0 {
        Seq::empty()
    } else if entry_of(raw, n - 1) is Err {
        unreadable_of(raw, n - 1).push(((n - 1) as u32, entry_of(raw, n - 1)->Err_0))
    } else {
        unreadable_of(raw, n - 1)
    }
}

/// What there is to do to extract an archive.
pub struct Plan {
    /// The clusters to write out, in file order, each with the indices of the entries whose
    /// contents it holds.
    ///
    /// Extraction takes up one cluster at a time, so that each is decompressed once. Only entry
    /// indices are kept: re-reading a directory entry is a cheap mapped read, whereas holding
    /// every entry's path and title costs more than the cluster data does.
    pub by_cluster: Vec<(u32, Vec<u32>)>,
    /// The indices of the redirects to link.
    pub redirects: Vec<u32>,
    /// The indices of the entries that are skipped, with the reason.
    pub unreadable: Vec<(u32, Error)>,
}

/// Some group is that of `cluster`.
pub open spec fn has_group(groups: Seq<(u32, Vec<u32>)>, cluster: u32) -> bool {
    exists|i: int| 0 <= i < groups.len() && (#[trigger] groups[i]).0 == cluster
}

/// The groups are in order of their clusters, and no two are of the same one.
pub open spec fn groups_ascend(groups: Seq<(u32, Vec<u32>)>) -> bool {
    forall|i: int, j: int|
        0 <= i < j < groups.len() ==> (#[trigger] groups[i]).0 < (#[trigger] groups[j]).0
}

/// There is one group for each cluster that holds contents of the first `n` entries, and it lists
/// them all.
pub open spec fn groups_cover(raw: Seq<u8>, groups: Seq<(u32, Vec<u32>)>, n: int) -> bool {
    &&& groups_ascend(groups)
    &&& forall|i: int|
        0 <= i < groups.len() ==> (#[trigger] groups[i]).1@ == cluster_members(raw, groups[i].0, n)
    &&& forall|cluster: u32|
        has_group(groups, cluster) <==> #[trigger] cluster_members(raw, cluster, n).len() > 0
}

impl Plan {
    /// The plan is complete for the first `n` entries of an archive.
    pub open spec fn covers(&self, raw: Seq<u8>, n: int) -> bool {
        &&& groups_cover(raw, self.by_cluster@, n)
        &&& self.redirects@ == redirects_of(raw, n)
        &&& self.unreadable@ == unreadable_of(raw, n)
    }
}

/// The index of the first group whose cluster is `cluster` or a later one.
fn group_position(groups: &Vec<(u32, Vec<u32>)>, cluster: u32) -> (at: usize)
    requires
        groups_ascend(groups@),
    ensures
        at <= groups@.len(),
        forall|i: int| 0 <= i < at ==> (#[trigger] groups@[i]).0 < cluster,
        forall|i: int| at <= i < groups@.len() ==> (#[trigger] groups@[i]).0 >= cluster,
{
    let mut low: usize = 0;
    let mut high: usize = groups.len();
    while low < high
        invariant
            groups_ascend(groups@),
            low <= high <= groups@.len(),
            forall|i: int| 0 <= i < low ==> (#[trigger] groups@[i]).0 < cluster,
            forall|i: int| high <= i < groups@.len() ==> (#[trigger] groups@[i]).0 >= cluster,
        decreases high - low,
    {
        let mid = low + (high - low) / 2;
        if groups[mid].0 < cluster {
            low = mid + 1;
        } else {
            high = mid;
        }
    }
    low
}

/// Adds an entry to the group of its cluster.
fn add_member(groups: &mut Vec<(u32, Vec<u32>)>, cluster: u32, idx: u32, Ghost(raw): Ghost<Seq<u8>>)
    requires
        groups_cover(raw, old(groups)@, idx as int),
        in_cluster(raw, idx as int, cluster),
    ensures
        groups_cover(raw, final(groups)@, idx + 1),
{
    let ghost before = groups@;
    let at = group_position(groups, cluster);
    if at < groups.len() && groups[at].0 == cluster {
        groups[at].1.push(idx);
        proof {
            assert(groups@[at as int].1@ == before[at as int].1@.push(idx));
            assert forall|c: u32| #[trigger] cluster_members(raw, c, idx + 1).len() > 0 implies
                has_group(groups@, c) by {
                if c == cluster {
                    assert(groups@[at as int].0 == c);
                } else {
                    assert(cluster_members(raw, c, idx as int).len() > 0);
                    let i = choose|i: int| 0 <= i < before.len() && (#[trigger] before[i]).0 == c;
                    assert(groups@[i].0 == c);
                }
            }
            assert forall|c: u32| has_group(groups@, c) implies #[trigger] cluster_members(
                raw,
                c,
                idx + 1,
            ).len() > 0 by {
                let i = choose|i: int| 0 <= i < groups@.len() && (#[trigger] groups@[i]).0 == c;
                assert(before[i].0 == c);
                assert(has_group(before, c));
                assert(cluster_members(raw, c, idx as int).len() > 0);
            }
        }
    } else {
        let mut list: Vec<u32> = Vec::new();
        list.push(idx);
        proof {
            if has_group(before, cluster) {
                let i = choose|i: int| 0 <= i < before.len() && (#[trigger] before[i]).0 == cluster;
                assert(before[at as int].0 == cluster);
            }
            assert(cluster_members(raw, cluster, idx as int) =~= Seq::<u32>::empty());
            assert(list@ =~= cluster_members(raw, cluster, idx + 1));
        }
        groups.insert(at, (cluster, list));
        proof {
            assert(groups@ =~= before.insert(at as int, (cluster, list)));
            assert forall|i: int| 0 <= i < groups@.len() implies (#[trigger] groups@[i]).1@
                == cluster_members(raw, groups@[i].0, idx + 1) by {
                if i < at {
                    assert(groups@[i] == before[i]);
                } else if i > at {
                    assert(groups@[i] == before[i - 1]);
                }
            }
            assert forall|i: int, j: int| 0 <= i < j < groups@.len() implies (
            #[trigger] groups@[i]).0 < (#[trigger] groups@[j]).0 by {
                if i < at {
                    assert(groups@[i] == before[i]);
                }
                if i > at {
                    assert(groups@[i] == before[i - 1]);
                }
                if j < at {
                    assert(groups@[j] == before[j]);
                }
                if j > at {
                    assert(groups@[j] == before[j - 1]);
                }
            }
            assert forall|c: u32| #[trigger] cluster_members(raw, c, idx + 1).len() > 0 implies
                has_group(groups@, c) by {
                if c == cluster {
                    assert(groups@[at as int].0 == c);
                } else {
                    assert(cluster_members(raw, c, idx as int).len() > 0);
                    let i = choose|i: int| 0 <= i < before.len() && (#[trigger] before[i]).0 == c;
                    if i < at {
                        assert(groups@[i].0 == c);
                    } else {
                        assert(groups@[i + 1].0 == c);
                    }
                }
            }
            assert forall|c: u32| has_group(groups@, c) implies #[trigger] cluster_members(
                raw,
                c,
                idx + 1,
            ).len() > 0 by {
                let i = choose|i: int| 0 <= i < groups@.len() && (#[trigger] groups@[i]).0 == c;
                if c != cluster {
                    if i < at {
                        assert(before[i].0 == c);
                    } else {
                        assert(before[i - 1].0 == c);
                    }
                    assert(has_group(before, c));
                    assert(cluster_members(raw, c, idx as int).len() > 0);
                }
            }
        }
    }
}

/// Entries that are not contents change no group.
proof fn lemma_groups_unchanged(raw: Seq<u8>, groups: Seq<(u32, Vec<u32>)>, idx: int)
    requires
        groups_cover(raw, groups, idx),
        0 <= idx,
        forall|cluster: u32| !in_cluster(raw, idx, cluster),
    ensures
        groups_cover(raw, groups, idx + 1),
{
    assert forall|cluster: u32| #[trigger] cluster_members(raw, cluster, idx + 1)
        == cluster_members(raw, cluster, idx) by {
        assert(!in_cluster(raw, idx, cluster));
    }
}

impl<'a> Zim<'a> {
    /// Goes through all entries, and says what there is to do to extract them.
    pub fn plan_extraction(&self) -> (plan: Plan)
        requires
            self.wf(),
        ensures
            plan.covers(self.store@, header_of(self.store@).article_count as int),
    {
        let ghost raw = self.store@;
        let mut by_cluster: Vec<(u32, Vec<u32>)> = Vec::new();
        let mut redirects: Vec<u32> = Vec::new();
        let mut unreadable: Vec<(u32, Error)> = Vec::new();
        let count = self.header.article_count;
        for idx in 0..count
            invariant
                self.wf(),
                raw == self.store@,
                count == header_of(raw).article_count,
                groups_cover(raw, by_cluster@, idx as int),
                redirects@ == redirects_of(raw, idx as int),
                unreadable@ == unreadable_of(raw, idx as int),
        {
            match self.get_by_url_index(idx) {
                Ok(entry) => match entry.target {
                    Some(Target::Cluster(cluster, _)) => {
                        add_member(&mut by_cluster, cluster, idx, Ghost(raw));
                    },
                    Some(Target::Redirect(_)) => {
                        redirects.push(idx);
                        proof {
                            lemma_groups_unchanged(raw, by_cluster@, idx as int);
                        }
                    },
                    None => {
                        proof {
                            lemma_groups_unchanged(raw, by_cluster@, idx as int);
                        }
                    },
                },
                Err(err) => {
                    unreadable.push((idx, err));
                    proof {
                        lemma_groups_unchanged(raw, by_cluster@, idx as int);
                    }
                },
            }
        }
        Plan { by_cluster, redirects, unreadable }
    }
}

/// Some entry of the list is about `idx`.
pub open spec fn is_listed(list: Seq<(u32, Error)>, idx: u32) -> bool {
    exists|i: int| 0 <= i < list.len() && (#[trigger] list[i]).0 == idx
}

/// Every entry is planned for: under its cluster if it has contents, as a redirect if it is one,
/// and as unreadable if it cannot be read; and nothing else is.
pub proof fn every_entry_is_planned_for(raw: Seq<u8>, n: int, idx: u32, cluster: u32)
    requires
        0 <= n <= u32::MAX,
    ensures
        cluster_members(raw, cluster, n).contains(idx) <==> idx < n && in_cluster(
            raw,
            idx as int,
            cluster,
        ),
        redirects_of(raw, n).contains(idx) <==> idx < n && is_redirect(raw, idx as int),
        is_listed(unreadable_of(raw, n), idx) <==> idx < n && entry_of(raw, idx as int) is Err,
    decreases n,
{
    if n > 0 {
        every_entry_is_planned_for(raw, n - 1, idx, cluster);
        let last = (n - 1) as u32;
        lemma_push_contains(cluster_members(raw, cluster, n - 1), last, idx);
        lemma_push_contains(redirects_of(raw, n - 1), last, idx);
        if entry_of(raw, n - 1) is Err {
            let list = unreadable_of(raw, n - 1);
            let longer = unreadable_of(raw, n);
            assert(longer[list.len() as int].0 == last);
            if is_listed(list, idx) {
                let i = choose|i: int| 0 <= i < list.len() && (#[trigger] list[i]).0 == idx;
                assert(longer[i].0 == idx);
            }
            if is_listed(longer, idx) && idx != last {
                let i = choose|i: int| 0 <= i < longer.len() && (#[trigger] longer[i]).0 == idx;
                assert(list[i].0 == idx);
            }
        }
    }
}

/// What is planned for is taken up in path order.
pub proof fn plans_are_in_path_order(raw: Seq<u8>, n: int, cluster: u32, i: int, j: int)
    requires
        0 <= n <= u32::MAX,
    ensures
        0 <= i < j < cluster_members(raw, cluster, n).len() ==> cluster_members(raw, cluster, n)[i]
            < cluster_members(raw, cluster, n)[j] < n,
        0 <= i < j < redirects_of(raw, n).len() ==> redirects_of(raw, n)[i] < redirects_of(
            raw,
            n,
        )[j] < n,
    decreases n,
{
    if n > 0 {
        plans_are_in_path_order(raw, n - 1, cluster, i, j);
        let members = cluster_members(raw, cluster, n - 1);
        let links = redirects_of(raw, n - 1);
        if 0 <= i < members.len() {
            assert(members.contains(members[i]));
            every_entry_is_planned_for(raw, n - 1, members[i], cluster);
        }
        if 0 <= i < links.len() {
            assert(links.contains(links[i]));
            every_entry_is_planned_for(raw, n - 1, links[i], cluster);
        }
    }
}

proof fn lemma_push_contains<T>(list: Seq<T>, last: T, item: T)
    ensures
        list.push(last).contains(item) <==> list.contains(item) || item == last,
{
    let longer = list.push(last);
    if list.contains(item) {
        let i = choose|i: int| 0 <= i < list.len() && list[i] == item;
        assert(longer[i] == item);
    }
    if item == last {
        assert(longer[list.len() as int] == item);
    }
    if longer.contains(item) {
        let i = choose|i: int| 0 <= i < longer.len() && longer[i] == item;
        if i < list.len() {
            assert(list[i] == item);
        }
    }
}

/// What extracting one entry comes to.
pub enum Extracted<'b> {
    /// The entry cannot be read.
    Unreadable(Error),
    /// The entry has no contents.
    Nothing,
    /// The entry, with what to write for it.
    File(DirectoryEntry, Result<&'b [u8]>),
}

/// What extracting an entry from a cluster yields.
pub open spec fn extracts(
    raw: Seq<u8>,
    idx: u32,
    guard: ClusterGuard,
    extracted: Extracted,
) -> bool {
    match entry_of(raw, idx as int) {
        Err(err) => extracted matches Extracted::Unreadable(why) && why == err,
        Ok(entry) => match entry.target {
            Some(Target::Cluster(_, blob)) => {
                &&& extracted matches Extracted::File(read, contents)
                &&& read@ == entry
                &&& match cluster_blob(guard.archive()@, guard.extent(), blob) {
                    Ok(bytes) => contents matches Ok(data) && data@ == bytes,
                    Err(err) => contents matches Err(why) && why == err,
                }
            },
            _ => extracted is Nothing,
        },
    }
}

impl<'a> Zim<'a> {
    /// Reads an entry again, and takes its contents out of the cluster that holds them.
    pub fn extract_entry<'b>(&self, guard: &ClusterGuard<'b>, idx: u32) -> (extracted: Extracted<'b>)
        requires
            self.wf(),
            guard.wf(),
        ensures
            extracts(self.store@, idx, *guard, extracted),
    {
        match self.get_by_url_index(idx) {
            Ok(entry) => match entry.target {
                Some(Target::Cluster(_, blob)) => {
                    let contents = guard.blob(blob);
                    Extracted::File(entry, contents)
                },
                _ => Extracted::Nothing,
            },
            Err(err) => Extracted::Unreadable(err),
        }
    }
}

/// The name of the directory that a namespace is extracted to: its byte, as a character.
pub fn namespace_directory(namespace: Namespace) -> (name: String)
    ensures
        name@ == seq![namespace.byte() as char],
{
    let mut name = String::new();
    name.push(namespace.as_byte() as char);
    assert(name@ =~= seq![namespace.byte() as char]);
    name
}

/// A path relative to the directory of its namespace: without the slashes that it starts with.
pub open spec fn relative(url: Seq<char>) -> Seq<char>
    decreases url.len(),
{
    if url.len() > 0 && url[0] == '/' {
        relative(url.skip(1))
    } else {
        url
    }
}

/// Makes absolute urls relative to the output folder.
pub fn relative_url(url: &str) -> (path: String)
    ensures
        path@ == relative(url@),
        path@.len() == 0 || path@[0] != '/',
{
    let len = url.unicode_len();
    let mut at: usize = 0;
    assert(url@.skip(0) =~= url@);
    while at < len && url.get_char(at) == '/'
        invariant
            at <= len == url@.len(),
            relative(url@.skip(at as int)) == relative(url@),
        ensures
            at < len ==> url@[at as int] != '/',
        decreases len - at,
    {
        assert(url@.skip(at as int).skip(1) =~= url@.skip(at + 1));
        at = at + 1;
    }
    assert(url@.subrange(at as int, len as int) =~= url@.skip(at as int));
    String::from_str(url.substring_char(at, len))
}

/// The file name extension that goes with a MIME type, if it has one.
pub open spec fn type_extension(name: Seq<char>) -> Option<Seq<char>> {
    if name == "text/html"@ {
        Some("html"@)
    } else if name == "image/jpeg"@ {
        Some("jpg"@)
    } else if name == "image/png"@ {
        Some("png"@)
    } else if name == "image/gif"@ {
        Some("gif"@)
    } else if name == "image/svg+xml"@ {
        Some("svg"@)
    } else if name == "application/javascript"@ {
        Some("js"@)
    } else if name == "text/css"@ {
        Some("css"@)
    } else if name == "text/plain"@ {
        Some("txt"@)
    } else {
        None
    }
}

/// The file name extension that goes with a MIME type, if it has one.
pub fn extension_for(name: &str) -> (extension: Option<&'static str>)
    ensures
        match type_extension(name@) {
            Some(text) => extension matches Some(extension) && extension@ == text,
            None => extension is None,
        },
{
    if same_text(name, "text/html") {
        Some("html")
    } else if same_text(name, "image/jpeg") {
        Some("jpg")
    } else if same_text(name, "image/png") {
        Some("png")
    } else if same_text(name, "image/gif") {
        Some("gif")
    } else if same_text(name, "image/svg+xml") {
        Some("svg")
    } else if same_text(name, "application/javascript") {
        Some("js")
    } else if same_text(name, "text/css") {
        Some("css")
    } else if same_text(name, "text/plain") {
        Some("txt")
    } else {
        None
    }
}

/// The extension that a file for an entry of this type has to be given, if it is to be given one:
/// the one that goes with the type, unless the file name already has an extension that starts
/// like it.
pub open spec fn extension_to_set(mime: MimeView, current: Option<Seq<char>>) -> Option<Seq<char>> {
    match mime {
        MimeView::Type(name) => match type_extension(name) {
            Some(extension) => if current is Some && extension.is_prefix_of(current->0) {
                None
            } else {
                Some(extension)
            },
            None => None,
        },
        _ => None,
    }
}

/// Says which extension a file for an entry of this type has to be given, if any, where its name
/// has the extension `current`.
pub fn missing_extension(mime: &MimeType, current: Option<&str>) -> (extension: Option<&'static str>)
    ensures
        match extension_to_set(
            mime@,
            match current {
                Some(text) => Some(text@),
                None => None,
            },
        ) {
            Some(text) => extension matches Some(extension) && extension@ == text,
            None => extension is None,
        },
{
    let name = match mime {
        MimeType::Type(name) => name,
        _ => return None,
    };
    let extension = match extension_for(name.as_str()) {
        Some(extension) => extension,
        None => return None,
    };
    if let Some(text) = current {
        if starts_with(text, extension) {
            return None;
        }
    }
    Some(extension)
}

/// Whether a link has to be given the extension of the file that it leads to.
pub fn link_needs_extension(source: Option<&str>, link: Option<&str>) -> (needs: bool)
    ensures
        needs == (source is Some && (link is None || link->0@ != source->0@)),
{
    match (source, link) {
        (Some(source), Some(link)) => !same_text(link, source),
        (Some(_), None) => true,
        (None, _) => false,
    }
}

/// What to do about a link.
#[derive(Debug, Clone, Copy, PartialEq, Eq, Structural)]
pub enum LinkStep {
    /// There is nothing to link to.
    SourceMissing,
    /// The link is there already.
    Skip,
    /// Copy the file that the link leads to.
    Copy,
    /// Link to it.
    HardLink,
}

/// Says what to do about a link, from what is on disk and whether links are to be copies.
pub fn link_step(source_exists: bool, link_exists: bool, flatten_link: bool) -> (step: LinkStep)
    ensures
        step == LinkStep::SourceMissing <==> !source_exists,
        step == LinkStep::Skip <==> source_exists && link_exists,
        step == LinkStep::Copy <==> source_exists && !link_exists && flatten_link,
        step == LinkStep::HardLink <==> source_exists && !link_exists && !flatten_link,
{
    if !source_exists {
        LinkStep::SourceMissing
    } else if link_exists {
        LinkStep::Skip
    } else if flatten_link {
        LinkStep::Copy
    } else {
        LinkStep::HardLink
    }
}

/// Whether a file that could not be created is to be tried again, after this many attempts.
pub fn tries_again(attempts: usize) -> (again: bool)
    ensures
        again == (attempts < 3),
{
    attempts < 3
}

/// Extracting an entry yields the entry itself, with the blob that its own target names, cut out of
/// the cluster's data between that blob's two offsets. So where the cluster is the one that the
/// target names, the file is what reading the entry yields.
pub proof fn extraction_yields_the_contents(
    raw: Seq<u8>,
    idx: u32,
    guard: ClusterGuard,
    extracted: Extracted,
    entry: EntryView,
    cluster: u32,
    blob: u32,
)
    requires
        extracts(raw, idx, guard, extracted),
        entry_of(raw, idx as int) == Ok::<EntryView, Error>(entry),
        entry.target == Some(Target::Cluster(cluster, blob)),
    ensures
        extracted matches Extracted::File(read, contents) && {
            let bytes = cluster_blob(guard.archive()@, guard.extent(), blob);
            &&& read.namespace == entry.namespace
            &&& read.revision == entry.revision
            &&& read.url@ == entry.url
            &&& read.title@ == entry.title
            &&& read.mime_type@ == entry.mime_type
            &&& read.target == Some(Target::Cluster(cluster, blob))
            &&& contents is Ok <==> bytes is Ok
            &&& contents matches Ok(data) ==> bytes == Ok::<Seq<u8>, Error>(data@)
            &&& contents matches Err(err) ==> bytes == Err::<Seq<u8>, Error>(err)
            &&& contents matches Ok(data) ==> {
                let all = cluster_content(guard.archive()@, guard.extent())->Ok_0;
                let table = blob_table(all, guard.extent().extended)->Ok_0;
                &&& blob + 1 < table.len()
                &&& data@ == all.subrange(table[blob as int] as int, table[blob + 1] as int)
            }
            &&& guard.archive()@ == raw && cluster_of(raw, cluster) == Ok::<Extent, Error>(
                guard.extent(),
            ) ==> content_place(raw, entry) == Ok::<Option<(Extent, u32)>, Error>(
                Some((guard.extent(), blob)),
            )
        },
{
}

/// Extracting an entry yields a file exactly if the entry has contents, and the reason where it
/// cannot be read.
pub proof fn extraction_yields_files_for_contents(
    raw: Seq<u8>,
    idx: u32,
    guard: ClusterGuard,
    extracted: Extracted,
)
    requires
        extracts(raw, idx, guard, extracted),
    ensures
        extracted is File <==> exists|cluster: u32| #[trigger] in_cluster(raw, idx as int, cluster),
        extracted matches Extracted::Unreadable(err) ==> entry_of(raw, idx as int) == Err::<
            EntryView,
            Error,
        >(err),
        extracted is Unreadable <==> entry_of(raw, idx as int) is Err,
{
    if extracted is File {
        let entry = entry_of(raw, idx as int)->Ok_0;
        assert(in_cluster(raw, idx as int, entry.target->0->Cluster_0));
    }
}

/// A complete plan puts every entry where it belongs, and nowhere else: one with contents under
/// its own cluster, a redirect among the links, and one that cannot be read among those skipped,
/// with its reason. Clusters come in file order, none of them twice.
pub proof fn plans_put_entries_where_they_belong(plan: Plan, raw: Seq<u8>, n: int, idx: u32, g: int)
    requires
        0 <= n <= u32::MAX,
        plan.covers(raw, n),
        idx < n,
    ensures
        entry_of(raw, idx as int) matches Ok(entry) ==> entry.target matches Some(
            Target::Cluster(cluster, _),
        ) ==> {
            &&& exists|i: int|
                0 <= i < plan.by_cluster@.len() && (#[trigger] plan.by_cluster@[i]).0 == cluster
                    && plan.by_cluster@[i].1@.contains(idx)
            &&& 0 <= g < plan.by_cluster@.len() && plan.by_cluster@[g].1@.contains(idx)
                ==> plan.by_cluster@[g].0 == cluster
            &&& !plan.redirects@.contains(idx)
        },
        0 <= g < plan.by_cluster@.len() && plan.by_cluster@[g].1@.contains(idx) ==> entry_of(
            raw,
            idx as int,
        ) is Ok && entry_of(raw, idx as int)->Ok_0.target matches Some(Target::Cluster(_, _)),
        plan.redirects@.contains(idx) <==> entry_of(raw, idx as int) is Ok && entry_of(
            raw,
            idx as int,
        )->Ok_0.target matches Some(Target::Redirect(_)),
        is_listed(plan.unreadable@, idx) <==> entry_of(raw, idx as int) is Err,
        entry_of(raw, idx as int) matches Err(err) ==> plan.unreadable@.contains((idx, err)),
        0 <= g && g + 1 < plan.by_cluster@.len() ==> plan.by_cluster@[g].0
            < plan.by_cluster@[g + 1].0,
        0 <= g < plan.by_cluster@.len() ==> plan.by_cluster@[g].1@.len() > 0,
{
    let groups = plan.by_cluster@;
    every_entry_is_planned_for(raw, n, idx, 0);
    if let Ok(entry) = entry_of(raw, idx as int) {
        if let Some(Target::Cluster(cluster, _)) = entry.target {
            every_entry_is_planned_for(raw, n, idx, cluster);
            let members = cluster_members(raw, cluster, n);
            assert(members.len() > 0);
            assert(has_group(groups, cluster));
            let i = choose|i: int| 0 <= i < groups.len() && (#[trigger] groups[i]).0 == cluster;
            assert(groups[i].1@.contains(idx));
        }
    } else {
        lemma_unreadable_reason(raw, n, idx);
    }
    if 0 <= g < groups.len() {
        assert(groups[g].1@ == cluster_members(raw, groups[g].0, n));
        every_entry_is_planned_for(raw, n, idx, groups[g].0);
        assert(has_group(groups, groups[g].0));
        assert(cluster_members(raw, groups[g].0, n).len() > 0);
        if g + 1 < groups.len() {
            assert(groups[g].0 < groups[g + 1].0);
        }
    }
}

proof fn lemma_unreadable_reason(raw: Seq<u8>, n: int, idx: u32)
    requires
        0 <= n <= u32::MAX,
        idx < n,
        entry_of(raw, idx as int) is Err,
    ensures
        unreadable_of(raw, n).contains((idx, entry_of(raw, idx as int)->Err_0)),
    decreases n,
{
    let item = (idx, entry_of(raw, idx as int)->Err_0);
    if idx == n - 1 {
        lemma_push_contains(unreadable_of(raw, n - 1), item, item);
    } else {
        lemma_unreadable_reason(raw, n - 1, idx);
        if entry_of(raw, n - 1) is Err {
            let last = ((n - 1) as u32, entry_of(raw, n - 1)->Err_0);
            lemma_push_contains(unreadable_of(raw, n - 1), last, item);
        }
    }
}

/// Making a url relative takes off its leading slashes, all of them and nothing else: what is left
/// is where the url ends, and everything in front of it is slashes.
pub proof fn relative_urls_lose_only_their_slashes(url: Seq<char>)
    ensures
        relative(url).len() <= url.len(),
        url.skip(url.len() - relative(url).len()) == relative(url),
        forall|i: int| 0 <= i < url.len() - relative(url).len() ==> #[trigger] url[i] == '/',
        relative(url).len() > 0 ==> relative(url)[0] != '/',
    decreases url.len(),
{
    if url.len() > 0 && url[0] == '/' {
        let rest = url.skip(1);
        relative_urls_lose_only_their_slashes(rest);
        let kept = relative(url).len();
        assert(url.skip(url.len() - kept) =~= rest.skip(rest.len() - kept));
        assert forall|i: int| 0 <= i < url.len() - kept implies #[trigger] url[i] == '/' by {
            if i > 0 {
                assert(rest[i - 1] == url[i]);
            }
        }
    } else {
        assert(url.skip(0) =~= url);
    }
}

/// An extension is only ever set for an entry of a type that has one, it is that type's, and it is
/// left alone exactly if the file name's own starts with it.
pub proof fn extensions_are_set_for_types_that_have_them(
    mime: MimeView,
    current: Option<Seq<char>>,
)
    ensures
        extension_to_set(mime, current) matches Some(extension) ==> {
            &&& mime matches MimeView::Type(name) && type_extension(name) == Some(extension)
            &&& current matches Some(text) ==> !extension.is_prefix_of(text)
        },
        extension_to_set(mime, current) is None ==> {
            ||| !(mime is Type)
            ||| mime matches MimeView::Type(name) && type_extension(name) is None
            ||| mime matches MimeView::Type(name) && current is Some && type_extension(
                name,
            )->0.is_prefix_of(current->0)
        },
{
}

/// Which extension goes with which type; no other type has one.
pub proof fn types_have_their_extensions(name: Seq<char>)
    ensures
        type_extension("text/html"@) == Some("html"@),
        type_extension("image/jpeg"@) == Some("jpg"@),
        type_extension("image/png"@) == Some("png"@),
        type_extension("image/gif"@) == Some("gif"@),
        type_extension("image/svg+xml"@) == Some("svg"@),
        type_extension("application/javascript"@) == Some("js"@),
        type_extension("text/css"@) == Some("css"@),
        type_extension("text/plain"@) == Some("txt"@),
        type_extension(name) is Some ==> name == "text/html"@ || name == "image/jpeg"@ || name
            == "image/png"@ || name == "image/gif"@ || name == "image/svg+xml"@ || name
            == "application/javascript"@ || name == "text/css"@ || name == "text/plain"@,
{
    reveal_strlit("text/html");
    reveal_strlit("image/jpeg");
    reveal_strlit("image/png");
    reveal_strlit("image/gif");
    reveal_strlit("image/svg+xml");
    reveal_strlit("application/javascript");
    reveal_strlit("text/css");
    reveal_strlit("text/plain");
    assert("text/html"@.len() == 9 && "image/png"@.len() == 9 && "image/gif"@.len() == 9);
    assert("image/jpeg"@.len() == 10 && "text/plain"@.len() == 10);
    assert("image/svg+xml"@.len() == 13);
    assert("application/javascript"@.len() == 22);
    assert("text/css"@.len() == 8);
    assert("text/html"@[0] == 't' && "image/png"@[0] == 'i' && "image/gif"@[0] == 'i');
    assert("image/png"@[6] == 'p' && "image/gif"@[6] == 'g');
    assert("text/plain"@[0] == 't' && "image/jpeg"@[0] == 'i');
}

/// A complete plan names each entry at most once, in path order, and no entry past the end.
pub proof fn plans_name_entries_once(plan: Plan, raw: Seq<u8>, n: int, g: int, i: int, j: int)
    requires
        0 <= n <= u32::MAX,
        plan.covers(raw, n),
        0 <= i < j,
    ensures
        j < plan.redirects@.len() ==> plan.redirects@[i] < plan.redirects@[j] < n,
        j < plan.unreadable@.len() ==> plan.unreadable@[i].0 < plan.unreadable@[j].0 < n,
        0 <= g < plan.by_cluster@.len() && j < plan.by_cluster@[g].1@.len()
            ==> plan.by_cluster@[g].1@[i] < plan.by_cluster@[g].1@[j] < n,
        plan.redirects@.len() > 0 ==> plan.redirects@[0] < n,
        plan.unreadable@.len() > 0 ==> plan.unreadable@[0].0 < n,
        0 <= g < plan.by_cluster@.len() ==> plan.by_cluster@[g].1@[0] < n,
{
    let redirects = plan.redirects@;
    plans_are_in_path_order(raw, n, 0, i, j);
    lemma_unreadable_in_order(raw, n, i, j);
    if redirects.len() > 0 {
        assert(redirects.contains(redirects[0]));
        every_entry_is_planned_for(raw, n, redirects[0], 0);
    }
    if plan.unreadable@.len() > 0 {
        every_entry_is_planned_for(raw, n, plan.unreadable@[0].0, 0);
        assert(is_listed(plan.unreadable@, plan.unreadable@[0].0));
    }
    if 0 <= g < plan.by_cluster@.len() {
        let cluster = plan.by_cluster@[g].0;
        let members = plan.by_cluster@[g].1@;
        assert(members == cluster_members(raw, cluster, n));
        assert(has_group(plan.by_cluster@, cluster));
        assert(cluster_members(raw, cluster, n).len() > 0);
        plans_are_in_path_order(raw, n, cluster, i, j);
        assert(members.contains(members[0]));
        every_entry_is_planned_for(raw, n, members[0], cluster);
    }
}

proof fn lemma_unreadable_in_order(raw: Seq<u8>, n: int, i: int, j: int)
    requires
        0 <= n <= u32::MAX,
    ensures
        0 <= i < j < unreadable_of(raw, n).len() ==> unreadable_of(raw, n)[i].0 < unreadable_of(
            raw,
            n,
        )[j].0 < n,
    decreases n,
{
    if n > 0 {
        lemma_unreadable_in_order(raw, n - 1, i, j);
        let list = unreadable_of(raw, n - 1);
        if 0 <= i < list.len() {
            every_entry_is_planned_for(raw, n - 1, list[i].0, 0);
            assert(is_listed(list, list[i].0));
        }
    }
}

} // verus!
