//! What directory entries hold.
use crate::cluster::{cluster_blob, cluster_table, Cluster, Extent};
use crate::directory_entry::{DirectoryEntry, EntryView, Target};
use crate::errors::{Error, Result};
use crate::header::header_of;
use crate::lookup::{entry_by_path, found_entries_have_the_path, index_of};
use crate::namespace::Namespace;
use crate::pointers::{parse_article_list, u32_list};
use crate::raw::read_u32;
use crate::raw::{u32_at, u64_at};
use crate::redirect::resolved;
use crate::store::Store;
use crate::zim::{article_list_of, cluster_of, entry_of, title_fault, Zim};
use vstd::prelude::*;

verus! {

/// The contents of an entry.
///
/// The data is not pulled in before it is asked for: it can be large.
pub struct Content<'a> {
    cluster: Cluster<'a>,
    blob: u32,
}

impl<'a> Content<'a> {
    pub closed spec fn wf(&self) -> bool {
        self.cluster.wf()
    }

    /// The archive that holds the contents.
    pub closed spec fn archive(&self) -> Store<'a> {
        self.cluster.archive()
    }

    /// The cluster that holds the contents, and their index in there.
    pub closed spec fn place(&self) -> (Extent, u32) {
        (self.cluster.extent(), self.blob)
    }

    /// The data of the cluster that holds the contents is at hand.
    pub closed spec fn loaded(&self) -> bool {
        self.cluster.loaded()
    }

    /// The decompressed data of that cluster, once it is at hand.
    pub closed spec fn decoded(&self) -> Option<Seq<u8>> {
        self.cluster.decoded()
    }

    /// The data is at hand without having been copied out of the archive.
    pub closed spec fn borrows(&self) -> bool {
        self.cluster.borrows()
    }

    /// The bytes of the contents.
    pub open spec fn bytes(&self) -> Result<Seq<u8>> {
        cluster_blob(self.archive()@, self.place().0, self.place().1)
    }

    /// Returns a copy of the contents.
    pub fn to_vec(&mut self) -> (r: Result<Vec<u8>>)
        requires
            old(self).wf(),
        ensures
            final(self).wf(),
            final(self).archive() == old(self).archive(),
            final(self).place() == old(self).place(),
            final(self).loaded() == (cluster_table(
                old(self).archive()@,
                old(self).place().0,
            ) is Ok),
            match old(self).bytes() {
                Ok(bytes) => r matches Ok(data) && data@ == bytes,
                Err(err) => r == Err::<Vec<u8>, Error>(err),
            },
    {
        self.cluster.blob_to_vec(self.blob)
    }

    /// Returns the contents, borrowed. Where they are stored uncompressed in one piece, they are
    /// borrowed straight from the archive.
    pub fn as_slice(&mut self) -> (r: Result<&[u8]>)
        requires
            old(self).wf(),
        ensures
            final(self).wf(),
            final(self).archive() == old(self).archive(),
            final(self).place() == old(self).place(),
            final(self).loaded() == (cluster_table(
                old(self).archive()@,
                old(self).place().0,
            ) is Ok),
            match old(self).bytes() {
                Ok(bytes) => r matches Ok(data) && data@ == bytes,
                Err(err) => r == Err::<&[u8], Error>(err),
            },
            r is Ok && old(self).place().0.stored_in_place(old(self).archive())
                ==> final(self).borrows(),
    {
        let guard = self.cluster.read()?;
        guard.blob(self.blob)
    }

    /// How many bytes the contents have.
    pub fn len(&mut self) -> (r: Result<usize>)
        requires
            old(self).wf(),
        ensures
            final(self).wf(),
            final(self).archive() == old(self).archive(),
            final(self).place() == old(self).place(),
            final(self).loaded() == (cluster_table(
                old(self).archive()@,
                old(self).place().0,
            ) is Ok),
            match old(self).bytes() {
                Ok(bytes) => r matches Ok(len) && len == bytes.len(),
                Err(err) => r == Err::<usize, Error>(err),
            },
    {
        Ok(self.as_slice()?.len())
    }

    /// Hands the contents to `f`, without copying them.
    pub fn with<R, F: FnOnce(&[u8]) -> R>(&mut self, f: F) -> (r: Result<R>)
        requires
            old(self).wf(),
            forall|bytes: &[u8]| #[trigger] f.requires((bytes,)),
        ensures
            final(self).wf(),
            final(self).archive() == old(self).archive(),
            final(self).place() == old(self).place(),
            final(self).loaded() == (cluster_table(
                old(self).archive()@,
                old(self).place().0,
            ) is Ok),
            old(self).bytes() matches Err(err) ==> r == Err::<R, Error>(err),
            old(self).bytes() is Ok ==> r is Ok && exists|data: &[u8]|
                data@ == old(self).bytes()->Ok_0 && #[trigger] f.ensures((data,), r->Ok_0),
    {
        let bytes = self.as_slice()?;
        let out = f(bytes);
        let r: Result<R> = Ok(out);
        assert(f.ensures((bytes,), r->Ok_0));
        r
    }
}

/// The entry indices that a listing's bytes spell, four bytes each.
pub open spec fn listing_of(raw: Seq<u8>) -> Result<Seq<u32>> {
    if raw.len() % 4 != 0 {
        Err(Error::InvalidListing)
    } else {
        Ok(u32_list(raw, 0, raw.len() as int / 4))
    }
}

/// Reads the entry indices out of a listing's bytes.
pub fn parse_listing(raw: &[u8]) -> (r: Result<Vec<u32>>)
    ensures
        match listing_of(raw@) {
            Ok(list) => r matches Ok(indices) && indices@ == list,
            Err(err) => r == Err::<Vec<u32>, Error>(err),
        },
{
    let len = raw.len();
    if len % 4 != 0 {
        return Err(Error::InvalidListing);
    }
    let mut out: Vec<u32> = Vec::new();
    let mut i: usize = 0;
    while i < len / 4
        invariant
            len == raw@.len(),
            i <= len / 4,
            out@.len() == i,
            forall|k: int| 0 <= k < i ==> #[trigger] out@[k] == u32_at(raw@, 4 * k),
        decreases len / 4 - i,
    {
        out.push(read_u32(raw, 4 * i as u64)?);
        i = i + 1;
    }
    assert(out@ =~= u32_list(raw@, 0, raw@.len() as int / 4));
    Ok(out)
}

/// Where a listing is read from.
enum Source<'a> {
    Content(Content<'a>),
    Header(&'a [u32]),
}

/// Indices of entries, in title order.
///
/// The indices come straight off disk, so an entry that one of them leads to need not exist.
pub struct Listing<'a> {
    source: Source<'a>,
}

impl<'a> Listing<'a> {
    pub closed spec fn wf(&self) -> bool {
        self.source matches Source::Content(content) ==> content.wf()
    }

    /// The indices that the listing holds.
    pub closed spec fn indices(&self) -> Result<Seq<u32>> {
        match self.source {
            Source::Content(content) => match content.bytes() {
                Ok(bytes) => listing_of(bytes),
                Err(err) => Err(err),
            },
            Source::Header(list) => Ok(list@),
        }
    }

    /// The decompressed data that the listing is in, once it is at hand. A listing that the header
    /// leads to is in none.
    pub closed spec fn decoded(&self) -> Option<Seq<u8>> {
        match self.source {
            Source::Content(content) => content.decoded(),
            Source::Header(_) => None,
        }
    }

    /// Returns the indices.
    pub fn to_vec(&mut self) -> (r: Result<Vec<u32>>)
        requires
            old(self).wf(),
        ensures
            final(self).wf(),
            final(self).indices() == old(self).indices(),
            match old(self).indices() {
                Ok(list) => r matches Ok(indices) && indices@ == list,
                Err(err) => r == Err::<Vec<u32>, Error>(err),
            },
    {
        match &mut self.source {
            Source::Content(content) => parse_listing(content.as_slice()?),
            Source::Header(list) => {
                let mut out: Vec<u32> = Vec::new();
                out.extend_from_slice(list);
                assert(out@ =~= list@);
                Ok(out)
            },
        }
    }

    /// How many entries are listed.
    pub fn len(&mut self) -> (r: Result<usize>)
        requires
            old(self).wf(),
        ensures
            final(self).wf(),
            final(self).indices() == old(self).indices(),
            match old(self).indices() {
                Ok(list) => r matches Ok(len) && len == list.len(),
                Err(err) => r == Err::<usize, Error>(err),
            },
    {
        match &mut self.source {
            Source::Content(content) => {
                let len = content.len()?;
                if len % 4 != 0 {
                    return Err(Error::InvalidListing);
                }
                Ok(len / 4)
            },
            Source::Header(list) => Ok(list.len()),
        }
    }

    /// Whether no entry is listed.
    pub fn is_empty(&mut self) -> (r: Result<bool>)
        requires
            old(self).wf(),
        ensures
            final(self).wf(),
            final(self).indices() == old(self).indices(),
            match old(self).indices() {
                Ok(list) => r == Ok::<bool, Error>(list.len() == 0),
                Err(err) => r == Err::<bool, Error>(err),
            },
    {
        Ok(self.len()? == 0)
    }
}

/// Where the contents of an entry are, if it has any of its own.
pub open spec fn content_place(raw: Seq<u8>, entry: EntryView) -> Result<Option<(Extent, u32)>> {
    match entry.target {
        Some(Target::Cluster(cluster, blob)) => match cluster_of(raw, cluster) {
            Ok(extent) => Ok(Some((extent, blob))),
            Err(err) => Err(err),
        },
        _ => Ok(None),
    }
}

/// Where the contents at `namespace`/`path` are, if there are any. A redirect is followed.
pub open spec fn place_at(raw: Seq<u8>, namespace: Namespace, path: Seq<char>) -> Result<
    Option<(Extent, u32)>,
> {
    match entry_by_path(raw, namespace, path) {
        Err(err) => Err(err),
        Ok(None) => Ok(None),
        Ok(Some(entry)) => match resolved(raw, entry) {
            Err(err) => Err(err),
            Ok(found) => content_place(raw, found),
        },
    }
}

/// A place in the archive that some contents are at, and the handle on them that it yields. Their
/// data is not pulled in yet.
pub open spec fn opens(
    place: Result<Option<(Extent, u32)>>,
    store: Store,
    r: Result<Option<Content>>,
) -> bool {
    match place {
        Err(err) => r == Err::<Option<Content>, Error>(err),
        Ok(None) => r matches Ok(None),
        Ok(Some(at)) => {
            &&& r matches Ok(Some(content))
            &&& content.wf()
            &&& content.archive() == store
            &&& content.place() == at
            &&& !content.loaded()
            &&& content.decoded() is None
        },
    }
}

/// The indices that the contents at a place list.
pub open spec fn listed_at(raw: Seq<u8>, at: (Extent, u32)) -> Result<Seq<u32>> {
    match cluster_blob(raw, at.0, at.1) {
        Ok(bytes) => listing_of(bytes),
        Err(err) => Err(err),
    }
}

/// A listing that an archive may have, and the handle on it that this yields. The outer result is
/// that of finding the listing, the inner one that of reading it, which is yet to come.
pub open spec fn lists(
    listed: Result<Option<Result<Seq<u32>>>>,
    r: Result<Option<Listing>>,
) -> bool {
    match listed {
        Err(err) => r == Err::<Option<Listing>, Error>(err),
        Ok(None) => r matches Ok(None),
        Ok(Some(indices)) => {
            &&& r matches Ok(Some(listing))
            &&& listing.wf()
            &&& listing.indices() == indices
            &&& listing.decoded() is None
        },
    }
}

/// The listing at a well known path.
pub open spec fn listing_at(raw: Seq<u8>, path: Seq<char>) -> Result<Option<Result<Seq<u32>>>> {
    match place_at(raw, Namespace::FulltextIndex, path) {
        Err(err) => Err(err),
        Ok(None) => Ok(None),
        Ok(Some(at)) => Ok(Some(listed_at(raw, at))),
    }
}

/// The listing of all entries by title: the one at the well known path, or else the one that the
/// header leads to.
pub open spec fn entries_by_title(raw: Seq<u8>) -> Result<Option<Result<Seq<u32>>>> {
    match listing_at(raw, "listing/titleOrdered/v0"@) {
        Ok(None) => match header_of(raw).title_ptr_pos {
            None => Ok(None),
            Some(pos) => match title_fault(raw, pos) {
                Some(err) => Err(err),
                None => Ok(Some(Ok(article_list_of(raw)->0))),
            },
        },
        found => found,
    }
}

impl<'a> Zim<'a> {
    /// Returns the contents of an entry, if it has any of its own.
    ///
    /// A redirect has none: see [`Zim::resolve`].
    pub fn entry_content(&self, entry: &DirectoryEntry) -> (r: Result<Option<Content<'_>>>)
        requires
            self.wf(),
        ensures
            opens(content_place(self.store@, entry@), self.store, r),
    {
        match entry.target {
            Some(Target::Cluster(cluster, blob)) => {
                let cluster = self.get_cluster(cluster)?;
                Ok(Some(Content { cluster, blob }))
            },
            _ => Ok(None),
        }
    }

    /// Returns the contents at `namespace`/`path`, if there are any.
    fn content_at(&self, namespace: Namespace, path: &str) -> (r: Result<Option<Content<'_>>>)
        requires
            self.wf(),
        ensures
            opens(place_at(self.store@, namespace, path@), self.store, r),
    {
        match self.get_by_path(namespace, path)? {
            Some(entry) => {
                let found = self.resolve(entry)?;
                self.entry_content(&found)
            },
            None => Ok(None),
        }
    }

    /// Returns the metadata of this name, if the archive holds it.
    pub fn metadata(&self, key: &str) -> (r: Result<Option<Content<'_>>>)
        requires
            self.wf(),
        ensures
            opens(place_at(self.store@, Namespace::Metadata, key@), self.store, r),
    {
        self.content_at(Namespace::Metadata, key)
    }

    /// Returns the index for searching in texts, if the archive holds one.
    pub fn fulltext_index(&self) -> (r: Result<Option<Content<'_>>>)
        requires
            self.wf(),
        ensures
            opens(
                place_at(self.store@, Namespace::FulltextIndex, "fulltext/xapian"@),
                self.store,
                r,
            ),
    {
        self.content_at(Namespace::FulltextIndex, "fulltext/xapian")
    }

    /// Returns the index for searching in titles, if the archive holds one.
    pub fn title_index(&self) -> (r: Result<Option<Content<'_>>>)
        requires
            self.wf(),
        ensures
            opens(place_at(self.store@, Namespace::FulltextIndex, "title/xapian"@), self.store, r),
    {
        self.content_at(Namespace::FulltextIndex, "title/xapian")
    }

    /// Returns the listing at a well known path, if there is one.
    fn listing_at(&self, path: &str) -> (r: Result<Option<Listing<'_>>>)
        requires
            self.wf(),
        ensures
            lists(listing_at(self.store@, path@), r),
    {
        match self.content_at(Namespace::FulltextIndex, path)? {
            Some(content) => Ok(Some(Listing { source: Source::Content(content) })),
            None => Ok(None),
        }
    }

    /// Returns all entries in title order, if the archive lists them.
    ///
    /// Prefers the listing that archives of version 6.1 and later hold over the deprecated one
    /// that the header leads to.
    pub fn entry_list_by_title(&self) -> (r: Result<Option<Listing<'_>>>)
        requires
            self.wf(),
        ensures
            lists(entries_by_title(self.store@), r),
    {
        if let Some(listing) = self.listing_at("listing/titleOrdered/v0")? {
            return Ok(Some(listing));
        }
        match (self.header.title_ptr_pos, &self.article_list) {
            (None, _) => Ok(None),
            (Some(_), Some(list)) => Ok(Some(Listing { source: Source::Header(list.as_slice()) })),
            (Some(pos), None) => {
                // says why there is no list
                parse_article_list(&self.store, pos, self.header.article_count)?;
                Ok(None)
            },
        }
    }

    /// Returns the articles in title order, if the archive lists them.
    pub fn article_list_by_title(&self) -> (r: Result<Option<Listing<'_>>>)
        requires
            self.wf(),
        ensures
            lists(listing_at(self.store@, "listing/titleOrdered/v1"@), r),
    {
        self.listing_at("listing/titleOrdered/v1")
    }
}

/// The contents of an entry are where its target says: in the cluster of that number, at the blob
/// of that number. An entry without such a target has none.
pub proof fn contents_are_where_the_target_says(raw: Seq<u8>, entry: EntryView)
    ensures
        entry.target matches Some(Target::Cluster(cluster, blob)) ==> {
            &&& cluster_of(raw, cluster) matches Ok(extent) ==> content_place(raw, entry) == Ok::<
                Option<(Extent, u32)>,
                Error,
            >(Some((extent, blob)))
            &&& cluster_of(raw, cluster) matches Err(err) ==> content_place(raw, entry) == Err::<
                Option<(Extent, u32)>,
                Error,
            >(err)
        },
        !(entry.target matches Some(Target::Cluster(_, _))) ==> content_place(raw, entry) == Ok::<
            Option<(Extent, u32)>,
            Error,
        >(None),
{
}

/// The contents at a path are those of what the entry at that path resolves to; a path without an
/// entry has none.
pub proof fn contents_at_a_path_are_resolved(
    raw: Seq<u8>,
    namespace: Namespace,
    path: Seq<char>,
    idx: int,
)
    ensures
        index_of(raw, namespace, path) == Ok::<Option<int>, Error>(None) ==> place_at(
            raw,
            namespace,
            path,
        ) == Ok::<Option<(Extent, u32)>, Error>(None),
        index_of(raw, namespace, path) == Ok::<Option<int>, Error>(Some(idx)) ==> match resolved(
            raw,
            entry_of(raw, idx)->Ok_0,
        ) {
            Ok(found) => place_at(raw, namespace, path) == content_place(raw, found),
            Err(err) => place_at(raw, namespace, path) == Err::<Option<(Extent, u32)>, Error>(err),
        },
        index_of(raw, namespace, path) matches Err(err) ==> place_at(raw, namespace, path) == Err::<
            Option<(Extent, u32)>,
            Error,
        >(err),
{
    found_entries_have_the_path(raw, namespace, path);
}

/// A handle is one on the contents at the place that it was opened for: its bytes are that blob of
/// that cluster. Nothing is pulled in by opening it.
pub proof fn handles_lead_to_their_contents(
    place: Result<Option<(Extent, u32)>>,
    store: Store,
    r: Result<Option<Content>>,
)
    requires
        opens(place, store, r),
    ensures
        r matches Ok(Some(content)) ==> {
            &&& place matches Ok(Some((extent, blob)))
            &&& content.bytes() == cluster_blob(store@, extent, blob)
            &&& content.decoded() is None
        },
        r matches Ok(None) <==> place matches Ok(None),
        r matches Err(err) ==> place == Err::<Option<(Extent, u32)>, Error>(err),
{
}

/// A listing that is written is read back: four bytes for each index. Bytes that are no whole
/// number of indices are refused.
pub proof fn written_listings_are_read_back(raw: Seq<u8>, list: Seq<u32>)
    ensures
        raw.len() == 4 * list.len() && (forall|i: int|
            0 <= i < list.len() ==> #[trigger] list[i] == u32_at(raw, 4 * i)) ==> listing_of(raw)
            == Ok::<Seq<u32>, Error>(list),
        listing_of(raw) is Ok <==> exists|n: int| raw.len() == #[trigger] (4 * n),
        listing_of(raw) matches Err(err) ==> err == Error::InvalidListing,
{
    if raw.len() == 4 * list.len() && (forall|i: int|
        0 <= i < list.len() ==> #[trigger] list[i] == u32_at(raw, 4 * i)) {
        assert(u32_list(raw, 0, raw.len() as int / 4) =~= list);
    }
    assert(raw.len() % 4 == 0 ==> raw.len() == 4 * (raw.len() as int / 4));
}

/// The entries by title are those that the well known listing names, if there is one; else the
/// numbers that the title pointer at the 40th byte of the header leads to, one for each entry;
/// and none where that pointer has all bits set.
pub proof fn titles_are_listed_at_v0_or_by_the_header(raw: Seq<u8>, list: Seq<u32>)
    ensures
        place_at(raw, Namespace::FulltextIndex, "listing/titleOrdered/v0"@) matches Ok(Some(at))
            ==> entries_by_title(raw) == Ok::<Option<Result<Seq<u32>>>, Error>(
            Some(
                match cluster_blob(raw, at.0, at.1) {
                    Ok(bytes) => listing_of(bytes),
                    Err(err) => Err(err),
                },
            ),
        ),
        place_at(raw, Namespace::FulltextIndex, "listing/titleOrdered/v0"@) matches Err(err)
            ==> entries_by_title(raw) == Err::<Option<Result<Seq<u32>>>, Error>(err),
        place_at(raw, Namespace::FulltextIndex, "listing/titleOrdered/v0"@) matches Ok(None) ==> {
            let pos = u64_at(raw, 40);
            let count = u32_at(raw, 24);
            &&& pos == u64::MAX ==> entries_by_title(raw) == Ok::<
                Option<Result<Seq<u32>>>,
                Error,
            >(None)
            &&& pos != u64::MAX && pos + 4 * count > raw.len() ==> entries_by_title(raw) == Err::<
                Option<Result<Seq<u32>>>,
                Error,
            >(Error::OutOfBounds)
            &&& pos != u64::MAX && pos + 4 * count <= raw.len() && 4 * count <= usize::MAX
                && list.len() == count && (forall|i: int|
                0 <= i < count ==> #[trigger] list[i] == u32_at(raw, pos + 4 * i))
                ==> entries_by_title(raw) == Ok::<Option<Result<Seq<u32>>>, Error>(Some(Ok(list)))
        },
{
    let pos = u64_at(raw, 40);
    let count = u32_at(raw, 24);
    if list.len() == count && (forall|i: int|
        0 <= i < count ==> #[trigger] list[i] == u32_at(raw, pos + 4 * i)) {
        assert(u32_list(raw, pos as int, count as int) =~= list);
    }
}

/// A listing at a well known path is what the contents there spell: where there are none there is
/// no listing, and where they cannot be read neither can it.
pub proof fn listings_are_the_contents_at_their_path(raw: Seq<u8>, path: Seq<char>)
    ensures
        place_at(raw, Namespace::FulltextIndex, path) matches Err(err) ==> listing_at(raw, path)
            == Err::<Option<Result<Seq<u32>>>, Error>(err),
        place_at(raw, Namespace::FulltextIndex, path) matches Ok(None) ==> listing_at(raw, path)
            == Ok::<Option<Result<Seq<u32>>>, Error>(None),
        place_at(raw, Namespace::FulltextIndex, path) matches Ok(Some(at)) ==> {
            &&& cluster_blob(raw, at.0, at.1) matches Err(err) ==> listing_at(raw, path) == Ok::<
                Option<Result<Seq<u32>>>,
                Error,
            >(Some(Err(err)))
            &&& cluster_blob(raw, at.0, at.1) matches Ok(bytes) ==> listing_at(raw, path) == Ok::<
                Option<Result<Seq<u32>>>,
                Error,
            >(Some(listing_of(bytes)))
        },
{
}

/// A handle on a listing is one on the indices that it was found to hold.
pub proof fn listing_handles_lead_to_their_indices(
    listed: Result<Option<Result<Seq<u32>>>>,
    r: Result<Option<Listing>>,
)
    requires
        lists(listed, r),
    ensures
        r matches Ok(Some(listing)) ==> listed == Ok::<Option<Result<Seq<u32>>>, Error>(
            Some(listing.indices()),
        ) && listing.decoded() is None && listing.wf(),
        r matches Ok(None) ==> listed == Ok::<Option<Result<Seq<u32>>>, Error>(None),
        r matches Err(err) ==> listed == Err::<Option<Result<Seq<u32>>>, Error>(err),
{
}

} // verus!
