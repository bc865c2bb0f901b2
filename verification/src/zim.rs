//! An open archive.
use crate::checksum::{compare_checksums, compute_checksum, md5_digest, read_checksum, Checksum};
use crate::cluster::{cluster_extent, details_of, Cluster, Compression, Extent};
use crate::directory_entry::{entry_at, DirectoryEntry, EntryView};
use crate::directory_iterator::DirectoryIterator;
use crate::errors::{Error, Result};
use crate::header::{header_fault, header_of, parse_header, ZimHeader, HEADER_SIZE};
use crate::mime_type::{mime_list, mime_of, mime_type, texts, MimeType};
use crate::pointers::{list_fault, u32_list, u64_list};
use crate::pointers::{parse_article_list, parse_cluster_list, parse_url_list};
use crate::raw::{u16_at, u32_at, u64_at};
use crate::store::Store;
use vstd::prelude::*;

verus! {

/// The MIME types that an archive lists.
pub open spec fn mimes_of(raw: Seq<u8>) -> Seq<Seq<char>> {
    mime_list(raw, HEADER_SIZE as int)->Ok_0
}

/// The offsets of an archive's directory entries, in path order.
pub open spec fn url_list_of(raw: Seq<u8>) -> Seq<u64> {
    u64_list(raw, header_of(raw).url_ptr_pos as int, header_of(raw).article_count as int)
}

/// The offsets of an archive's clusters.
pub open spec fn cluster_list_of(raw: Seq<u8>) -> Seq<u64> {
    u64_list(raw, header_of(raw).cluster_ptr_pos as int, header_of(raw).cluster_count as int)
}

/// Why the list that the header's title pointer addresses cannot be read, if it cannot.
pub open spec fn title_fault(raw: Seq<u8>, pos: u64) -> Option<Error> {
    list_fault(raw.len() as int, pos as int, 4 * header_of(raw).article_count)
}

/// The indices of an archive's directory entries in title order, where its header leads to them.
pub open spec fn article_list_of(raw: Seq<u8>) -> Option<Seq<u32>> {
    match header_of(raw).title_ptr_pos {
        Some(pos) => if title_fault(raw, pos) is None {
            Some(u32_list(raw, pos as int, header_of(raw).article_count as int))
        } else {
            None
        },
        None => None,
    }
}

/// Why an archive cannot be opened, if it cannot.
pub open spec fn open_fault(raw: Seq<u8>) -> Option<Error> {
    let header = header_of(raw);
    if header_fault(raw) is Some {
        header_fault(raw)
    } else {
        match mime_list(raw, HEADER_SIZE as int) {
            Err(err) => Some(err),
            Ok(_) => {
                let url_fault = list_fault(
                    raw.len() as int,
                    header.url_ptr_pos as int,
                    8 * header.article_count,
                );
                if url_fault is Some {
                    url_fault
                } else {
                    list_fault(
                        raw.len() as int,
                        header.cluster_ptr_pos as int,
                        8 * header.cluster_count,
                    )
                }
            },
        }
    }
}

/// The directory entry at `idx`, in path order.
pub open spec fn entry_of(raw: Seq<u8>, idx: int) -> Result<EntryView> {
    if idx >= header_of(raw).article_count {
        Err(Error::OutOfBounds)
    } else {
        entry_at(raw, url_list_of(raw)[idx] as int, mimes_of(raw))
    }
}

/// The extent of the cluster at `idx`.
pub open spec fn cluster_of(raw: Seq<u8>, idx: u32) -> Result<Extent> {
    let header = header_of(raw);
    cluster_extent(raw, cluster_list_of(raw), idx, header.checksum_pos, header.version_major)
}

/// Represents a ZIM file
pub struct Zim<'a> {
    /// What the archive says of itself.
    pub header: ZimHeader,
    /// The archive's bytes.
    pub store: Store<'a>,
    /// List of mimetypes used in this ZIM archive
    pub mime_table: Vec<String>,
    /// a list of offsets
    pub url_list: Vec<u64>,
    /// a list of indicies into url_list
    ///
    /// Missing as well where the header leads to it, but out of the archive: a stale deprecated
    /// pointer must not make an otherwise readable archive unopenable.
    pub article_list: Option<Vec<u32>>,
    /// a list of offsets
    pub cluster_list: Vec<u64>,
    /// MD5 checksum.
    pub checksum: Checksum,
}

impl<'a> Zim<'a> {
    /// The fields hold what the archive's bytes spell.
    pub open spec fn wf(&self) -> bool {
        let raw = self.store@;
        &&& self.store.wf()
        &&& open_fault(raw) is None
        &&& self.header@ == header_of(raw)
        &&& texts(self.mime_table@) == mimes_of(raw)
        &&& self.url_list@ == url_list_of(raw)
        &&& self.cluster_list@ == cluster_list_of(raw)
        &&& match article_list_of(raw) {
            Some(list) => self.article_list matches Some(articles) && articles@ == list,
            None => self.article_list is None,
        }
        &&& self.checksum@ == raw.subrange(
            self.header.checksum_pos as int,
            self.header.checksum_pos + 16,
        )
    }

    /// Loads a Zim file
    ///
    /// Loads a Zim file and parses the header, and the url, title, and cluster offset tables.  The
    /// rest of the data isn't parsed until it's needed, so this should be fairly quick.
    pub fn new(store: Store<'a>) -> (r: Result<Zim<'a>>)
        requires
            store.wf(),
        ensures
            match open_fault(store@) {
                Some(err) => r == Err::<Zim<'a>, Error>(err),
                None => r matches Ok(zim) && zim.wf() && zim.store == store,
            },
    {
        let (header, mime_table) = parse_header(&store)?;
        let url_list = parse_url_list(&store, header.url_ptr_pos, header.article_count)?;
        let article_list = match header.title_ptr_pos {
            Some(pos) => match parse_article_list(&store, pos, header.article_count) {
                Ok(list) => Some(list),
                Err(_) => None,
            },
            None => None,
        };
        let cluster_list = parse_cluster_list(
            &store,
            header.cluster_ptr_pos,
            header.cluster_count,
        )?;
        let checksum = read_checksum(&store, header.checksum_pos)?;
        Ok(
            Zim {
                header,
                store,
                mime_table,
                url_list,
                article_list,
                cluster_list,
                checksum,
            },
        )
    }

    /// Computes the checksum, and returns an error if it does not match the one in
    /// the file.
    pub fn verify_checksum(&self) -> (r: Result<()>)
        requires
            self.wf(),
        ensures
            checksum_holds(self.store@) ==> r is Ok,
            !checksum_holds(self.store@) ==> r == Err::<(), Error>(Error::InvalidChecksum),
    {
        let computed = compute_checksum(&self.store, self.header.checksum_pos);
        compare_checksums(&self.checksum, &computed)
    }

    /// Indexes into the ZIM mime_table.
    pub fn get_mimetype(&self, id: u16) -> (mime: Option<MimeType>)
        requires
            self.wf(),
        ensures
            match mime_of(mimes_of(self.store@), id) {
                Some(view) => mime matches Some(mime) && mime@ == view,
                None => mime is None,
            },
    {
        mime_type(self.mime_table.as_slice(), id)
    }

    /// Iterates over articles, sorted by URL.
    ///
    /// For performance reasons, you might want to extract by cluster instead.
    pub fn iterate_by_urls(&self) -> (iter: DirectoryIterator<'_>)
        requires
            self.wf(),
        ensures
            iter.wf(),
            iter.archive() == self.store@,
            iter.position() == 0,
    {
        DirectoryIterator::new(self)
    }

    /// Returns the `DirectoryEntry` for the article found at the given URL index.
    ///
    /// idx must be between 0 and `article_count`
    pub fn get_by_url_index(&self, idx: u32) -> (r: Result<DirectoryEntry>)
        requires
            self.wf(),
        ensures
            match entry_of(self.store@, idx as int) {
                Ok(view) => r matches Ok(entry) && entry@ == view,
                Err(err) => r == Err::<DirectoryEntry, Error>(err),
            },
    {
        if idx as usize >= self.url_list.len() {
            return Err(Error::OutOfBounds);
        }
        DirectoryEntry::new(
            &self.store,
            self.mime_table.as_slice(),
            self.url_list[idx as usize],
        )
    }

    /// Returns the given `Cluster`
    ///
    /// idx must be between 0 and `cluster_count`
    pub fn get_cluster(&self, idx: u32) -> (r: Result<Cluster<'_>>)
        requires
            self.wf(),
        ensures
            match cluster_of(self.store@, idx) {
                Err(err) => r == Err::<Cluster<'_>, Error>(err),
                Ok(extent) => {
                    &&& r matches Ok(cluster)
                    &&& cluster.wf()
                    &&& cluster.archive() == self.store
                    &&& cluster.extent() == extent
                    &&& !cluster.loaded()
                    &&& cluster.decoded() is None
                },
            },
    {
        Cluster::new(
            &self.store,
            self.cluster_list.as_slice(),
            idx,
            self.header.checksum_pos,
            self.header.version_major,
        )
    }
}

/// The checksum that an archive ends with is that of everything in front of it.
pub open spec fn checksum_holds(raw: Seq<u8>) -> bool {
    let pos = header_of(raw).checksum_pos as int;
    raw.subrange(pos, pos + 16) == md5_digest(raw.take(pos))
}

/// The directory entry at an index is the one that the path list leads to: the header says at its
/// 32nd byte where that list is, and at its 24th how many entries there are. The types are listed
/// behind the header.
pub proof fn entries_are_where_the_path_list_leads(raw: Seq<u8>, idx: int)
    requires
        0 <= idx,
    ensures
        idx < u32_at(raw, 24) ==> entry_of(raw, idx) == entry_at(
            raw,
            u64_at(raw, u64_at(raw, 32) + 8 * idx) as int,
            mimes_of(raw),
        ),
        idx >= u32_at(raw, 24) ==> entry_of(raw, idx) == Err::<EntryView, Error>(Error::OutOfBounds),
        mime_list(raw, 80) matches Ok(list) ==> mimes_of(raw) == list,
{
}

/// A cluster reaches from where the cluster list leads to where it leads next, or to the checksum:
/// the header says at its 48th byte where that list is, at its 28th how many clusters there are,
/// and at its 72nd where the checksum is.
pub proof fn clusters_are_where_the_cluster_list_leads(raw: Seq<u8>, idx: u32)
    ensures
        cluster_of(raw, idx) is Ok ==> idx < u32_at(raw, 28),
        idx >= u32_at(raw, 28) ==> cluster_of(raw, idx) == Err::<Extent, Error>(Error::OutOfBounds),
        cluster_of(raw, idx) matches Ok(extent) ==> {
            &&& extent.start == u64_at(raw, u64_at(raw, 48) + 8 * idx)
            &&& idx + 1 < u32_at(raw, 28) ==> extent.end == u64_at(
                raw,
                u64_at(raw, 48) + 8 * (idx + 1),
            )
            &&& idx + 1 == u32_at(raw, 28) ==> extent.end == u64_at(raw, 72)
            &&& extent.start < extent.end <= raw.len()
            &&& details_of(raw[extent.start as int]) == Ok::<(bool, Compression), Error>(
                (extent.extended, extent.compression),
            )
            &&& extent.extended ==> u16_at(raw, 4) == 6
        },
        cluster_of(raw, idx) matches Err(err) ==> idx < u32_at(raw, 28) ==> {
            let start = u64_at(raw, u64_at(raw, 48) + 8 * idx);
            let end = if idx + 1 < u32_at(raw, 28) {
                u64_at(raw, u64_at(raw, 48) + 8 * (idx + 1))
            } else {
                u64_at(raw, 72)
            };
            &&& end <= start || end > raw.len() <==> err == Error::OutOfBounds
            &&& start < end <= raw.len() ==> {
                ||| details_of(raw[start as int]) == Err::<(bool, Compression), Error>(err)
                ||| err == Error::InvalidClusterExtension && u16_at(raw, 4) != 6 && details_of(
                    raw[start as int],
                ) matches Ok((true, _))
            }
        },
{
    let list = cluster_list_of(raw);
    assert(list.len() == u32_at(raw, 28));
    if idx < list.len() {
        assert(list[idx as int] == u64_at(raw, u64_at(raw, 48) + 8 * idx));
    }
    if idx + 1 < list.len() {
        assert(list[idx + 1] == u64_at(raw, u64_at(raw, 48) + 8 * (idx + 1)));
    }
}

/// An archive can be opened exactly if its header is sound, its list of types can be read, and the
/// lists of its entries and clusters lie within it.
pub proof fn sound_archives_are_opened(raw: Seq<u8>)
    ensures
        header_fault(raw) matches Some(err) ==> open_fault(raw) == Some(err),
        mime_list(raw, 80) matches Err(err) ==> header_fault(raw) is None ==> open_fault(raw) == Some(
            err,
        ),
        open_fault(raw) is None <==> {
            &&& header_fault(raw) is None
            &&& mime_list(raw, 80) is Ok
            &&& u64_at(raw, 32) + 8 * u32_at(raw, 24) <= raw.len()
            &&& 8 * u32_at(raw, 24) <= usize::MAX
            &&& u64_at(raw, 48) + 8 * u32_at(raw, 28) <= raw.len()
            &&& 8 * u32_at(raw, 28) <= usize::MAX
        },
        header_fault(raw) is None && mime_list(raw, 80) is Ok && 8 * u32_at(raw, 24) <= usize::MAX
            && u64_at(raw, 48) + 8 * u32_at(raw, 28) > raw.len() ==> open_fault(raw) == Some(
            Error::OutOfBounds,
        ),
{
}

/// An open archive holds what its bytes spell: each field of its header, its types, its lists of
/// offsets and indices, and the 16 bytes that it ends with.
pub proof fn open_archives_hold_what_is_stored(zim: Zim, i: int)
    requires
        zim.wf(),
    ensures
        ({
            let raw = zim.store@;
            let pos = u64_at(raw, 40);
            &&& zim.header@ == header_of(raw)
            &&& mime_list(raw, 80) == Ok::<Seq<Seq<char>>, Error>(texts(zim.mime_table@))
            &&& zim.url_list@.len() == u32_at(raw, 24)
            &&& 0 <= i < zim.url_list@.len() ==> zim.url_list@[i] == u64_at(
                raw,
                u64_at(raw, 32) + 8 * i,
            )
            &&& zim.cluster_list@.len() == u32_at(raw, 28)
            &&& 0 <= i < zim.cluster_list@.len() ==> zim.cluster_list@[i] == u64_at(
                raw,
                u64_at(raw, 48) + 8 * i,
            )
            &&& zim.article_list is Some <==> pos != u64::MAX && pos + 4 * u32_at(raw, 24)
                <= raw.len() && 4 * u32_at(raw, 24) <= usize::MAX
            &&& zim.article_list matches Some(list) ==> {
                &&& list@.len() == u32_at(raw, 24)
                &&& 0 <= i < list@.len() ==> list@[i] == u32_at(raw, pos + 4 * i)
            }
            &&& zim.checksum@ == raw.skip(raw.len() - 16)
            &&& open_fault(raw) is None
        }),
{
    let raw = zim.store@;
    assert(zim.checksum@ =~= raw.skip(raw.len() - 16));
}

/// The checksum of an archive that can be opened holds exactly if its last 16 bytes are the digest
/// of all bytes in front of them.
pub proof fn checksums_cover_all_but_themselves(body: Seq<u8>, checksum: Seq<u8>)
    requires
        checksum.len() == 16,
        open_fault(body + checksum) is None,
    ensures
        checksum_holds(body + checksum) <==> checksum == md5_digest(body),
{
    let raw = body + checksum;
    let pos = header_of(raw).checksum_pos as int;
    assert(raw.subrange(pos, pos + 16) =~= checksum);
    assert(raw.take(pos) =~= body);
}

} // verus!
