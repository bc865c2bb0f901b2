//! The header that an archive starts with.
use crate::errors::{Error, Result};
use crate::mime_type::{mime_list, parse_mime_list, texts};
use crate::raw::{read_u16, read_u32, read_u64};
use crate::raw::{u16_at, u32_at, u64_at};
use crate::store::{bytes_of, Store};
use crate::uuid::Uuid;
use vstd::prelude::*;

verus! {

/// Magic number to recognise the file format, must be 72173914
pub const ZIM_MAGIC_NUMBER: u32 = 72173914;

/// Size of the header, up to and including `checksumPos`.
///
/// The MIME type list directly follows the header, so `mimeListPos` also defines the header's
/// size and is always this.
pub const HEADER_SIZE: u64 = 80;

/// A ZIM file starts with a header.
#[derive(Debug, Clone, Copy)]
pub struct ZimHeader {
    /// Major version, either 5 or 6
    pub version_major: u16,
    /// Minor version
    pub version_minor: u16,
    /// unique id of this zim file
    pub uuid: Uuid,
    /// total number of articles
    pub article_count: u32,
    /// total number of clusters
    pub cluster_count: u32,
    /// position of the directory pointerlist ordered by URL
    pub url_ptr_pos: u64,
    /// position of the directory pointerlist ordered by Title
    /// Deprecated in newer versions. Use `X/listing/titleordered/v0` instead.
    pub title_ptr_pos: Option<u64>,
    /// position of the cluster pointer list
    pub cluster_ptr_pos: u64,
    /// position of the MIME type list (also header size)
    pub mime_list_pos: u64,
    /// main page or 0xffffffff if no main page
    pub main_page: Option<u32>,
    /// layout page or 0xffffffff if no layout page
    pub layout_page: Option<u32>,
    /// pointer to the md5checksum of this file without the checksum itself.
    /// This points always 16 bytes before the end of the file.
    pub checksum_pos: u64,
}

/// [`ZimHeader`], as contracts speak of it.
#[verifier::ext_equal]
pub ghost struct HeaderView {
    pub version_major: u16,
    pub version_minor: u16,
    pub uuid: Seq<u8>,
    pub article_count: u32,
    pub cluster_count: u32,
    pub url_ptr_pos: u64,
    pub title_ptr_pos: Option<u64>,
    pub cluster_ptr_pos: u64,
    pub mime_list_pos: u64,
    pub main_page: Option<u32>,
    pub layout_page: Option<u32>,
    pub checksum_pos: u64,
}

impl View for ZimHeader {
    type V = HeaderView;

    open spec fn view(&self) -> HeaderView {
        HeaderView {
            version_major: self.version_major,
            version_minor: self.version_minor,
            uuid: self.uuid@,
            article_count: self.article_count,
            cluster_count: self.cluster_count,
            url_ptr_pos: self.url_ptr_pos,
            title_ptr_pos: self.title_ptr_pos,
            cluster_ptr_pos: self.cluster_ptr_pos,
            mime_list_pos: self.mime_list_pos,
            main_page: self.main_page,
            layout_page: self.layout_page,
            checksum_pos: self.checksum_pos,
        }
    }
}

/// A page index, where the header names one.
pub open spec fn defined(val: u32) -> Option<u32> {
    if val == 0xffff_ffff {
        None
    } else {
        Some(val)
    }
}

/// The header that an archive's first 80 bytes spell.
pub open spec fn header_of(raw: Seq<u8>) -> HeaderView {
    HeaderView {
        version_major: u16_at(raw, 4),
        version_minor: u16_at(raw, 6),
        uuid: raw.subrange(8, 24),
        article_count: u32_at(raw, 24),
        cluster_count: u32_at(raw, 28),
        url_ptr_pos: u64_at(raw, 32),
        title_ptr_pos: if u64_at(raw, 40) == u64::MAX {
            None
        } else {
            Some(u64_at(raw, 40))
        },
        cluster_ptr_pos: u64_at(raw, 48),
        mime_list_pos: u64_at(raw, 56),
        main_page: defined(u32_at(raw, 64)),
        layout_page: defined(u32_at(raw, 68)),
        checksum_pos: u64_at(raw, 72),
    }
}

impl HeaderView {
    /// What is wrong with these offsets, in an archive of `file_len` bytes, if anything is.
    pub open spec fn contradiction(self, file_len: int) -> Option<Error> {
        if self.mime_list_pos < HEADER_SIZE {
            Some(Error::InvalidHeader("mimeListPos overlaps the header"))
        } else if self.mime_list_pos > file_len {
            Some(Error::InvalidHeader("mimeListPos is past the end of file"))
        } else if self.mime_list_pos != HEADER_SIZE {
            Some(Error::InvalidHeader("mimeListPos does not follow the header"))
        } else if self.url_ptr_pos < self.mime_list_pos {
            Some(Error::InvalidHeader("pathPtrPos precedes mimeListPos"))
        } else if self.title_ptr_pos is Some && self.title_ptr_pos->0 < self.mime_list_pos {
            Some(Error::InvalidHeader("titlePtrPos precedes mimeListPos"))
        } else if self.cluster_ptr_pos < self.mime_list_pos {
            Some(Error::InvalidHeader("clusterPtrPos precedes mimeListPos"))
        } else if self.checksum_pos < self.mime_list_pos {
            Some(Error::InvalidHeader("checksumPos precedes mimeListPos"))
        } else if self.checksum_pos + 16 != file_len {
            Some(Error::InvalidHeader("checksumPos is not 16 bytes before the end of file"))
        } else if (self.article_count == 0) != (self.cluster_count == 0) {
            Some(Error::InvalidHeader("entryCount and clusterCount disagree about being empty"))
        } else if self.cluster_count > self.article_count {
            Some(Error::InvalidHeader("clusterCount exceeds entryCount"))
        } else if self.url_ptr_pos + 8 * self.article_count > file_len {
            Some(Error::InvalidHeader("path pointer list runs past the end of file"))
        } else {
            None
        }
    }
}

/// What is wrong with the header of an archive, if anything is.
pub open spec fn header_fault(raw: Seq<u8>) -> Option<Error> {
    if raw.len() < HEADER_SIZE {
        Some(Error::InvalidHeader("file is smaller than the header"))
    } else if u32_at(raw, 0) != ZIM_MAGIC_NUMBER {
        Some(Error::InvalidMagicNumber)
    } else if u16_at(raw, 4) != 5 && u16_at(raw, 4) != 6 {
        Some(Error::InvalidVersion(u16_at(raw, 4)))
    } else {
        header_of(raw).contradiction(raw.len() as int)
    }
}

impl ZimHeader {
    /// Rejects headers whose offsets cannot describe a readable archive.
    ///
    /// Without this, contradictory offsets are only discovered much later, as an out-of-bounds
    /// read against an unrelated structure.
    pub fn sanity_check(&self, file_len: u64) -> (r: Result<()>)
        ensures
            match self@.contradiction(file_len as int) {
                Some(err) => r == Err::<(), Error>(err),
                None => r is Ok,
            },
    {
        if self.mime_list_pos < HEADER_SIZE {
            return Err(Error::InvalidHeader("mimeListPos overlaps the header"));
        }
        if self.mime_list_pos > file_len {
            return Err(Error::InvalidHeader("mimeListPos is past the end of file"));
        }
        // Any other value reads the list out of the middle of another structure, and yields
        // plausible but wrong types for every entry.
        if self.mime_list_pos != HEADER_SIZE {
            return Err(Error::InvalidHeader("mimeListPos does not follow the header"));
        }
        // Every other structure is stored after the MIME type list.

        if self.url_ptr_pos < self.mime_list_pos {
            return Err(Error::InvalidHeader("pathPtrPos precedes mimeListPos"));
        }
        if let Some(title_ptr_pos) = self.title_ptr_pos {
            if title_ptr_pos < self.mime_list_pos {
                return Err(Error::InvalidHeader("titlePtrPos precedes mimeListPos"));
            }
        }
        if self.cluster_ptr_pos < self.mime_list_pos {
            return Err(Error::InvalidHeader("clusterPtrPos precedes mimeListPos"));
        }
        if self.checksum_pos < self.mime_list_pos {
            return Err(Error::InvalidHeader("checksumPos precedes mimeListPos"));
        }
        // The checksum is always the final 16 bytes; the last cluster's extent is derived from
        // this, so a wrong value silently mis-sizes it.

        if self.checksum_pos.checked_add(16) != Some(file_len) {
            return Err(Error::InvalidHeader("checksumPos is not 16 bytes before the end of file"));
        }
        if (self.article_count == 0) != (self.cluster_count == 0) {
            return Err(
                Error::InvalidHeader("entryCount and clusterCount disagree about being empty"),
            );
        }
        if self.cluster_count > self.article_count {
            return Err(Error::InvalidHeader("clusterCount exceeds entryCount"));
        }
        let list_len = 8 * self.article_count as u64;
        match self.url_ptr_pos.checked_add(list_len) {
            Some(end) if end <= file_len => Ok(()),
            _ => Err(Error::InvalidHeader("path pointer list runs past the end of file")),
        }
    }
}

/// A page index, where the header names one.
pub fn is_defined(val: u32) -> (page: Option<u32>)
    ensures
        page == defined(val),
{
    if val == 0xffff_ffff {
        None
    } else {
        Some(val)
    }
}

/// Reads the fields of a header out of its 80 bytes.
fn read_fields(raw: &[u8]) -> (r: Result<ZimHeader>)
    requires
        raw@.len() == HEADER_SIZE,
    ensures
        u32_at(raw@, 0) != ZIM_MAGIC_NUMBER ==> r == Err::<ZimHeader, Error>(
            Error::InvalidMagicNumber,
        ),
        u32_at(raw@, 0) == ZIM_MAGIC_NUMBER && u16_at(raw@, 4) != 5 && u16_at(raw@, 4) != 6 ==> r
            == Err::<ZimHeader, Error>(Error::InvalidVersion(u16_at(raw@, 4))),
        u32_at(raw@, 0) == ZIM_MAGIC_NUMBER && (u16_at(raw@, 4) == 5 || u16_at(raw@, 4) == 6) ==> r
            is Ok,
        r matches Ok(header) ==> header@ == header_of(raw@),
{
    let magic = read_u32(raw, 0)?;
    if magic != ZIM_MAGIC_NUMBER {
        return Err(Error::InvalidMagicNumber);
    }
    let version_major = read_u16(raw, 4)?;
    if version_major != 5 && version_major != 6 {
        return Err(Error::InvalidVersion(version_major));
    }
    let version_minor = read_u16(raw, 6)?;
    let mut uuid = [0u8;16];
    for i in 0..16usize
        invariant
            raw@.len() == HEADER_SIZE,
            uuid@.len() == 16,
            forall|k: int| 0 <= k < i ==> #[trigger] uuid@[k] == raw@[8 + k],
    {
        uuid[i] = raw[8 + i];
    }
    assert(uuid@ =~= raw@.subrange(8, 24));
    let article_count = read_u32(raw, 24)?;
    let cluster_count = read_u32(raw, 28)?;
    let url_ptr_pos = read_u64(raw, 32)?;
    let title_ptr_pos = read_u64(raw, 40)?;

    // Deprecated, and considered optional in newer versions
    let title_ptr_pos = if title_ptr_pos == u64::MAX {
        None
    } else {
        Some(title_ptr_pos)
    };
    let cluster_ptr_pos = read_u64(raw, 48)?;
    let mime_list_pos = read_u64(raw, 56)?;
    let main_page = read_u32(raw, 64)?;
    let layout_page = read_u32(raw, 68)?;
    let checksum_pos = read_u64(raw, 72)?;
    Ok(
        ZimHeader {
            version_major,
            version_minor,
            uuid: Uuid::new(uuid),
            article_count,
            cluster_count,
            url_ptr_pos,
            title_ptr_pos,
            cluster_ptr_pos,
            mime_list_pos,
            main_page: is_defined(main_page),
            layout_page: is_defined(layout_page),
            checksum_pos,
        },
    )
}

/// The header of an archive is spelled by its first bytes alone.
proof fn lemma_header_prefix(raw: Seq<u8>)
    requires
        raw.len() >= HEADER_SIZE,
    ensures
        u32_at(raw.subrange(0, HEADER_SIZE as int), 0) == u32_at(raw, 0),
        u16_at(raw.subrange(0, HEADER_SIZE as int), 4) == u16_at(raw, 4),
        header_of(raw.subrange(0, HEADER_SIZE as int)) == header_of(raw),
{
    let head = raw.subrange(0, HEADER_SIZE as int);
    assert(head.subrange(8, 24) =~= raw.subrange(8, 24));
}

/// Reads the header and the list of MIME types.
pub fn parse_header(store: &Store) -> (r: Result<(ZimHeader, Vec<String>)>)
    requires
        store.wf(),
    ensures
        match header_fault(store@) {
            Some(err) => r == Err::<(ZimHeader, Vec<String>), Error>(err),
            None => match mime_list(store@, HEADER_SIZE as int) {
                Err(err) => r == Err::<(ZimHeader, Vec<String>), Error>(err),
                Ok(list) => {
                    &&& r matches Ok((header, mime_table))
                    &&& header@ == header_of(store@)
                    &&& texts(mime_table@) == list
                },
            },
        },
{
    let file_len = store.len();
    if file_len < HEADER_SIZE {
        return Err(Error::InvalidHeader("file is smaller than the header"));
    }
    proof {
        lemma_header_prefix(store@);
    }
    let raw = store.slice(0, HEADER_SIZE)?;
    let header = read_fields(bytes_of(&raw))?;
    header.sanity_check(file_len)?;

    // The MIME type list directly follows the header, so start at `mime_list_pos` rather than
    // assuming the length of the fields read above.
    let mime_table = parse_mime_list(store, header.mime_list_pos)?;
    Ok((header, mime_table))
}

/// A view has the fields of the header that it is the view of.
pub proof fn header_views_are_faithful(header: ZimHeader)
    ensures
        header@.version_major == header.version_major,
        header@.version_minor == header.version_minor,
        header@.uuid == header.uuid@,
        header@.article_count == header.article_count,
        header@.cluster_count == header.cluster_count,
        header@.url_ptr_pos == header.url_ptr_pos,
        header@.title_ptr_pos == header.title_ptr_pos,
        header@.cluster_ptr_pos == header.cluster_ptr_pos,
        header@.mime_list_pos == header.mime_list_pos,
        header@.main_page == header.main_page,
        header@.layout_page == header.layout_page,
        header@.checksum_pos == header.checksum_pos,
{
}

/// Each field of a header is the number stored at its place. All bits set mean that there is no
/// title list, and no such page.
pub proof fn header_fields_have_their_places(raw: Seq<u8>)
    ensures
        ({
            let header = header_of(raw);
            &&& header.version_major == u16_at(raw, 4)
            &&& header.version_minor == u16_at(raw, 6)
            &&& header.uuid == raw.subrange(8, 24)
            &&& header.article_count == u32_at(raw, 24)
            &&& header.cluster_count == u32_at(raw, 28)
            &&& header.url_ptr_pos == u64_at(raw, 32)
            &&& header.title_ptr_pos is None <==> u64_at(raw, 40) == u64::MAX
            &&& header.title_ptr_pos matches Some(pos) ==> pos == u64_at(raw, 40)
            &&& header.cluster_ptr_pos == u64_at(raw, 48)
            &&& header.mime_list_pos == u64_at(raw, 56)
            &&& header.main_page is None <==> u32_at(raw, 64) == u32::MAX
            &&& header.main_page matches Some(page) ==> page == u32_at(raw, 64)
            &&& header.layout_page is None <==> u32_at(raw, 68) == u32::MAX
            &&& header.layout_page matches Some(page) ==> page == u32_at(raw, 68)
            &&& header.checksum_pos == u64_at(raw, 72)
        }),
{
}

/// A header is accepted exactly if it is whole, starts with the magic number, has a version that
/// can be read, is directly followed by the list of types, points at nothing in front of that,
/// has its path list within the file and the checksum at its end, and has clusters exactly if it
/// has entries, and no more of them.
pub proof fn sound_headers_are_accepted(raw: Seq<u8>)
    ensures
        header_fault(raw) is None <==> {
            &&& raw.len() >= 80
            &&& u32_at(raw, 0) == 72173914
            &&& u16_at(raw, 4) == 5 || u16_at(raw, 4) == 6
            &&& u64_at(raw, 56) == 80
            &&& u64_at(raw, 32) >= 80
            &&& u64_at(raw, 32) + 8 * u32_at(raw, 24) <= raw.len()
            &&& u64_at(raw, 40) >= 80
            &&& u64_at(raw, 48) >= 80
            &&& u64_at(raw, 72) >= 80
            &&& u64_at(raw, 72) + 16 == raw.len()
            &&& u32_at(raw, 28) <= u32_at(raw, 24)
            &&& u32_at(raw, 24) == 0 <==> u32_at(raw, 28) == 0
        },
        header_fault(raw) == Some(Error::InvalidMagicNumber) <==> raw.len() >= 80 && u32_at(raw, 0)
            != 72173914,
        header_fault(raw) matches Some(Error::InvalidVersion(version)) ==> version == u16_at(raw, 4),
        header_fault(raw) matches Some(Error::InvalidVersion(_)) <==> raw.len() >= 80 && u32_at(
            raw,
            0,
        ) == 72173914 && u16_at(raw, 4) != 5 && u16_at(raw, 4) != 6,
        header_fault(raw) matches Some(err) ==> err is InvalidMagicNumber || err is InvalidVersion
            || err is InvalidHeader,
{
}

/// A header is refused with a message that says what is wrong with it: that is indeed wrong, and
/// everything that is looked at earlier is as it should be.
pub proof fn refusals_say_what_is_wrong(raw: Seq<u8>)
    ensures
        raw.len() < 80 ==> header_fault(raw) == Some(
            Error::InvalidHeader("file is smaller than the header"),
        ),
        header_fault(raw) matches Some(Error::InvalidHeader(text)) ==> raw.len() >= 80 ==> {
            let types_follow = u64_at(raw, 56) == 80;
            let paths_follow = types_follow && u64_at(raw, 32) >= 80;
            let titles_follow = paths_follow && u64_at(raw, 40) >= 80;
            let clusters_follow = titles_follow && u64_at(raw, 48) >= 80;
            let checksum_follows = clusters_follow && u64_at(raw, 72) >= 80;
            let checksum_last = checksum_follows && u64_at(raw, 72) + 16 == raw.len();
            let empty_alike = (u32_at(raw, 24) == 0) == (u32_at(raw, 28) == 0);
            ||| text == "mimeListPos overlaps the header" && u64_at(raw, 56) < 80
            ||| text == "mimeListPos is past the end of file" && u64_at(raw, 56) > raw.len()
            ||| text == "mimeListPos does not follow the header" && 80 < u64_at(raw, 56)
                <= raw.len()
            ||| text == "pathPtrPos precedes mimeListPos" && types_follow && !paths_follow
            ||| text == "titlePtrPos precedes mimeListPos" && paths_follow && !titles_follow
            ||| text == "clusterPtrPos precedes mimeListPos" && titles_follow && !clusters_follow
            ||| text == "checksumPos precedes mimeListPos" && clusters_follow && !checksum_follows
            ||| text == "checksumPos is not 16 bytes before the end of file" && checksum_follows
                && !checksum_last
            ||| text == "entryCount and clusterCount disagree about being empty" && checksum_last
                && !empty_alike
            ||| text == "clusterCount exceeds entryCount" && checksum_last && empty_alike && u32_at(
                raw,
                28,
            ) > u32_at(raw, 24)
            ||| text == "path pointer list runs past the end of file" && checksum_last
                && empty_alike && u32_at(raw, 28) <= u32_at(raw, 24) && u64_at(raw, 32) + 8
                * u32_at(raw, 24) > raw.len()
        },
{
}

/// What a header is refused for does not depend on which archive it is of: the fields decide, and
/// the length of the file. Fields that an archive's header could have are accepted likewise.
pub proof fn sound_fields_are_accepted(header: HeaderView, file_len: int)
    ensures
        header.contradiction(file_len) is None <==> {
            &&& header.mime_list_pos == 80
            &&& file_len >= 80
            &&& header.url_ptr_pos >= 80
            &&& header.title_ptr_pos matches Some(pos) ==> pos >= 80
            &&& header.cluster_ptr_pos >= 80
            &&& header.checksum_pos >= 80
            &&& header.checksum_pos + 16 == file_len
            &&& header.article_count == 0 <==> header.cluster_count == 0
            &&& header.cluster_count <= header.article_count
            &&& header.url_ptr_pos + 8 * header.article_count <= file_len
        },
        header.contradiction(file_len) matches Some(err) ==> err is InvalidHeader,
{
}

} // verus!
