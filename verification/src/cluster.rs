//! Clusters, which hold the archive's contents.
use crate::codec::{decode_xz, decode_zstd};
use crate::codec::{xz_decoded, zstd_decoded};
use crate::errors::{Error, Fault, Result};
use crate::raw::{bits_of, u32_at, u64_at};
use crate::raw::{read_bit, read_bits, read_u32, read_u64};
use crate::store::{bytes_of, chunk_end, joined, single_files_are_contiguous, Store};
use std::borrow::Cow;
use vstd::prelude::*;
use vstd::slice::slice_subrange;

verus! {

/// The compression applied to a cluster's payload.
///
/// Values 2 (zlib) and 3 (bzip2) were used by earlier writers but have since been removed from
/// the format; other readers cannot read them either, so they are rejected rather than
/// represented here.
/// Value 0 is an obsolete encoding of "no compression" inherited from Zeno.
#[derive(Debug, PartialEq, Eq, Clone, Copy, Hash, Structural)]
pub enum Compression {
    Uncompressed,
    Lzma2,
    Zstd,
}

impl Compression {
    /// The number that stands for this compression in a cluster.
    pub open spec fn number(self) -> u8 {
        match self {
            Compression::Uncompressed => 1,
            Compression::Lzma2 => 4,
            Compression::Zstd => 5,
        }
    }

    /// What a compression number stands for.
    pub open spec fn of_number(raw: u8) -> Result<Compression> {
        if raw == 0 || raw == 1 {
            Ok(Compression::Uncompressed)
        } else if raw == 2 || raw == 3 {
            Err(Error::UnsupportedCompression(raw))
        } else if raw == 4 {
            Ok(Compression::Lzma2)
        } else if raw == 5 {
            Ok(Compression::Zstd)
        } else {
            Err(Error::UnknownCompression(raw))
        }
    }

    pub fn from(raw: u8) -> (r: Result<Compression>)
        ensures
            r == Self::of_number(raw),
    {
        match raw {
            0 | 1 => Ok(Compression::Uncompressed),
            2 | 3 => Err(Error::UnsupportedCompression(raw)),
            4 => Ok(Compression::Lzma2),
            5 => Ok(Compression::Zstd),
            _ => Err(Error::UnknownCompression(raw)),
        }
    }
}

impl From<Compression> for u8 {
    fn from(mode: Compression) -> (raw: u8) {
        match mode {
            Compression::Uncompressed => 1,
            Compression::Lzma2 => 4,
            Compression::Zstd => 5,
        }
    }
}

impl vstd::std_specs::convert::FromSpecImpl<Compression> for u8 {
    open spec fn obeys_from_spec() -> bool {
        true
    }

    open spec fn from_spec(mode: Compression) -> u8 {
        mode.number()
    }
}

/// A compression is read back from its own number.
pub proof fn compression_number_roundtrip(mode: Compression)
    ensures
        Compression::of_number(mode.number()) == Ok::<Compression, Error>(mode),
{
}

/// Only one number is read as a compression without being the one written for it: the obsolete
/// encoding of "no compression".
pub proof fn compression_numbers_are_unique(raw: u8)
    ensures
        Compression::of_number(raw) matches Ok(mode) ==> mode.number() == raw || raw == 0,
{
}

/// What a cluster's first byte says: whether its offsets are extended, and how its payload is
/// compressed.
pub open spec fn details_of(byte: u8) -> Result<(bool, Compression)> {
    match Compression::of_number((byte % 16) as u8) {
        Ok(compression) => Ok(((byte / 16) % 2 == 1, compression)),
        Err(err) => Err(err),
    }
}

/// The fifth bit of a byte, and its low four, cut out by position.
proof fn lemma_details_bits(byte: u8)
    ensures
        bits_of(byte, 3, 1) == (byte / 16) % 2,
        bits_of(byte, 4, 4) == byte % 16,
{
    vstd::arithmetic::power2::lemma2_to64();
    assert(bits_of(byte, 4, 4) == (byte as int / 1) % 16);
}

/// Parses the cluster information.
///
/// Fourth low bits:
///   - 0: default (no compression),
///   - 1: none (inherited from Zeno),
///   - 4: LZMA2 compressed
///   - 5: zstd compressed
///
/// Fifth bit:
///   - 0: normal (OFFSET_SIZE=4)
///   - 1: extended (OFFSET_SIZE=8)
pub fn parse_details(details: u8) -> (r: Result<(bool, Compression)>)
    ensures
        r == details_of(details),
{
    proof {
        lemma_details_bits(details);
    }
    let extended = match read_bit(details, 3) {
        Ok(extended) => extended,
        Err(err) => return Err(Error::from(err)),
    };
    let number = match read_bits(details, 4, 4) {
        Ok(number) => number,
        Err(err) => return Err(Error::from(err)),
    };
    let compression = Compression::from(number)?;
    Ok((extended, compression))
}

/// How many bytes an offset takes.
pub open spec fn offset_width(extended: bool) -> int {
    if extended {
        8
    } else {
        4
    }
}

/// The `i`-th offset of a table.
pub open spec fn offset_at(raw: Seq<u8>, extended: bool, i: int) -> u64 {
    if extended {
        u64_at(raw, 8 * i)
    } else {
        u32_at(raw, 4 * i) as u64
    }
}

/// Where the `i`-th offset of a table ends.
pub open spec fn offset_end(extended: bool, i: int) -> int {
    if extended {
        8 * i + 8
    } else {
        4 * i + 4
    }
}

/// Some offset that `raw` still holds, among the table's, is below the one before it.
pub open spec fn goes_backwards(raw: Seq<u8>, extended: bool) -> bool {
    exists|i: int|
        1 <= i && offset_end(extended, i) <= offset_at(raw, extended, 0) && offset_end(extended, i)
            <= raw.len() && #[trigger] offset_at(raw, extended, i) < offset_at(raw, extended, i - 1)
}

/// The offset table that `raw` starts with.
///
/// The first offset is the table's own size, so it must be a whole number of offsets, and at
/// least one. No offset may be below the one before it, and the table must not run past `raw`.
pub open spec fn blob_table(raw: Seq<u8>, extended: bool) -> Result<Seq<u64>> {
    let width = offset_width(extended);
    let first = offset_at(raw, extended, 0) as int;
    if raw.len() < width {
        Err(Error::Parsing(Fault::Io))
    } else if first < width || first % width != 0 {
        Err(Error::InvalidBlobList)
    } else if goes_backwards(raw, extended) {
        Err(Error::InvalidBlobList)
    } else if first > raw.len() {
        Err(Error::Parsing(Fault::Io))
    } else {
        Ok(Seq::new((first / width) as nat, |i: int| offset_at(raw, extended, i)))
    }
}

/// Reads one offset of a table.
fn read_offset(raw: &[u8], extended: bool, i: u64) -> (r: Result<u64>)
    requires
        offset_end(extended, i as int) <= u64::MAX,
    ensures
        offset_end(extended, i as int) <= raw@.len() ==> r == Ok::<u64, Error>(
            offset_at(raw@, extended, i as int),
        ),
        offset_end(extended, i as int) > raw@.len() ==> r == Err::<u64, Error>(
            Error::Parsing(Fault::Io),
        ),
{
    if extended {
        match read_u64(raw, 8 * i) {
            Ok(offset) => Ok(offset),
            Err(err) => Err(Error::from(err)),
        }
    } else {
        match read_u32(raw, 4 * i) {
            Ok(offset) => Ok(offset as u64),
            Err(err) => Err(Error::from(err)),
        }
    }
}

/// `list` holds the first offsets of the table that `raw` starts with, and none goes backwards.
#[verifier::opaque]
spec fn read_so_far(raw: Seq<u8>, extended: bool, list: Seq<u64>) -> bool {
    &&& list.len() >= 1
    &&& offset_end(extended, list.len() - 1) <= raw.len()
    &&& forall|k: int| 0 <= k < list.len() ==> #[trigger] list[k] == offset_at(raw, extended, k)
    &&& forall|k: int| 1 <= k < list.len() ==> #[trigger] list[k] >= list[k - 1]
}

proof fn lemma_read_first(raw: Seq<u8>, extended: bool)
    requires
        offset_end(extended, 0) <= raw.len(),
    ensures
        read_so_far(raw, extended, seq![offset_at(raw, extended, 0)]),
{
    reveal(read_so_far);
}

proof fn lemma_read_next(raw: Seq<u8>, extended: bool, list: Seq<u64>)
    requires
        read_so_far(raw, extended, list),
    ensures
        ({
            let next = offset_at(raw, extended, list.len() as int);
            let end = offset_end(extended, list.len() as int);
            &&& end <= raw.len() && next >= list.last() ==> read_so_far(
                raw,
                extended,
                list.push(next),
            )
            &&& end <= raw.len() && end <= list[0] && next < list.last() ==> goes_backwards(
                raw,
                extended,
            )
            &&& end > raw.len() ==> !goes_backwards(raw, extended)
            &&& end > list[0] ==> !goes_backwards(raw, extended)
        }),
{
    reveal(read_so_far);
    let n = list.len() as int;
    assert(list[n - 1] == offset_at(raw, extended, n - 1));
    assert(list[0] == offset_at(raw, extended, 0));
    assert forall|k: int| 1 <= k < n implies #[trigger] offset_at(raw, extended, k) >= offset_at(
        raw,
        extended,
        k - 1,
    ) by {
        assert(list[k] >= list[k - 1]);
        assert(list[k - 1] == offset_at(raw, extended, k - 1));
    }
}

proof fn lemma_read_all(raw: Seq<u8>, extended: bool, list: Seq<u64>)
    requires
        read_so_far(raw, extended, list),
        offset_end(extended, list.len() - 1) == list[0],
    ensures
        blob_table(raw, extended) == Ok::<Seq<u64>, Error>(list),
{
    lemma_read_next(raw, extended, list);
    reveal(read_so_far);
    assert(list[0] == offset_at(raw, extended, 0));
    let width = offset_width(extended);
    let first = offset_at(raw, extended, 0) as int;
    assert(first / width == list.len() && first % width == 0);
    assert(list =~= Seq::new((first / width) as nat, |i: int| offset_at(raw, extended, i)));
}

/// Parses a cluster's blob offset table.
///
/// The table holds one offset per blob plus a final offset marking the end of the data area, so a
/// cluster with N blobs has N+1 offsets. Offsets are relative to the start of the table, which
/// means the first offset is also the table's own size - dividing it by the offset size yields the
/// number of entries.
pub fn parse_blob_list(raw: &[u8], extended: bool) -> (r: Result<Vec<u64>>)
    ensures
        match blob_table(raw@, extended) {
            Ok(table) => r matches Ok(list) && list@ == table,
            Err(err) => r == Err::<Vec<u64>, Error>(err),
        },
{
    let offset_size: u64 = if extended {
        8
    } else {
        4
    };
    let first = read_offset(raw, extended, 0)?;
    // A table must hold at least the end sentinel, and can only consist of whole offsets.
    if first < offset_size || first % offset_size != 0 {
        return Err(Error::InvalidBlobList);
    }
    let count = first / offset_size;
    assert(offset_end(extended, count - 1) == first);

    // Deliberately not pre-allocating: `count` comes straight off disk.
    let mut blob_list: Vec<u64> = Vec::new();
    blob_list.push(first);
    let mut prev = first;
    proof {
        lemma_read_first(raw@, extended);
        assert(blob_list@ =~= seq![offset_at(raw@, extended, 0)]);
    }
    for i in 1..count
        invariant
            first == offset_at(raw@, extended, 0),
            offset_size == offset_width(extended),
            first >= offset_size,
            first % offset_size == 0,
            offset_end(extended, count - 1) == first,
            blob_list@.len() == i,
            blob_list@[0] == first,
            prev == blob_list@.last(),
            read_so_far(raw@, extended, blob_list@),
    {
        proof {
            lemma_read_next(raw@, extended, blob_list@);
        }
        let offset = read_offset(raw, extended, i)?;
        if offset < prev {
            return Err(Error::InvalidBlobList);
        }
        prev = offset;
        blob_list.push(offset);
    }
    proof {
        lemma_read_all(raw@, extended, blob_list@);
    }
    Ok(blob_list)
}

/// The bytes of the blob that `table` puts at `idx` in `data`.
///
/// The offset table always holds one more entry than there are blobs; the final entry is the end
/// of the data area. So `idx` is only valid while `idx + 1` is still in the table.
pub open spec fn blob_of(data: Seq<u8>, table: Seq<u64>, idx: int) -> Result<Seq<u8>> {
    if idx >= table.len() {
        Err(Error::OutOfBounds)
    } else if table[idx] > usize::MAX {
        Err(Error::TryFromIntError)
    } else if idx + 1 >= table.len() {
        Err(Error::OutOfBounds)
    } else if table[idx + 1] > usize::MAX {
        Err(Error::TryFromIntError)
    } else if table[idx] > table[idx + 1] || table[idx + 1] > data.len() {
        Err(Error::OutOfBounds)
    } else {
        Ok(data.subrange(table[idx] as int, table[idx + 1] as int))
    }
}

/// Cuts one blob out of a cluster's data.
pub fn slice_blob<'b>(data: &'b [u8], list: &[u64], idx: u32) -> (r: Result<&'b [u8]>)
    ensures
        match blob_of(data@, list@, idx as int) {
            Ok(bytes) => r matches Ok(blob) && blob@ == bytes,
            Err(err) => r == Err::<&'b [u8], Error>(err),
        },
{
    let count = list.len();
    let idx = idx as usize;
    if idx >= count {
        return Err(Error::OutOfBounds);
    }
    let start = match usize::try_from(list[idx]) {
        Ok(start) => start,
        Err(err) => return Err(Error::from(err)),
    };
    if idx + 1 >= count {
        return Err(Error::OutOfBounds);
    }
    let end = match usize::try_from(list[idx + 1]) {
        Ok(end) => end,
        Err(err) => return Err(Error::from(err)),
    };
    if start > end || end > data.len() {
        return Err(Error::OutOfBounds);
    }
    Ok(slice_subrange(data, start, end))
}

/// Where a cluster lies in the archive, and what its first byte says of it.
#[derive(Debug, PartialEq, Eq, Clone, Copy, Structural)]
pub struct Extent {
    /// Offset of the first byte.
    pub start: u64,
    /// Offset past the last byte.
    pub end: u64,
    /// Whether blob offsets take eight bytes rather than four.
    pub extended: bool,
    /// How the payload is compressed.
    pub compression: Compression,
}

impl Extent {
    /// The extent lies within an archive of this many bytes and holds at least one.
    pub open spec fn within(self, len: int) -> bool {
        self.start < self.end <= len
    }

    /// How many bytes follow the cluster's first.
    pub open spec fn payload_len(self) -> u64 {
        (self.end - self.start - 1) as u64
    }

    /// The cluster's data can be used where it is: it is not compressed, and lies in one chunk of
    /// the archive.
    pub open spec fn stored_in_place(self, store: Store) -> bool {
        &&& self.compression == Compression::Uncompressed
        &&& self.payload_len() > 0
        &&& store.contiguous((self.start + 1) as u64, self.payload_len())
    }
}

/// The extent of the cluster at `idx`.
///
/// The last cluster runs up to the checksum, which is always the final 16 bytes. Extended
/// clusters are only allowed in version 6.
pub open spec fn cluster_extent(
    archive: Seq<u8>,
    cluster_list: Seq<u64>,
    idx: u32,
    checksum_pos: u64,
    version: u16,
) -> Result<Extent> {
    let start = cluster_list[idx as int];
    let end = if idx + 1 < cluster_list.len() {
        cluster_list[idx + 1]
    } else {
        checksum_pos
    };
    if idx >= cluster_list.len() || end <= start || end > archive.len() {
        Err(Error::OutOfBounds)
    } else {
        match details_of(archive[start as int]) {
            Err(err) => Err(err),
            Ok((extended, compression)) => if extended && version != 6 {
                Err(Error::InvalidClusterExtension)
            } else {
                Ok(Extent { start, end, extended, compression })
            },
        }
    }
}

/// What a cluster holds once its payload is decompressed.
///
/// The payload must fit the machine's memory in one piece.
pub open spec fn cluster_content(archive: Seq<u8>, extent: Extent) -> Result<Seq<u8>> {
    let payload = archive.subrange(extent.start + 1, extent.end as int);
    if payload.len() > usize::MAX {
        Err(Error::TryFromIntError)
    } else {
        match extent.compression {
            Compression::Uncompressed => Ok(payload),
            Compression::Lzma2 => match xz_decoded(payload) {
                Some(data) => Ok(data),
                None => Err(Error::Parsing(Fault::Io)),
            },
            Compression::Zstd => match zstd_decoded(payload) {
                Some(data) => Ok(data),
                None => Err(Error::Parsing(Fault::Io)),
            },
        }
    }
}

/// The offset table that a cluster's content starts with.
pub open spec fn cluster_table(archive: Seq<u8>, extent: Extent) -> Result<Seq<u64>> {
    match cluster_content(archive, extent) {
        Ok(data) => blob_table(data, extent.extended),
        Err(err) => Err(err),
    }
}

/// The bytes of the blob at `idx` of a cluster.
pub open spec fn cluster_blob(archive: Seq<u8>, extent: Extent, idx: u32) -> Result<Seq<u8>> {
    match cluster_content(archive, extent) {
        Ok(data) => match blob_table(data, extent.extended) {
            Ok(table) => blob_of(data, table, idx as int),
            Err(err) => Err(err),
        },
        Err(err) => Err(err),
    }
}

/// A cluster, and as much of its contents as has been needed so far.
pub struct InnerCluster<'a> {
    extended: bool,
    compression: Compression,
    start: u64,
    end: u64,
    size: u64,
    store: &'a Store<'a>,
    /// Offsets into the data.
    blob_list: Option<Vec<u64>>,
    /// The decompressed payload. Borrowed from the archive when it is stored as it is.
    data: Option<Cow<'a, [u8]>>,
}

impl<'a> InnerCluster<'a> {
    /// The archive that holds the cluster.
    pub closed spec fn archive(&self) -> Store<'a> {
        *self.store
    }

    /// Where the cluster lies and how it is stored.
    pub closed spec fn extent(&self) -> Extent {
        Extent {
            start: self.start,
            end: self.end,
            extended: self.extended,
            compression: self.compression,
        }
    }

    /// The data and the offset table are at hand.
    pub closed spec fn loaded(&self) -> bool {
        self.data is Some && self.blob_list is Some
    }

    /// The decompressed data, once it is at hand. It can be without the offset table.
    pub closed spec fn decoded(&self) -> Option<Seq<u8>> {
        match self.data {
            Some(data) => Some(data@),
            None => None,
        }
    }

    /// The data is at hand without having been copied out of the archive.
    pub closed spec fn borrows(&self) -> bool {
        self.data matches Some(Cow::Borrowed(_))
    }

    /// What is at hand is what the archive holds.
    pub closed spec fn wf(&self) -> bool {
        &&& self.store.wf()
        &&& self.extent().within(self.store@.len() as int)
        &&& self.size == self.end - self.start
        &&& self.data matches Some(data) ==> cluster_content(self.store@, self.extent()) == Ok::<
            Seq<u8>,
            Error,
        >(data@)
        &&& self.blob_list matches Some(list) ==> self.data is Some && cluster_table(
            self.store@,
            self.extent(),
        ) == Ok::<Seq<u64>, Error>(list@)
        &&& self.data is Some && self.extent().stored_in_place(*self.store) ==> self.borrows()
    }

    pub fn new(
        store: &'a Store<'a>,
        cluster_list: &[u64],
        idx: u32,
        checksum_pos: u64,
        version: u16,
    ) -> (r: Result<InnerCluster<'a>>)
        requires
            store.wf(),
        ensures
            match cluster_extent(store@, cluster_list@, idx, checksum_pos, version) {
                Err(err) => r == Err::<InnerCluster<'a>, Error>(err),
                Ok(extent) => {
                    &&& r matches Ok(cluster)
                    &&& cluster.wf()
                    &&& cluster.archive() == *store
                    &&& cluster.extent() == extent
                    &&& !cluster.loaded()
                    &&& cluster.decoded() is None
                },
            },
    {
        let count = cluster_list.len();
        let idx = idx as usize;
        if idx >= count {
            return Err(Error::OutOfBounds);
        }
        let start = cluster_list[idx];
        // The last cluster runs up to the checksum, which is always the final 16 bytes.
        let end = if idx + 1 < count {
            cluster_list[idx + 1]
        } else {
            checksum_pos
        };
        if end <= start || end > store.len() {
            return Err(Error::OutOfBounds);
        }
        let first = store.slice(start, 1)?;
        let (extended, compression) = parse_details(bytes_of(&first)[0])?;

        // extended clusters are only allowed in version 6
        if extended && version != 6 {
            return Err(Error::InvalidClusterExtension);
        }
        Ok(
            InnerCluster {
                extended,
                compression,
                start,
                end,
                size: end - start,
                store,
                blob_list: None,
                data: None,
            },
        )
    }

    /// Whether a blob can only be read after [`InnerCluster::decompress`].
    pub fn needs_decompression(&self) -> (needed: bool)
        ensures
            needed == !self.loaded(),
    {
        self.data.is_none() || self.blob_list.is_none()
    }

    /// The stored payload, which follows the cluster's first byte.
    fn payload(&self) -> (r: Result<Cow<'a, [u8]>>)
        requires
            self.wf(),
        ensures
            self.extent().payload_len() <= usize::MAX ==> {
                &&& r matches Ok(bytes)
                &&& bytes@ == self.archive()@.subrange(
                    self.extent().start + 1,
                    self.extent().end as int,
                )
                &&& self.extent().payload_len() > 0 && self.archive().contiguous(
                    (self.extent().start + 1) as u64,
                    self.extent().payload_len(),
                ) ==> bytes is Borrowed
            },
            self.extent().payload_len() > usize::MAX ==> r == Err::<Cow<'a, [u8]>, Error>(
                Error::TryFromIntError,
            ),
    {
        if self.size == 1 {
            let none: Vec<u8> = Vec::new();
            assert(none@ =~= self.store@.subrange(self.start + 1, self.end as int));
            return Ok(Cow::Owned(none));
        }
        self.store.slice(self.start + 1, self.size - 1)
    }

    /// Loads the cluster's data and its offset table, unless they have been already.
    ///
    /// Data whose offset table is malformed is kept, so that another attempt does not decode it
    /// again. Data that does not decode leaves the cluster as it is.
    pub fn decompress(&mut self) -> (r: Result<()>)
        requires
            old(self).wf(),
        ensures
            final(self).wf(),
            final(self).archive() == old(self).archive(),
            final(self).extent() == old(self).extent(),
            match cluster_table(old(self).archive()@, old(self).extent()) {
                Ok(_) => r is Ok && final(self).loaded(),
                Err(err) => r == Err::<(), Error>(err) && !final(self).loaded(),
            },
            cluster_content(old(self).archive()@, old(self).extent()) matches Ok(data)
                ==> final(self).decoded() == Some(data),
            cluster_content(old(self).archive()@, old(self).extent()) is Err ==> *final(self)
                == *old(self),
            old(self).loaded() ==> *final(self) == *old(self),
    {
        if self.data.is_none() {
            let payload = self.payload()?;
            let data = match self.compression {
                Compression::Uncompressed => payload,
                Compression::Lzma2 => match decode_xz(bytes_of(&payload)) {
                    Ok(data) => Cow::Owned(data),
                    Err(err) => return Err(Error::from(err)),
                },
                Compression::Zstd => match decode_zstd(bytes_of(&payload)) {
                    Ok(data) => Cow::Owned(data),
                    Err(err) => return Err(Error::from(err)),
                },
            };
            self.data = Some(data);
        }
        if self.blob_list.is_none() {
            let list = match &self.data {
                Some(data) => parse_blob_list(bytes_of(data), self.extended)?,
                None => return Err(Error::MissingBlobList),
            };
            self.blob_list = Some(list);
        }
        Ok(())
    }

    /// The blob at `idx`, of a cluster that has been loaded.
    pub fn get_blob(&self, idx: u32) -> (r: Result<&[u8]>)
        requires
            self.wf(),
        ensures
            !self.loaded() ==> r == Err::<&[u8], Error>(Error::MissingBlobList),
            self.loaded() ==> match cluster_blob(self.archive()@, self.extent(), idx) {
                Ok(bytes) => r matches Ok(blob) && blob@ == bytes,
                Err(err) => r == Err::<&[u8], Error>(err),
            },
    {
        match (&self.blob_list, &self.data) {
            (Some(list), Some(data)) => slice_blob(bytes_of(data), list.as_slice(), idx),
            _ => Err(Error::MissingBlobList),
        }
    }

    /// How many blobs there are, in a cluster that has been loaded.
    pub fn blob_count(&self) -> (r: Result<usize>)
        requires
            self.wf(),
        ensures
            !self.loaded() ==> r == Err::<usize, Error>(Error::MissingBlobList),
            self.loaded() ==> {
                &&& cluster_table(self.archive()@, self.extent()) matches Ok(table)
                &&& r matches Ok(count) && count == table.len() - 1
            },
    {
        match &self.blob_list {
            Some(list) => {
                assert(list.len() == list@.len());
                Ok(list.len() - 1)
            },
            None => Err(Error::MissingBlobList),
        }
    }
}

/// A cluster of blobs
///
/// Within an ZIM archive, clusters contain several blobs of data that are all compressed together.
/// Each blob is the data for an article.
///
/// Asking a cluster about itself does not pull its data in; that happens when a blob is first
/// asked for.
pub struct Cluster<'a>(InnerCluster<'a>);

impl<'a> Cluster<'a> {
    /// The archive that holds the cluster.
    pub closed spec fn archive(&self) -> Store<'a> {
        self.0.archive()
    }

    /// Where the cluster lies and how it is stored.
    pub closed spec fn extent(&self) -> Extent {
        self.0.extent()
    }

    /// The cluster's data is at hand.
    pub closed spec fn loaded(&self) -> bool {
        self.0.loaded()
    }

    /// The decompressed data, once it is at hand. It can be without the offset table.
    pub closed spec fn decoded(&self) -> Option<Seq<u8>> {
        self.0.decoded()
    }

    /// The data is at hand without having been copied out of the archive.
    pub closed spec fn borrows(&self) -> bool {
        self.0.borrows()
    }

    pub closed spec fn wf(&self) -> bool {
        self.0.wf()
    }

    pub fn new(
        store: &'a Store<'a>,
        cluster_list: &[u64],
        idx: u32,
        checksum_pos: u64,
        version: u16,
    ) -> (r: Result<Cluster<'a>>)
        requires
            store.wf(),
        ensures
            match cluster_extent(store@, cluster_list@, idx, checksum_pos, version) {
                Err(err) => r == Err::<Cluster<'a>, Error>(err),
                Ok(extent) => {
                    &&& r matches Ok(cluster)
                    &&& cluster.wf()
                    &&& cluster.archive() == *store
                    &&& cluster.extent() == extent
                    &&& !cluster.loaded()
                    &&& cluster.decoded() is None
                },
            },
    {
        Ok(Cluster(InnerCluster::new(store, cluster_list, idx, checksum_pos, version)?))
    }

    /// Loads the cluster's data, unless it has been already.
    pub fn decompress(&mut self) -> (r: Result<()>)
        requires
            old(self).wf(),
        ensures
            final(self).wf(),
            final(self).archive() == old(self).archive(),
            final(self).extent() == old(self).extent(),
            match cluster_table(old(self).archive()@, old(self).extent()) {
                Ok(_) => r is Ok && final(self).loaded(),
                Err(err) => r == Err::<(), Error>(err) && !final(self).loaded(),
            },
            cluster_content(old(self).archive()@, old(self).extent()) matches Ok(data)
                ==> final(self).decoded() == Some(data),
            cluster_content(old(self).archive()@, old(self).extent()) is Err ==> *final(self)
                == *old(self),
            final(self).loaded() && final(self).extent().stored_in_place(final(self).archive())
                ==> final(self).borrows(),
    {
        self.0.decompress()
    }

    pub fn compression(&self) -> (mode: Compression)
        ensures
            mode == self.extent().compression,
    {
        self.0.compression
    }

    /// Whether the cluster's data has been pulled in.
    pub fn is_loaded(&self) -> (loaded: bool)
        ensures
            loaded == self.loaded(),
    {
        !self.0.needs_decompression()
    }

    /// Loads the cluster and gives access to its blobs.
    pub fn read<'b>(&'b mut self) -> (r: Result<ClusterGuard<'b>>)
        requires
            old(self).wf(),
        ensures
            final(self).wf(),
            final(self).archive() == old(self).archive(),
            final(self).extent() == old(self).extent(),
            match cluster_table(old(self).archive()@, old(self).extent()) {
                Ok(_) => {
                    &&& r matches Ok(guard)
                    &&& guard.wf()
                    &&& guard.archive() == old(self).archive()
                    &&& guard.extent() == old(self).extent()
                    &&& final(self).loaded()
                },
                Err(err) => r == Err::<ClusterGuard<'b>, Error>(err) && !final(self).loaded(),
            },
            cluster_content(old(self).archive()@, old(self).extent()) matches Ok(data)
                ==> final(self).decoded() == Some(data),
            cluster_content(old(self).archive()@, old(self).extent()) is Err ==> *final(self)
                == *old(self),
            final(self).loaded() && final(self).extent().stored_in_place(final(self).archive())
                ==> final(self).borrows(),
    {
        self.0.decompress()?;
        Ok(ClusterGuard { cluster: &self.0 })
    }

    /// Returns a copy of the blob's bytes.
    ///
    /// Unlike [`Cluster::get_blob`], the result does not borrow from the cluster, so this can be
    /// used with a `Cluster` that is dropped straight away.
    pub fn blob_to_vec(&mut self, idx: u32) -> (r: Result<Vec<u8>>)
        requires
            old(self).wf(),
        ensures
            final(self).wf(),
            final(self).archive() == old(self).archive(),
            final(self).extent() == old(self).extent(),
            final(self).loaded() == (cluster_table(old(self).archive()@, old(self).extent()) is Ok),
            cluster_content(old(self).archive()@, old(self).extent()) matches Ok(data)
                ==> final(self).decoded() == Some(data),
            cluster_content(old(self).archive()@, old(self).extent()) is Err ==> *final(self)
                == *old(self),
            match cluster_blob(old(self).archive()@, old(self).extent(), idx) {
                Ok(bytes) => r matches Ok(blob) && blob@ == bytes,
                Err(err) => r == Err::<Vec<u8>, Error>(err),
            },
    {
        if self.0.needs_decompression() {
            self.0.decompress()?;
        }
        let blob = self.0.get_blob(idx)?;
        let mut out: Vec<u8> = Vec::new();
        out.extend_from_slice(blob);
        assert(out@ =~= blob@);
        Ok(out)
    }

    /// Returns the blob's bytes, borrowed from the cluster.
    pub fn get_blob<'b>(&'b mut self, idx: u32) -> (r: Result<Blob<'b>>)
        requires
            old(self).wf(),
        ensures
            final(self).wf(),
            final(self).archive() == old(self).archive(),
            final(self).extent() == old(self).extent(),
            final(self).loaded() == (cluster_table(old(self).archive()@, old(self).extent()) is Ok),
            cluster_content(old(self).archive()@, old(self).extent()) matches Ok(data)
                ==> final(self).decoded() == Some(data),
            cluster_content(old(self).archive()@, old(self).extent()) is Err ==> *final(self)
                == *old(self),
            match cluster_blob(old(self).archive()@, old(self).extent(), idx) {
                Ok(bytes) => r matches Ok(blob) && blob@ == bytes,
                Err(err) => r == Err::<Blob<'b>, Error>(err),
            },
            final(self).loaded() && final(self).extent().stored_in_place(final(self).archive())
                ==> final(self).borrows(),
    {
        if self.0.needs_decompression() {
            self.0.decompress()?;
        }
        Ok(Blob { slice: self.0.get_blob(idx)? })
    }
}

impl<'a> Clone for Cluster<'a> {
    /// A cluster of its own, with as much at hand as this one has.
    fn clone(&self) -> (cluster: Cluster<'a>)
        ensures
            self.wf() ==> cluster.wf(),
            cluster.archive() == self.archive(),
            cluster.extent() == self.extent(),
            cluster.loaded() == self.loaded(),
            cluster.decoded() == self.decoded(),
            cluster.borrows() == self.borrows(),
    {
        let inner = &self.0;
        let data = match &inner.data {
            Some(Cow::Borrowed(raw)) => Some(Cow::Borrowed(*raw)),
            Some(Cow::Owned(raw)) => {
                let copy = raw.clone();
                assert(copy@ =~= raw@);
                Some(Cow::Owned(copy))
            },
            None => None,
        };
        let blob_list = match &inner.blob_list {
            Some(list) => {
                let copy = list.clone();
                assert(copy@ =~= list@);
                Some(copy)
            },
            None => None,
        };
        Cluster(
            InnerCluster {
                extended: inner.extended,
                compression: inner.compression,
                start: inner.start,
                end: inner.end,
                size: inner.size,
                store: inner.store,
                blob_list,
                data,
            },
        )
    }
}

/// A cluster whose data is at hand.
pub struct ClusterGuard<'b> {
    cluster: &'b InnerCluster<'b>,
}

impl<'b> ClusterGuard<'b> {
    /// The archive that holds the cluster.
    pub closed spec fn archive(&self) -> Store<'b> {
        self.cluster.archive()
    }

    /// Where the cluster lies and how it is stored.
    pub closed spec fn extent(&self) -> Extent {
        self.cluster.extent()
    }

    pub closed spec fn wf(&self) -> bool {
        self.cluster.wf() && self.cluster.loaded()
    }

    /// The blob at `idx`.
    pub fn blob(&self, idx: u32) -> (r: Result<&'b [u8]>)
        requires
            self.wf(),
        ensures
            match cluster_blob(self.archive()@, self.extent(), idx) {
                Ok(bytes) => r matches Ok(blob) && blob@ == bytes,
                Err(err) => r == Err::<&'b [u8], Error>(err),
            },
    {
        self.cluster.get_blob(idx)
    }

    /// How many blobs the cluster holds.
    pub fn blob_count(&self) -> (count: usize)
        requires
            self.wf(),
        ensures
            cluster_table(self.archive()@, self.extent()) matches Ok(table) && count == table.len()
                - 1,
    {
        match self.cluster.blob_count() {
            Ok(count) => count,
            Err(_) => 0,
        }
    }
}

/// The bytes of one blob.
pub struct Blob<'b> {
    slice: &'b [u8],
}

impl<'b> View for Blob<'b> {
    type V = Seq<u8>;

    closed spec fn view(&self) -> Seq<u8> {
        self.slice@
    }
}

impl<'b> std::ops::Deref for Blob<'b> {
    type Target = [u8];

    fn deref(&self) -> (bytes: &[u8])
        ensures
            bytes@ == self@,
    {
        self.slice
    }
}

impl<'b> AsRef<[u8]> for Blob<'b> {
    fn as_ref(&self) -> (bytes: &[u8])
        ensures
            bytes@ == self@,
    {
        self.slice
    }
}

/// A valid offset table is its own size in bytes, lies within the data it heads, and never goes
/// backwards.
pub proof fn blob_table_is_ordered(data: Seq<u8>, extended: bool, i: int, j: int)
    requires
        blob_table(data, extended) is Ok,
        0 <= i <= j < blob_table(data, extended)->Ok_0.len(),
    ensures
        ({
            let table = blob_table(data, extended)->Ok_0;
            &&& table[0] == offset_width(extended) * table.len()
            &&& table[0] <= data.len()
            &&& table[i] <= table[j]
        }),
    decreases j - i,
{
    let table = blob_table(data, extended)->Ok_0;
    let first = offset_at(data, extended, 0);
    assert(table[0] == first);
    if i < j {
        blob_table_is_ordered(data, extended, i, j - 1);
        assert(table[j] == offset_at(data, extended, j));
        assert(table[j - 1] == offset_at(data, extended, j - 1));
        assert(offset_end(extended, j) <= first);
    }
}

/// The end sentinel of an offset table is not a blob, and nor is any index past it.
pub proof fn end_sentinel_is_not_a_blob(data: Seq<u8>, extended: bool, idx: int)
    requires
        blob_table(data, extended) is Ok,
        idx >= blob_table(data, extended)->Ok_0.len() - 1,
    ensures
        blob_of(data, blob_table(data, extended)->Ok_0, idx) is Err,
{
}

/// When the end of the data area lies within the data, every blob can be read.
pub proof fn every_blob_is_readable(data: Seq<u8>, extended: bool, idx: int)
    requires
        data.len() <= usize::MAX,
        blob_table(data, extended) is Ok,
        blob_table(data, extended)->Ok_0.last() <= data.len(),
        0 <= idx < blob_table(data, extended)->Ok_0.len() - 1,
    ensures
        blob_of(data, blob_table(data, extended)->Ok_0, idx) is Ok,
{
    let table = blob_table(data, extended)->Ok_0;
    blob_table_is_ordered(data, extended, idx, idx + 1);
    blob_table_is_ordered(data, extended, idx + 1, table.len() - 1);
}

/// The first `n` blobs of a cluster's data.
pub open spec fn blobs(data: Seq<u8>, table: Seq<u64>, n: int) -> Seq<Seq<u8>> {
    Seq::new(n as nat, |i: int| blob_of(data, table, i)->Ok_0)
}

/// Cutting at offsets that never go backwards leaves nothing out.
proof fn lemma_tiles(data: Seq<u8>, table: Seq<u64>, n: int)
    requires
        data.len() <= usize::MAX,
        0 <= n < table.len(),
        forall|i: int, j: int| 0 <= i <= j < table.len() ==> table[i] <= table[j],
        table.last() <= data.len(),
    ensures
        joined(blobs(data, table, n)) == data.subrange(table[0] as int, table[n] as int),
    decreases n,
{
    let all = blobs(data, table, n);
    if n == 0 {
        assert(data.subrange(table[0] as int, table[0] as int) =~= Seq::<u8>::empty());
    } else {
        lemma_tiles(data, table, n - 1);
        assert(all.drop_last() =~= blobs(data, table, n - 1));
        assert(all.last() == data.subrange(table[n - 1] as int, table[n] as int));
        assert(joined(all) =~= data.subrange(table[0] as int, table[n] as int));
    }
}

/// The blobs lie side by side and leave nothing out: together they are the data between the
/// offset table and the last blob's end.
pub proof fn blobs_tile_the_data(data: Seq<u8>, extended: bool, n: int)
    requires
        data.len() <= usize::MAX,
        blob_table(data, extended) is Ok,
        blob_table(data, extended)->Ok_0.last() <= data.len(),
        0 <= n < blob_table(data, extended)->Ok_0.len(),
    ensures
        ({
            let table = blob_table(data, extended)->Ok_0;
            joined(blobs(data, table, n)) == data.subrange(table[0] as int, table[n] as int)
        }),
{
    let table = blob_table(data, extended)->Ok_0;
    assert forall|i: int, j: int| 0 <= i <= j < table.len() implies table[i] <= table[j] by {
        blob_table_is_ordered(data, extended, i, j);
    }
    lemma_tiles(data, table, n);
}

/// Whatever a cluster's compression, the blob at `idx` is what lies between two neighbouring
/// offsets of its table in its decompressed data.
pub proof fn cluster_blobs_lie_between_offsets(
    archive: Seq<u8>,
    extent: Extent,
    data: Seq<u8>,
    table: Seq<u64>,
    idx: u32,
)
    requires
        data.len() <= usize::MAX,
        cluster_content(archive, extent) == Ok::<Seq<u8>, Error>(data),
        blob_table(data, extent.extended) == Ok::<Seq<u64>, Error>(table),
    ensures
        cluster_table(archive, extent) == Ok::<Seq<u64>, Error>(table),
        idx + 1 < table.len() && table[idx + 1] <= data.len() ==> cluster_blob(archive, extent, idx)
            == Ok::<Seq<u8>, Error>(
            data.subrange(table[idx as int] as int, table[idx + 1] as int),
        ),
        idx + 1 < table.len() && table[idx + 1] > data.len() ==> cluster_blob(
            archive,
            extent,
            idx,
        ) is Err,
        idx + 1 < table.len() && data.len() < table[idx + 1] <= usize::MAX ==> cluster_blob(
            archive,
            extent,
            idx,
        ) == Err::<Seq<u8>, Error>(Error::OutOfBounds),
        idx + 1 >= table.len() ==> cluster_blob(archive, extent, idx) is Err,
        idx + 1 == table.len() && table[idx as int] <= usize::MAX ==> cluster_blob(
            archive,
            extent,
            idx,
        ) == Err::<Seq<u8>, Error>(Error::OutOfBounds),
        idx >= table.len() ==> cluster_blob(archive, extent, idx) == Err::<Seq<u8>, Error>(
            Error::OutOfBounds,
        ),
{
    if idx + 1 < table.len() {
        blob_table_is_ordered(data, extent.extended, idx as int, idx + 1);
    }
}

/// The first `n` blobs of a cluster.
pub open spec fn cluster_blobs(archive: Seq<u8>, extent: Extent, n: int) -> Seq<Seq<u8>> {
    Seq::new(n as nat, |i: int| cluster_blob(archive, extent, i as u32)->Ok_0)
}

/// The blobs of a cluster, joined in order, are its data between the offset table and the last
/// offset, whatever its compression.
pub proof fn cluster_blobs_tile_the_data(
    archive: Seq<u8>,
    extent: Extent,
    data: Seq<u8>,
    table: Seq<u64>,
)
    requires
        data.len() <= usize::MAX,
        cluster_content(archive, extent) == Ok::<Seq<u8>, Error>(data),
        blob_table(data, extent.extended) == Ok::<Seq<u64>, Error>(table),
        table.last() <= data.len(),
        table.len() <= u32::MAX,
    ensures
        table.len() > 0,
        forall|i: u32| i + 1 < table.len() ==> #[trigger] cluster_blob(archive, extent, i) is Ok,
        joined(cluster_blobs(archive, extent, table.len() - 1)) == data.subrange(
            table[0] as int,
            table.last() as int,
        ),
{
    let n = table.len() - 1;
    blobs_tile_the_data(data, extent.extended, n);
    assert forall|i: u32| i + 1 < table.len() implies #[trigger] cluster_blob(
        archive,
        extent,
        i,
    ) is Ok by {
        every_blob_is_readable(data, extent.extended, i as int);
    }
    assert(cluster_blobs(archive, extent, n) =~= blobs(data, table, n));
}

/// A cluster's payload is what follows its first byte, up to its end. It is the data as it is, or
/// what the decoder for its compression makes of it.
pub proof fn cluster_data_is_the_decoded_payload(archive: Seq<u8>, extent: Extent, data: Seq<u8>)
    requires
        extent.start < extent.end <= archive.len(),
        extent.end - extent.start - 1 <= usize::MAX,
    ensures
        ({
            let payload = archive.skip(extent.start + 1).take(extent.end - extent.start - 1);
            let content = cluster_content(archive, extent);
            &&& extent.compression == Compression::Uncompressed ==> content == Ok::<Seq<u8>, Error>(
                payload,
            )
            &&& extent.compression == Compression::Lzma2 ==> (content == Ok::<Seq<u8>, Error>(data)
                <==> xz_decoded(payload) == Some(data))
            &&& extent.compression == Compression::Zstd ==> (content == Ok::<Seq<u8>, Error>(data)
                <==> zstd_decoded(payload) == Some(data))
            &&& content matches Err(err) ==> err == Error::Parsing(Fault::Io)
            &&& content is Err && extent.compression == Compression::Lzma2 ==> xz_decoded(
                payload,
            ) is None
            &&& content is Err && extent.compression == Compression::Zstd ==> zstd_decoded(
                payload,
            ) is None
        }),
{
    assert(archive.skip(extent.start + 1).take(extent.end - extent.start - 1)
        =~= archive.subrange(extent.start + 1, extent.end as int));
}

/// A table that is written is read back: offsets that never go backwards, the first of which is
/// the size of them all, stored one after the other in four bytes each, or in eight if extended.
pub proof fn written_tables_are_read_back(raw: Seq<u8>, extended: bool, table: Seq<u64>)
    requires
        table.len() > 0,
        table[0] == table.len() * (if extended { 8int } else { 4int }),
        table[0] <= raw.len(),
        forall|i: int, j: int| 0 <= i <= j < table.len() ==> table[i] <= table[j],
        extended ==> forall|i: int| 0 <= i < table.len() ==> #[trigger] table[i] == u64_at(
            raw,
            8 * i,
        ),
        !extended ==> forall|i: int| 0 <= i < table.len() ==> #[trigger] table[i] == u32_at(
            raw,
            4 * i,
        ),
    ensures
        blob_table(raw, extended) == Ok::<Seq<u64>, Error>(table),
{
    let width = offset_width(extended);
    let first = offset_at(raw, extended, 0) as int;
    assert(first == table[0]);
    assert(first / width == table.len() && first % width == 0);
    assert forall|i: int| 0 <= i < table.len() implies #[trigger] table[i] == offset_at(
        raw,
        extended,
        i,
    ) by {}
    assert(!goes_backwards(raw, extended)) by {
        assert forall|i: int|
            1 <= i && offset_end(extended, i) <= first implies #[trigger] offset_at(
            raw,
            extended,
            i,
        ) >= offset_at(raw, extended, i - 1) by {
            assert(table[i] == offset_at(raw, extended, i));
            assert(table[i - 1] == offset_at(raw, extended, i - 1));
        }
    }
    assert(table =~= Seq::new((first / width) as nat, |i: int| offset_at(raw, extended, i)));
}

/// A table that is read is what is stored: its first offset says how many there are, and each is
/// the number at its place.
pub proof fn read_tables_are_what_is_stored(raw: Seq<u8>, extended: bool, i: int)
    requires
        blob_table(raw, extended) is Ok,
    ensures
        ({
            let table = blob_table(raw, extended)->Ok_0;
            &&& table.len() > 0
            &&& extended ==> 8 * table.len() == u64_at(raw, 0) && 8 * table.len() <= raw.len()
            &&& !extended ==> 4 * table.len() == u32_at(raw, 0) && 4 * table.len() <= raw.len()
            &&& 0 <= i < table.len() && extended ==> table[i] == u64_at(raw, 8 * i)
            &&& 0 <= i < table.len() && !extended ==> table[i] == u32_at(raw, 4 * i)
        }),
{
}

/// A table is refused for one of three reasons: it is cut off, its first offset is not a number of
/// whole offsets, or an offset is below the one before it. Offsets in front of where it is cut off
/// still count.
pub proof fn refused_tables_are_malformed(raw: Seq<u8>, extended: bool, at: int)
    requires
        blob_table(raw, extended) is Err,
    ensures
        ({
            let width = if extended { 8int } else { 4int };
            let first = if extended { u64_at(raw, 0) as int } else { u32_at(raw, 0) as int };
            let err = blob_table(raw, extended)->Err_0;
            &&& err == Error::Parsing(Fault::Io) || err == Error::InvalidBlobList
            &&& err == Error::Parsing(Fault::Io) ==> raw.len() < width || raw.len() < first
            &&& raw.len() < width ==> err == Error::Parsing(Fault::Io)
            &&& raw.len() >= width && (first < width || first % width != 0) ==> err
                == Error::InvalidBlobList
            &&& err == Error::InvalidBlobList && first >= width && first % width == 0 ==> exists|
                i: int,
            |
                1 <= i && width * (i + 1) <= first && width * (i + 1) <= raw.len()
                    && #[trigger] offset_at(raw, extended, i) < offset_at(raw, extended, i - 1)
            &&& raw.len() >= width && 1 <= at && width * (at + 1) <= first && width * (at + 1)
                <= raw.len() && offset_at(raw, extended, at) < offset_at(raw, extended, at - 1)
                ==> err == Error::InvalidBlobList
        }),
{
}

/// The fifth bit of a cluster's first byte says whether it is extended, the four below it are the
/// number of its compression, and the upper three say nothing.
pub proof fn details_are_cut_by_bits(upper: u8, extended: bool, number: u8)
    requires
        upper < 8,
        number < 16,
    ensures
        details_of((32 * upper + (if extended { 16int } else { 0int }) + number) as u8) == (
        if number == 0 || number == 1 {
            Ok::<(bool, Compression), Error>((extended, Compression::Uncompressed))
        } else if number == 4 {
            Ok((extended, Compression::Lzma2))
        } else if number == 5 {
            Ok((extended, Compression::Zstd))
        } else if number == 2 || number == 3 {
            Err(Error::UnsupportedCompression(number))
        } else {
            Err(Error::UnknownCompression(number))
        }),
{
}

/// A cluster reaches from its own pointer to the next one, and the last to the checksum, so that
/// neighbouring clusters leave nothing out. Its first byte says the rest.
pub proof fn clusters_lie_side_by_side(
    archive: Seq<u8>,
    list: Seq<u64>,
    idx: u32,
    checksum_pos: u64,
    version: u16,
)
    ensures
        cluster_extent(archive, list, idx, checksum_pos, version) matches Ok(extent) ==> {
            &&& idx < list.len()
            &&& extent.start == list[idx as int]
            &&& idx + 1 < list.len() ==> extent.end == list[idx + 1]
            &&& idx + 1 == list.len() ==> extent.end == checksum_pos
            &&& extent.start < extent.end <= archive.len()
            &&& details_of(archive[extent.start as int]) == Ok::<(bool, Compression), Error>(
                (extent.extended, extent.compression),
            )
            &&& extent.extended ==> version == 6
        },
        cluster_extent(archive, list, idx, checksum_pos, version) matches Err(err) ==> {
            ||| err == Error::OutOfBounds && idx >= list.len()
            ||| err == Error::OutOfBounds && idx + 1 < list.len() && (list[idx + 1]
                <= list[idx as int] || list[idx + 1] > archive.len())
            ||| err == Error::OutOfBounds && idx + 1 == list.len() && (checksum_pos
                <= list[idx as int] || checksum_pos > archive.len())
            ||| idx < list.len() && details_of(archive[list[idx as int] as int]) == Err::<
                (bool, Compression),
                Error,
            >(err)
            ||| err == Error::InvalidClusterExtension && version != 6 && idx < list.len()
                && details_of(archive[list[idx as int] as int]) matches Ok((true, _))
        },
{
}

/// Where a cluster's data or its offset table cannot be read, neither can any of its blobs, and for
/// the same reason.
pub proof fn blobs_fail_like_their_cluster(archive: Seq<u8>, extent: Extent, idx: u32)
    ensures
        cluster_content(archive, extent) matches Err(err) ==> {
            &&& cluster_table(archive, extent) == Err::<Seq<u64>, Error>(err)
            &&& cluster_blob(archive, extent, idx) == Err::<Seq<u8>, Error>(err)
        },
        cluster_content(archive, extent) matches Ok(data) ==> blob_table(
            data,
            extent.extended,
        ) matches Err(err) ==> {
            &&& cluster_table(archive, extent) == Err::<Seq<u64>, Error>(err)
            &&& cluster_blob(archive, extent, idx) == Err::<Seq<u8>, Error>(err)
        },
{
}

/// Which number stands for which compression: two numbers for none at all, two that have been
/// removed, and every other is unknown.
pub proof fn compressions_have_their_numbers(raw: u8)
    ensures
        Compression::Uncompressed.number() == 1,
        Compression::Lzma2.number() == 4,
        Compression::Zstd.number() == 5,
        Compression::of_number(raw) == Ok::<Compression, Error>(Compression::Uncompressed) <==> raw
            <= 1,
        Compression::of_number(raw) == Ok::<Compression, Error>(Compression::Lzma2) <==> raw == 4,
        Compression::of_number(raw) == Ok::<Compression, Error>(Compression::Zstd) <==> raw == 5,
        raw == 2 || raw == 3 ==> Compression::of_number(raw) == Err::<Compression, Error>(
            Error::UnsupportedCompression(raw),
        ),
        raw > 5 ==> Compression::of_number(raw) == Err::<Compression, Error>(
            Error::UnknownCompression(raw),
        ),
{
}

/// What a cluster has at hand is what the archive holds there: its decompressed data, and with it
/// the offset table once it is loaded. Nothing is borrowed before it is at hand.
pub proof fn clusters_hold_what_is_stored(cluster: Cluster)
    requires
        cluster.wf(),
    ensures
        cluster.archive().wf(),
        cluster.extent().start < cluster.extent().end <= cluster.archive()@.len(),
        cluster.decoded() matches Some(data) ==> cluster_content(
            cluster.archive()@,
            cluster.extent(),
        ) == Ok::<Seq<u8>, Error>(data),
        cluster.loaded() ==> cluster.decoded() is Some && cluster_table(
            cluster.archive()@,
            cluster.extent(),
        ) is Ok,
        cluster.borrows() ==> cluster.decoded() is Some,
        cluster.decoded() is Some && cluster.extent().stored_in_place(cluster.archive())
            ==> cluster.borrows(),
{
}

/// A guard is one on a cluster that is loaded.
pub proof fn guards_hold_loaded_clusters(guard: ClusterGuard)
    requires
        guard.wf(),
    ensures
        guard.archive().wf(),
        guard.extent().start < guard.extent().end <= guard.archive()@.len(),
        cluster_content(guard.archive()@, guard.extent()) is Ok,
        cluster_table(guard.archive()@, guard.extent()) is Ok,
{
}

/// The data of a cluster that is not compressed is used where it is, if it ends by the end of the
/// chunk that it starts in. In an archive that is one file it always does. Compressed data is never
/// used where it is.
pub proof fn uncompressed_clusters_are_used_in_place(store: Store, extent: Extent)
    requires
        extent.start + 1 < extent.end <= store@.len(),
    ensures
        extent.stored_in_place(store) <==> extent.compression == Compression::Uncompressed
            && extent.end <= chunk_end(store.chunks(), extent.start + 1),
        store.chunks().len() == 1 ==> (extent.stored_in_place(store) <==> extent.compression
            == Compression::Uncompressed),
{
    if store.chunks().len() == 1 {
        let len = (extent.end - extent.start - 1) as u64;
        single_files_are_contiguous(store, (extent.start + 1) as u64, len);
    }
}

} // verus!
