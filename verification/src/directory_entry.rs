//! Directory entries, which say what an archive holds and where.
use crate::errors::{Error, Fault, Result};
use crate::mime_type::{first_zero, lemma_first_zero, lemma_first_zero_bounds};
use crate::mime_type::{mime_of, mime_type, texts};
use crate::mime_type::{MimeType, MimeView};
use crate::namespace::Namespace;
use crate::raw::{read_u16, read_u32};
use crate::raw::{u16_at, u32_at};
use crate::store::{bytes_of, vec_of, Store};
use std::borrow::Cow;
use vstd::prelude::*;
use vstd::utf8::{decode_utf8, decode_utf8_encode_utf8, encode_utf8, encode_utf8_decode_utf8};
use vstd::utf8::{encode_utf8_valid_utf8, valid_utf8};

verus! {

/// What a directory entry leads to.
#[derive(Debug, Clone, Copy, PartialEq, Eq, Structural)]
pub enum Target {
    /// A blob, by the index of its cluster and its own index in there.
    Cluster(u32, u32),
    /// Another directory entry, by its index in path order.
    Redirect(u32),
}

/// One entry of an archive's directory.
#[derive(Debug, PartialEq, Eq)]
pub struct DirectoryEntry {
    /// What the entry is.
    pub mime_type: MimeType,
    /// Defines to which namespace the entry belongs.
    pub namespace: Namespace,
    /// Identifies a revision of the contents of the entry.
    pub revision: u32,
    /// The path of the entry, without its namespace.
    pub url: String,
    /// The title of the entry. Empty when it is the same as the path.
    pub title: String,
    /// Where the contents are, or which entry stands in for this one.
    pub target: Option<Target>,
}

/// [`DirectoryEntry`], as contracts speak of it.
#[verifier::ext_equal]
pub ghost struct EntryView {
    pub mime_type: MimeView,
    pub namespace: Namespace,
    pub revision: u32,
    pub url: Seq<char>,
    pub title: Seq<char>,
    pub target: Option<Target>,
}

impl View for DirectoryEntry {
    type V = EntryView;

    open spec fn view(&self) -> EntryView {
        EntryView {
            mime_type: self.mime_type@,
            namespace: self.namespace,
            revision: self.revision,
            url: self.url@,
            title: self.title@,
            target: self.target,
        }
    }
}

impl Clone for DirectoryEntry {
    fn clone(&self) -> (entry: DirectoryEntry)
        ensures
            entry@ == self@,
    {
        DirectoryEntry {
            mime_type: self.mime_type.clone(),
            namespace: self.namespace,
            revision: self.revision,
            url: self.url.clone(),
            title: self.title.clone(),
            target: self.target,
        }
    }
}

/// The text at `pos`, which a zero byte ends, and the offset past that byte.
pub open spec fn text_at(raw: Seq<u8>, pos: int) -> Result<(Seq<char>, int)> {
    let end = first_zero(raw, pos);
    let text = raw.subrange(pos, end);
    if end >= raw.len() {
        Err(Error::UnterminatedString)
    } else if end - pos > usize::MAX {
        Err(Error::TryFromIntError)
    } else if !valid_utf8(text) {
        Err(Error::Parsing(Fault::Utf8))
    } else {
        Ok((decode_utf8(text), end + 1))
    }
}

/// The rest of an entry, from the path on.
pub open spec fn entry_tail(raw: Seq<u8>, pos: int, head: EntryView) -> Result<EntryView> {
    match text_at(raw, pos) {
        Err(err) => Err(err),
        Ok((url, next)) => match text_at(raw, next) {
            Err(err) => Err(err),
            Ok((title, _)) => Ok(EntryView { url, title, ..head }),
        },
    }
}

/// The directory entry at `offset`, in an archive with these MIME types.
///
/// It is made up of the type (two bytes), the length of parameters that nothing uses (one byte),
/// the namespace (one byte), the revision (four bytes), for a redirect the index of its target
/// (four bytes) or for contents the cluster and the blob (four bytes each), the path and the
/// title.
pub open spec fn entry_at(raw: Seq<u8>, offset: int, mimes: Seq<Seq<char>>) -> Result<EntryView> {
    let left = raw.len() - offset;
    if left < 0 {
        Err(Error::OutOfBounds)
    } else if left < 2 {
        Err(Error::Parsing(Fault::Io))
    } else {
        match mime_of(mimes, u16_at(raw, offset)) {
            None => Err(Error::UnknownMimeType),
            Some(mime_type) => {
                let head = EntryView {
                    mime_type,
                    namespace: Namespace::of_byte(raw[offset + 3]),
                    revision: u32_at(raw, offset + 4),
                    url: Seq::empty(),
                    title: Seq::empty(),
                    target: None,
                };
                match mime_type {
                    MimeView::Redirect => if left < 12 {
                        Err(Error::Parsing(Fault::Io))
                    } else {
                        let target = Some(Target::Redirect(u32_at(raw, offset + 8)));
                        entry_tail(raw, offset + 12, EntryView { target, ..head })
                    },
                    MimeView::LinkTarget | MimeView::DeletedEntry => if left < 8 {
                        Err(Error::Parsing(Fault::Io))
                    } else {
                        entry_tail(raw, offset + 8, head)
                    },
                    MimeView::Type(_) => if left < 16 {
                        Err(Error::Parsing(Fault::Io))
                    } else {
                        let target = Some(
                            Target::Cluster(u32_at(raw, offset + 8), u32_at(raw, offset + 12)),
                        );
                        entry_tail(raw, offset + 16, EntryView { target, ..head })
                    },
                }
            },
        }
    }
}

/// Reads a text that a zero byte ends, and says where it ends.
fn read_text(store: &Store, pos: u64) -> (r: Result<(String, u64)>)
    requires
        store.wf(),
        pos <= store@.len(),
    ensures
        match text_at(store@, pos as int) {
            Ok((text, next)) => {
                &&& r matches Ok((string, past))
                &&& string@ == text
                &&& past == next <= store@.len()
            },
            Err(err) => r == Err::<(String, u64), Error>(err),
        },
{
    let file_len = store.len();
    let end = match store.zero_from(pos) {
        Some(end) => {
            proof {
                lemma_first_zero(store@, pos as int, end as int);
            }
            end
        },
        None => {
            proof {
                lemma_first_zero(store@, pos as int, store@.len() as int);
            }
            return Err(Error::UnterminatedString);
        },
    };
    let raw = store.slice(pos, end - pos)?;
    match String::from_utf8(vec_of(raw)) {
        Ok(text) => Ok((text, end + 1)),
        Err(err) => Err(Error::from(err)),
    }
}

/// Reads a 32 bit number of an entry's fixed part.
fn read_field(head: &[u8], at: u64) -> (r: Result<u32>)
    ensures
        at + 4 <= head@.len() ==> r == Ok::<u32, Error>(u32_at(head@, at as int)),
        at + 4 > head@.len() ==> r == Err::<u32, Error>(Error::Parsing(Fault::Io)),
{
    match read_u32(head, at) {
        Ok(val) => Ok(val),
        Err(err) => Err(Error::from(err)),
    }
}

/// The bytes of an entry's fixed part, or fewer where the archive ends.
fn read_head<'a>(store: &Store<'a>, offset: u64) -> (r: Result<Cow<'a, [u8]>>)
    requires
        store.wf(),
    ensures
        offset > store@.len() ==> r == Err::<Cow<'a, [u8]>, Error>(Error::OutOfBounds),
        offset <= store@.len() ==> {
            let end = if offset + 16 <= store@.len() { offset + 16 } else { store@.len() as int };
            r matches Ok(head) && head@ == store@.subrange(offset as int, end)
        },
{
    let file_len = store.len();
    if offset == file_len {
        let none: Vec<u8> = Vec::new();
        assert(none@ =~= store@.subrange(offset as int, offset as int));
        return Ok(Cow::Owned(none));
    }
    store.slice_upto(offset, 16)
}

impl DirectoryEntry {
    /// Reads the directory entry at `offset`.
    pub fn new(store: &Store, mime_table: &[String], offset: u64) -> (r: Result<DirectoryEntry>)
        requires
            store.wf(),
        ensures
            match entry_at(store@, offset as int, texts(mime_table@)) {
                Ok(view) => r matches Ok(entry) && entry@ == view,
                Err(err) => r == Err::<DirectoryEntry, Error>(err),
            },
    {
        let file_len = store.len();
        let view = read_head(store, offset)?;
        let head = bytes_of(&view);
        let mime_id = match read_u16(head, 0) {
            Ok(id) => id,
            Err(err) => return Err(Error::from(err)),
        };
        let mime_type = match mime_type(mime_table, mime_id) {
            Some(mime_type) => mime_type,
            None => return Err(Error::UnknownMimeType),
        };
        // The byte in front of the namespace counts parameters, which nothing uses.
        let revision = read_field(head, 4)?;
        let namespace = Namespace::from(head[3]);
        let (target, text_pos) = match &mime_type {
            MimeType::Redirect => {
                // an index into the path pointer list
                (Some(Target::Redirect(read_field(head, 8)?)), offset + 12)
            },
            MimeType::LinkTarget | MimeType::DeletedEntry => (None, offset + 8),
            MimeType::Type(_) => {
                let cluster = read_field(head, 8)?;
                let blob = read_field(head, 12)?;
                (Some(Target::Cluster(cluster, blob)), offset + 16)
            },
        };
        let (url, title_pos) = read_text(store, text_pos)?;
        let (title, _) = read_text(store, title_pos)?;
        Ok(DirectoryEntry { mime_type, namespace, revision, url, title, target })
    }
}

/// A view has the fields of the entry that it is the view of.
pub proof fn entry_views_are_faithful(entry: DirectoryEntry)
    ensures
        entry@.mime_type == entry.mime_type@,
        entry@.namespace == entry.namespace,
        entry@.revision == entry.revision,
        entry@.url == entry.url@,
        entry@.title == entry.title@,
        entry@.target == entry.target,
{
}

/// A text that is written is read back: its bytes, none of which is zero, and then a zero byte.
pub proof fn written_texts_are_read_back(raw: Seq<u8>, pos: int, text: Seq<char>)
    requires
        0 <= pos,
        ({
            let bytes = encode_utf8(text);
            &&& pos + bytes.len() < raw.len()
            &&& bytes.len() <= usize::MAX
            &&& forall|i: int| 0 <= i < bytes.len() ==> #[trigger] bytes[i] != 0
            &&& raw.subrange(pos, pos + bytes.len()) == bytes
            &&& raw[pos + bytes.len()] == 0
        }),
    ensures
        text_at(raw, pos) == Ok::<(Seq<char>, int), Error>(
            (text, pos + encode_utf8(text).len() + 1),
        ),
{
    let bytes = encode_utf8(text);
    let end = pos + bytes.len();
    assert forall|k: int| pos <= k < end implies #[trigger] raw[k] != 0 by {
        assert(raw.subrange(pos, end)[k - pos] == raw[k]);
    }
    lemma_first_zero(raw, pos, end);
    encode_utf8_valid_utf8(text);
    encode_utf8_decode_utf8(text);
}

/// A text that is read is what is stored: the bytes up to the first zero byte are its encoding.
pub proof fn read_texts_are_what_is_stored(raw: Seq<u8>, pos: int)
    requires
        0 <= pos <= raw.len(),
        text_at(raw, pos) is Ok,
    ensures
        ({
            let (text, next) = text_at(raw, pos)->Ok_0;
            &&& pos < next <= raw.len()
            &&& raw[next - 1] == 0
            &&& raw.subrange(pos, next - 1) == encode_utf8(text)
            &&& forall|k: int| pos <= k < next - 1 ==> #[trigger] raw[k] != 0
        }),
{
    lemma_first_zero_bounds(raw, pos);
    lemma_no_zero_before(raw, pos);
    decode_utf8_encode_utf8(raw.subrange(pos, first_zero(raw, pos)));
}

proof fn lemma_no_zero_before(raw: Seq<u8>, pos: int)
    requires
        0 <= pos <= raw.len(),
    ensures
        forall|k: int| pos <= k < first_zero(raw, pos) ==> #[trigger] raw[k] != 0,
        first_zero(raw, pos) < raw.len() ==> raw[first_zero(raw, pos)] == 0,
    decreases raw.len() - pos,
{
    if pos < raw.len() && raw[pos] != 0 {
        lemma_no_zero_before(raw, pos + 1);
    }
}

/// A text is refused where no zero byte ends it, and where it is not UTF-8.
pub proof fn refused_texts_are_malformed(raw: Seq<u8>, pos: int)
    requires
        0 <= pos <= raw.len() <= usize::MAX,
        text_at(raw, pos) is Err,
    ensures
        text_at(raw, pos) == Err::<(Seq<char>, int), Error>(Error::UnterminatedString) <==> (
        forall|k: int| pos <= k < raw.len() ==> #[trigger] raw[k] != 0),
        text_at(raw, pos) != Err::<(Seq<char>, int), Error>(Error::UnterminatedString)
            ==> text_at(raw, pos) == Err::<(Seq<char>, int), Error>(Error::Parsing(Fault::Utf8)),
{
    lemma_first_zero_bounds(raw, pos);
    lemma_no_zero_before(raw, pos);
    if forall|k: int| pos <= k < raw.len() ==> #[trigger] raw[k] != 0 {
        lemma_first_zero(raw, pos, raw.len() as int);
    }
}

/// Whatever an entry's type, each of its fields is what is stored at its place: the namespace
/// byte, the revision, what it leads to, the path where the fixed part ends, and the title
/// directly behind the path.
pub proof fn entries_are_read_field_by_field(raw: Seq<u8>, offset: int, mimes: Seq<Seq<char>>)
    requires
        0 <= offset,
        entry_at(raw, offset, mimes) is Ok,
    ensures
        ({
            let entry = entry_at(raw, offset, mimes)->Ok_0;
            let id = u16_at(raw, offset);
            let start = offset + (if id == 0xffff {
                12int
            } else if id == 0xfffe || id == 0xfffd {
                8int
            } else {
                16int
            });
            let path = text_at(raw, start);
            &&& start <= raw.len()
            &&& entry.namespace.byte() == raw[offset + 3]
            &&& entry.namespace == Namespace::of_byte(raw[offset + 3])
            &&& entry.revision == u32_at(raw, offset + 4)
            &&& path is Ok
            &&& path->Ok_0.0 == entry.url
            &&& text_at(raw, path->Ok_0.1) is Ok
            &&& text_at(raw, path->Ok_0.1)->Ok_0.0 == entry.title
            &&& id == 0xffff ==> entry.mime_type == MimeView::Redirect && entry.target == Some(
                Target::Redirect(u32_at(raw, offset + 8)),
            )
            &&& id == 0xfffe ==> entry.mime_type == MimeView::LinkTarget && entry.target is None
            &&& id == 0xfffd ==> entry.mime_type == MimeView::DeletedEntry && entry.target is None
            &&& id < 0xfffd ==> id < mimes.len() && entry.mime_type == MimeView::Type(
                mimes[id as int],
            ) && entry.target == Some(
                Target::Cluster(u32_at(raw, offset + 8), u32_at(raw, offset + 12)),
            )
        }),
{
}

/// An entry whose type is known and whose path and title can be read can be read.
pub proof fn complete_entries_are_read(raw: Seq<u8>, offset: int, mimes: Seq<Seq<char>>)
    requires
        0 <= offset,
        offset + 2 <= raw.len(),
        ({
            let id = u16_at(raw, offset);
            let start = offset + (if id == 0xffff {
                12int
            } else if id == 0xfffe || id == 0xfffd {
                8int
            } else {
                16int
            });
            &&& id < mimes.len() || id >= 0xfffd
            &&& start <= raw.len()
            &&& text_at(raw, start) is Ok
            &&& text_at(raw, text_at(raw, start)->Ok_0.1) is Ok
        }),
    ensures
        entry_at(raw, offset, mimes) is Ok,
{
}

/// Why an entry cannot be read: its offset is past the end, the archive ends within its fixed
/// part, its type is not listed, or one of its texts cannot be read, the path first.
pub proof fn refused_entries_are_malformed(raw: Seq<u8>, offset: int, mimes: Seq<Seq<char>>)
    requires
        0 <= offset,
        entry_at(raw, offset, mimes) is Err,
    ensures
        ({
            let err = entry_at(raw, offset, mimes)->Err_0;
            let id = u16_at(raw, offset);
            let known = id < mimes.len() || id >= 0xfffd;
            let start = offset + (if id == 0xffff {
                12int
            } else if id == 0xfffe || id == 0xfffd {
                8int
            } else {
                16int
            });
            let path = text_at(raw, start);
            &&& err == Error::OutOfBounds <==> offset > raw.len()
            &&& err == Error::UnknownMimeType <==> offset + 2 <= raw.len() && !known
            &&& offset <= raw.len() < offset + 2 ==> err == Error::Parsing(Fault::Io)
            &&& known && offset + 2 <= raw.len() < start ==> err
                == Error::Parsing(Fault::Io)
            &&& known && start <= raw.len() ==> match path {
                Err(why) => err == why,
                Ok((_, next)) => text_at(raw, next) == Err::<(Seq<char>, int), Error>(err),
            }
        }),
{
}

} // verus!
