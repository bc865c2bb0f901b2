//! MIME types, and the list of them that follows an archive's header.
use crate::errors::{Error, Fault, Result};
use crate::store::{vec_of, Store};
use vstd::prelude::*;
use vstd::utf8::{decode_utf8, decode_utf8_encode_utf8, encode_utf8, encode_utf8_decode_utf8};
use vstd::utf8::{encode_utf8_valid_utf8, valid_utf8};

verus! {

/// What a directory entry is.
#[derive(Debug, PartialEq, Eq)]
pub enum MimeType {
    /// The entry stands for another one.
    Redirect,
    /// The entry has no data of its own.
    LinkTarget,
    /// The entry was deleted.
    DeletedEntry,
    /// The entry has data of this type.
    Type(String),
}

/// [`MimeType`], as contracts speak of it.
pub ghost enum MimeView {
    Redirect,
    LinkTarget,
    DeletedEntry,
    Type(Seq<char>),
}

impl View for MimeType {
    type V = MimeView;

    open spec fn view(&self) -> MimeView {
        match self {
            MimeType::Redirect => MimeView::Redirect,
            MimeType::LinkTarget => MimeView::LinkTarget,
            MimeType::DeletedEntry => MimeView::DeletedEntry,
            MimeType::Type(name) => MimeView::Type(name@),
        }
    }
}

impl Clone for MimeType {
    fn clone(&self) -> (mime: MimeType)
        ensures
            mime@ == self@,
    {
        match self {
            MimeType::Redirect => MimeType::Redirect,
            MimeType::LinkTarget => MimeType::LinkTarget,
            MimeType::DeletedEntry => MimeType::DeletedEntry,
            MimeType::Type(name) => MimeType::Type(name.clone()),
        }
    }
}

/// The texts that a list of strings holds.
pub open spec fn texts(list: Seq<String>) -> Seq<Seq<char>> {
    list.map_values(|text: String| text@)
}

/// The type that a directory entry's type number stands for, in an archive with these types.
pub open spec fn mime_of(table: Seq<Seq<char>>, id: u16) -> Option<MimeView> {
    if id == 0xffff {
        Some(MimeView::Redirect)
    } else if id == 0xfffe {
        Some(MimeView::LinkTarget)
    } else if id == 0xfffd {
        Some(MimeView::DeletedEntry)
    } else if id < table.len() {
        Some(MimeView::Type(table[id as int]))
    } else {
        None
    }
}

/// Looks a type number up in an archive's list of types.
pub fn mime_type(table: &[String], id: u16) -> (mime: Option<MimeType>)
    ensures
        match mime_of(texts(table@), id) {
            Some(view) => mime matches Some(mime) && mime@ == view,
            None => mime is None,
        },
{
    match id {
        0xffff => Some(MimeType::Redirect),
        0xfffe => Some(MimeType::LinkTarget),
        0xfffd => Some(MimeType::DeletedEntry),
        id => {
            if (id as usize) < table.len() {
                Some(MimeType::Type(table[id as usize].clone()))
            } else {
                None
            }
        },
    }
}

/// The offset of the first zero byte at or after `pos`, or the end when there is none.
pub open spec fn first_zero(raw: Seq<u8>, pos: int) -> int
    decreases raw.len() - pos,
{
    if pos >= raw.len() || raw[pos] == 0 {
        pos
    } else {
        first_zero(raw, pos + 1)
    }
}

pub(crate) proof fn lemma_first_zero(raw: Seq<u8>, pos: int, at: int)
    requires
        0 <= pos <= at <= raw.len(),
        forall|k: int| pos <= k < at ==> #[trigger] raw[k] != 0,
        at < raw.len() ==> raw[at] == 0,
    ensures
        first_zero(raw, pos) == at,
    decreases at - pos,
{
    if pos < at {
        assert(raw[pos] != 0);
        lemma_first_zero(raw, pos + 1, at);
    }
}

/// The search for a zero byte ends at or after where it starts, and within the bytes.
pub proof fn lemma_first_zero_bounds(raw: Seq<u8>, pos: int)
    requires
        pos <= raw.len(),
    ensures
        pos <= first_zero(raw, pos) <= raw.len(),
    decreases raw.len() - pos,
{
    if pos < raw.len() && raw[pos] != 0 {
        lemma_first_zero_bounds(raw, pos + 1);
    }
}

/// How many bytes of `raw` the type at `pos` takes up, with the zero byte that ends it.
pub open spec fn mime_size(raw: Seq<u8>, pos: int) -> int {
    let end = first_zero(raw, pos);
    if end < raw.len() {
        end + 1 - pos
    } else {
        end - pos
    }
}

/// The list of types at `pos`: texts that each end in a zero byte, up to an empty one.
///
/// Where the archive ends before the list does, the last text loses its last byte instead of the
/// zero byte.
pub open spec fn mime_list(raw: Seq<u8>, pos: int) -> Result<Seq<Seq<char>>>
    decreases raw.len() - pos,
{
    let size = mime_size(raw, pos);
    proof {
        if pos <= raw.len() {
            lemma_first_zero_bounds(raw, pos);
        }
    }
    if size <= 1 {
        Ok(Seq::empty())
    } else if size - 1 > usize::MAX {
        Err(Error::TryFromIntError)
    } else {
        let text = raw.subrange(pos, pos + size - 1);
        if !valid_utf8(text) {
            Err(Error::Parsing(Fault::Utf8))
        } else {
            prefixed(seq![decode_utf8(text)], mime_list(raw, pos + size))
        }
    }
}

/// A list with more in front of it.
pub open spec fn prefixed(front: Seq<Seq<char>>, rest: Result<Seq<Seq<char>>>) -> Result<
    Seq<Seq<char>>,
> {
    match rest {
        Ok(list) => Ok(front + list),
        Err(err) => Err(err),
    }
}

/// How far the text at `pos` reaches in the archive, with the zero byte that ends it.
fn text_size(store: &Store, pos: u64) -> (size: u64)
    requires
        store.wf(),
        pos <= store@.len(),
    ensures
        size == mime_size(store@, pos as int),
        pos + size <= store@.len() <= u64::MAX,
{
    let len = store.len();
    match store.zero_from(pos) {
        Some(at) => {
            proof {
                lemma_first_zero(store@, pos as int, at as int);
            }
            at + 1 - pos
        },
        None => {
            proof {
                lemma_first_zero(store@, pos as int, store@.len() as int);
            }
            len - pos
        },
    }
}

/// Reads the list of types at `pos`.
pub fn parse_mime_list(store: &Store, pos: u64) -> (r: Result<Vec<String>>)
    requires
        store.wf(),
        pos <= store@.len(),
    ensures
        match mime_list(store@, pos as int) {
            Ok(list) => r matches Ok(table) && texts(table@) == list,
            Err(err) => r == Err::<Vec<String>, Error>(err),
        },
{
    let mut table: Vec<String> = Vec::new();
    let mut at = pos;
    assert(prefixed(texts(table@), mime_list(store@, at as int)) == mime_list(store@, pos as int))
        by {
        if let Ok(list) = mime_list(store@, at as int) {
            assert(texts(table@) + list =~= list);
        }
    }
    loop
        invariant
            store.wf(),
            pos <= at <= store@.len(),
            prefixed(texts(table@), mime_list(store@, at as int)) == mime_list(store@, pos as int),
        ensures
            mime_list(store@, pos as int) == Ok::<Seq<Seq<char>>, Error>(texts(table@)),
        decreases store@.len() - at,
    {
        let size = text_size(store, at);
        if size <= 1 {
            assert(texts(table@) + Seq::<Seq<char>>::empty() =~= texts(table@));
            break;
        }
        let raw = store.slice(at, size - 1)?;
        let ghost front = texts(table@);
        match String::from_utf8(vec_of(raw)) {
            Ok(text) => {
                let ghost word = text@;
                table.push(text);
                proof {
                    assert(texts(table@) =~= front.push(word));
                    if let Ok(rest) = mime_list(store@, at + size) {
                        assert(front + (seq![word] + rest) =~= texts(table@) + rest);
                    }
                }
            },
            Err(err) => return Err(Error::from(err)),
        }
        at = at + size;
    }
    Ok(table)
}

/// A view says the same as the type that it is the view of.
pub proof fn mime_views_are_faithful(mime: MimeType)
    ensures
        mime@ == MimeView::Redirect <==> mime is Redirect,
        mime@ == MimeView::LinkTarget <==> mime is LinkTarget,
        mime@ == MimeView::DeletedEntry <==> mime is DeletedEntry,
        mime matches MimeType::Type(name) ==> mime@ == MimeView::Type(name@),
{
}

/// The texts of a list are those of its strings, one by one.
pub proof fn texts_are_those_of_the_strings(list: Seq<String>, i: int)
    ensures
        texts(list).len() == list.len(),
        0 <= i < list.len() ==> texts(list)[i] == list[i]@,
{
}

/// The three highest type numbers are reserved; any other is an index into the list of types, and
/// is unknown past its end.
pub proof fn type_numbers_index_the_list(table: Seq<Seq<char>>, id: u16)
    ensures
        mime_of(table, id) == Some(MimeView::Redirect) <==> id == 0xffff,
        mime_of(table, id) == Some(MimeView::LinkTarget) <==> id == 0xfffe,
        mime_of(table, id) == Some(MimeView::DeletedEntry) <==> id == 0xfffd,
        id < 0xfffd && id < table.len() ==> mime_of(table, id) == Some(
            MimeView::Type(table[id as int]),
        ),
        mime_of(table, id) is None <==> table.len() <= id < 0xfffd,
{
}

/// Texts the way a list of types stores them: each with a zero byte behind it.
pub open spec fn stored_texts(list: Seq<Seq<char>>) -> Seq<u8>
    decreases list.len(),
{
    if list.len() == 0 {
        Seq::empty()
    } else {
        encode_utf8(list[0]) + seq![0u8] + stored_texts(list.skip(1))
    }
}

/// A text that a list of types can store: it is not empty, and has no zero byte.
pub open spec fn can_be_stored(text: Seq<char>) -> bool {
    &&& 0 < encode_utf8(text).len() <= usize::MAX
    &&& forall|i: int| 0 <= i < encode_utf8(text).len() ==> #[trigger] encode_utf8(text)[i] != 0
}

/// A list of types that is written is read back: its texts, and then a zero byte.
pub proof fn written_mime_lists_are_read_back(raw: Seq<u8>, pos: int, list: Seq<Seq<char>>)
    requires
        0 <= pos,
        pos + stored_texts(list).len() < raw.len(),
        forall|i: int| 0 <= i < list.len() ==> can_be_stored(#[trigger] list[i]),
        raw.subrange(pos, pos + stored_texts(list).len()) == stored_texts(list),
        raw[pos + stored_texts(list).len()] == 0,
    ensures
        mime_list(raw, pos) == Ok::<Seq<Seq<char>>, Error>(list),
    decreases list.len(),
{
    if list.len() == 0 {
        lemma_first_zero(raw, pos, pos);
        assert(list =~= Seq::<Seq<char>>::empty());
    } else {
        let text = encode_utf8(list[0]);
        let rest = stored_texts(list.skip(1));
        let all = stored_texts(list);
        let end = pos + text.len();
        assert(can_be_stored(list[0]));
        assert(all.len() == text.len() + 1 + rest.len());
        assert forall|k: int| pos <= k < end implies #[trigger] raw[k] != 0 by {
            assert(raw.subrange(pos, pos + all.len())[k - pos] == text[k - pos]);
        }
        assert(raw[end] == 0) by {
            assert(raw.subrange(pos, pos + all.len())[text.len() as int] == 0);
        }
        lemma_first_zero(raw, pos, end);
        assert(raw.subrange(pos, end) =~= text) by {
            assert forall|k: int| 0 <= k < text.len() implies #[trigger] raw.subrange(pos, end)[k]
                == text[k] by {
                assert(raw.subrange(pos, pos + all.len())[k] == all[k]);
            }
        }
        encode_utf8_valid_utf8(list[0]);
        encode_utf8_decode_utf8(list[0]);
        assert(raw.subrange(end + 1, end + 1 + rest.len()) =~= rest) by {
            assert forall|k: int| 0 <= k < rest.len() implies #[trigger] raw.subrange(
                end + 1,
                end + 1 + rest.len(),
            )[k] == rest[k] by {
                assert(raw.subrange(pos, pos + all.len())[text.len() + 1 + k] == all[text.len() + 1
                    + k]);
            }
        }
        assert forall|i: int| 0 <= i < list.skip(1).len() implies can_be_stored(
            #[trigger] list.skip(1)[i],
        ) by {
            assert(list.skip(1)[i] == list[i + 1]);
        }
        written_mime_lists_are_read_back(raw, end + 1, list.skip(1));
        assert(seq![list[0]] + list.skip(1) =~= list);
    }
}

/// A list of types that is read is what is stored, where two zero bytes in a row show that it
/// ends: the texts one after the other, each with a zero byte behind it, up to a zero byte.
pub proof fn read_mime_lists_are_what_is_stored(raw: Seq<u8>, pos: int, zeros: int)
    requires
        0 <= pos <= zeros + 1 < raw.len(),
        zeros >= 0,
        raw[zeros] == 0,
        raw[zeros + 1] == 0,
        mime_list(raw, pos) is Ok,
    ensures
        ({
            let stored = stored_texts(mime_list(raw, pos)->Ok_0);
            &&& pos + stored.len() <= zeros + 1
            &&& raw.subrange(pos, pos + stored.len()) == stored
            &&& raw[pos + stored.len()] == 0
        }),
    decreases raw.len() - pos,
{
    let list = mime_list(raw, pos)->Ok_0;
    lemma_first_zero_bounds(raw, pos);
    if pos <= zeros {
        lemma_zero_found_by(raw, pos, zeros);
    }
    let end = first_zero(raw, pos);
    lemma_zero_is_zero(raw, pos);
    if end == pos {
        assert(raw.subrange(pos, pos) =~= stored_texts(list));
    } else {
        let text = raw.subrange(pos, end);
        let rest = mime_list(raw, end + 1)->Ok_0;
        read_mime_lists_are_what_is_stored(raw, end + 1, zeros);
        decode_utf8_encode_utf8(text);
        assert(list =~= seq![decode_utf8(text)] + rest);
        assert(list.skip(1) =~= rest);
        let stored = stored_texts(list);
        assert(stored =~= text + seq![0u8] + stored_texts(rest));
        assert(raw.subrange(pos, pos + stored.len()) =~= stored) by {
            assert forall|k: int| 0 <= k < stored.len() implies #[trigger] raw.subrange(
                pos,
                pos + stored.len(),
            )[k] == stored[k] by {
                if k > text.len() {
                    assert(raw.subrange(end + 1, end + 1 + stored_texts(rest).len())[k - text.len()
                        - 1] == stored_texts(rest)[k - text.len() - 1]);
                }
            }
        }
    }
}

proof fn lemma_zero_found_by(raw: Seq<u8>, pos: int, at: int)
    requires
        0 <= pos <= at < raw.len(),
        raw[at] == 0,
    ensures
        first_zero(raw, pos) <= at,
    decreases at - pos,
{
    if raw[pos] != 0 {
        lemma_zero_found_by(raw, pos + 1, at);
    }
}

proof fn lemma_zero_is_zero(raw: Seq<u8>, pos: int)
    requires
        0 <= pos <= raw.len(),
    ensures
        first_zero(raw, pos) < raw.len() ==> raw[first_zero(raw, pos)] == 0,
    decreases raw.len() - pos,
{
    if pos < raw.len() && raw[pos] != 0 {
        lemma_zero_is_zero(raw, pos + 1);
    }
}

/// A list of types is refused where one of its texts is not UTF-8: one that starts the list, or
/// follows a zero byte of it.
pub proof fn refused_mime_lists_hold_other_bytes(raw: Seq<u8>, pos: int)
    requires
        0 <= pos <= raw.len() <= usize::MAX,
        mime_list(raw, pos) is Err,
    ensures
        mime_list(raw, pos) == Err::<Seq<Seq<char>>, Error>(Error::Parsing(Fault::Utf8)),
        exists|from: int, to: int|
            pos <= from < to <= raw.len() && (from == pos || raw[from - 1] == 0) && !valid_utf8(
                #[trigger] raw.subrange(from, to),
            ),
    decreases raw.len() - pos,
{
    lemma_first_zero_bounds(raw, pos);
    lemma_zero_is_zero(raw, pos);
    let size = mime_size(raw, pos);
    let text = raw.subrange(pos, pos + size - 1);
    if valid_utf8(text) {
        if first_zero(raw, pos) == raw.len() {
            lemma_first_zero(raw, raw.len() as int, raw.len() as int);
        }
        refused_mime_lists_hold_other_bytes(raw, pos + size);
    }
}

/// A list of types is read text by text: the text up to the first zero byte, and behind that byte
/// the rest of the list. An empty text ends it.
pub proof fn mime_lists_are_read_text_by_text(raw: Seq<u8>, pos: int, text: Seq<char>)
    requires
        0 <= pos,
        ({
            let bytes = encode_utf8(text);
            &&& pos + bytes.len() < raw.len()
            &&& bytes.len() <= usize::MAX
            &&& forall|i: int| 0 <= i < bytes.len() ==> #[trigger] bytes[i] != 0
            &&& raw.subrange(pos, pos + bytes.len()) == bytes
            &&& raw[pos + bytes.len()] == 0
        }),
    ensures
        ({
            let rest = mime_list(raw, pos + encode_utf8(text).len() + 1);
            &&& encode_utf8(text).len() == 0 ==> mime_list(raw, pos) == Ok::<
                Seq<Seq<char>>,
                Error,
            >(Seq::empty())
            &&& encode_utf8(text).len() > 0 && rest is Ok ==> mime_list(raw, pos) == Ok::<
                Seq<Seq<char>>,
                Error,
            >(seq![text] + rest->Ok_0)
            &&& encode_utf8(text).len() > 0 && rest is Err ==> mime_list(raw, pos) == rest
        }),
{
    let bytes = encode_utf8(text);
    let end = pos + bytes.len();
    assert forall|k: int| pos <= k < end implies #[trigger] raw[k] != 0 by {
        assert(raw.subrange(pos, end)[k - pos] == raw[k]);
    }
    lemma_first_zero(raw, pos, end);
    encode_utf8_valid_utf8(text);
    encode_utf8_decode_utf8(text);
}

/// Where the archive ends within a list of types, the last text loses its last byte.
pub proof fn cut_off_lists_lose_a_byte(raw: Seq<u8>, pos: int)
    requires
        0 <= pos <= raw.len() <= usize::MAX,
        forall|k: int| pos <= k < raw.len() ==> #[trigger] raw[k] != 0,
    ensures
        raw.len() <= pos + 1 ==> mime_list(raw, pos) == Ok::<Seq<Seq<char>>, Error>(Seq::empty()),
        raw.len() > pos + 1 && valid_utf8(raw.subrange(pos, raw.len() - 1)) ==> mime_list(raw, pos)
            == Ok::<Seq<Seq<char>>, Error>(
            seq![decode_utf8(raw.subrange(pos, raw.len() - 1))],
        ),
        raw.len() > pos + 1 && !valid_utf8(raw.subrange(pos, raw.len() - 1)) ==> mime_list(raw, pos)
            == Err::<Seq<Seq<char>>, Error>(Error::Parsing(Fault::Utf8)),
{
    let len = raw.len() as int;
    lemma_first_zero(raw, pos, len);
    lemma_first_zero(raw, len, len);
    if len > pos + 1 {
        let text = decode_utf8(raw.subrange(pos, len - 1));
        assert(mime_list(raw, len) == Ok::<Seq<Seq<char>>, Error>(Seq::empty()));
        assert(seq![text] + Seq::<Seq<char>>::empty() =~= seq![text]);
    }
}

} // verus!
