//! What holds of archives as a whole.
use crate::cluster::{cluster_blob, cluster_content, Extent};
use crate::content::{content_place, entries_by_title};
use crate::directory_entry::{entry_at, text_at, EntryView, Target};
use crate::errors::Error;
use crate::header::{header_of, HEADER_SIZE};
use crate::lookup::index_of;
use crate::mime_type::{first_zero, lemma_first_zero_bounds, mime_list, mime_of, mime_size};
use crate::mime_type::{texts, MimeView};
use crate::namespace::Namespace;
use crate::pointers::{u32_list, u64_list};
use crate::raw::u16_at;
use crate::redirect::main_page_of;
use crate::store::joined;
use crate::zim::{article_list_of, checksum_holds, cluster_list_of, cluster_of, entry_of};
use crate::zim::{mimes_of, open_fault, url_list_of, Zim};
use vstd::prelude::*;

verus! {

/// The pieces that bytes fall into when they are cut at these offsets.
pub open spec fn pieces(whole: Seq<u8>, cuts: Seq<int>) -> Seq<Seq<u8>> {
    Seq::new((cuts.len() - 1) as nat, |i: int| whole.subrange(cuts[i], cuts[i + 1]))
}

/// Offsets that cut bytes into pieces: from the start to the end, in order.
pub open spec fn are_cuts(whole: Seq<u8>, cuts: Seq<int>) -> bool {
    &&& cuts.len() >= 2
    &&& cuts[0] == 0
    &&& cuts.last() == whole.len()
    &&& forall|i: int, j: int| 0 <= i <= j < cuts.len() ==> cuts[i] <= cuts[j]
}

proof fn lemma_pieces_prefix(whole: Seq<u8>, cuts: Seq<int>, n: int)
    requires
        are_cuts(whole, cuts),
        0 <= n < cuts.len(),
    ensures
        joined(pieces(whole, cuts).take(n)) == whole.take(cuts[n]),
    decreases n,
{
    let all = pieces(whole, cuts);
    assert(cuts[n] <= cuts[cuts.len() - 1]);
    if n == 0 {
        assert(all.take(0) =~= Seq::<Seq<u8>>::empty());
        assert(whole.take(0) =~= Seq::<u8>::empty());
    } else {
        lemma_pieces_prefix(whole, cuts, n - 1);
        assert(cuts[n - 1] <= cuts[n]);
        assert(cuts[0] <= cuts[n - 1]);
        assert(all.take(n).drop_last() =~= all.take(n - 1));
        assert(all.take(n).last() == whole.subrange(cuts[n - 1], cuts[n]));
        assert(joined(all.take(n)) =~= whole.take(cuts[n]));
    }
}

/// However an archive is split into chunks, together they are the archive again: a store over the
/// chunks has the same bytes as one over the whole file.
pub proof fn splitting_keeps_the_bytes(whole: Seq<u8>, cuts: Seq<int>)
    requires
        are_cuts(whole, cuts),
    ensures
        joined(pieces(whole, cuts)) == whole,
        joined(seq![whole]) == whole,
{
    let all = pieces(whole, cuts);
    lemma_pieces_prefix(whole, cuts, cuts.len() - 1);
    assert(all.take(cuts.len() - 1) =~= all);
    assert(whole.take(whole.len() as int) =~= whole);
    reveal_with_fuel(joined, 2);
    assert(seq![whole].drop_last() =~= Seq::<Seq<u8>>::empty());
    assert(joined(seq![whole]) =~= whole);
}

/// A split archive reads exactly like the whole file: whatever is read from an open archive is
/// determined by its bytes, and not by how they are spread over chunks.
pub proof fn same_bytes_read_alike(a: Zim, b: Zim)
    requires
        a.wf(),
        b.wf(),
        a.store@ == b.store@,
    ensures
        a.header@ == b.header@,
        texts(a.mime_table@) == texts(b.mime_table@),
        a.url_list@ == b.url_list@,
        a.cluster_list@ == b.cluster_list@,
        a.article_list is Some <==> b.article_list is Some,
        a.article_list is Some ==> a.article_list->0@ == b.article_list->0@,
        a.checksum@ == b.checksum@,
        forall|idx: int| #[trigger] entry_of(a.store@, idx) == entry_of(b.store@, idx),
        forall|idx: u32| #[trigger] cluster_of(a.store@, idx) == cluster_of(b.store@, idx),
        forall|extent: Extent, blob: u32| #[trigger]
            cluster_blob(a.store@, extent, blob) == cluster_blob(b.store@, extent, blob),
        forall|namespace: Namespace, path: Seq<char>| #[trigger]
            index_of(a.store@, namespace, path) == index_of(b.store@, namespace, path),
        main_page_of(a.store@) == main_page_of(b.store@),
        entries_by_title(a.store@) == entries_by_title(b.store@),
        checksum_holds(a.store@) == checksum_holds(b.store@),
{
}

/// The header of an open archive is consistent: the list of types directly follows it, nothing
/// that it points at comes before, the checksum is the last 16 bytes, and there are clusters
/// exactly if there are entries, and no more of them.
pub proof fn open_archives_are_consistent(raw: Seq<u8>)
    requires
        open_fault(raw) is None,
    ensures
        ({
            let header = header_of(raw);
            &&& header.version_major == 5 || header.version_major == 6
            &&& header.mime_list_pos == HEADER_SIZE
            &&& HEADER_SIZE <= header.url_ptr_pos
            &&& header.url_ptr_pos + 8 * header.article_count <= raw.len()
            &&& HEADER_SIZE <= header.cluster_ptr_pos
            &&& header.cluster_ptr_pos + 8 * header.cluster_count <= raw.len()
            &&& header.title_ptr_pos matches Some(pos) ==> HEADER_SIZE <= pos
            &&& HEADER_SIZE <= header.checksum_pos
            &&& header.checksum_pos + 16 == raw.len()
            &&& header.cluster_count <= header.article_count
            &&& header.cluster_count == 0 <==> header.article_count == 0
        }),
{
}

/// A redirect stores no contents of its own.
pub proof fn redirects_have_no_contents(raw: Seq<u8>, entry: EntryView)
    requires
        entry.target matches Some(Target::Redirect(_)),
    ensures
        content_place(raw, entry) == Ok::<Option<(Extent, u32)>, Error>(None),
{
}

/// Two archives of the same length that are the same up to an offset.
pub open spec fn agree_up_to(a: Seq<u8>, b: Seq<u8>, limit: int) -> bool {
    &&& a.len() == b.len()
    &&& 0 <= limit <= a.len()
    &&& forall|i: int| 0 <= i < limit ==> #[trigger] a[i] == b[i]
}

proof fn lemma_same_zero(a: Seq<u8>, b: Seq<u8>, limit: int, pos: int)
    requires
        agree_up_to(a, b, limit),
        0 <= pos,
        first_zero(a, pos) < limit,
    ensures
        first_zero(b, pos) == first_zero(a, pos),
    decreases a.len() - pos,
{
    if pos < a.len() {
        lemma_first_zero_bounds(a, pos);
        assert(pos < limit);
        assert(a[pos] == b[pos]);
        if a[pos] != 0 {
            lemma_same_zero(a, b, limit, pos + 1);
        }
    }
}

/// The offset past the list of types at `pos`.
pub open spec fn mime_list_end(raw: Seq<u8>, pos: int) -> int
    decreases raw.len() - pos,
{
    let size = mime_size(raw, pos);
    proof {
        if pos <= raw.len() {
            lemma_first_zero_bounds(raw, pos);
        }
    }
    if size <= 1 {
        first_zero(raw, pos) + 1
    } else {
        mime_list_end(raw, pos + size)
    }
}

proof fn lemma_mime_list_end(raw: Seq<u8>, pos: int)
    requires
        0 <= pos <= raw.len(),
    ensures
        pos + mime_size(raw, pos) <= mime_list_end(raw, pos),
        first_zero(raw, pos) < mime_list_end(raw, pos),
    decreases raw.len() - pos,
{
    lemma_first_zero_bounds(raw, pos);
    let size = mime_size(raw, pos);
    if size > 1 {
        lemma_mime_list_end(raw, pos + size);
        lemma_first_zero_bounds(raw, pos + size);
    }
}

proof fn lemma_same_mime_list(a: Seq<u8>, b: Seq<u8>, limit: int, pos: int)
    requires
        agree_up_to(a, b, limit),
        0 <= pos <= a.len(),
        mime_list_end(a, pos) <= limit,
    ensures
        mime_list(b, pos) == mime_list(a, pos),
    decreases a.len() - pos,
{
    lemma_mime_list_end(a, pos);
    lemma_same_zero(a, b, limit, pos);
    lemma_first_zero_bounds(a, pos);
    let size = mime_size(a, pos);
    if size > 1 {
        assert(a.subrange(pos, pos + size - 1) =~= b.subrange(pos, pos + size - 1));
        lemma_same_mime_list(a, b, limit, pos + size);
    }
}

proof fn lemma_same_text(a: Seq<u8>, b: Seq<u8>, limit: int, pos: int)
    requires
        agree_up_to(a, b, limit),
        0 <= pos <= a.len(),
        text_at(a, pos) is Ok,
        text_at(a, pos)->Ok_0.1 <= limit,
    ensures
        text_at(b, pos) == text_at(a, pos),
        pos < text_at(a, pos)->Ok_0.1,
{
    lemma_first_zero_bounds(a, pos);
    lemma_same_zero(a, b, limit, pos);
    let end = first_zero(a, pos);
    assert(a.subrange(pos, end) =~= b.subrange(pos, end));
}

/// Where the path of the directory entry at `offset` starts.
pub open spec fn entry_text_pos(raw: Seq<u8>, offset: int, mimes: Seq<Seq<char>>) -> int {
    match mime_of(mimes, u16_at(raw, offset)) {
        Some(MimeView::Redirect) => offset + 12,
        Some(MimeView::Type(_)) => offset + 16,
        _ => offset + 8,
    }
}

/// The directory entry at `offset` can be read and ends before `limit`.
pub open spec fn entry_ends_by(
    raw: Seq<u8>,
    offset: int,
    mimes: Seq<Seq<char>>,
    limit: int,
) -> bool {
    let pos = entry_text_pos(raw, offset, mimes);
    &&& entry_at(raw, offset, mimes) is Ok
    &&& text_at(raw, text_at(raw, pos)->Ok_0.1)->Ok_0.1 <= limit
}

proof fn lemma_same_entry(
    a: Seq<u8>,
    b: Seq<u8>,
    limit: int,
    offset: int,
    mimes: Seq<Seq<char>>,
)
    requires
        agree_up_to(a, b, limit),
        0 <= offset,
        entry_ends_by(a, offset, mimes, limit),
    ensures
        entry_at(b, offset, mimes) == entry_at(a, offset, mimes),
{
    let pos = entry_text_pos(a, offset, mimes);
    let title_pos = text_at(a, pos)->Ok_0.1;
    lemma_first_zero_bounds(a, pos);
    lemma_same_text(a, b, limit, title_pos);
    lemma_same_text(a, b, limit, pos);
    assert forall|i: int| offset <= i < pos implies #[trigger] a[i] == b[i] by {}
}

proof fn lemma_same_u64_list(a: Seq<u8>, b: Seq<u8>, limit: int, pos: int, count: int)
    requires
        agree_up_to(a, b, limit),
        0 <= pos,
        0 <= count,
        pos + 8 * count <= limit,
    ensures
        u64_list(b, pos, count) == u64_list(a, pos, count),
{
    let x = u64_list(a, pos, count);
    let y = u64_list(b, pos, count);
    assert forall|i: int| 0 <= i < count implies #[trigger] x[i] == y[i] by {
        assert forall|k: int| pos + 8 * i <= k < pos + 8 * i + 8 implies #[trigger] a[k] == b[k] by {}
    }
    assert(x =~= y);
}

proof fn lemma_same_u32_list(a: Seq<u8>, b: Seq<u8>, limit: int, pos: int, count: int)
    requires
        agree_up_to(a, b, limit),
        0 <= pos,
        0 <= count,
        pos + 4 * count <= limit,
    ensures
        u32_list(b, pos, count) == u32_list(a, pos, count),
{
    let x = u32_list(a, pos, count);
    let y = u32_list(b, pos, count);
    assert forall|i: int| 0 <= i < count implies #[trigger] x[i] == y[i] by {
        assert forall|k: int| pos + 4 * i <= k < pos + 4 * i + 4 implies #[trigger] a[k] == b[k] by {}
    }
    assert(x =~= y);
}

/// The list that the header's title pointer leads to, if it leads to one, ends before `limit`.
pub open spec fn title_list_ends_by(raw: Seq<u8>, limit: int) -> bool {
    article_list_of(raw) is Some ==> header_of(raw).title_ptr_pos->0 + 4 * header_of(
        raw,
    ).article_count <= limit
}

/// A checksum that does not match does not prevent reading: archives that differ in nothing but
/// the checksum open alike and hold the same lists, entries and clusters. What is read has to lie
/// in front of the checksum.
pub proof fn the_checksum_does_not_matter_for_reading(a: Seq<u8>, b: Seq<u8>)
    requires
        open_fault(a) is None,
        agree_up_to(a, b, header_of(a).checksum_pos as int),
        mime_list_end(a, HEADER_SIZE as int) <= header_of(a).checksum_pos,
        header_of(a).url_ptr_pos + 8 * header_of(a).article_count <= header_of(a).checksum_pos,
        header_of(a).cluster_ptr_pos + 8 * header_of(a).cluster_count <= header_of(a).checksum_pos,
    ensures
        open_fault(b) is None,
        header_of(b) == header_of(a),
        mimes_of(b) == mimes_of(a),
        url_list_of(b) == url_list_of(a),
        cluster_list_of(b) == cluster_list_of(a),
        title_list_ends_by(a, header_of(a).checksum_pos as int) ==> article_list_of(b)
            == article_list_of(a),
        forall|idx: int|
            0 <= idx < header_of(a).article_count && entry_ends_by(
                a,
                url_list_of(a)[idx] as int,
                mimes_of(a),
                header_of(a).checksum_pos as int,
            ) ==> #[trigger] entry_of(b, idx) == entry_of(a, idx),
        forall|idx: u32| same_cluster(a, b, idx),
{
    let limit = header_of(a).checksum_pos as int;
    let header = header_of(a);
    open_archives_are_consistent(a);
    assert(forall|i: int| 0 <= i < HEADER_SIZE ==> #[trigger] a[i] == b[i]);
    assert(a.subrange(8, 24) =~= b.subrange(8, 24));
    assert(header_of(b) == header_of(a));
    lemma_same_mime_list(a, b, limit, HEADER_SIZE as int);
    lemma_same_u64_list(a, b, limit, header.url_ptr_pos as int, header.article_count as int);
    lemma_same_u64_list(a, b, limit, header.cluster_ptr_pos as int, header.cluster_count as int);
    if title_list_ends_by(a, limit) && article_list_of(a) is Some {
        let pos = header.title_ptr_pos->0;
        lemma_same_u32_list(a, b, limit, pos as int, header.article_count as int);
    }
    assert forall|idx: int|
        0 <= idx < header_of(a).article_count && entry_ends_by(
            a,
            url_list_of(a)[idx] as int,
            mimes_of(a),
            header_of(a).checksum_pos as int,
        ) implies #[trigger] entry_of(b, idx) == entry_of(a, idx) by {
        lemma_same_entry(a, b, limit, url_list_of(a)[idx] as int, mimes_of(a));
    }
    assert forall|idx: u32| same_cluster(a, b, idx) by {
        if let Ok(extent) = cluster_of(a, idx) {
            if extent.end <= limit {
                assert(a[extent.start as int] == b[extent.start as int]);
                assert(a.subrange(extent.start + 1, extent.end as int) =~= b.subrange(
                    extent.start + 1,
                    extent.end as int,
                ));
            }
        }
    }
}

/// Two archives have the same cluster at `idx`, with the same contents, if it lies in front of
/// the first one's checksum.
pub open spec fn same_cluster(a: Seq<u8>, b: Seq<u8>, idx: u32) -> bool {
    cluster_of(a, idx) matches Ok(extent) ==> extent.end <= header_of(a).checksum_pos ==> {
        &&& cluster_of(b, idx) == cluster_of(a, idx)
        &&& cluster_content(b, extent) == cluster_content(a, extent)
    }
}

} // verus!
