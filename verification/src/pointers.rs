//! The lists of offsets and indices that an archive's header points at.
use crate::errors::{Error, Result};
use crate::raw::{read_u32, read_u64};
use crate::raw::{u32_at, u64_at};
use crate::store::{bytes_of, Store};
use std::borrow::Cow;
use vstd::prelude::*;

verus! {

/// `count` numbers of eight bytes each, from `pos` on.
pub open spec fn u64_list(raw: Seq<u8>, pos: int, count: int) -> Seq<u64> {
    Seq::new(count as nat, |i: int| u64_at(raw, pos + 8 * i))
}

/// `count` numbers of four bytes each, from `pos` on.
pub open spec fn u32_list(raw: Seq<u8>, pos: int, count: int) -> Seq<u32> {
    Seq::new(count as nat, |i: int| u32_at(raw, pos + 4 * i))
}

/// Why a list of `len` bytes at `pos` cannot be read from an archive of `file_len` bytes, if it
/// cannot.
pub open spec fn list_fault(file_len: int, pos: int, len: int) -> Option<Error> {
    if pos + len > file_len {
        Some(Error::OutOfBounds)
    } else if len > usize::MAX {
        Some(Error::TryFromIntError)
    } else {
        None
    }
}

/// Returns the `count * width` byte region a pointer list occupies.
///
/// `ptr_pos` and `count` come straight from the header, so the extent is computed with checked
/// arithmetic - otherwise a large value wraps and the bounds check passes vacuously.
pub fn pointer_list_view<'a>(store: &Store<'a>, ptr_pos: u64, count: u32, width: u32) -> (r: Result<
    Cow<'a, [u8]>,
>)
    requires
        store.wf(),
    ensures
        match list_fault(store@.len() as int, ptr_pos as int, count * width) {
            Some(err) => r == Err::<Cow<'a, [u8]>, Error>(err),
            None => {
                &&& r matches Ok(bytes)
                &&& bytes@ == store@.subrange(ptr_pos as int, ptr_pos + count * width)
            },
        },
{
    assert(count * width <= u32::MAX * u32::MAX) by (nonlinear_arith)
        requires
            count <= u32::MAX,
            width <= u32::MAX,
    ;
    let file_len = store.len();
    let len = count as u64 * width as u64;
    match ptr_pos.checked_add(len) {
        Some(end) if end <= file_len => {},
        _ => return Err(Error::OutOfBounds),
    }
    if len == 0 {
        let none: Vec<u8> = Vec::new();
        assert(none@ =~= store@.subrange(ptr_pos as int, ptr_pos + count * width));
        return Ok(Cow::Owned(none));
    }
    store.slice(ptr_pos, len)
}

/// Reads `count` numbers of eight bytes each.
fn parse_u64_list(store: &Store, ptr_pos: u64, count: u32) -> (r: Result<Vec<u64>>)
    requires
        store.wf(),
    ensures
        match list_fault(store@.len() as int, ptr_pos as int, 8 * count) {
            Some(err) => r == Err::<Vec<u64>, Error>(err),
            None => r matches Ok(list) && list@ == u64_list(store@, ptr_pos as int, count as int),
        },
{
    let view = pointer_list_view(store, ptr_pos, count, 8)?;
    let raw = bytes_of(&view);
    let mut out: Vec<u64> = Vec::new();
    for i in 0..count
        invariant
            raw@ == store@.subrange(ptr_pos as int, ptr_pos + 8 * count),
            0 <= ptr_pos,
            ptr_pos + 8 * count <= store@.len(),
            out@.len() == i,
            forall|k: int| 0 <= k < i ==> #[trigger] out@[k] == u64_at(store@, ptr_pos + 8 * k),
    {
        out.push(read_u64(raw, 8 * i as u64)?);
    }
    assert(out@ =~= u64_list(store@, ptr_pos as int, count as int));
    Ok(out)
}

/// Parses the Path Pointer List (called the URL Pointer List before April 2024).
pub fn parse_url_list(store: &Store, ptr_pos: u64, count: u32) -> (r: Result<Vec<u64>>)
    requires
        store.wf(),
    ensures
        match list_fault(store@.len() as int, ptr_pos as int, 8 * count) {
            Some(err) => r == Err::<Vec<u64>, Error>(err),
            None => r matches Ok(list) && list@ == u64_list(store@, ptr_pos as int, count as int),
        },
{
    parse_u64_list(store, ptr_pos, count)
}

/// Parses the Title Pointer List, which holds indices into the Path Pointer List.
pub fn parse_article_list(store: &Store, ptr_pos: u64, count: u32) -> (r: Result<Vec<u32>>)
    requires
        store.wf(),
    ensures
        match list_fault(store@.len() as int, ptr_pos as int, 4 * count) {
            Some(err) => r == Err::<Vec<u32>, Error>(err),
            None => r matches Ok(list) && list@ == u32_list(store@, ptr_pos as int, count as int),
        },
{
    let view = pointer_list_view(store, ptr_pos, count, 4)?;
    let raw = bytes_of(&view);
    let mut out: Vec<u32> = Vec::new();
    for i in 0..count
        invariant
            raw@ == store@.subrange(ptr_pos as int, ptr_pos + 4 * count),
            0 <= ptr_pos,
            ptr_pos + 4 * count <= store@.len(),
            out@.len() == i,
            forall|k: int| 0 <= k < i ==> #[trigger] out@[k] == u32_at(store@, ptr_pos + 4 * k),
    {
        out.push(read_u32(raw, 4 * i as u64)?);
    }
    assert(out@ =~= u32_list(store@, ptr_pos as int, count as int));
    Ok(out)
}

/// Parses the Cluster Pointer List.
pub fn parse_cluster_list(store: &Store, ptr_pos: u64, count: u32) -> (r: Result<Vec<u64>>)
    requires
        store.wf(),
    ensures
        match list_fault(store@.len() as int, ptr_pos as int, 8 * count) {
            Some(err) => r == Err::<Vec<u64>, Error>(err),
            None => r matches Ok(list) && list@ == u64_list(store@, ptr_pos as int, count as int),
        },
{
    parse_u64_list(store, ptr_pos, count)
}

/// The numbers of a list lie side by side, as many as there are said to be, each in as many bytes.
pub proof fn lists_hold_the_stored_numbers(raw: Seq<u8>, pos: int, count: int, i: int)
    requires
        0 <= i < count,
    ensures
        u64_list(raw, pos, count).len() == count,
        u64_list(raw, pos, count)[i] == u64_at(raw, pos + 8 * i),
        u32_list(raw, pos, count).len() == count,
        u32_list(raw, pos, count)[i] == u32_at(raw, pos + 4 * i),
{
}

/// A list can be read exactly if it ends within the file and fits the machine's memory; one that
/// does not end within the file is out of bounds.
pub proof fn lists_are_read_within_the_file(file_len: int, pos: int, len: int)
    ensures
        list_fault(file_len, pos, len) is None <==> pos + len <= file_len && len <= usize::MAX,
        list_fault(file_len, pos, len) == Some(Error::OutOfBounds) <==> pos + len > file_len,
        list_fault(file_len, pos, len) matches Some(err) ==> err == Error::OutOfBounds || err
            == Error::TryFromIntError,
{
}

} // verus!
