//! Walking over an archive's directory.
use crate::directory_entry::{DirectoryEntry, EntryView};
use crate::errors::{Error, Result};
use crate::header::header_of;
use crate::zim::{entry_of, Zim};
use vstd::prelude::*;

verus! {

/// The entries of an archive in path order, one by one.
pub struct DirectoryIterator<'a> {
    max: u32,
    next: u32,
    zim: &'a Zim<'a>,
}

impl<'a> DirectoryIterator<'a> {
    pub closed spec fn wf(&self) -> bool {
        &&& self.zim.wf()
        &&& self.max == self.zim.header.article_count
        &&& self.next <= self.max
    }

    /// The bytes of the archive that is walked over.
    pub closed spec fn archive(&self) -> Seq<u8> {
        self.zim.store@
    }

    /// How many entries have been handed out.
    pub closed spec fn position(&self) -> int {
        self.next as int
    }

    pub fn new(zim: &'a Zim<'a>) -> (iter: DirectoryIterator<'a>)
        requires
            zim.wf(),
        ensures
            iter.wf(),
            iter.archive() == zim.store@,
            iter.position() == 0,
    {
        DirectoryIterator { max: zim.header.article_count, next: 0, zim }
    }

    /// Yields every entry in path order.
    ///
    /// A failing entry is reported as `Some(Err(_))` and iteration continues with the next index.
    /// Entries are addressed through independent pointers, so one unparsable entry says nothing
    /// about its successors - returning `None` here would silently truncate the archive.
    pub fn next(&mut self) -> (item: Option<Result<DirectoryEntry>>)
        requires
            old(self).wf(),
        ensures
            final(self).wf(),
            final(self).archive() == old(self).archive(),
            item is None <==> old(self).position() == header_of(old(self).archive()).article_count,
            item is None ==> final(self).position() == old(self).position(),
            item matches Some(r) ==> {
                &&& final(self).position() == old(self).position() + 1
                &&& is_entry(r, entry_of(old(self).archive(), old(self).position()))
            },
    {
        if self.next >= self.max {
            return None;
        }
        let idx = self.next;
        self.next = self.next + 1;
        Some(self.zim.get_by_url_index(idx))
    }

    /// Yields all entries that are left, in path order.
    pub fn collect(&mut self) -> (items: Vec<Result<DirectoryEntry>>)
        requires
            old(self).wf(),
        ensures
            final(self).wf(),
            final(self).archive() == old(self).archive(),
            final(self).position() == header_of(old(self).archive()).article_count,
            items@.len() == header_of(old(self).archive()).article_count - old(self).position(),
            forall|i: int|
                0 <= i < items@.len() ==> is_entry(
                    #[trigger] items@[i],
                    entry_of(old(self).archive(), old(self).position() + i),
                ),
    {
        let mut items: Vec<Result<DirectoryEntry>> = Vec::new();
        let ghost raw = self.archive();
        let ghost from = self.position();
        loop
            invariant
                self.wf(),
                self.archive() == raw,
                self.position() == from + items@.len(),
                forall|i: int|
                    0 <= i < items@.len() ==> is_entry(
                        #[trigger] items@[i],
                        entry_of(raw, from + i),
                    ),
            ensures
                self.position() == header_of(raw).article_count,
            decreases header_of(raw).article_count - self.position(),
        {
            match self.next() {
                Some(item) => items.push(item),
                None => break,
            }
        }
        items
    }
}

/// What reading an entry comes to is what the archive holds there.
pub open spec fn is_entry(item: Result<DirectoryEntry>, entry: Result<EntryView>) -> bool {
    match entry {
        Ok(view) => item matches Ok(entry) && entry@ == view,
        Err(err) => item == Err::<DirectoryEntry, Error>(err),
    }
}

/// What an iterator hands out for an index is the entry there, field by field, or the reason why it
/// cannot be read.
pub proof fn items_are_the_entries(item: Result<DirectoryEntry>, entry: Result<EntryView>)
    ensures
        is_entry(item, entry) ==> {
            &&& item is Ok <==> entry is Ok
            &&& item matches Ok(read) ==> {
                &&& read.mime_type@ == entry->Ok_0.mime_type
                &&& read.namespace == entry->Ok_0.namespace
                &&& read.revision == entry->Ok_0.revision
                &&& read.url@ == entry->Ok_0.url
                &&& read.title@ == entry->Ok_0.title
                &&& read.target == entry->Ok_0.target
            }
            &&& item matches Err(err) ==> entry == Err::<EntryView, Error>(err)
        },
{
}

} // verus!
