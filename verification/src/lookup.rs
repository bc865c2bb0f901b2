//! Finding directory entries by path and by namespace.
use crate::directory_entry::{DirectoryEntry, EntryView};
use crate::errors::{Error, Result};
use crate::header::header_of;
use crate::mime_type::{prefixed, texts};
use crate::namespace::Namespace;
use crate::path_order::{differs_at, path_key, place_of, precedes, Place};
use crate::path_order::{path_key_is_injective, precedes_is_asymmetric};
use crate::path_order::precedes_is_dictionary_order;
use crate::raw::u32_at;
use crate::zim::{entry_of, Zim};
use std::ops::Range;
use vstd::prelude::*;
use vstd::utf8::encode_utf8;

verus! {

/// What an entry is ordered by.
pub open spec fn entry_key(entry: EntryView) -> Seq<u8> {
    path_key(entry.namespace, entry.url)
}

/// How many directory entries an archive has.
pub open spec fn entry_count(raw: Seq<u8>) -> int {
    header_of(raw).article_count as int
}

/// What a binary search for `key` comes to, between two indices.
pub open spec fn bisect(raw: Seq<u8>, key: Seq<u8>, low: int, high: int) -> Result<Option<int>>
    decreases high - low,
{
    if low >= high {
        Ok(None)
    } else {
        let mid = low + (high - low) / 2;
        match entry_of(raw, mid) {
            Err(err) => Err(err),
            Ok(entry) => if entry_key(entry) == key {
                Ok(Some(mid))
            } else if precedes(entry_key(entry), key) {
                bisect(raw, key, mid + 1, high)
            } else {
                bisect(raw, key, low, mid)
            },
        }
    }
}

/// The index of the entry at `namespace`/`path`, if it exists.
pub open spec fn index_of(raw: Seq<u8>, namespace: Namespace, path: Seq<char>) -> Result<
    Option<int>,
> {
    bisect(raw, path_key(namespace, path), 0, entry_count(raw))
}

/// The entry at `namespace`/`path`, if it exists.
pub open spec fn entry_by_path(raw: Seq<u8>, namespace: Namespace, path: Seq<char>) -> Result<
    Option<EntryView>,
> {
    match index_of(raw, namespace, path) {
        Err(err) => Err(err),
        Ok(None) => Ok(None),
        Ok(Some(idx)) => match entry_of(raw, idx) {
            Err(err) => Err(err),
            Ok(entry) => Ok(Some(entry)),
        },
    }
}

/// What a binary search for the first entry whose namespace byte is `limit` or more comes to,
/// between two indices.
pub open spec fn partition(raw: Seq<u8>, limit: int, low: int, high: int) -> Result<int>
    decreases high - low,
{
    if low >= high {
        Ok(low)
    } else {
        let mid = low + (high - low) / 2;
        match entry_of(raw, mid) {
            Err(err) => Err(err),
            Ok(entry) => if entry.namespace.byte() < limit {
                partition(raw, limit, mid + 1, high)
            } else {
                partition(raw, limit, low, mid)
            },
        }
    }
}

/// The indices of the entries in a namespace: from the first, up to but not including the second.
pub open spec fn namespace_bounds(raw: Seq<u8>, namespace: Namespace) -> Result<(int, int)> {
    match partition(raw, namespace.byte() as int, 0, entry_count(raw)) {
        Err(err) => Err(err),
        Ok(start) => match partition(raw, namespace.byte() + 1, start, entry_count(raw)) {
            Err(err) => Err(err),
            Ok(end) => Ok((start, end)),
        },
    }
}

/// The paths of the entries between two indices, or the error of the first that fails.
pub open spec fn urls_between(raw: Seq<u8>, low: int, high: int) -> Result<Seq<Seq<char>>>
    decreases high - low,
{
    if low >= high {
        Ok(Seq::empty())
    } else {
        match entry_of(raw, low) {
            Err(err) => Err(err),
            Ok(entry) => prefixed(seq![entry.url], urls_between(raw, low + 1, high)),
        }
    }
}

/// The paths of all entries in a namespace.
pub open spec fn namespace_urls(raw: Seq<u8>, namespace: Namespace) -> Result<Seq<Seq<char>>> {
    match namespace_bounds(raw, namespace) {
        Err(err) => Err(err),
        Ok((start, end)) => urls_between(raw, start, end),
    }
}

impl<'a> Zim<'a> {
    /// Returns the index of the entry at `namespace`/`path`, if it exists.
    ///
    /// Directory entries are stored ordered by their full path - the namespace byte followed by
    /// the path, compared as UTF-8 bytes - so this is a binary search over the path pointer list
    /// rather than a scan.
    ///
    /// Note that in the new namespace scheme (format version 6.1 and later) the stored path does
    /// not include the namespace, which is why it is passed separately.
    pub fn find_by_path(&self, namespace: Namespace, path: &str) -> (r: Result<Option<u32>>)
        requires
            self.wf(),
        ensures
            match index_of(self.store@, namespace, path@) {
                Err(err) => r == Err::<Option<u32>, Error>(err),
                Ok(None) => r == Ok::<Option<u32>, Error>(None),
                Ok(Some(idx)) => r matches Ok(Some(found)) && found == idx && idx < entry_count(
                    self.store@,
                ),
            },
    {
        let ghost raw = self.store@;
        let ghost key = path_key(namespace, path@);
        let mut low: u32 = 0;
        let mut high: u32 = self.header.article_count;
        while low < high
            invariant
                self.wf(),
                raw == self.store@,
                key == path_key(namespace, path@),
                low <= high <= entry_count(raw),
                bisect(raw, key, low as int, high as int) == index_of(raw, namespace, path@),
            decreases high - low,
        {
            let mid = low + (high - low) / 2;
            let entry = self.get_by_url_index(mid)?;
            match place_of(entry.namespace, entry.url.as_str(), namespace, path) {
                Place::Before => {
                    proof {
                        precedes_is_asymmetric(entry_key(entry@), key);
                    }
                    low = mid + 1;
                },
                Place::After => {
                    proof {
                        precedes_is_asymmetric(key, entry_key(entry@));
                    }
                    high = mid;
                },
                Place::Same => return Ok(Some(mid)),
            }
        }
        Ok(None)
    }

    /// Returns the entry at `namespace`/`path`, if it exists.
    pub fn get_by_path(&self, namespace: Namespace, path: &str) -> (r: Result<
        Option<DirectoryEntry>,
    >)
        requires
            self.wf(),
        ensures
            match entry_by_path(self.store@, namespace, path@) {
                Err(err) => r == Err::<Option<DirectoryEntry>, Error>(err),
                Ok(None) => r == Ok::<Option<DirectoryEntry>, Error>(None),
                Ok(Some(view)) => r matches Ok(Some(entry)) && entry@ == view,
            },
    {
        match self.find_by_path(namespace, path)? {
            Some(idx) => Ok(Some(self.get_by_url_index(idx)?)),
            None => Ok(None),
        }
    }

    /// The first index at or after `from` whose entry's namespace byte is `limit` or more.
    fn partition_point(&self, limit: u16, from: u32) -> (r: Result<u32>)
        requires
            self.wf(),
            from <= entry_count(self.store@),
        ensures
            match partition(self.store@, limit as int, from as int, entry_count(self.store@)) {
                Err(err) => r == Err::<u32, Error>(err),
                Ok(at) => r matches Ok(found) && found == at && from <= at <= entry_count(
                    self.store@,
                ),
            },
    {
        let ghost raw = self.store@;
        let mut low: u32 = from;
        let mut high: u32 = self.header.article_count;
        while low < high
            invariant
                self.wf(),
                raw == self.store@,
                from <= low <= high <= entry_count(raw),
                partition(raw, limit as int, low as int, high as int) == partition(
                    raw,
                    limit as int,
                    from as int,
                    entry_count(raw),
                ),
            decreases high - low,
        {
            let mid = low + (high - low) / 2;
            let entry = self.get_by_url_index(mid)?;
            if (entry.namespace.as_byte() as u16) < limit {
                low = mid + 1;
            } else {
                high = mid;
            }
        }
        Ok(low)
    }

    /// Returns the indices of the entries in a namespace.
    ///
    /// Entries are stored ordered by namespace first, so those of one namespace lie side by side.
    pub fn namespace_range(&self, namespace: Namespace) -> (r: Result<Range<u32>>)
        requires
            self.wf(),
        ensures
            match namespace_bounds(self.store@, namespace) {
                Err(err) => r == Err::<Range<u32>, Error>(err),
                Ok((start, end)) => {
                    &&& r matches Ok(range)
                    &&& range.start == start
                    &&& range.end == end
                    &&& start <= end <= entry_count(self.store@)
                },
            },
    {
        let byte = namespace.as_byte() as u16;
        let start = self.partition_point(byte, 0)?;
        let end = self.partition_point(byte + 1, start)?;
        Ok(Range { start, end })
    }

    /// Returns the names of the metadata that the archive holds.
    pub fn metadata_keys(&self) -> (r: Result<Vec<String>>)
        requires
            self.wf(),
        ensures
            match namespace_urls(self.store@, Namespace::Metadata) {
                Err(err) => r == Err::<Vec<String>, Error>(err),
                Ok(urls) => r matches Ok(keys) && texts(keys@) == urls,
            },
    {
        let range = self.namespace_range(Namespace::Metadata)?;
        let ghost raw = self.store@;
        let mut keys: Vec<String> = Vec::new();
        let mut idx: u32 = range.start;
        let ghost whole = urls_between(raw, range.start as int, range.end as int);
        assert(prefixed(texts(keys@), whole) == whole) by {
            if let Ok(urls) = whole {
                assert(texts(keys@) + urls =~= urls);
            }
        }
        while idx < range.end
            invariant
                self.wf(),
                raw == self.store@,
                range.start <= idx <= range.end,
                prefixed(texts(keys@), urls_between(raw, idx as int, range.end as int)) == whole,
                whole == namespace_urls(raw, Namespace::Metadata),
            decreases range.end - idx,
        {
            let entry = self.get_by_url_index(idx)?;
            let ghost front = texts(keys@);
            let ghost url = entry.url@;
            keys.push(entry.url);
            proof {
                assert(texts(keys@) =~= front.push(url));
                if let Ok(rest) = urls_between(raw, idx + 1, range.end as int) {
                    assert(front + (seq![url] + rest) =~= texts(keys@) + rest);
                }
            }
            idx = idx + 1;
        }
        assert(texts(keys@) + Seq::<Seq<char>>::empty() =~= texts(keys@));
        Ok(keys)
    }
}

/// Every entry can be read, and the entries are stored in the order of their full paths.
pub open spec fn is_ordered(raw: Seq<u8>) -> bool {
    &&& forall|i: int| 0 <= i < entry_count(raw) ==> #[trigger] entry_of(raw, i) is Ok
    &&& forall|i: int, j: int|
        0 <= i < j < entry_count(raw) ==> precedes(
            entry_key(#[trigger] entry_of(raw, i)->Ok_0),
            entry_key(#[trigger] entry_of(raw, j)->Ok_0),
        )
}

proof fn lemma_bisect_finds(raw: Seq<u8>, key: Seq<u8>, low: int, high: int, idx: int)
    requires
        is_ordered(raw),
        0 <= low <= idx < high <= entry_count(raw),
        entry_key(entry_of(raw, idx)->Ok_0) == key,
    ensures
        bisect(raw, key, low, high) == Ok::<Option<int>, Error>(Some(idx)),
    decreases high - low,
{
    let mid = low + (high - low) / 2;
    let at_mid = entry_key(entry_of(raw, mid)->Ok_0);
    assert(entry_of(raw, mid) is Ok);
    if mid < idx {
        assert(precedes(at_mid, key));
        precedes_is_asymmetric(at_mid, key);
        lemma_bisect_finds(raw, key, mid + 1, high, idx);
    } else if idx < mid {
        assert(precedes(key, at_mid));
        precedes_is_asymmetric(key, at_mid);
        lemma_bisect_finds(raw, key, low, mid, idx);
    }
}

proof fn lemma_bisect_misses(raw: Seq<u8>, key: Seq<u8>, low: int, high: int)
    requires
        is_ordered(raw),
        0 <= low <= high <= entry_count(raw),
        forall|i: int| low <= i < high ==> entry_key(#[trigger] entry_of(raw, i)->Ok_0) != key,
    ensures
        bisect(raw, key, low, high) == Ok::<Option<int>, Error>(None),
    decreases high - low,
{
    if low < high {
        let mid = low + (high - low) / 2;
        assert(entry_of(raw, mid) is Ok);
        assert(entry_key(entry_of(raw, mid)->Ok_0) != key);
        lemma_bisect_misses(raw, key, mid + 1, high);
        lemma_bisect_misses(raw, key, low, mid);
    }
}

proof fn lemma_bisect_result(raw: Seq<u8>, key: Seq<u8>, low: int, high: int)
    requires
        0 <= low,
    ensures
        bisect(raw, key, low, high) matches Ok(Some(idx)) ==> {
            &&& low <= idx < high
            &&& entry_of(raw, idx) is Ok
            &&& entry_key(entry_of(raw, idx)->Ok_0) == key
        },
    decreases high - low,
{
    if low < high {
        let mid = low + (high - low) / 2;
        lemma_bisect_result(raw, key, mid + 1, high);
        lemma_bisect_result(raw, key, low, mid);
    }
}

/// Whatever the archive, an entry that is found is at the path that was asked for.
pub proof fn found_entries_have_the_path(raw: Seq<u8>, namespace: Namespace, path: Seq<char>)
    ensures
        index_of(raw, namespace, path) matches Ok(Some(idx)) ==> {
            &&& 0 <= idx < entry_count(raw)
            &&& entry_of(raw, idx) matches Ok(entry)
            &&& entry.namespace.byte() == namespace.byte()
            &&& entry.url == path
        },
{
    lemma_bisect_result(raw, path_key(namespace, path), 0, entry_count(raw));
    if let Ok(Some(idx)) = index_of(raw, namespace, path) {
        let entry = entry_of(raw, idx)->Ok_0;
        path_key_is_injective(entry.namespace, entry.url, namespace, path);
    }
}

/// In an ordered archive every entry is found at exactly its own index.
pub proof fn find_agrees_with_iteration(raw: Seq<u8>, idx: int)
    requires
        is_ordered(raw),
        0 <= idx < entry_count(raw),
    ensures
        entry_of(raw, idx) matches Ok(entry) && index_of(raw, entry.namespace, entry.url) == Ok::<
            Option<int>,
            Error,
        >(Some(idx)),
{
    let entry = entry_of(raw, idx)->Ok_0;
    lemma_bisect_finds(raw, entry_key(entry), 0, entry_count(raw), idx);
}

/// In an ordered archive a path is reported missing exactly when no entry has it.
pub proof fn missing_paths_are_reported(raw: Seq<u8>, namespace: Namespace, path: Seq<char>)
    requires
        is_ordered(raw),
    ensures
        index_of(raw, namespace, path) is Ok,
        index_of(raw, namespace, path) == Ok::<Option<int>, Error>(None) <==> (forall|i: int|
            0 <= i < entry_count(raw) ==> {
                let entry = (#[trigger] entry_of(raw, i))->Ok_0;
                entry.namespace.byte() != namespace.byte() || entry.url != path
            }),
{
    let key = path_key(namespace, path);
    if exists|i: int|
        0 <= i < entry_count(raw) && entry_key((#[trigger] entry_of(raw, i))->Ok_0) == key {
        let idx = choose|i: int|
            0 <= i < entry_count(raw) && entry_key((#[trigger] entry_of(raw, i))->Ok_0) == key;
        lemma_bisect_finds(raw, key, 0, entry_count(raw), idx);
        let entry = entry_of(raw, idx)->Ok_0;
        path_key_is_injective(entry.namespace, entry.url, namespace, path);
    } else {
        lemma_bisect_misses(raw, key, 0, entry_count(raw));
        assert forall|i: int| 0 <= i < entry_count(raw) implies {
            let entry = (#[trigger] entry_of(raw, i))->Ok_0;
            entry.namespace.byte() != namespace.byte() || entry.url != path
        } by {
            let entry = entry_of(raw, i)->Ok_0;
            if entry.namespace.byte() == namespace.byte() && entry.url == path {
                assert(entry_key(entry) == key);
            }
        }
    }
}

/// Paths in order have their namespaces in order.
proof fn lemma_namespace_order(a: EntryView, b: EntryView)
    requires
        precedes(entry_key(a), entry_key(b)),
    ensures
        a.namespace.byte() <= b.namespace.byte(),
{
    let x = entry_key(a);
    let y = entry_key(b);
    assert(x[0] == a.namespace.byte() && y[0] == b.namespace.byte());
    let k = choose|k: int| #[trigger]
        differs_at(x, y, k) && (k == x.len() || (k < y.len() && x[k] < y[k]));
    if k > 0 {
        assert(x[0] == y[0]);
    }
}

proof fn lemma_partition(raw: Seq<u8>, limit: int, low: int, high: int)
    requires
        is_ordered(raw),
        0 <= low <= high <= entry_count(raw),
    ensures
        partition(raw, limit, low, high) matches Ok(at) && {
            &&& low <= at <= high
            &&& forall|i: int|
                low <= i < at ==> (#[trigger] entry_of(raw, i))->Ok_0.namespace.byte() < limit
            &&& forall|i: int|
                at <= i < high ==> (#[trigger] entry_of(raw, i))->Ok_0.namespace.byte() >= limit
        },
    decreases high - low,
{
    if low < high {
        let mid = low + (high - low) / 2;
        assert(entry_of(raw, mid) is Ok);
        assert forall|i: int, j: int| 0 <= i <= j < entry_count(raw) implies (
        #[trigger] entry_of(raw, i))->Ok_0.namespace.byte() <= (#[trigger] entry_of(
            raw,
            j,
        ))->Ok_0.namespace.byte() by {
            if i < j {
                lemma_namespace_order(entry_of(raw, i)->Ok_0, entry_of(raw, j)->Ok_0);
            }
        }
        lemma_partition(raw, limit, mid + 1, high);
        lemma_partition(raw, limit, low, mid);
    }
}

/// In an ordered archive the range of a namespace covers all of its entries, and no others.
pub proof fn namespace_range_covers_one_namespace(raw: Seq<u8>, namespace: Namespace)
    requires
        is_ordered(raw),
    ensures
        namespace_bounds(raw, namespace) matches Ok((start, end)) && {
            &&& 0 <= start <= end <= entry_count(raw)
            &&& forall|i: int|
                0 <= i < entry_count(raw) ==> (start <= i < end <==> (#[trigger] entry_of(
                    raw,
                    i,
                ))->Ok_0.namespace.byte() == namespace.byte())
        },
{
    let byte = namespace.byte() as int;
    let n = entry_count(raw);
    lemma_partition(raw, byte, 0, n);
    let start = partition(raw, byte, 0, n)->Ok_0;
    lemma_partition(raw, byte + 1, start, n);
}

/// Entries are ordered by their namespace and path, and an archive has as many as the number at the
/// 24th byte of its header.
pub proof fn entries_are_keyed_by_their_path(raw: Seq<u8>, entry: EntryView)
    ensures
        entry_key(entry) == path_key(entry.namespace, entry.url),
        entry_count(raw) == u32_at(raw, 24),
{
}

/// An archive whose entries can all be read and come by ascending namespace byte, and within one
/// namespace by ascending bytes of their paths, is ordered.
pub proof fn sorted_archives_are_ordered(raw: Seq<u8>)
    requires
        forall|i: int| 0 <= i < u32_at(raw, 24) ==> #[trigger] entry_of(raw, i) is Ok,
        forall|i: int, j: int|
            0 <= i < j < u32_at(raw, 24) ==> {
                let a = (#[trigger] entry_of(raw, i))->Ok_0;
                let b = (#[trigger] entry_of(raw, j))->Ok_0;
                ||| a.namespace.byte() < b.namespace.byte()
                ||| a.namespace.byte() == b.namespace.byte() && precedes(
                    encode_utf8(a.url),
                    encode_utf8(b.url),
                )
            },
    ensures
        is_ordered(raw),
{
    assert forall|i: int, j: int| 0 <= i < j < entry_count(raw) implies precedes(
        entry_key(#[trigger] entry_of(raw, i)->Ok_0),
        entry_key(#[trigger] entry_of(raw, j)->Ok_0),
    ) by {
        let a = entry_of(raw, i)->Ok_0;
        let b = entry_of(raw, j)->Ok_0;
        let x = encode_utf8(a.url);
        let y = encode_utf8(b.url);
        if a.namespace.byte() < b.namespace.byte() {
            let none = Seq::<u8>::empty();
            precedes_is_dictionary_order(none, a.namespace.byte(), b.namespace.byte(), x, y);
            assert(none + seq![a.namespace.byte()] + x =~= entry_key(a));
            assert(none + seq![b.namespace.byte()] + y =~= entry_key(b));
        } else {
            let k = choose|k: int| #[trigger]
                differs_at(x, y, k) && (k == x.len() || (k < y.len() && x[k] < y[k]));
            assert(differs_at(entry_key(a), entry_key(b), k + 1)) by {
                assert forall|m: int| 0 <= m < k + 1 implies #[trigger] entry_key(a)[m]
                    == entry_key(b)[m] by {
                    if m > 0 {
                        assert(x[m - 1] == y[m - 1]);
                    }
                }
            }
        }
    }
}

/// Getting an entry by path is finding its index and reading the entry there.
pub proof fn entries_by_path_are_those_at_the_index(
    raw: Seq<u8>,
    namespace: Namespace,
    path: Seq<char>,
    idx: int,
)
    ensures
        index_of(raw, namespace, path) == Ok::<Option<int>, Error>(Some(idx)) ==> {
            &&& entry_of(raw, idx) matches Ok(entry)
            &&& entry_by_path(raw, namespace, path) == Ok::<Option<EntryView>, Error>(Some(entry))
            &&& entry.url == path
            &&& entry.namespace.byte() == namespace.byte()
        },
        index_of(raw, namespace, path) == Ok::<Option<int>, Error>(None) <==> entry_by_path(
            raw,
            namespace,
            path,
        ) == Ok::<Option<EntryView>, Error>(None),
        index_of(raw, namespace, path) matches Err(err) ==> entry_by_path(raw, namespace, path)
            == Err::<Option<EntryView>, Error>(err),
{
    found_entries_have_the_path(raw, namespace, path);
}

/// Finding fails only on an entry that cannot be read, with that entry's error.
pub proof fn searches_fail_on_unreadable_entries(
    raw: Seq<u8>,
    namespace: Namespace,
    path: Seq<char>,
)
    ensures
        index_of(raw, namespace, path) matches Err(err) ==> exists|i: int|
            0 <= i < entry_count(raw) && #[trigger] entry_of(raw, i) == Err::<EntryView, Error>(err),
{
    lemma_bisect_fails(raw, path_key(namespace, path), 0, entry_count(raw));
}

proof fn lemma_bisect_fails(raw: Seq<u8>, key: Seq<u8>, low: int, high: int)
    requires
        0 <= low,
    ensures
        bisect(raw, key, low, high) matches Err(err) ==> exists|i: int|
            low <= i < high && #[trigger] entry_of(raw, i) == Err::<EntryView, Error>(err),
    decreases high - low,
{
    if low < high {
        let mid = low + (high - low) / 2;
        if entry_of(raw, mid) is Ok {
            lemma_bisect_fails(raw, key, mid + 1, high);
            lemma_bisect_fails(raw, key, low, mid);
        }
    }
}

/// The paths between two indices are those of the entries there, one by one; the first entry that
/// cannot be read gives the error.
pub proof fn urls_are_those_of_the_entries(raw: Seq<u8>, low: int, high: int, i: int)
    requires
        0 <= low <= high,
    ensures
        urls_between(raw, low, high) matches Ok(urls) ==> {
            &&& urls.len() == high - low
            &&& 0 <= i < urls.len() ==> entry_of(raw, low + i) is Ok && urls[i] == entry_of(
                raw,
                low + i,
            )->Ok_0.url
        },
        urls_between(raw, low, high) matches Err(err) ==> exists|k: int|
            low <= k < high && #[trigger] entry_of(raw, k) == Err::<EntryView, Error>(err) && forall|
                j: int,
            |
                low <= j < k ==> #[trigger] entry_of(raw, j) is Ok,
    decreases high - low,
{
    if low < high {
        if entry_of(raw, low) is Ok {
            urls_are_those_of_the_entries(raw, low + 1, high, i - 1);
            if let Ok(rest) = urls_between(raw, low + 1, high) {
                let url = entry_of(raw, low)->Ok_0.url;
                let urls = seq![url] + rest;
                assert(urls_between(raw, low, high) == Ok::<Seq<Seq<char>>, Error>(urls));
                assert(urls[0] == url);
                assert(0 < i < urls.len() ==> urls[i] == rest[i - 1]);
            }
            if let Err(err) = urls_between(raw, low + 1, high) {
                let k = choose|k: int|
                    low + 1 <= k < high && #[trigger] entry_of(raw, k) == Err::<EntryView, Error>(
                        err,
                    ) && forall|j: int| low + 1 <= j < k ==> #[trigger] entry_of(raw, j) is Ok;
                assert forall|j: int| low <= j < k implies #[trigger] entry_of(raw, j) is Ok by {
                    if j > low {
                        assert(low + 1 <= j < k);
                    }
                }
                assert(low <= k < high && entry_of(raw, k) == Err::<EntryView, Error>(err));
            }
        } else {
            let err = entry_of(raw, low)->Err_0;
            assert(entry_of(raw, low) == Err::<EntryView, Error>(err));
        }
    }
}

/// In an ordered archive the paths of a namespace are those of exactly the entries in it, in order.
pub proof fn namespace_paths_are_complete(raw: Seq<u8>, namespace: Namespace, idx: int)
    requires
        is_ordered(raw),
        0 <= idx < entry_count(raw),
    ensures
        namespace_urls(raw, namespace) matches Ok(urls) && {
            let start = namespace_bounds(raw, namespace)->Ok_0.0;
            let end = namespace_bounds(raw, namespace)->Ok_0.1;
            &&& urls.len() == end - start
            &&& entry_of(raw, idx)->Ok_0.namespace.byte() == namespace.byte() <==> start <= idx < end
            &&& start <= idx < end ==> urls[idx - start] == entry_of(raw, idx)->Ok_0.url
        },
{
    namespace_range_covers_one_namespace(raw, namespace);
    let (start, end) = namespace_bounds(raw, namespace)->Ok_0;
    urls_are_those_of_the_entries(raw, start, end, idx - start);
    if let Err(err) = urls_between(raw, start, end) {
        let k = choose|k: int|
            start <= k < end && #[trigger] entry_of(raw, k) == Err::<EntryView, Error>(err)
                && forall|j: int| start <= j < k ==> #[trigger] entry_of(raw, j) is Ok;
        assert(entry_of(raw, k) is Ok);
    }
}

/// A search starts in the middle of the archive: where the entry there cannot be read, that is what
/// comes out, and where it is the one asked for, nothing else is looked at.
pub proof fn searches_start_in_the_middle(raw: Seq<u8>, namespace: Namespace, path: Seq<char>)
    requires
        entry_count(raw) > 0,
    ensures
        entry_of(raw, entry_count(raw) / 2) matches Err(err) ==> {
            &&& index_of(raw, namespace, path) == Err::<Option<int>, Error>(err)
            &&& namespace_bounds(raw, namespace) == Err::<(int, int), Error>(err)
        },
        entry_of(raw, entry_count(raw) / 2) matches Ok(entry) ==> entry.namespace == namespace
            && entry.url == path ==> index_of(raw, namespace, path) == Ok::<Option<int>, Error>(
            Some(entry_count(raw) / 2),
        ),
{
}

/// Finding a namespace's range fails only on an entry that cannot be read, with that entry's error.
pub proof fn ranges_fail_on_unreadable_entries(raw: Seq<u8>, namespace: Namespace)
    ensures
        namespace_bounds(raw, namespace) matches Err(err) ==> exists|i: int|
            0 <= i < entry_count(raw) && #[trigger] entry_of(raw, i) == Err::<EntryView, Error>(err),
        namespace_bounds(raw, namespace) matches Ok((start, end)) ==> 0 <= start <= end
            <= entry_count(raw),
        namespace_bounds(raw, namespace) matches Err(err) ==> namespace_urls(raw, namespace)
            == Err::<Seq<Seq<char>>, Error>(err),
        namespace_bounds(raw, namespace) matches Ok((start, end)) ==> namespace_urls(raw, namespace)
            == urls_between(raw, start, end),
{
    let count = entry_count(raw);
    lemma_partition_fails(raw, namespace.byte() as int, 0, count);
    if let Ok(start) = partition(raw, namespace.byte() as int, 0, count) {
        lemma_partition_fails(raw, namespace.byte() + 1, start, count);
    }
}

proof fn lemma_partition_fails(raw: Seq<u8>, limit: int, low: int, high: int)
    requires
        0 <= low <= high,
    ensures
        partition(raw, limit, low, high) matches Err(err) ==> exists|i: int|
            low <= i < high && #[trigger] entry_of(raw, i) == Err::<EntryView, Error>(err),
        partition(raw, limit, low, high) matches Ok(at) ==> low <= at <= high,
    decreases high - low,
{
    if low < high {
        let mid = low + (high - low) / 2;
        if entry_of(raw, mid) is Ok {
            lemma_partition_fails(raw, limit, mid + 1, high);
            lemma_partition_fails(raw, limit, low, mid);
        }
    }
}

} // verus!
