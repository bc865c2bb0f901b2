//! An archive's bytes, whole or split into chunks.
use crate::errors::{Error, Result};
use std::borrow::Cow;
use vstd::prelude::*;
use vstd::slice::slice_subrange;

verus! {

/// The concatenation of a run of chunks.
pub open spec fn joined(chunks: Seq<Seq<u8>>) -> Seq<u8>
    decreases chunks.len(),
{
    if chunks.len() == 0 {
        Seq::empty()
    } else {
        joined(chunks.drop_last()) + chunks.last()
    }
}

/// The contents of a list of borrowed byte slices.
pub open spec fn contents(maps: Seq<&[u8]>) -> Seq<Seq<u8>> {
    maps.map_values(|map: &[u8]| map@)
}

/// A concatenation can be cut between any two chunks.
pub proof fn lemma_joined_split(chunks: Seq<Seq<u8>>, i: int)
    requires
        0 <= i <= chunks.len(),
    ensures
        joined(chunks) == joined(chunks.take(i)) + joined(chunks.skip(i)),
    decreases chunks.len(),
{
    if i == chunks.len() {
        assert(chunks.take(i) =~= chunks);
        assert(chunks.skip(i) =~= Seq::<Seq<u8>>::empty());
        assert(joined(chunks.skip(i)) =~= Seq::<u8>::empty());
        assert(joined(chunks) =~= joined(chunks.take(i)) + joined(chunks.skip(i)));
    } else {
        let init = chunks.drop_last();
        lemma_joined_split(init, i);
        assert(init.take(i) =~= chunks.take(i));
        assert(chunks.skip(i).drop_last() =~= init.skip(i));
        assert(joined(chunks) =~= joined(chunks.take(i)) + joined(chunks.skip(i)));
    }
}

/// Neighbouring ranges make up a longer one.
proof fn lemma_subranges_join(whole: Seq<u8>, a: int, b: int, c: int)
    requires
        0 <= a <= b <= c <= whole.len(),
    ensures
        whole.subrange(a, b) + whole.subrange(b, c) == whole.subrange(a, c),
{
    assert(whole.subrange(a, b) + whole.subrange(b, c) =~= whole.subrange(a, c));
}

/// Where a chunk lies in the concatenation.
proof fn lemma_joined_chunk(chunks: Seq<Seq<u8>>, i: int)
    requires
        0 <= i < chunks.len(),
    ensures
        joined(chunks.take(i + 1)).len() == joined(chunks.take(i)).len() + chunks[i].len(),
        joined(chunks.take(i + 1)).len() <= joined(chunks).len(),
        joined(chunks).subrange(
            joined(chunks.take(i)).len() as int,
            joined(chunks.take(i + 1)).len() as int,
        ) == chunks[i],
{
    lemma_joined_split(chunks, i + 1);
    assert(chunks.take(i + 1).drop_last() =~= chunks.take(i));
    assert(joined(chunks).subrange(
        joined(chunks.take(i)).len() as int,
        joined(chunks.take(i + 1)).len() as int,
    ) =~= chunks[i]);
}

/// Later chunks start no earlier.
proof fn lemma_joined_monotone(chunks: Seq<Seq<u8>>, i: int, j: int)
    requires
        0 <= i <= j <= chunks.len(),
    ensures
        joined(chunks.take(i)).len() <= joined(chunks.take(j)).len(),
        joined(chunks.take(j)).len() <= joined(chunks).len(),
{
    lemma_joined_split(chunks.take(j), i);
    assert(chunks.take(j).take(i) =~= chunks.take(i));
    lemma_joined_split(chunks, j);
}

/// One contiguous run of an archive's bytes.
struct Part<'a> {
    /// Offset of this part's first byte within the archive as a whole.
    start: u64,
    map: &'a [u8],
}

impl<'a> Part<'a> {
    spec fn spec_end(&self) -> int {
        self.start + self.map@.len()
    }

    fn end(&self) -> (end: u64)
        requires
            self.spec_end() <= u64::MAX,
        ensures
            end == self.spec_end(),
    {
        self.start + self.map.len() as u64
    }
}

/// A ZIM archive's bytes, which may be spread over several chunk files.
///
/// Archives too large for the target filesystem are split into chunks named `foobar.zimaa`,
/// `foobar.zimab`, and so on. Every offset in the format addresses the concatenation of those
/// chunks, so this presents them as a single address space.
pub struct Store<'a> {
    parts: Vec<Part<'a>>,
    len: u64,
}

impl<'a> View for Store<'a> {
    type V = Seq<u8>;

    /// The archive's bytes, across all chunks.
    closed spec fn view(&self) -> Seq<u8> {
        joined(self.chunks())
    }
}

impl<'a> Store<'a> {
    /// The chunks that hold bytes, in order.
    pub closed spec fn chunks(&self) -> Seq<Seq<u8>> {
        Seq::new(self.parts@.len(), |i: int| self.parts@[i].map@)
    }

    /// Every part is where the parts before it end, none is empty, and together they are as long
    /// as the store says.
    pub closed spec fn wf(&self) -> bool {
        &&& self.parts@.len() > 0
        &&& self.len == joined(self.chunks()).len()
        &&& forall|i: int|
            #![trigger self.parts@[i]]
            0 <= i < self.parts@.len() ==> {
                &&& self.parts@[i].start == joined(self.chunks().take(i)).len()
                &&& self.parts@[i].map@.len() > 0
            }
    }

    /// The offset at which the chunk holding `offset` ends.
    pub open spec fn chunk_end(&self, offset: int) -> int {
        chunk_end(self.chunks(), offset)
    }

    proof fn lemma_part(&self, i: int)
        requires
            self.wf(),
            0 <= i < self.parts@.len(),
        ensures
            self.parts@[i].spec_end() == joined(self.chunks().take(i + 1)).len(),
            self.parts@[i].spec_end() <= self.len,
            self.parts@[i].map@.len() <= usize::MAX,
            self@.subrange(self.parts@[i].start as int, self.parts@[i].spec_end())
                == self.parts@[i].map@,
    {
        lemma_joined_chunk(self.chunks(), i);
        assert(self.parts@[i].map.len() == self.parts@[i].map@.len());
    }

    proof fn lemma_part_slice(&self, i: int, from: int, to: int)
        requires
            self.wf(),
            0 <= i < self.parts@.len(),
            0 <= from <= to <= self.parts@[i].map@.len(),
        ensures
            self.parts@[i].map@.subrange(from, to) == self@.subrange(
                self.parts@[i].start + from,
                self.parts@[i].start + to,
            ),
    {
        self.lemma_part(i);
        let part = self.parts@[i];
        assert(part.map@.subrange(from, to) =~= self@.subrange(
            part.start as int,
            part.spec_end(),
        ).subrange(from, to));
        assert(self@.subrange(part.start as int, part.spec_end()).subrange(from, to)
            =~= self@.subrange(part.start + from, part.start + to));
    }

    proof fn lemma_part_bytes(&self, i: int)
        requires
            self.wf(),
            0 <= i < self.parts@.len(),
        ensures
            forall|j: int|
                self.parts@[i].start <= j < self.parts@[i].spec_end() ==> #[trigger] self@[j]
                    == self.parts@[i].map@[j - self.parts@[i].start],
    {
        self.lemma_part(i);
        let part = self.parts@[i];
        assert forall|j: int| part.start <= j < part.spec_end() implies #[trigger] self@[j]
            == part.map@[j - part.start] by {
            assert(self@.subrange(part.start as int, part.spec_end())[j - part.start] == self@[j]);
        }
    }
}

/// The offset at which the chunk holding `offset` ends.
pub open spec fn chunk_end(chunks: Seq<Seq<u8>>, offset: int) -> int
    decreases chunks.len(),
{
    if chunks.len() == 0 {
        0
    } else if offset >= joined(chunks.drop_last()).len() {
        joined(chunks).len() as int
    } else {
        chunk_end(chunks.drop_last(), offset)
    }
}

/// The chunk holding an offset is the one whose extent holds it.
proof fn lemma_chunk_end(chunks: Seq<Seq<u8>>, i: int, offset: int)
    requires
        0 <= i < chunks.len(),
        joined(chunks.take(i)).len() <= offset < joined(chunks.take(i + 1)).len(),
    ensures
        chunk_end(chunks, offset) == joined(chunks.take(i + 1)).len(),
    decreases chunks.len(),
{
    if i + 1 == chunks.len() {
        assert(chunks.take(i + 1) =~= chunks);
        assert(chunks.take(i) =~= chunks.drop_last());
    } else {
        lemma_joined_monotone(chunks, i + 1, chunks.len() - 1);
        assert(chunks.take(chunks.len() - 1) =~= chunks.drop_last());
        assert(chunks.drop_last().take(i) =~= chunks.take(i));
        assert(chunks.drop_last().take(i + 1) =~= chunks.take(i + 1));
        lemma_chunk_end(chunks.drop_last(), i, offset);
    }
}

/// The parts of chunks that lie before `upto`, without those that no byte before it is in.
pub open spec fn prefix_cut(chunks: Seq<Seq<u8>>, upto: int) -> Seq<Seq<u8>>
    decreases chunks.len(),
{
    if chunks.len() == 0 {
        Seq::empty()
    } else {
        let start = joined(chunks.drop_last()).len();
        let last = chunks.last();
        if upto <= start {
            prefix_cut(chunks.drop_last(), upto)
        } else if upto < start + last.len() {
            prefix_cut(chunks.drop_last(), upto).push(last.take(upto - start))
        } else {
            prefix_cut(chunks.drop_last(), upto).push(last)
        }
    }
}

/// Chunks that start no earlier than `upto` add nothing before it.
proof fn lemma_prefix_cut_stops(chunks: Seq<Seq<u8>>, i: int, upto: int)
    requires
        0 <= i <= chunks.len(),
        i < chunks.len() ==> joined(chunks.take(i)).len() >= upto,
    ensures
        prefix_cut(chunks, upto) == prefix_cut(chunks.take(i), upto),
    decreases chunks.len(),
{
    if i == chunks.len() {
        assert(chunks.take(i) =~= chunks);
    } else {
        let init = chunks.drop_last();
        assert(init.take(i) =~= chunks.take(i));
        lemma_joined_split(init, i);
        lemma_prefix_cut_stops(init, i, upto);
    }
}

/// What lies before `upto` is the beginning of the concatenation.
proof fn lemma_prefix_cut_joined(chunks: Seq<Seq<u8>>, upto: int)
    requires
        0 <= upto,
    ensures
        joined(prefix_cut(chunks, upto)) == joined(chunks).take(
            if upto <= joined(chunks).len() { upto } else { joined(chunks).len() as int },
        ),
    decreases chunks.len(),
{
    let whole = joined(chunks);
    if chunks.len() == 0 {
        assert(joined(prefix_cut(chunks, upto)) =~= whole.take(0));
    } else {
        let init = chunks.drop_last();
        let start = joined(init).len();
        let last = chunks.last();
        lemma_prefix_cut_joined(init, upto);
        let head = prefix_cut(init, upto);
        if upto <= start {
            assert(joined(head) =~= whole.take(upto));
        } else {
            let piece = if upto < start + last.len() { last.take(upto - start) } else { last };
            assert(head.push(piece).drop_last() =~= head);
            assert(joined(head) =~= joined(init));
            assert(joined(head.push(piece)) =~= whole.take(
                if upto <= whole.len() { upto } else { whole.len() as int },
            ));
        }
    }
}

impl<'a> Store<'a> {
    /// Puts an archive together from the contents of its files, in order.
    ///
    /// A file without contents takes up no room. An archive without any is refused.
    pub fn from_maps(maps: Vec<&'a [u8]>) -> (r: Result<Store<'a>>)
        requires
            joined(contents(maps@)).len() <= u64::MAX,
        ensures
            joined(contents(maps@)).len() == 0 ==> r == Err::<Store<'a>, Error>(
                Error::InvalidHeader("archive is empty"),
            ),
            joined(contents(maps@)).len() > 0 ==> r is Ok,
            r matches Ok(store) ==> {
                &&& store.wf()
                &&& store@ == joined(contents(maps@))
                &&& store.chunks() == contents(maps@).filter(|chunk: Seq<u8>| chunk.len() > 0)
            },
    {
        let mut parts: Vec<Part<'a>> = Vec::with_capacity(maps.len());
        let mut len: u64 = 0;
        let ghost all = contents(maps@);
        let ghost keep = |chunk: Seq<u8>| chunk.len() > 0;

        for i in 0..maps.len()
            invariant
                all == contents(maps@),
                keep == (|chunk: Seq<u8>| chunk.len() > 0),
                joined(all).len() <= u64::MAX,
                len == joined(all.take(i as int)).len(),
                ({
                    let store = Store { parts, len };
                    &&& joined(store.chunks()) == joined(all.take(i as int))
                    &&& store.chunks() == all.take(i as int).filter(keep)
                    &&& parts@.len() > 0 ==> store.wf()
                    &&& parts@.len() == 0 ==> len == 0
                }),
        {
            let map = maps[i];
            let ghost before = Store { parts, len };
            proof {
                lemma_joined_chunk(all, i as int);
                assert(all.take(i + 1).drop_last() =~= all.take(i as int));
                assert(all.take(i + 1).last() == map@);
                assert(all.take(i + 1) =~= all.take(i as int).push(map@));
                reveal(Seq::filter);
            }
            // An empty chunk would occupy an empty range, which no offset can land in.
            if !map.is_empty() {
                let size = map.len() as u64;
                parts.push(Part { start: len, map });
                len = len + size;
                proof {
                    let after = Store { parts, len };
                    assert(after.chunks() =~= before.chunks().push(map@));
                    assert(after.chunks().drop_last() =~= before.chunks());
                    assert forall|k: int|
                        #![trigger parts@[k]]
                        0 <= k < parts@.len() implies {
                        &&& parts@[k].start == joined(after.chunks().take(k)).len()
                        &&& parts@[k].map@.len() > 0
                    } by {
                        if k < before.parts@.len() {
                            assert(parts@[k] == before.parts@[k]);
                            assert(after.chunks().take(k) =~= before.chunks().take(k));
                        } else {
                            assert(after.chunks().take(k) =~= before.chunks());
                        }
                    }
                }
            } else {
                proof {
                    assert(map@ =~= Seq::<u8>::empty());
                    assert(joined(all.take(i + 1)) =~= joined(all.take(i as int)));
                }
            }
        }
        proof {
            assert(all.take(maps@.len() as int) =~= all);
        }
        if parts.is_empty() {
            return Err(Error::InvalidHeader("archive is empty"));
        }
        proof {
            let store = Store { parts, len };
            lemma_joined_chunk(store.chunks(), 0);
        }
        Ok(Store { parts, len })
    }

    /// Total size of the archive, across all chunks.
    pub fn len(&self) -> (len: u64)
        requires
            self.wf(),
        ensures
            len == self@.len(),
    {
        self.len
    }

    pub fn is_empty(&self) -> (empty: bool)
        requires
            self.wf(),
        ensures
            empty == (self@.len() == 0),
    {
        self.len == 0
    }

    /// The index of the part that holds the byte at `offset`.
    fn part_containing(&self, offset: u64) -> (r: Result<usize>)
        requires
            self.wf(),
        ensures
            offset >= self@.len() ==> r == Err::<usize, Error>(Error::OutOfBounds),
            offset < self@.len() ==> r is Ok,
            r matches Ok(i) ==> {
                &&& i < self.parts@.len()
                &&& self.parts@[i as int].start <= offset < self.parts@[i as int].spec_end()
            },
    {
        let mut low: usize = 0;
        let mut high: usize = self.parts.len();
        proof {
            assert(self.chunks().take(0) =~= Seq::<Seq<u8>>::empty());
            assert(self.chunks().take(self.parts@.len() as int) =~= self.chunks());
        }
        while low < high
            invariant
                self.wf(),
                0 <= low <= high <= self.parts@.len(),
                joined(self.chunks().take(low as int)).len() <= offset,
                high < self.parts@.len() ==> offset < joined(self.chunks().take(high as int)).len(),
            decreases high - low,
        {
            let mid = low + (high - low) / 2;
            let part = &self.parts[mid];
            proof {
                self.lemma_part(mid as int);
            }
            if offset < part.start {
                high = mid;
            } else if offset >= part.end() {
                low = mid + 1;
            } else {
                return Ok(mid);
            }
        }
        proof {
            assert(self.chunks().take(self.parts@.len() as int) =~= self.chunks());
        }
        Err(Error::OutOfBounds)
    }
}

/// The bytes of a slice that is either borrowed or copied.
pub fn bytes_of<'b>(cow: &'b Cow<'_, [u8]>) -> (raw: &'b [u8])
    ensures
        raw@ == cow@,
{
    match cow {
        Cow::Borrowed(raw) => *raw,
        Cow::Owned(raw) => raw.as_slice(),
    }
}

/// The bytes that a [`Store::slice`] yields, as a vector. Copies them only if they are borrowed.
pub(crate) fn vec_of(cow: Cow<'_, [u8]>) -> (raw: Vec<u8>)
    ensures
        raw@ == cow@,
{
    match cow {
        Cow::Borrowed(raw) => {
            let mut out: Vec<u8> = Vec::new();
            out.extend_from_slice(raw);
            assert(out@ =~= raw@);
            out
        },
        Cow::Owned(raw) => raw,
    }
}

/// The index of the first zero byte at or after `from`, if there is one.
fn zero_in(raw: &[u8], from: usize) -> (r: Option<usize>)
    requires
        from <= raw@.len(),
    ensures
        r matches Some(at) ==> {
            &&& from <= at < raw@.len()
            &&& raw@[at as int] == 0
            &&& forall|k: int| from <= k < at ==> #[trigger] raw@[k] != 0
        },
        r is None ==> forall|k: int| from <= k < raw@.len() ==> #[trigger] raw@[k] != 0,
{
    let mut k: usize = from;
    while k < raw.len()
        invariant
            from <= k <= raw@.len(),
            forall|j: int| from <= j < k ==> #[trigger] raw@[j] != 0,
        decreases raw@.len() - k,
    {
        if raw[k] == 0 {
            return Some(k);
        }
        k = k + 1;
    }
    None
}

impl<'a> Store<'a> {
    /// What [`Store::slice`] is asked for lies within the archive.
    pub open spec fn holds(&self, start: u64, len: u64) -> bool {
        start < self@.len() && start + len <= self@.len()
    }

    /// A range that lies within one chunk.
    pub open spec fn contiguous(&self, start: u64, len: u64) -> bool {
        start + len <= self.chunk_end(start as int)
    }

    /// Returns `len` bytes starting at `start`.
    ///
    /// Borrows straight from the mapping when the range lies within one chunk, which is always
    /// the case for a single-file archive. A range straddling a chunk boundary has no contiguous
    /// backing, so it is copied instead.
    pub fn slice(&self, start: u64, len: u64) -> (r: Result<Cow<'a, [u8]>>)
        requires
            self.wf(),
        ensures
            !self.holds(start, len) ==> r == Err::<Cow<'a, [u8]>, Error>(Error::OutOfBounds),
            self.holds(start, len) && len > usize::MAX ==> r == Err::<Cow<'a, [u8]>, Error>(
                Error::TryFromIntError,
            ),
            self.holds(start, len) && len <= usize::MAX ==> r is Ok,
            r matches Ok(bytes) ==> {
                &&& bytes@ == self@.subrange(start as int, start + len)
                &&& bytes is Borrowed <==> self.contiguous(start, len)
            },
    {
        let end = match start.checked_add(len) {
            Some(end) => end,
            None => return Err(Error::OutOfBounds),
        };
        if end > self.len {
            return Err(Error::OutOfBounds);
        }
        let idx = self.part_containing(start)?;
        let part = &self.parts[idx];
        proof {
            self.lemma_part(idx as int);
            lemma_chunk_end(self.chunks(), idx as int, start as int);
        }
        if end <= part.end() {
            let from = (start - part.start) as usize;
            let to = (end - part.start) as usize;
            let raw = slice_subrange(part.map, from, to);
            proof {
                self.lemma_part_slice(idx as int, from as int, to as int);
            }
            return Ok(Cow::Borrowed(raw));
        }
        let capacity = match usize::try_from(len) {
            Ok(capacity) => capacity,
            Err(err) => return Err(Error::from(err)),
        };
        let mut out: Vec<u8> = Vec::with_capacity(capacity);
        let mut pos = start;
        let mut i: usize = idx;
        while i < self.parts.len() && pos < end
            invariant
                self.wf(),
                idx <= i <= self.parts@.len(),
                start <= pos,
                start + len == end <= self.len,
                i < self.parts@.len() ==> self.parts@[i as int].start <= pos,
                i < self.parts@.len() ==> pos < self.parts@[i as int].spec_end(),
                i == self.parts@.len() ==> pos == self.len,
                out@ == self@.subrange(start as int, if pos < end { pos as int } else { end as int }),
            decreases self.parts@.len() - i,
        {
            let part = &self.parts[i];
            proof {
                self.lemma_part(i as int);
                if i + 1 < self.parts@.len() {
                    self.lemma_part(i + 1);
                } else {
                    assert(self.chunks().take(i + 1) =~= self.chunks());
                }
            }
            let from = (pos - part.start) as usize;
            let stop = if end < part.end() { end } else { part.end() };
            let to = (stop - part.start) as usize;
            let piece = slice_subrange(part.map, from, to);
            let ghost before = out@;
            out.extend_from_slice(piece);
            proof {
                self.lemma_part_slice(i as int, from as int, to as int);
                assert(out@ =~= before + piece@);
                lemma_subranges_join(self@, start as int, pos as int, stop as int);
            }
            pos = part.end();
            i = i + 1;
        }
        Ok(Cow::Owned(out))
    }

    /// Returns up to `len` bytes starting at `start`, stopping at the end of the archive.
    ///
    /// Used where the length of a structure is not known up front and is instead determined by
    /// parsing it.
    pub fn slice_upto(&self, start: u64, len: u64) -> (r: Result<Cow<'a, [u8]>>)
        requires
            self.wf(),
        ensures
            start >= self@.len() ==> r == Err::<Cow<'a, [u8]>, Error>(Error::OutOfBounds),
            start < self@.len() ==> {
                let got = if len <= self@.len() - start { len } else { (self@.len() - start) as u64 };
                if got <= usize::MAX {
                    &&& r matches Ok(bytes)
                    &&& bytes@ == self@.subrange(start as int, start + got)
                    &&& bytes is Borrowed <==> self.contiguous(start, got)
                } else {
                    r == Err::<Cow<'a, [u8]>, Error>(Error::TryFromIntError)
                }
            },
    {
        if start > self.len {
            return Err(Error::OutOfBounds);
        }
        let left = self.len - start;
        self.slice(start, if len < left { len } else { left })
    }

    /// The mapped chunks covering the first `upto` bytes, in order.
    pub fn prefix_chunks(&self, upto: u64) -> (out: Vec<&'a [u8]>)
        requires
            self.wf(),
        ensures
            contents(out@) == prefix_cut(self.chunks(), upto as int),
            joined(contents(out@)) == self@.take(
                if upto <= self@.len() { upto as int } else { self@.len() as int },
            ),
    {
        let mut out: Vec<&'a [u8]> = Vec::new();
        let mut i: usize = 0;
        let ghost chunks = self.chunks();
        proof {
            assert(contents(out@) =~= prefix_cut(chunks.take(0), upto as int));
        }
        while i < self.parts.len() && self.parts[i].start < upto
            invariant
                self.wf(),
                chunks == self.chunks(),
                0 <= i <= self.parts@.len(),
                contents(out@) == prefix_cut(chunks.take(i as int), upto as int),
            decreases self.parts@.len() - i,
        {
            let part = &self.parts[i];
            proof {
                self.lemma_part(i as int);
            }
            let stop = if upto < part.end() { upto } else { part.end() };
            let end = match usize::try_from(stop - part.start) {
                Ok(end) => end,
                Err(_) => part.map.len(),
            };
            let piece = slice_subrange(part.map, 0, end);
            let ghost before = out@;
            out.push(piece);
            proof {
                assert(contents(out@) =~= contents(before).push(piece@));
                assert(chunks.take(i + 1).drop_last() =~= chunks.take(i as int));
                assert(chunks.take(i + 1).last() == part.map@);
                if stop == part.spec_end() {
                    assert(piece@ =~= part.map@);
                }
            }
            i = i + 1;
        }
        proof {
            lemma_prefix_cut_stops(chunks, i as int, upto as int);
            lemma_prefix_cut_joined(chunks, upto as int);
        }
        out
    }

    /// The offset of the first zero byte at or after `start`, if there is one.
    pub fn zero_from(&self, start: u64) -> (r: Option<u64>)
        requires
            self.wf(),
        ensures
            r matches Some(at) ==> {
                &&& start <= at < self@.len()
                &&& self@[at as int] == 0
                &&& forall|k: int| start <= k < at ==> #[trigger] self@[k] != 0
            },
            r is None ==> forall|k: int| start <= k < self@.len() ==> #[trigger] self@[k] != 0,
    {
        let mut i = match self.part_containing(start) {
            Ok(i) => i,
            Err(_) => return None,
        };
        let mut pos = start;
        while i < self.parts.len()
            invariant
                self.wf(),
                0 <= i <= self.parts@.len(),
                start <= pos <= self.len,
                i < self.parts@.len() ==> self.parts@[i as int].start <= pos,
                i < self.parts@.len() ==> pos < self.parts@[i as int].spec_end(),
                i == self.parts@.len() ==> pos == self.len,
                forall|k: int| start <= k < pos ==> #[trigger] self@[k] != 0,
            decreases self.parts@.len() - i,
        {
            let part = &self.parts[i];
            proof {
                self.lemma_part(i as int);
                if i + 1 < self.parts@.len() {
                    self.lemma_part(i + 1);
                } else {
                    assert(self.chunks().take(i + 1) =~= self.chunks());
                }
            }
            let from = (pos - part.start) as usize;
            proof {
                self.lemma_part_bytes(i as int);
            }
            if let Some(k) = zero_in(part.map, from) {
                assert forall|j: int| start <= j < part.start + k implies #[trigger] self@[j]
                    != 0 by {
                    if j >= pos {
                        assert(self@[j] == part.map@[j - part.start]);
                    }
                }
                assert(self@[part.start + k] == part.map@[k as int]);
                return Some(part.start + k as u64);
            }
            assert forall|j: int| start <= j < part.spec_end() implies #[trigger] self@[j] != 0 by {
                if j >= pos {
                    assert(self@[j] == part.map@[j - part.start]);
                }
            }
            pos = part.end();
            i = i + 1;
        }
        None
    }

    /// Reads `start..end` as a stream, without materialising it.
    ///
    /// Used for data that is fed straight to a consumer: copying it first would defeat the
    /// mapping.
    pub fn reader(&'a self, start: u64, end: u64) -> (reader: StoreReader<'a>)
        requires
            self.wf(),
        ensures
            reader.wf(),
            reader.archive() == self,
            reader.position() == start,
            reader.limit() == if end <= self@.len() { end as int } else { self@.len() as int },
    {
        StoreReader { store: self, pos: start, end: if end < self.len { end } else { self.len } }
    }
}

/// Copies `len` bytes of `src`, from `from` on, to the front of `dst`.
fn copy_front(dst: &mut [u8], src: &[u8], from: usize, len: usize)
    requires
        from + len <= src@.len(),
        len <= old(dst)@.len(),
    ensures
        final(dst)@ == src@.subrange(from as int, from + len) + old(dst)@.skip(len as int),
{
    let ghost first = dst@;
    assert(src.len() == src@.len());
    assert(first =~= src@.subrange(from as int, from as int) + first.skip(0));
    let mut i: usize = 0;
    while i < len
        invariant
            0 <= i <= len <= dst@.len(),
            dst@.len() == first.len(),
            from + len <= src@.len() <= usize::MAX,
            dst@ == src@.subrange(from as int, from + i) + first.skip(i as int),
        decreases len - i,
    {
        dst[i] = src[from + i];
        i = i + 1;
        assert(dst@ =~= src@.subrange(from as int, from + i) + first.skip(i as int));
    }
}

/// Streams a byte range of the archive, crossing chunk boundaries as needed.
pub struct StoreReader<'a> {
    store: &'a Store<'a>,
    pos: u64,
    end: u64,
}

impl<'a> StoreReader<'a> {
    pub closed spec fn wf(&self) -> bool {
        self.store.wf() && self.end <= self.store@.len()
    }

    /// The store that is read.
    pub closed spec fn archive(&self) -> &Store<'a> {
        self.store
    }

    /// The offset of the next byte to be read.
    pub closed spec fn position(&self) -> int {
        self.pos as int
    }

    /// The offset that reading stops at.
    pub closed spec fn limit(&self) -> int {
        self.end as int
    }

    /// The bytes still to be read.
    pub open spec fn remaining(&self) -> Seq<u8> {
        if self.position() < self.limit() {
            self.archive()@.subrange(self.position(), self.limit())
        } else {
            Seq::empty()
        }
    }

    /// How many bytes one read yields: no more than asked for, than are left, or than the chunk
    /// still holds.
    pub open spec fn yields(&self, asked: int) -> int {
        let left = if self.archive().chunk_end(self.position()) < self.limit() {
            self.archive().chunk_end(self.position()) - self.position()
        } else {
            self.limit() - self.position()
        };
        if self.position() >= self.limit() || asked == 0 {
            0
        } else if asked < left {
            asked
        } else {
            left
        }
    }

    /// Fills the front of `buf` with the next bytes, and returns how many there are.
    ///
    /// A read stays within one chunk, so it may come back short; it comes back empty only at the
    /// end, or when `buf` is.
    pub fn read(&mut self, buf: &mut [u8]) -> (r: Result<usize>)
        requires
            old(self).wf(),
        ensures
            final(self).wf(),
            final(self).archive() == old(self).archive(),
            final(self).limit() == old(self).limit(),
            r is Ok,
            r matches Ok(n) ==> {
                &&& n == old(self).yields(old(buf)@.len() as int)
                &&& n == 0 <==> old(self).remaining().len() == 0 || old(buf)@.len() == 0
                &&& final(self).position() == old(self).position() + n
                &&& final(buf)@ == old(self).remaining().take(n as int) + old(buf)@.skip(n as int)
                &&& old(self).remaining() == final(buf)@.take(n as int) + final(self).remaining()
            },
    {
        let ghost whole = self.remaining();
        if self.pos >= self.end || buf.is_empty() {
            proof {
                assert(buf@ =~= whole.take(0) + old(buf)@.skip(0));
                assert(whole =~= buf@.take(0) + self.remaining());
            }
            return Ok(0);
        }
        let idx = self.store.part_containing(self.pos)?;
        let part = &self.store.parts[idx];
        proof {
            self.store.lemma_part(idx as int);
            lemma_chunk_end(self.store.chunks(), idx as int, self.pos as int);
        }
        // One part per call; the caller loops.
        let stop = if self.end < part.end() { self.end } else { part.end() };
        let available = stop - self.pos;
        let len: usize = if available < buf.len() as u64 { available as usize } else { buf.len() };
        let from = (self.pos - part.start) as usize;
        copy_front(buf, part.map, from, len);
        proof {
            self.store.lemma_part_slice(idx as int, from as int, from + len);
            lemma_subranges_join(
                self.store@,
                self.pos as int,
                self.pos + len,
                self.end as int,
            );
            assert(whole.take(len as int) =~= self.store@.subrange(
                self.pos as int,
                self.pos + len,
            ));
        }
        self.pos = self.pos + len as u64;
        proof {
            assert(buf@.take(len as int) =~= whole.take(len as int));
            assert(self.store@.subrange(self.pos as int, self.end as int) =~= self.remaining());
        }
        Ok(len)
    }
}

/// A store holds bytes: it has chunks, none of them is empty, and together they are the archive,
/// which 64 bits can address.
pub proof fn stores_hold_bytes(store: Store)
    requires
        store.wf(),
    ensures
        store@ == joined(store.chunks()),
        store.chunks().len() > 0,
        forall|i: int| 0 <= i < store.chunks().len() ==> #[trigger] store.chunks()[i].len() > 0,
        0 < store@.len() <= u64::MAX,
{
    assert forall|i: int| 0 <= i < store.chunks().len() implies #[trigger] store.chunks()[i].len()
        > 0 by {
        assert(store.parts@[i].map@.len() > 0);
    }
    lemma_joined_chunk(store.chunks(), 0);
}

/// A reader stops within the archive that it reads, and stands at some offset.
pub proof fn readers_stay_within(reader: StoreReader)
    requires
        reader.wf(),
    ensures
        reader.archive().wf(),
        0 <= reader.position() <= u64::MAX,
        0 <= reader.limit() <= reader.archive()@.len(),
{
}

/// In an archive that is one file, whatever is read is borrowed straight from the mapping.
pub proof fn single_files_are_contiguous(store: Store, start: u64, len: u64)
    requires
        store.chunks().len() == 1,
        store.holds(start, len),
    ensures
        store.contiguous(start, len),
{
    reveal_with_fuel(joined, 2);
    assert(store.chunks().drop_last() =~= Seq::<Seq<u8>>::empty());
}

/// Joining keeps every chunk as it is, in its place: one chunk alone is the whole, no chunk is
/// nothing, and two runs of chunks are joined by putting one behind the other.
pub proof fn joining_keeps_the_order(front: Seq<Seq<u8>>, back: Seq<Seq<u8>>, chunk: Seq<u8>)
    ensures
        joined(Seq::<Seq<u8>>::empty()) == Seq::<u8>::empty(),
        joined(seq![chunk]) == chunk,
        joined(front + back) == joined(front) + joined(back),
{
    reveal_with_fuel(joined, 2);
    assert(seq![chunk].drop_last() =~= Seq::<Seq<u8>>::empty());
    assert(joined(seq![chunk]) =~= chunk);
    lemma_joined_split(front + back, front.len() as int);
    assert((front + back).take(front.len() as int) =~= front);
    assert((front + back).skip(front.len() as int) =~= back);
}

/// The contents of slices are their bytes, one by one.
pub proof fn contents_are_those_of_the_slices(maps: Seq<&[u8]>, i: int)
    ensures
        contents(maps).len() == maps.len(),
        0 <= i < maps.len() ==> contents(maps)[i] == maps[i]@,
{
}

/// An offset belongs to the chunk that holds the byte there: behind the chunks in front of it, and
/// in front of where it ends itself.
pub proof fn chunks_end_behind_their_bytes(
    front: Seq<Seq<u8>>,
    chunk: Seq<u8>,
    back: Seq<Seq<u8>>,
    offset: int,
)
    requires
        joined(front).len() <= offset < joined(front).len() + chunk.len(),
    ensures
        chunk_end(front + seq![chunk] + back, offset) == joined(front).len() + chunk.len(),
{
    let all = front + seq![chunk] + back;
    let i = front.len() as int;
    assert(all.take(i) =~= front);
    assert(all.take(i + 1) =~= front + seq![chunk]);
    joining_keeps_the_order(front, seq![chunk], chunk);
    lemma_chunk_end(all, i, offset);
}

/// A range can be sliced if it starts in front of the archive's end, and its last byte lies there
/// too; it is in one piece if it ends by the end of the chunk that it starts in.
pub proof fn ranges_lie_within_the_archive(store: Store, start: u64, len: u64)
    ensures
        store.holds(start, len) <==> start < store@.len() && start + (len - 1) < store@.len(),
        store.contiguous(start, len) <==> start + len <= chunk_end(store.chunks(), start as int),
{
}

/// The chunks in front of an offset are those of the archive, the last of them cut off there.
/// Together they are the archive's bytes up to that offset.
pub proof fn prefixes_are_cut_from_the_chunks(chunks: Seq<Seq<u8>>, upto: int, i: int)
    requires
        0 <= upto <= joined(chunks).len(),
        forall|k: int| 0 <= k < chunks.len() ==> #[trigger] chunks[k].len() > 0,
    ensures
        joined(prefix_cut(chunks, upto)) == joined(chunks).take(upto),
        prefix_cut(chunks, upto).len() <= chunks.len(),
        0 <= i < prefix_cut(chunks, upto).len() - 1 ==> prefix_cut(chunks, upto)[i] == chunks[i],
        0 <= i < prefix_cut(chunks, upto).len() ==> {
            &&& 0 < prefix_cut(chunks, upto)[i].len()
            &&& prefix_cut(chunks, upto)[i].is_prefix_of(chunks[i])
        },
{
    lemma_prefix_cut_joined(chunks, upto);
    lemma_prefix_cut_pieces(chunks, upto, i);
}

proof fn lemma_prefix_cut_pieces(chunks: Seq<Seq<u8>>, upto: int, i: int)
    requires
        0 <= upto,
        forall|k: int| 0 <= k < chunks.len() ==> #[trigger] chunks[k].len() > 0,
    ensures
        prefix_cut(chunks, upto).len() <= chunks.len(),
        upto >= joined(chunks).len() ==> prefix_cut(chunks, upto) == chunks,
        0 <= i < prefix_cut(chunks, upto).len() - 1 ==> prefix_cut(chunks, upto)[i] == chunks[i],
        0 <= i < prefix_cut(chunks, upto).len() ==> {
            &&& 0 < prefix_cut(chunks, upto)[i].len()
            &&& prefix_cut(chunks, upto)[i].is_prefix_of(chunks[i])
        },
    decreases chunks.len(),
{
    if chunks.len() > 0 {
        let init = chunks.drop_last();
        let last = chunks.last();
        let start = joined(init).len();
        assert forall|k: int| 0 <= k < init.len() implies #[trigger] init[k].len() > 0 by {
            assert(chunks[k].len() > 0);
        }
        lemma_prefix_cut_pieces(init, upto, i);
        assert(init.push(last) =~= chunks);
        assert(chunks[chunks.len() - 1].len() > 0);
        assert(last =~= last.subrange(0, last.len() as int));
    } else {
        assert(prefix_cut(chunks, upto) =~= chunks);
    }
}

/// A reader has yet to read the bytes between where it stands and where it stops. One read yields
/// as many as are asked for, unless that is past the stop or past the end of the chunk: then it
/// yields all up to there.
pub proof fn reads_stop_at_chunk_ends(reader: StoreReader, asked: int, i: int)
    requires
        reader.wf(),
        0 <= asked,
    ensures
        reader.position() >= reader.limit() ==> reader.remaining().len() == 0 && reader.yields(asked)
            == 0,
        reader.position() < reader.limit() ==> {
            let end = reader.archive().chunk_end(reader.position());
            let n = reader.yields(asked);
            &&& reader.remaining().len() == reader.limit() - reader.position()
            &&& 0 <= i < reader.remaining().len() ==> reader.remaining()[i]
                == reader.archive()@[reader.position() + i]
            &&& reader.position() < end
            &&& 0 <= n <= asked
            &&& reader.position() + n <= end
            &&& reader.position() + n <= reader.limit()
            &&& n == asked || reader.position() + n == end || reader.position() + n
                == reader.limit()
        },
{
    if reader.position() < reader.limit() {
        lemma_chunk_end_follows(reader.archive().chunks(), reader.position());
    }
}

proof fn lemma_chunk_end_follows(chunks: Seq<Seq<u8>>, offset: int)
    requires
        0 <= offset < joined(chunks).len(),
    ensures
        offset < chunk_end(chunks, offset) <= joined(chunks).len(),
    decreases chunks.len(),
{
    if chunks.len() > 0 && offset < joined(chunks.drop_last()).len() {
        lemma_chunk_end_follows(chunks.drop_last(), offset);
    }
}

} // verus!
