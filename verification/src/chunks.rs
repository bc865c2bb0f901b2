//! How an archive is named on disk: as one file, or as a run of chunk files.
use crate::store::Store;
use vstd::prelude::*;
use vstd::string::{StrSliceExecFns, StringExecFns};

verus! {

/// `String::push` appends one character.
pub assume_specification[ String::push ](s: &mut String, ch: char)
    ensures
        final(s)@ == old(s)@.push(ch),
;

/// How many chunk files an archive can be split into.
pub const CHUNK_LIMIT: usize = 676;

/// The suffix of the `i`-th chunk: `aa`, `ab`, ... `zz`.
pub open spec fn suffix(i: int) -> Seq<char> {
    seq![(0x61 + i / 26) as char, (0x61 + i % 26) as char]
}

/// Whether a path names the first chunk of an archive rather than the archive.
pub open spec fn names_first_chunk(path: Seq<char>) -> bool {
    &&& path.len() >= 6
    &&& path.skip(path.len() - 6) == seq!['.', 'z', 'i', 'm', 'a', 'a']
}

/// The path that chunk suffixes are appended to.
pub open spec fn base_of(path: Seq<char>) -> Seq<char> {
    if names_first_chunk(path) {
        path.take(path.len() - 2)
    } else {
        path
    }
}

/// The base name chunks are built from.
///
/// `path` may name the first chunk rather than the archive, in which case the two-letter suffix
/// is stripped back off.
pub fn chunk_base(path: &str) -> (base: String)
    ensures
        base@ == base_of(path@),
{
    if ends_with_first_chunk(path) {
        let len = path.unicode_len();
        String::from_str(path.substring_char(0, len - 2))
    } else {
        String::from_str(path)
    }
}

fn ends_with_first_chunk(path: &str) -> (r: bool)
    ensures
        r == names_first_chunk(path@),
{
    let len = path.unicode_len();
    if len < 6 {
        return false;
    }
    let ghost tail = path@.skip(path@.len() - 6);
    let ghost wanted = seq!['.', 'z', 'i', 'm', 'a', 'a'];
    proof {
        assert(tail[0] == path@[len - 6]);
        assert(tail[1] == path@[len - 5]);
        assert(tail[2] == path@[len - 4]);
        assert(tail[3] == path@[len - 3]);
        assert(tail[4] == path@[len - 2]);
        assert(tail[5] == path@[len - 1]);
        if path@[len - 6] == '.' && path@[len - 5] == 'z' && path@[len - 4] == 'i' && path@[len - 3]
            == 'm' && path@[len - 2] == 'a' && path@[len - 1] == 'a' {
            assert(tail =~= wanted);
        }
    }
    path.get_char(len - 6) == '.' && path.get_char(len - 5) == 'z' && path.get_char(len - 4) == 'i'
        && path.get_char(len - 3) == 'm' && path.get_char(len - 2) == 'a' && path.get_char(len - 1)
        == 'a'
}

/// The suffix of one chunk.
fn chunk_suffix(i: usize) -> (s: String)
    requires
        i < CHUNK_LIMIT,
    ensures
        s@ == suffix(i as int),
{
    let first: u8 = 0x61 + (i / 26) as u8;
    let second: u8 = 0x61 + (i % 26) as u8;
    let mut s = String::new();
    s.push(first as char);
    s.push(second as char);
    assert(s@ =~= suffix(i as int));
    s
}

/// `aa`, `ab`, ... `zz`, in the order chunks are numbered.
pub fn chunk_suffixes() -> (out: Vec<String>)
    ensures
        out@.len() == CHUNK_LIMIT,
        forall|i: int| 0 <= i < out@.len() ==> #[trigger] out@[i]@ == suffix(i),
{
    let mut out: Vec<String> = Vec::new();
    for i in 0..CHUNK_LIMIT
        invariant
            out@.len() == i,
            forall|k: int| 0 <= k < i ==> #[trigger] out@[k]@ == suffix(k),
    {
        out.push(chunk_suffix(i));
    }
    out
}

/// What opening an archive has to do next.
pub enum Step {
    /// See whether the path itself is a file, and map it if it is.
    Whole,
    /// See whether the base name with this suffix is a file, and map it if it is.
    Chunk(String),
    /// Put the archive together from the files mapped so far.
    Assemble,
    /// Give up: nothing is stored under the path.
    Missing,
}

/// How far opening an archive has come.
///
/// Finding an archive alternates questions to the file system with decisions. This makes the
/// decisions: [`Opening::step`] says what to look for, [`Opening::answer`] takes what was found.
#[derive(Debug, Clone, Copy, PartialEq, Eq, Structural)]
pub enum Opening {
    /// The path itself has not been looked for yet.
    Whole,
    /// The chunks before this one have been found.
    Chunk(usize),
    /// The archive was found in one file.
    OneFile,
    /// The archive was found in this many chunks.
    Chunked(usize),
    /// There is no such archive.
    Missing,
}

impl Opening {
    pub open spec fn wf(self) -> bool {
        match self {
            Opening::Chunk(i) => i < CHUNK_LIMIT,
            Opening::Chunked(n) => 0 < n <= CHUNK_LIMIT,
            _ => true,
        }
    }

    /// Nothing is left to look for.
    pub open spec fn is_over(self) -> bool {
        self is OneFile || self is Chunked || self is Missing
    }

    /// What follows once it is known whether the file looked for exists.
    pub open spec fn after(self, found: bool) -> Opening {
        match self {
            Opening::Whole => if found {
                Opening::OneFile
            } else {
                Opening::Chunk(0)
            },
            Opening::Chunk(i) => if !found && i == 0 {
                Opening::Missing
            } else if !found {
                Opening::Chunked(i)
            } else if i + 1 == CHUNK_LIMIT {
                Opening::Chunked(CHUNK_LIMIT)
            } else {
                Opening::Chunk((i + 1) as usize)
            },
            over => over,
        }
    }

    /// This is where opening stands when what has been answered so far is true of the disk:
    /// `whole` says whether the path is a file, `chunk` which chunks are.
    pub open spec fn stands(self, first_chunk: bool, whole: bool, chunk: spec_fn(int) -> bool) -> bool {
        let split = first_chunk || !whole;
        match self {
            Opening::Whole => !first_chunk,
            Opening::Chunk(i) => split && forall|k: int| 0 <= k < i ==> #[trigger] chunk(k),
            Opening::OneFile => !split,
            Opening::Chunked(n) => {
                &&& split
                &&& 0 < n <= CHUNK_LIMIT
                &&& forall|k: int| 0 <= k < n ==> #[trigger] chunk(k)
                &&& n < CHUNK_LIMIT ==> !chunk(n as int)
            },
            Opening::Missing => split && !chunk(0),
        }
    }

    /// Where opening starts. A path naming the first chunk always means the chunked archive: that
    /// file exists, but opening it on its own would yield only the archive's first slice.
    pub fn start(first_chunk: bool) -> (opening: Opening)
        ensures
            opening.wf(),
            opening == if first_chunk { Opening::Chunk(0) } else { Opening::Whole },
            forall|whole: bool, chunk: spec_fn(int) -> bool|
                #[trigger] opening.stands(first_chunk, whole, chunk),
    {
        if first_chunk {
            Opening::Chunk(0)
        } else {
            Opening::Whole
        }
    }

    /// What to do next.
    pub fn step(&self) -> (step: Step)
        requires
            self.wf(),
        ensures
            match *self {
                Opening::Whole => step is Whole,
                Opening::Chunk(i) => step matches Step::Chunk(s) && s@ == suffix(i as int),
                Opening::OneFile | Opening::Chunked(_) => step is Assemble,
                Opening::Missing => step is Missing,
            },
    {
        match self {
            Opening::Whole => Step::Whole,
            Opening::Chunk(i) => Step::Chunk(chunk_suffix(*i)),
            Opening::OneFile | Opening::Chunked(_) => Step::Assemble,
            Opening::Missing => Step::Missing,
        }
    }

    /// Takes whether the file that [`Opening::step`] asked for exists.
    ///
    /// Chunks are consecutive, so the first gap is the end of the archive.
    pub fn answer(&mut self, found: bool)
        requires
            old(self).wf(),
        ensures
            final(self).wf(),
            *final(self) == old(self).after(found),
    {
        *self = match *self {
            Opening::Whole => if found {
                Opening::OneFile
            } else {
                Opening::Chunk(0)
            },
            Opening::Chunk(i) => if !found && i == 0 {
                Opening::Missing
            } else if !found {
                Opening::Chunked(i)
            } else if i + 1 == CHUNK_LIMIT {
                Opening::Chunked(CHUNK_LIMIT)
            } else {
                Opening::Chunk(i + 1)
            },
            over => over,
        };
    }
}

impl<'a> Store<'a> {
    /// Starts to open the archive at `path`, falling back to its chunk files when `path` itself
    /// does not exist.
    ///
    /// A whole archive takes precedence over chunks of the same name. `path` may also name the
    /// first chunk directly, as `foobar.zimaa`.
    pub fn open(path: &str) -> (opening: Opening)
        ensures
            opening.wf(),
            opening == if names_first_chunk(path@) { Opening::Chunk(0) } else { Opening::Whole },
            forall|whole: bool, chunk: spec_fn(int) -> bool|
                #[trigger] opening.stands(names_first_chunk(path@), whole, chunk),
    {
        Opening::start(ends_with_first_chunk(path))
    }
}

/// Answering truthfully keeps opening in step with the disk. Together with
/// [`Opening::start`] and [`opening_ends`] this says which archive is opened: the file itself,
/// unless the path names a first chunk or is no file; else the chunks up to the first gap; and
/// nothing when the first chunk is missing too.
pub proof fn opening_follows_the_disk(
    opening: Opening,
    first_chunk: bool,
    whole: bool,
    chunk: spec_fn(int) -> bool,
)
    requires
        opening.wf(),
        opening.stands(first_chunk, whole, chunk),
    ensures
        opening is Whole ==> opening.after(whole).stands(first_chunk, whole, chunk),
        opening matches Opening::Chunk(i) ==> opening.after(chunk(i as int)).stands(
            first_chunk,
            whole,
            chunk,
        ),
{
}

/// How many answers opening still needs, at most.
pub open spec fn answers_left(opening: Opening) -> int {
    match opening {
        Opening::Whole => CHUNK_LIMIT + 1,
        Opening::Chunk(i) => CHUNK_LIMIT - i,
        _ => 0,
    }
}

/// Every answer brings opening closer to its end, so it always ends.
pub proof fn opening_ends(opening: Opening, found: bool)
    requires
        opening.wf(),
    ensures
        answers_left(opening) >= 0,
        opening.is_over() <==> answers_left(opening) == 0,
        !opening.is_over() ==> answers_left(opening.after(found)) < answers_left(opening),
        opening.is_over() ==> opening.after(found) == opening,
{
}

/// What the disk holds determines which archive is opened.
pub proof fn opening_has_one_outcome(
    a: Opening,
    b: Opening,
    first_chunk: bool,
    whole: bool,
    chunk: spec_fn(int) -> bool,
)
    requires
        a.is_over(),
        b.is_over(),
        a.stands(first_chunk, whole, chunk),
        b.stands(first_chunk, whole, chunk),
    ensures
        a == b,
{
    if let Opening::Chunked(n) = a {
        assert(chunk(0));
        if let Opening::Chunked(m) = b {
            if n < m {
                assert(chunk(n as int));
            }
            if m < n {
                assert(chunk(m as int));
            }
        }
    }
    if b is Chunked {
        assert(chunk(0));
    }
}

/// The chunk suffixes are pairs of letters from `a` to `z`, none occurs twice, and they come in
/// alphabetical order: each sorts before the ones after it.
pub proof fn chunk_suffixes_are_ordered(i: int, j: int)
    requires
        0 <= i < j < CHUNK_LIMIT,
    ensures
        suffix(i).len() == 2,
        forall|k: int| 0 <= k < 2 ==> 'a' <= #[trigger] suffix(i)[k] <= 'z',
        suffix(i)[0] < suffix(j)[0] || (suffix(i)[0] == suffix(j)[0] && suffix(i)[1] < suffix(j)[1]),
{
    assert(0 <= i / 26 < 26);
    assert(0 <= j / 26 < 26);
}

/// Every pair of letters from `a` to `z` is the suffix of some chunk.
pub proof fn chunk_suffixes_are_complete(first: char, second: char)
    requires
        'a' <= first <= 'z',
        'a' <= second <= 'z',
    ensures
        exists|i: int| 0 <= i < CHUNK_LIMIT && suffix(i) == seq![first, second],
{
    let i = (first as int - 0x61) * 26 + (second as int - 0x61);
    assert(i / 26 == first as int - 0x61);
    assert(i % 26 == second as int - 0x61);
    assert(suffix(i) =~= seq![first, second]);
}

/// Naming the first chunk and naming the archive lead to the same chunks.
pub proof fn first_chunk_names_the_same_archive(path: Seq<char>)
    requires
        path.len() >= 4,
        path.skip(path.len() - 4) == seq!['.', 'z', 'i', 'm'],
    ensures
        names_first_chunk(path + suffix(0)),
        !names_first_chunk(path),
        base_of(path + suffix(0)) == path,
        base_of(path) == path,
{
    let tail = path.skip(path.len() - 4);
    let named = path + suffix(0);
    assert(named.skip(named.len() - 6) =~= tail + suffix(0));
    assert(suffix(0) =~= seq!['a', 'a']);
    assert(tail + suffix(0) =~= seq!['.', 'z', 'i', 'm', 'a', 'a']);
    assert(named.take(named.len() - 2) =~= path);
    assert(path[path.len() - 1] == tail[3]);
    if names_first_chunk(path) {
        assert(path.skip(path.len() - 6)[5] == path[path.len() - 1]);
    }
}

/// A path names a first chunk exactly if it ends in `.zimaa`. The base name is then the path up to
/// `.zim`; any other path is its own base name.
pub proof fn first_chunks_end_in_zimaa(stem: Seq<char>, path: Seq<char>)
    ensures
        names_first_chunk(stem + ".zimaa"@),
        base_of(stem + ".zimaa"@) == stem + ".zim"@,
        names_first_chunk(path) ==> path == path.take(path.len() - 6) + ".zimaa"@,
        !names_first_chunk(path) ==> base_of(path) == path,
{
    reveal_strlit(".zimaa");
    reveal_strlit(".zim");
    let named = stem + ".zimaa"@;
    assert(named.skip(named.len() - 6) =~= seq!['.', 'z', 'i', 'm', 'a', 'a']);
    assert(named.take(named.len() - 2) =~= stem + ".zim"@);
    if names_first_chunk(path) {
        assert(path.skip(path.len() - 6) =~= ".zimaa"@);
        assert(path =~= path.take(path.len() - 6) + path.skip(path.len() - 6));
    }
}

/// Where opening stands after `n` truthful answers.
pub open spec fn opening_after(
    opening: Opening,
    whole: bool,
    chunk: spec_fn(int) -> bool,
    n: nat,
) -> Opening
    decreases n,
{
    if n == 0 {
        opening
    } else {
        let before = opening_after(opening, whole, chunk, (n - 1) as nat);
        before.after(
            match before {
                Opening::Chunk(i) => chunk(i as int),
                _ => whole,
            },
        )
    }
}

/// Which archive is opened, once all questions are answered: the file itself where it is there and
/// is not asked for as a first chunk; else all chunks up to the first that is missing, or all that
/// there can be; and none where the first chunk is missing.
pub proof fn opening_finds_the_file_or_the_chunks(
    first_chunk: bool,
    whole: bool,
    chunk: spec_fn(int) -> bool,
    count: usize,
)
    ensures
        ({
            let start = if first_chunk { Opening::Chunk(0) } else { Opening::Whole };
            let end = opening_after(start, whole, chunk, 677);
            &&& !first_chunk && whole ==> end == Opening::OneFile
            &&& (first_chunk || !whole) && !chunk(0) ==> end == Opening::Missing
            &&& (first_chunk || !whole) && 0 < count < 676 && (forall|k: int|
                0 <= k < count ==> #[trigger] chunk(k)) && !chunk(count as int) ==> end
                == Opening::Chunked(count)
            &&& (first_chunk || !whole) && (forall|k: int| 0 <= k < 676 ==> #[trigger] chunk(k))
                ==> end == Opening::Chunked(676)
        }),
{
    let start = if first_chunk {
        Opening::Chunk(0)
    } else {
        Opening::Whole
    };
    lemma_opening_after(start, whole, chunk, 677);
    lemma_opening_stands(start, first_chunk, whole, chunk, 677);
    let end = opening_after(start, whole, chunk, 677);
    if let Opening::Chunked(n) = end {
        assert(chunk(0));
        if n < count && (forall|k: int| 0 <= k < count ==> #[trigger] chunk(k)) {
            assert(chunk(n as int));
        }
        if count < n {
            assert(chunk(count as int));
        }
        if n < 676 && (forall|k: int| 0 <= k < 676 ==> #[trigger] chunk(k)) {
            assert(chunk(n as int));
        }
    }
    if end is Missing {
        if 0 < count && (forall|k: int| 0 <= k < count ==> #[trigger] chunk(k)) {
            assert(chunk(0));
        }
        if forall|k: int| 0 <= k < 676 ==> #[trigger] chunk(k) {
            assert(chunk(0));
        }
    }
}

proof fn lemma_opening_after(start: Opening, whole: bool, chunk: spec_fn(int) -> bool, n: nat)
    requires
        start.wf(),
    ensures
        opening_after(start, whole, chunk, n).wf(),
        answers_left(opening_after(start, whole, chunk, n)) <= answers_left(start) - n
            || opening_after(start, whole, chunk, n).is_over(),
    decreases n,
{
    if n > 0 {
        lemma_opening_after(start, whole, chunk, (n - 1) as nat);
        let before = opening_after(start, whole, chunk, (n - 1) as nat);
        opening_ends(before, true);
        opening_ends(before, false);
    }
}

proof fn lemma_opening_stands(
    start: Opening,
    first_chunk: bool,
    whole: bool,
    chunk: spec_fn(int) -> bool,
    n: nat,
)
    requires
        start.wf(),
        start.stands(first_chunk, whole, chunk),
    ensures
        opening_after(start, whole, chunk, n).stands(first_chunk, whole, chunk),
    decreases n,
{
    if n > 0 {
        lemma_opening_stands(start, first_chunk, whole, chunk, (n - 1) as nat);
        lemma_opening_after(start, whole, chunk, (n - 1) as nat);
        let before = opening_after(start, whole, chunk, (n - 1) as nat);
        opening_follows_the_disk(before, first_chunk, whole, chunk);
    }
}

} // verus!
