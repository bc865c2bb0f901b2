//! The checksum that an archive ends with.
use crate::errors::{Error, Result};
use crate::store::{bytes_of, contents, joined, Store};
use md5::{Digest, Md5};
use vstd::prelude::*;

verus! {

/// An MD5 digest.
pub type Checksum = [u8; 16];

/// The state of an MD5 computation.
#[verifier::external_type_specification]
#[verifier::external_body]
pub struct ExMd5(md5::Md5);

/// The bytes that an MD5 computation has taken in so far.
pub uninterp spec fn absorbed(hasher: Md5) -> Seq<u8>;

/// What `md5::Md5` makes of these bytes.
pub uninterp spec fn md5_digest(data: Seq<u8>) -> Seq<u8>;

/// Starts a computation with `Md5::new`.
///
/// Trusted: it has taken nothing in.
#[verifier::external_body]
fn start_md5() -> (hasher: Md5)
    ensures
        absorbed(hasher) == Seq::<u8>::empty(),
{
    Md5::new()
}

/// Hands bytes to a computation with `Md5::update`.
///
/// Trusted: they are taken in behind those that were taken in before.
#[verifier::external_body]
fn update_md5(hasher: &mut Md5, data: &[u8])
    ensures
        absorbed(*final(hasher)) == absorbed(*old(hasher)) + data@,
{
    hasher.update(data);
}

/// Ends a computation with `Md5::finalize`.
///
/// Trusted: the digest is determined by the bytes taken in, whatever portions they came in. Which
/// digest that is, is left unsaid.
#[verifier::external_body]
fn finish_md5(hasher: Md5) -> (digest: Checksum)
    ensures
        digest@ == md5_digest(absorbed(hasher)),
{
    hasher.finalize().into()
}

/// Read out the the 16 byte long MD5 checksum.
pub fn read_checksum(store: &Store, checksum_pos: u64) -> (r: Result<Checksum>)
    requires
        store.wf(),
    ensures
        checksum_pos + 16 > u64::MAX ==> r == Err::<Checksum, Error>(Error::OutOfBounds),
        checksum_pos + 16 <= u64::MAX && checksum_pos + 16 > store@.len() ==> r == Err::<
            Checksum,
            Error,
        >(Error::MissingChecksum),
        checksum_pos + 16 <= store@.len() ==> {
            &&& r matches Ok(checksum)
            &&& checksum@ == store@.subrange(checksum_pos as int, checksum_pos + 16)
        },
{
    let file_len = store.len();
    match checksum_pos.checked_add(16) {
        None => return Err(Error::OutOfBounds),
        Some(end) => if end > file_len {
            return Err(Error::MissingChecksum);
        },
    }
    let view = store.slice(checksum_pos, 16)?;
    let raw = bytes_of(&view);
    let mut checksum = [0u8;16];
    for i in 0..16usize
        invariant
            raw@.len() == 16,
            checksum@.len() == 16,
            forall|k: int| 0 <= k < i ==> #[trigger] checksum@[k] == raw@[k],
    {
        checksum[i] = raw[i];
    }
    assert(checksum@ =~= raw@);
    Ok(checksum)
}

/// Compute the MD5 checksum of an archive's first `checksum_pos` bytes.
///
/// The checksum covers the archive as a whole, not any single chunk.
pub fn compute_checksum(store: &Store, checksum_pos: u64) -> (digest: Checksum)
    requires
        store.wf(),
    ensures
        checksum_pos <= store@.len() ==> digest@ == md5_digest(store@.take(checksum_pos as int)),
        checksum_pos > store@.len() ==> digest@ == md5_digest(store@),
{
    let chunks = store.prefix_chunks(checksum_pos);
    let mut hasher = start_md5();
    let ghost all = contents(chunks@);
    let mut i: usize = 0;
    assert(all.take(0) =~= Seq::<Seq<u8>>::empty());
    while i < chunks.len()
        invariant
            i <= chunks@.len(),
            all == contents(chunks@),
            absorbed(hasher) == joined(all.take(i as int)),
        decreases chunks@.len() - i,
    {
        update_md5(&mut hasher, chunks[i]);
        assert(all.take(i + 1).drop_last() =~= all.take(i as int));
        i = i + 1;
    }
    assert(all.take(i as int) =~= all);
    assert(store@.take(store@.len() as int) =~= store@);
    finish_md5(hasher)
}

/// Holds a computed checksum against the stored one.
pub fn compare_checksums(stored: &Checksum, computed: &Checksum) -> (r: Result<()>)
    ensures
        stored@ == computed@ ==> r is Ok,
        stored@ != computed@ ==> r == Err::<(), Error>(Error::InvalidChecksum),
{
    for i in 0..16usize
        invariant
            stored@.len() == 16,
            computed@.len() == 16,
            forall|k: int| 0 <= k < i ==> #[trigger] stored@[k] == computed@[k],
    {
        if stored[i] != computed[i] {
            return Err(Error::InvalidChecksum);
        }
    }
    assert(stored@ =~= computed@);
    Ok(())
}

} // verus!
