//! Content digests: SHA-1 as the `sha1` crate computes it, over a buffer or
//! over the chunks of a file as they are read, and its hexadecimal form.
use crate::error::{FileError, FileErrorKind};
use vstd::prelude::*;

verus! {

/// The length of a content digest, in bytes.
pub const DIGEST_LENGTH: usize = 20;

/// The number of bytes at which the `sha1` crate's count of message bits no
/// longer fits its 64-bit counter.
pub const MAX_HASHED_BYTES: u64 = 0x2000_0000_0000_0000;

/// The hash object of the `sha1` crate. It is carried through as it is:
/// nothing inside it is looked at.
#[verifier::external_type_specification]
#[verifier::external_body]
pub struct ExSha1(sha1::Sha1);

/// The digest that the `sha1` crate computes for a message.
pub uninterp spec fn sha1_digest(message: Seq<u8>) -> Seq<u8>;

/// The bytes that a hash object has been given since it was made.
pub uninterp spec fn sha1_fed(hasher: sha1::Sha1) -> Seq<u8>;

/// Calls `Sha1::new`, which makes a hash object that has been given no bytes
/// yet.
#[verifier::external_body]
fn sha1_new() -> (hasher: sha1::Sha1)
    ensures
        sha1_fed(hasher) == Seq::<u8>::empty(),
{
    sha1::Sha1::new()
}

/// Calls `Sha1::update`, which appends `data` to the message that the hash
/// object has been given. The bound keeps the crate's byte and bit counters
/// from overflowing.
#[verifier::external_body]
fn sha1_update(hasher: &mut sha1::Sha1, data: &[u8])
    requires
        sha1_fed(*old(hasher)).len() + data@.len() < MAX_HASHED_BYTES,
    ensures
        sha1_fed(*final(hasher)) == sha1_fed(*old(hasher)) + data@,
{
    hasher.update(data)
}

/// Calls `Sha1::digest` and `Digest::bytes`, which give the digest of the
/// message that the hash object has been given so far. Nothing is proved of
/// the digest: the contract gives it the name `sha1_digest`.
#[verifier::external_body]
fn sha1_finish(hasher: &sha1::Sha1) -> (digest: [u8; 20])
    requires
        sha1_fed(*hasher).len() < MAX_HASHED_BYTES,
    ensures
        digest@ == sha1_digest(sha1_fed(*hasher)),
{
    hasher.digest().bytes()
}

/// Returns the SHA-1 digest of the data.
pub fn sha1_of_data(data: &[u8]) -> (digest: [u8; 20])
    requires
        data@.len() < MAX_HASHED_BYTES,
    ensures
        digest@ == sha1_digest(data@),
{
    let mut hasher = sha1_new();
    sha1_update(&mut hasher, data);
    proof {
        assert(Seq::<u8>::empty() + data@ =~= data@);
    }
    sha1_finish(&hasher)
}

/// What a caller does after it has handed over the outcome of one read.
#[derive(Debug)]
pub enum ReadStep {
    /// Read again: a chunk was taken in, or the read had been interrupted.
    Continue,
    /// The file has ended; this is the digest of all that was read.
    Done([u8; 20]),
    /// The read failed; hashing is given up with this failure.
    Failed(FileError),
}

/// Hashes a file chunk by chunk, so that the file is never held in memory
/// as a whole. The caller reads; the hasher says what each outcome means.
pub struct FileHasher {
    state: sha1::Sha1,
}

impl View for FileHasher {
    type V = Seq<u8>;

    /// The bytes taken in so far.
    closed spec fn view(&self) -> Seq<u8> {
        sha1_fed(self.state)
    }
}

impl FileHasher {
    /// A hasher that has taken in nothing yet.
    pub fn new() -> (hasher: FileHasher)
        ensures
            hasher@ == Seq::<u8>::empty(),
    {
        FileHasher { state: sha1_new() }
    }

    /// Takes the outcome of one read: the bytes that were read, or the
    /// failure. An empty chunk is the end of the file and gives the digest;
    /// any other chunk is taken in; an interrupted read is passed over; any
    /// other failure ends the hashing.
    pub fn feed(&mut self, outcome: Result<&[u8], FileError>) -> (step: ReadStep)
        requires
            outcome matches Ok(chunk) ==> old(self)@.len() + chunk@.len() < MAX_HASHED_BYTES,
        ensures
            match outcome {
                Ok(chunk) => {
                    &&& final(self)@ == old(self)@ + chunk@
                    &&& chunk@.len() > 0 ==> step is Continue
                    &&& chunk@.len() == 0 ==> (step matches ReadStep::Done(digest) && digest@
                        == sha1_digest(old(self)@))
                },
                Err(e) => {
                    &&& final(self)@ == old(self)@
                    &&& e.kind == FileErrorKind::Interrupted ==> step is Continue
                    &&& e.kind != FileErrorKind::Interrupted ==> step == ReadStep::Failed(e)
                },
            },
    {
        match outcome {
            Ok(chunk) => {
                if chunk.len() == 0 {
                    proof {
                        assert(self@ + chunk@ =~= self@);
                    }
                    ReadStep::Done(sha1_finish(&self.state))
                } else {
                    sha1_update(&mut self.state, chunk);
                    ReadStep::Continue
                }
            },
            Err(e) => {
                if e.kind == FileErrorKind::Interrupted {
                    ReadStep::Continue
                } else {
                    ReadStep::Failed(e)
                }
            },
        }
    }
}

/// The lowercase hexadecimal digit for a value below 16.
pub open spec fn hex_digit(value: u8) -> char {
    if value < 10 {
        (0x30 + value) as char
    } else {
        (0x61 + value - 10) as char
    }
}

/// The bytes in lowercase hexadecimal, two digits for each, the high half
/// of a byte first.
pub open spec fn hex_of(bytes: Seq<u8>) -> Seq<char> {
    Seq::new(
        2 * bytes.len(),
        |i: int|
            if i % 2 == 0 {
                hex_digit(bytes[i / 2] / 16)
            } else {
                hex_digit(bytes[i / 2] % 16)
            },
    )
}

/// Calls `hex::encode`, which writes each byte as two lowercase hexadecimal
/// digits, the high half first.
#[verifier::external_body]
pub(crate) fn hex_encode(digest: &[u8; 20]) -> (r: String)
    ensures
        r@ == hex_of(digest@),
{
    hex::encode(digest)
}

} // verus!
