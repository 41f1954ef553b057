//! Where the store puts a file: under its normalized name, or under a name
//! that carries the content's digest where that name is taken by other
//! content. The functions here decide; the caller reads and writes.
use crate::digest::{hex_encode, hex_of, sha1_digest, sha1_of_data, DIGEST_LENGTH, MAX_HASHED_BYTES};
use crate::error::{FileError, FileErrorKind};
use crate::filename::{
    extension_of, joined, normalize_filename, normalized, split_and_truncate_filename, stem_of,
    truncated_extension, truncated_stem, MAX_FILENAME_LENGTH,
};
use crate::text::{
    last_index_of, lemma_char_width_bounds, lemma_encode_concat, lemma_last_index_of,
    lemma_len_le_utf8_len, lemma_prefix_within, same_text, utf8_len,
};
use vstd::prelude::*;
use vstd::string::*;

verus! {

/// The bytes that stem and extension may take together before a digest is
/// appended to the stem.
pub const MAX_SUFFIXED_STEM_AND_EXTENSION: usize = MAX_FILENAME_LENGTH - DIGEST_LENGTH - 1;

/// `name` with a hyphen and the digest in hexadecimal behind its stem. Stem
/// and extension are first capped to `MAX_SUFFIXED_STEM_AND_EXTENSION` bytes.
pub open spec fn suffixed_name(name: Seq<char>, digest: Seq<u8>) -> Seq<char> {
    joined(
        truncated_stem(name, MAX_SUFFIXED_STEM_AND_EXTENSION as nat) + seq!['-'] + hex_of(digest),
        truncated_extension(name),
    )
}

/// Converts foo.jpg into foo-abcde12345679.jpg, with the digest in the place
/// of the digits.
pub fn add_hash_suffix_to_file_stem(fname: &str, hash: &[u8; 20]) -> (r: String)
    ensures
        r@ == suffixed_name(fname@, hash@),
{
    let (stem, ext) = split_and_truncate_filename(fname, MAX_SUFFIXED_STEM_AND_EXTENSION);
    let hex = hex_encode(hash);
    proof {
        reveal_strlit("-");
        reveal_strlit(".");
        assert("-"@ =~= seq!['-']);
        assert("."@ =~= seq!['.']);
    }
    let mut out = stem.to_owned();
    out.append("-");
    out.append(hex.as_str());
    if !ext.is_empty() {
        out.append(".");
        out.append(ext);
    }
    out
}

/// Where a file goes, and whether it has to be written there.
#[derive(Debug)]
pub struct Placement {
    /// The name of the file in the folder.
    pub name: String,
    /// False where the folder holds this content under this name already.
    pub write: bool,
}

/// The name under which content with the given digest is stored when
/// `desired` is asked for. `existing` is the digest of the file that the
/// folder holds under the normalized name, if it holds one.
pub open spec fn unique_name(
    desired: Seq<char>,
    digest: Seq<u8>,
    existing: Option<Seq<u8>>,
) -> Seq<char> {
    match existing {
        None => normalized(desired),
        Some(found) => if found == digest {
            normalized(desired)
        } else {
            suffixed_name(normalized(desired), digest)
        },
    }
}

/// True unless the folder holds content with the given digest already.
pub open spec fn must_write(digest: Seq<u8>, existing: Option<Seq<u8>>) -> bool {
    existing != Some(digest)
}

/// The digest as a sequence of bytes, where there is one.
pub open spec fn digest_view(digest: Option<[u8; 20]>) -> Option<Seq<u8>> {
    match digest {
        None => None,
        Some(d) => Some(d@),
    }
}

/// True if the two digests are the same.
fn same_digest(a: &[u8; 20], b: &[u8; 20]) -> (r: bool)
    ensures
        r == (a@ == b@),
{
    let mut i: usize = 0;
    while i < 20
        invariant
            i <= 20,
            forall|j: int| 0 <= j < i ==> a@[j] == b@[j],
        decreases 20 - i,
    {
        if a[i] != b[i] {
            return false;
        }
        i = i + 1;
    }
    proof {
        assert(a@ =~= b@);
    }
    true
}

/// Decides where `desired_name` goes in a folder, renaming where an existing
/// file has other content. `existing` is the digest of the file that the
/// folder holds under `normalize_filename(desired_name)`, if it holds one;
/// `sha1` is the digest of the data to be added. Returns the name to use,
/// and whether the data is to be written there.
pub fn add_data_to_folder_uniquely(
    desired_name: &str,
    sha1: [u8; 20],
    existing: Option<[u8; 20]>,
) -> (r: Placement)
    ensures
        r.name@ == unique_name(desired_name@, sha1@, digest_view(existing)),
        r.write == must_write(sha1@, digest_view(existing)),
{
    let normalized_name = normalize_filename(desired_name);
    match existing {
        None => Placement { name: normalized_name, write: true },
        Some(found) => {
            if same_digest(&found, &sha1) {
                Placement { name: normalized_name, write: false }
            } else {
                let hashed_name = add_hash_suffix_to_file_stem(normalized_name.as_str(), &sha1);
                Placement { name: hashed_name, write: true }
            }
        },
    }
}

/// A name with a digest behind its stem differs from the name itself, for
/// every name that is no longer than a normalized one.
pub proof fn lemma_suffixed_name_differs(name: Seq<char>, digest: Seq<u8>)
    requires
        utf8_len(name) <= MAX_FILENAME_LENGTH,
        digest.len() == DIGEST_LENGTH,
    ensures
        suffixed_name(name, digest) != name,
{
    let max = MAX_SUFFIXED_STEM_AND_EXTENSION as nat;
    let st = stem_of(name);
    let ex = extension_of(name);
    let ext = truncated_extension(name);
    let cap = (max - utf8_len(ext) - 1) as nat;
    let stem = truncated_stem(name, max);
    let hex = hex_of(digest);
    let head = stem + seq!['-'] + hex;
    let out = suffixed_name(name, digest);
    let dot = last_index_of(name, '.');
    lemma_last_index_of(name, '.');
    lemma_prefix_within(ex, 10);
    lemma_prefix_within(st, cap);
    assert(out.len() >= head.len());
    assert(head[stem.len() as int] == '-');
    assert(out[stem.len() as int] == '-');
    if stem.len() == st.len() {
        if dot >= 0 {
            assert(name[st.len() as int] == '.');
        }
    } else {
        lemma_char_width_bounds(st[stem.len() as int]);
        lemma_len_le_utf8_len(hex);
        lemma_encode_concat(stem, seq!['-']);
        lemma_encode_concat(stem + seq!['-'], hex);
        if ext.len() > 0 {
            lemma_encode_concat(head, seq!['.']);
            lemma_encode_concat(head + seq!['.'], ext);
        }
        assert(utf8_len(out) > MAX_FILENAME_LENGTH);
    }
}

/// A folder as the store sees it: the names it holds, each with the content
/// stored under it.
pub type Folder = Map<Seq<char>, Seq<u8>>;

/// The digest of the file that `folder` holds under `name`, if it holds one.
pub open spec fn existing_digest(folder: Folder, name: Seq<char>) -> Option<Seq<u8>> {
    if folder.dom().contains(name) {
        Some(sha1_digest(folder[name]))
    } else {
        None
    }
}

/// The name that adding `data` under `desired` to `folder` returns.
pub open spec fn added_name(folder: Folder, desired: Seq<char>, data: Seq<u8>) -> Seq<char> {
    unique_name(desired, sha1_digest(data), existing_digest(folder, normalized(desired)))
}

/// The folder after `data` was added to it under `desired`: the caller has
/// looked for a file under the normalized name, asked
/// `add_data_to_folder_uniquely`, and written where it was told to.
pub open spec fn folder_after_add(folder: Folder, desired: Seq<char>, data: Seq<u8>) -> Folder {
    if must_write(sha1_digest(data), existing_digest(folder, normalized(desired))) {
        folder.insert(added_name(folder, desired, data), data)
    } else {
        folder
    }
}

/// Adding the same content under the same name twice to an empty folder
/// leaves one file, under the normalized name, and both calls return that
/// name.
pub proof fn lemma_add_twice_keeps_one_file(desired: Seq<char>, data: Seq<u8>)
    ensures
        ({
            let once = folder_after_add(Map::empty(), desired, data);
            let twice = folder_after_add(once, desired, data);
            &&& added_name(Map::empty(), desired, data) == normalized(desired)
            &&& added_name(once, desired, data) == normalized(desired)
            &&& twice == once
            &&& twice == Map::<Seq<char>, Seq<u8>>::empty().insert(normalized(desired), data)
            &&& twice.dom() == set![normalized(desired)]
        }),
{
    let once = folder_after_add(Map::empty(), desired, data);
    assert(once.dom() =~= set![normalized(desired)]);
}

/// Adding two contents with different digests under the same name, to a
/// folder that does not hold that name yet, leaves the first under the
/// normalized name and the second under that name with the second digest in
/// hexadecimal behind its stem. Nothing else in the folder changes, but for
/// a file that stood under the second name before.
pub proof fn lemma_collision_gets_suffix(
    folder: Folder,
    desired: Seq<char>,
    first: Seq<u8>,
    second: Seq<u8>,
)
    requires
        !folder.dom().contains(normalized(desired)),
        sha1_digest(first) != sha1_digest(second),
        sha1_digest(second).len() == DIGEST_LENGTH,
    ensures
        ({
            let name = normalized(desired);
            let other = suffixed_name(name, sha1_digest(second));
            let once = folder_after_add(folder, desired, first);
            let twice = folder_after_add(once, desired, second);
            &&& added_name(folder, desired, first) == name
            &&& added_name(once, desired, second) == other
            &&& other != name
            &&& twice == folder.insert(name, first).insert(other, second)
            &&& twice[name] == first
            &&& twice[other] == second
            &&& twice.dom() == folder.dom().insert(name).insert(other)
        }),
{
    let name = normalized(desired);
    crate::filename::lemma_sanitized(crate::filename::composed(desired));
    lemma_suffixed_name_differs(name, sha1_digest(second));
    let once = folder_after_add(folder, desired, first);
    let twice = folder_after_add(once, desired, second);
    assert(twice.dom() =~= folder.dom().insert(name).insert(
        suffixed_name(name, sha1_digest(second)),
    ));
}

/// A file on its way into the folder: where it goes, and what the caller
/// will record of it once it is there.
#[derive(Debug)]
pub struct IncomingFile {
    /// The name of the file in the folder.
    pub fname: String,
    /// The digest of its content.
    pub sha1: [u8; 20],
    /// False where the folder holds this content under this name already.
    pub write: bool,
    /// The name under which the file came, where that is not its name in
    /// the folder.
    pub renamed_from: Option<String>,
}

/// A file that was added to the folder.
#[derive(Debug)]
pub struct AddedFile {
    /// The name of the file in the folder.
    pub fname: String,
    /// The digest of its content.
    pub sha1: [u8; 20],
    /// When the file was last modified, in seconds since the Unix epoch.
    pub mtime: i64,
    /// The name under which the file came, where that is not its name in
    /// the folder.
    pub renamed_from: Option<String>,
}

/// Decides where a file received from a remote peer goes. Peers did not
/// always enforce limits on names, so the file is renamed where its name
/// is not valid.
///
/// A name that is valid as it stands is used without looking at the folder:
/// the file is written there whatever the folder holds. Any other name goes
/// through `add_data_to_folder_uniquely`; `existing` is the digest of the
/// file that the folder holds under `normalize_filename(fname)`, if it holds
/// one, and is looked at in that case only.
pub fn add_file_from_ankiweb(fname: &str, data: &[u8], existing: Option<[u8; 20]>) -> (r:
    IncomingFile)
    requires
        data@.len() < MAX_HASHED_BYTES,
    ensures
        r.sha1@ == sha1_digest(data@),
        normalized(fname@) == fname@ ==> {
            &&& r.fname@ == fname@
            &&& r.write
            &&& r.renamed_from is None
        },
        normalized(fname@) != fname@ ==> {
            &&& r.fname@ == unique_name(fname@, sha1_digest(data@), digest_view(existing))
            &&& r.write == must_write(sha1_digest(data@), digest_view(existing))
            &&& r.renamed_from matches Some(from) && from@ == fname@
        },
{
    let sha1 = sha1_of_data(data);
    let normalized_name = normalize_filename(fname);
    if same_text(normalized_name.as_str(), fname) {
        IncomingFile { fname: normalized_name, sha1, write: true, renamed_from: None }
    } else {
        let placement = add_data_to_folder_uniquely(fname, sha1, existing);
        IncomingFile {
            fname: placement.name,
            sha1,
            write: placement.write,
            renamed_from: Some(fname.to_owned()),
        }
    }
}

/// Seconds since the Unix epoch as a signed number: the same number where
/// it fits, and 2^64 less where it does not.
pub open spec fn wrapped_seconds(secs: u64) -> int {
    if secs <= i64::MAX {
        secs as int
    } else {
        secs - 0x1_0000_0000_0000_0000
    }
}

/// Converts a modification time, in seconds since the Unix epoch, to the
/// signed number that is recorded.
pub fn mtime_as_i64(secs: u64) -> (r: i64)
    ensures
        r == wrapped_seconds(secs),
{
    if secs <= 0x7fff_ffff_ffff_ffff {
        secs as i64
    } else {
        ((secs - 0x8000_0000_0000_0000) as i64) + i64::MIN
    }
}

impl IncomingFile {
    /// The record of the file once it is in the folder, with the
    /// modification time that the caller has read back.
    pub fn into_added_file(self, modified_secs: u64) -> (r: AddedFile)
        ensures
            r.fname == self.fname,
            r.sha1 == self.sha1,
            r.mtime == wrapped_seconds(modified_secs),
            r.renamed_from == self.renamed_from,
    {
        AddedFile {
            fname: self.fname,
            sha1: self.sha1,
            mtime: mtime_as_i64(modified_secs),
            renamed_from: self.renamed_from,
        }
    }
}

/// Turns the outcome of hashing a file into the digest of the file if it
/// exists, or `None`: that the file is not there is an answer, any other
/// failure stays one.
pub fn existing_file_sha1(hashed: Result<[u8; 20], FileError>) -> (r: Result<
    Option<[u8; 20]>,
    FileError,
>)
    ensures
        match hashed {
            Ok(digest) => r matches Ok(Some(d)) && d == digest,
            Err(e) => if e.kind == FileErrorKind::NotFound {
                r matches Ok(None)
            } else {
                r matches Err(f) && f == e
            },
        },
{
    match hashed {
        Ok(digest) => Ok(Some(digest)),
        Err(e) => {
            if e.kind == FileErrorKind::NotFound {
                Ok(None)
            } else {
                Err(e)
            }
        },
    }
}

/// Turns the outcome of opening a file for reading into the opened file if
/// it exists, or `None`: that the file is not there is an answer, any other
/// failure stays one.
pub fn data_for_file<T>(opened: Result<T, FileError>) -> (r: Result<Option<T>, FileError>)
    ensures
        match opened {
            Ok(file) => r matches Ok(Some(f)) && f == file,
            Err(e) => if e.kind == FileErrorKind::NotFound {
                r matches Ok(None)
            } else {
                r matches Err(f) && f == e
            },
        },
{
    match opened {
        Ok(file) => Ok(Some(file)),
        Err(e) => {
            if e.kind == FileErrorKind::NotFound {
                Ok(None)
            } else {
                Err(e)
            }
        },
    }
}

/// Decides what removing `files` asks of the platform: nothing where there
/// are none, and else one call that moves all of them to the trash.
pub fn remove_files<'a, T>(files: &'a [T]) -> (batch: Option<&'a [T]>)
    ensures
        files@.len() == 0 ==> batch is None,
        files@.len() > 0 ==> batch == Some(files),
{
    if files.len() == 0 {
        None
    } else {
        Some(files)
    }
}

/// The one failure that stands for a batch that could not be moved to the
/// trash, whatever went wrong and for whichever file.
pub fn removal_failed(detail: &str) -> (r: FileError)
    ensures
        r.kind == FileErrorKind::Other,
        r.info@ == "removing files failed: "@ + detail@,
{
    let mut info = String::from_str("removing files failed: ");
    info.append(detail);
    FileError { kind: FileErrorKind::Other, info }
}

} // verus!
