//! Sync requests for local files: what the file system reported for a path
//! becomes either a request or the error the caller sees.

use vstd::prelude::*;
use crate::client::SyncRequest;
use crate::error::SyncError;
use crate::error::copy_text;
use crate::text::{hex_fixed, push_hex_fixed};

verus! {

/// What reading a path that is to be synced gave.
#[derive(Debug)]
pub enum FileProbe {
    /// The path is not a regular file.
    NotAFile,
    /// The file could not be read; the text the system reported.
    ReadFailed(String),
    /// The file was read whole; the 64-bit digest of its content.
    Digest(u64),
}

/// The hash text of a content digest: sixteen lower-case hexadecimal
/// digits, zero-padded (`{:016x}`).
pub open spec fn digest_text(digest: u64) -> Seq<char> {
    hex_fixed(digest as nat, 16)
}

/// The hash text of a content digest.
pub fn format_digest(digest: u64) -> (r: String)
    ensures
        r@ == digest_text(digest),
{
    let mut r = String::new();
    push_hex_fixed(&mut r, digest, 16);
    assert(r@ =~= digest_text(digest));
    r
}

/// `item` is what building the sync request for the file at `path`, with
/// `probe` as what reading it gave, comes to: a path that is not a regular
/// file is an invalid path, a file that cannot be read is a file-system
/// error, and a file read whole is a request for `path` with the hash text
/// of its digest.
pub open spec fn built_as(item: Result<SyncRequest, SyncError>, path: Seq<char>, probe: FileProbe) -> bool {
    match probe {
        FileProbe::NotAFile => item matches Err(SyncError::InvalidPath(p)) && p@ == path,
        FileProbe::ReadFailed(m) => item matches Err(SyncError::Io(e)) && e@ == m@,
        FileProbe::Digest(d) => item matches Ok(req) && req.path@ == path && req.hash@
            == digest_text(d),
    }
}

/// `items` are the sync requests built for `paths` in order, each with the
/// probe at the same place, for as many paths as there are probes.
pub open spec fn built_for(
    items: Seq<Result<SyncRequest, SyncError>>,
    paths: Seq<Seq<char>>,
    probes: Seq<FileProbe>,
) -> bool {
    &&& items.len() == if paths.len() <= probes.len() {
        paths.len()
    } else {
        probes.len()
    }
    &&& forall|i: int| 0 <= i < items.len() ==> built_as(#[trigger] items[i], paths[i], probes[i])
}

fn request_from(path: &str, probe: &FileProbe) -> (r: Result<SyncRequest, SyncError>)
    ensures
        built_as(r, path@, *probe),
{
    match probe {
        FileProbe::NotAFile => Err(SyncError::InvalidPath(String::from_str(path))),
        FileProbe::ReadFailed(m) => Err(SyncError::Io(copy_text(m))),
        FileProbe::Digest(d) => Ok(SyncRequest { path: String::from_str(path), hash: format_digest(*d) }),
    }
}

/// The sync request for the file at `path`, or why there is none: a path
/// that is not a regular file is an invalid path, a file that cannot be read
/// is a file-system error.
pub fn build_sync_request(path: &str, probe: FileProbe) -> (r: Result<SyncRequest, SyncError>)
    ensures
        built_as(r, path@, probe),
{
    request_from(path, &probe)
}

/// The sync requests for the files at `paths`, in order, each built with the
/// probe at the same place; paths beyond the last probe get none.
pub fn requests_for(paths: &Vec<String>, probes: &Vec<FileProbe>) -> (r: Vec<
    Result<SyncRequest, SyncError>,
>)
    ensures
        built_for(r@, paths@.map_values(|s: String| s@), probes@),
{
    let n = if paths.len() <= probes.len() {
        paths.len()
    } else {
        probes.len()
    };
    let mut r: Vec<Result<SyncRequest, SyncError>> = Vec::new();
    let mut i: usize = 0;
    while i < n
        invariant
            i <= n,
            n <= paths@.len(),
            n <= probes@.len(),
            r@.len() == i,
            forall|j: int|
                0 <= j < i ==> built_as(#[trigger] r@[j], paths@[j]@, probes@[j]),
        decreases n - i,
    {
        let item = request_from(paths[i].as_str(), &probes[i]);
        r.push(item);
        i += 1;
    }
    r
}

} // verus!
