//! Classification of path arguments: standard-stream markers, compression
//! suffixes, and display fallbacks.

use crate::nums::bytes_eq;
use vstd::prelude::*;
use vstd::string::StringSliceAdditionalSpecFns;

verus! {

/// ASCII `'-'`, the conventional marker for a standard stream.
pub const DASH: u8 = 45;

/// First byte of the gzip magic number.
pub const GZIP_MAGIC_0: u8 = 0x1f;

/// Second byte of the gzip magic number.
pub const GZIP_MAGIC_1: u8 = 0x8b;

/// Where a path argument points: a real file, or a standard stream.
#[derive(Clone, Copy, PartialEq, Eq, Structural, Debug)]
pub enum StreamType {
    File,
    Stdio,
}

/// How a stream is compressed, judged by its path's suffix.
#[derive(Clone, Copy, PartialEq, Eq, Structural, Debug)]
pub enum CompressionType {
    Plain,
    Gzip,
    Bgzip,
}

impl Default for CompressionType {
    /// The compression used when compression is forced regardless of the
    /// suffix.
    fn default() -> (r: Self)
        ensures
            r == CompressionType::Gzip,
    {
        CompressionType::Gzip
    }
}

/// The byte sequence ends with the given suffix.
pub open spec fn has_suffix(s: Seq<u8>, suffix: Seq<u8>) -> bool {
    s.len() >= suffix.len() && s.skip(s.len() - suffix.len()) == suffix
}

fn bytes_has_suffix(s: &[u8], suffix: &[u8]) -> (r: bool)
    ensures
        r == has_suffix(s@, suffix@),
{
    if s.len() < suffix.len() {
        return false;
    }
    let start = s.len() - suffix.len();
    let n = suffix.len();
    let mut i: usize = 0;
    while i < n
        invariant
            0 <= i <= n,
            n == suffix@.len(),
            start == s@.len() - n,
            n <= s@.len(),
            start + n <= usize::MAX,
            forall|j: int| 0 <= j < i ==> s@[start + j] == suffix@[j],
        decreases n - i,
    {
        if s[start + i] != suffix[i] {
            proof {
                assert(s@.skip(start as int)[i as int] == s@[start + i]);
            }
            return false;
        }
        i = i + 1;
    }
    proof {
        assert(s@.skip(start as int) =~= suffix@);
    }
    true
}

/// Whether a path argument names a standard stream: the path is the bare
/// `-` marker.
pub fn stream_type(path: &str) -> (r: StreamType)
    ensures
        (r == StreamType::Stdio) == (path.spec_bytes() == seq![DASH]),
        (r == StreamType::File) == (path.spec_bytes() != seq![DASH]),
{
    let bytes = path.as_bytes();
    let dash: [u8; 1] = [DASH];
    proof {
        assert(dash@ =~= seq![DASH]);
    }
    if bytes_eq(bytes, dash.as_slice()) {
        StreamType::Stdio
    } else {
        StreamType::File
    }
}

/// The `.gz` suffix.
pub open spec fn gz_suffix() -> Seq<u8> {
    seq![46u8, 103u8, 122u8]
}

/// The `.bgz` suffix.
pub open spec fn bgz_suffix() -> Seq<u8> {
    seq![46u8, 98u8, 103u8, 122u8]
}

/// How the stream behind a path is compressed: forced compression uses the
/// default; otherwise the path's suffix decides, `.gz` meaning gzip,
/// `.bgz` meaning bgzip, anything else meaning no compression.
pub fn compress_type(path: &str, force: bool) -> (r: CompressionType)
    ensures
        force ==> r == CompressionType::Gzip,
        !force && has_suffix(path.spec_bytes(), gz_suffix()) ==> r == CompressionType::Gzip,
        !force && !has_suffix(path.spec_bytes(), gz_suffix()) && has_suffix(
            path.spec_bytes(),
            bgz_suffix(),
        ) ==> r == CompressionType::Bgzip,
        !force && !has_suffix(path.spec_bytes(), gz_suffix()) && !has_suffix(
            path.spec_bytes(),
            bgz_suffix(),
        ) ==> r == CompressionType::Plain,
{
    let bytes = path.as_bytes();
    let gz: [u8; 3] = [46, 103, 122];
    let bgz: [u8; 4] = [46, 98, 103, 122];
    proof {
        assert(gz@ =~= gz_suffix());
        assert(bgz@ =~= bgz_suffix());
    }
    if force {
        CompressionType::default()
    } else if bytes_has_suffix(bytes, gz.as_slice()) {
        CompressionType::Gzip
    } else if bytes_has_suffix(bytes, bgz.as_slice()) {
        CompressionType::Bgzip
    } else {
        CompressionType::Plain
    }
}

/// The name to show for a path argument: the stream's name when the path
/// is the standard-stream marker, the path itself otherwise.
pub fn path_or(path: &str, stdio: &str) -> (r: String)
    ensures
        path.spec_bytes() == seq![DASH] ==> r@ == stdio@,
        path.spec_bytes() != seq![DASH] ==> r@ == path@,
{
    match stream_type(path) {
        StreamType::Stdio => stdio.to_owned(),
        StreamType::File => path.to_owned(),
    }
}

/// Whether the first two bytes of a stream carry the gzip magic number.
pub fn is_gzip_magic(first: u8, second: u8) -> (r: bool)
    ensures
        r == (first == GZIP_MAGIC_0 && second == GZIP_MAGIC_1),
{
    first == GZIP_MAGIC_0 && second == GZIP_MAGIC_1
}

} // verus!
