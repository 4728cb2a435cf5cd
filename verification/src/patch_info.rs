//! The upstream patch-information protocol.
//!
//! The client sends a fixed request frame and receives a response frame:
//! two magic bytes 0x50 0x41, the revision identifier as eight big-endian
//! bytes, the manifest locator's length as two big-endian bytes, then the
//! locator itself (printable ASCII, no space), and nothing after it. The
//! response is untrusted: any malformed header, truncated frame or stray
//! byte fails with a `ProtocolError`, never a guess. The network round
//! trip itself lives with the caller; this module only builds the request
//! and decodes the response.

use vstd::prelude::*;

use crate::errors::ProtocolError;
use crate::manifest::all_path_bytes;
use crate::manifest::check_field;
use crate::manifest::copy_range;

verus! {

/// The big-endian value of a byte string.
pub open spec fn be_val(s: Seq<u8>) -> int
    decreases s.len(),
{
    if s.len() == 0 {
        0
    } else {
        be_val(s.drop_last()) * 256 + s.last()
    }
}

/// 256 to the `n`th.
pub open spec fn pow256(n: nat) -> int
    decreases n,
{
    if n == 0 {
        1
    } else {
        256 * pow256((n - 1) as nat)
    }
}

/// A big-endian value is below 256 to its length.
pub proof fn lemma_be_val_bound(s: Seq<u8>)
    ensures
        0 <= be_val(s) < pow256(s.len()),
    decreases s.len(),
{
    if s.len() > 0 {
        lemma_be_val_bound(s.drop_last());
    }
}

/// What the upstream answered: revision identifier and manifest locator,
/// together with the host and port the answer came from.
#[derive(Debug)]
pub struct PatchInfo {
    /// Revision identifier, ordered by the upstream's versioning.
    pub revision: u64,
    /// Where the revision's manifest can be retrieved.
    pub locator: Vec<u8>,
    /// Upstream host the information was fetched from.
    pub host: Vec<u8>,
    /// Upstream port the information was fetched from.
    pub port: u16,
}

/// The model of a decoded response frame: revision and locator.
pub struct PatchInfoView {
    pub revision: u64,
    pub locator: Seq<u8>,
}

/// The model of decoding a response frame.
pub open spec fn spec_decode(s: Seq<u8>) -> Result<PatchInfoView, ProtocolError> {
    if s.len() < 2 {
        Result::Err(ProtocolError::Truncated)
    } else if s[0] != 0x50 || s[1] != 0x41 {
        Result::Err(ProtocolError::BadMagic)
    } else if s.len() < 12 {
        Result::Err(ProtocolError::Truncated)
    } else {
        let llen = be_val(s.subrange(10, 12));
        if s.len() < 12 + llen {
            Result::Err(ProtocolError::Truncated)
        } else if s.len() > 12 + llen {
            Result::Err(ProtocolError::TrailingBytes)
        } else if !all_path_bytes(s.subrange(12, 12 + llen)) {
            Result::Err(ProtocolError::BadLocator)
        } else {
            Result::Ok(
                PatchInfoView {
                    revision: be_val(s.subrange(2, 10)) as u64,
                    locator: s.subrange(12, 12 + llen),
                },
            )
        }
    }
}

/// The fixed request frame: the magic bytes and a query marker.
pub open spec fn request_frame() -> Seq<u8> {
    seq![0x50u8, 0x41u8, 0x3fu8]
}

/// Builds the request frame the client sends upstream.
pub fn encode_request() -> (r: Vec<u8>)
    ensures
        r@ == request_frame(),
{
    let mut r: Vec<u8> = Vec::new();
    r.push(0x50);
    r.push(0x41);
    r.push(0x3f);
    proof {
        assert(r@ =~= request_frame());
    }
    r
}

/// The big-endian value of `doc[from..to]`, at most eight bytes.
fn read_be(doc: &Vec<u8>, from: usize, to: usize) -> (r: u64)
    requires
        from <= to <= doc@.len(),
        to - from <= 8,
    ensures
        r == be_val(doc@.subrange(from as int, to as int)),
{
    let ghost sub = doc@.subrange(from as int, to as int);
    let mut val: u64 = 0;
    let mut j: usize = from;
    while j < to
        invariant
            from <= j <= to <= doc@.len(),
            to - from <= 8,
            sub == doc@.subrange(from as int, to as int),
            val == be_val(sub.subrange(0, j - from as int)),
        decreases to - j,
    {
        let ghost pre = sub.subrange(0, j - from as int);
        let ghost post = sub.subrange(0, j + 1 - from as int);
        proof {
            assert(post.drop_last() =~= pre);
            assert(post.last() == doc@[j as int]);
            lemma_be_val_bound(pre);
            lemma_pow256_le(pre.len(), 7);
            assert(pow256(7) == 0x100_0000_0000_0000) by {
                reveal_with_fuel(pow256, 8);
            }
        }
        val = val * 256 + (doc[j] as u64);
        j = j + 1;
    }
    proof {
        assert(sub.subrange(0, to - from as int) =~= sub);
    }
    val
}

proof fn lemma_pow256_le(m: nat, n: nat)
    requires
        m <= n,
    ensures
        pow256(m) <= pow256(n),
        pow256(m) >= 1,
    decreases n,
{
    if m < n {
        lemma_pow256_le(m, (n - 1) as nat);
    } else if n > 0 {
        lemma_pow256_le((m - 1) as nat, (n - 1) as nat);
    }
}

/// Decodes an upstream response frame into the patch information,
/// stamping it with the host and port it came from.
///
/// Fails exactly as the frame deviates from the documented shape; the
/// error names the first deviation.
pub fn decode_response(frame: &Vec<u8>, host: Vec<u8>, port: u16) -> (r: Result<
    PatchInfo,
    ProtocolError,
>)
    ensures
        r is Ok <==> spec_decode(frame@) is Ok,
        r is Ok ==> r->Ok_0.revision == spec_decode(frame@)->Ok_0.revision,
        r is Ok ==> r->Ok_0.locator@ == spec_decode(frame@)->Ok_0.locator,
        r is Ok ==> r->Ok_0.host@ == host@ && r->Ok_0.port == port,
        r is Err ==> r->Err_0 == spec_decode(frame@)->Err_0,
{
    let n = frame.len();
    if n < 2 {
        return Err(ProtocolError::Truncated);
    }
    if frame[0] != 0x50 || frame[1] != 0x41 {
        return Err(ProtocolError::BadMagic);
    }
    if n < 12 {
        return Err(ProtocolError::Truncated);
    }
    let llen_v = read_be(frame, 10, 12);
    proof {
        lemma_be_val_bound(frame@.subrange(10, 12));
        assert(pow256(2) == 0x10000) by {
            reveal_with_fuel(pow256, 3);
        }
    }
    let llen = llen_v as usize;
    if n - 12 < llen {
        return Err(ProtocolError::Truncated);
    }
    if n - 12 > llen {
        return Err(ProtocolError::TrailingBytes);
    }
    if !check_field(frame, 12, n, true) {
        return Err(ProtocolError::BadLocator);
    }
    let rev = read_be(frame, 2, 10);
    proof {
        lemma_be_val_bound(frame@.subrange(2, 10));
        assert(pow256(8) == 0x1_0000_0000_0000_0000) by {
            reveal_with_fuel(pow256, 9);
        }
        assert(frame@.subrange(12, 12 + llen_v as int) =~= frame@.subrange(12, n as int));
    }
    Ok(PatchInfo { revision: rev, locator: copy_range(frame, 12, n), host, port })
}

} // verus!
