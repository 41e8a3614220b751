//! The name of the index file for a working directory.
//!
//! Each working tree gets its own index file, named by the hexadecimal
//! SHA-256 digest of the working directory's path bytes.

use vstd::prelude::*;

use crate::encoding::hex_of;
use crate::encoding::to_hex;

verus! {

/// The SHA-256 digest of a byte string. Named, not defined: the digest
/// is computed by an outside crate and depends on the input alone.
pub uninterp spec fn sha256_of(b: Seq<u8>) -> Seq<u8>;

/// Relies on `hmac_sha256::Hash::hash`: the SHA-256 digest of the
/// input, 32 bytes, a function of the input alone; `sha256_of` names it.
#[verifier::external_body]
fn sha256(b: &[u8]) -> (r: Vec<u8>)
    ensures
        r@ == sha256_of(b@),
        r@.len() == 32,
{
    hmac_sha256::Hash::hash(b).to_vec()
}

/// The file name of the index for the working directory whose path
/// bytes are `cwd`: the hexadecimal SHA-256 digest of those bytes.
pub fn save_file_name(cwd: &[u8]) -> (r: String)
    ensures
        r@ == hex_of(sha256_of(cwd@)),
        r@.len() == 64,
{
    let hash = sha256(cwd);
    to_hex(hash.as_slice())
}

} // verus!
