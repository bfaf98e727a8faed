use vstd::prelude::*;

verus! {

/// The 64 hexadecimal characters of the SHA-256 digest of a byte sequence.
///
/// The digest itself is far too large to state here; this name stands for it,
/// and every contract that mentions a digest speaks of this name.
pub uninterp spec fn sha256_hex_of(data: Seq<u8>) -> Seq<char>;

/// Relies on crypto::sha2::Sha256 through crypto::digest::Digest::{input,
/// result_str}: the digest depends on the input bytes alone and is rendered
/// as the 64 lowercase hexadecimal characters of the 32-byte SHA-256 value.
#[verifier::external_body]
pub fn sha256_hex(data: &Vec<u8>) -> (r: String)
    ensures
        r@ == sha256_hex_of(data@),
        r@.len() == 64,
        vstd::utf8::is_ascii_chars(r@),
{
    let mut hasher = crypto::sha2::Sha256::new();
    crypto::digest::Digest::input(&mut hasher, data.as_slice());
    crypto::digest::Digest::result_str(&mut hasher)
}

/// Relies on std::time::SystemTime::now and duration_since(UNIX_EPOCH):
/// milliseconds since the Unix epoch; the error case is a clock reading
/// before the epoch. Nothing can be promised of the value itself.
#[verifier::external_body]
pub fn current_millis() -> (r: Result<u128, ()>)
{
    match std::time::SystemTime::now().duration_since(std::time::SystemTime::UNIX_EPOCH) {
        Ok(d) => Ok(d.as_millis()),
        Err(_) => Err(()),
    }
}

} // verus!
