//! Digest and encoding primitives, through outside crates. Each result is
//! a pure function of the inputs, so it is given a name that the signer's
//! contracts speak of; nothing else is assumed of the values.
use vstd::prelude::*;

verus! {

/// What MD5 returns on given bytes.
pub uninterp spec fn md5_of(data: Seq<u8>) -> Seq<u8>;

/// Relies on md5's `Md5` through digest's `Digest::digest`: the 16-byte MD5
/// digest of the input, a function of the input alone.
#[verifier::external_body]
pub(crate) fn md5_digest(data: &Vec<u8>) -> (r: Vec<u8>)
    ensures
        r@ == md5_of(data@),
        r@.len() == 16,
{
    let d = <md5::Md5 as md5::Digest>::digest(data.as_slice());
    d.as_slice().to_vec()
}

/// What HMAC-SHA1 returns for a given key and message.
pub uninterp spec fn hmac_sha1_of(key: Seq<u8>, msg: Seq<u8>) -> Seq<u8>;

/// Relies on hmac's `Hmac<Sha1>`: the 20-byte HMAC-SHA1 tag of the message
/// under the key, a function of key and message alone. HMAC accepts keys of
/// any length (`new_from_slice` never fails for an HMAC), so the unwrap
/// cannot panic.
#[verifier::external_body]
pub(crate) fn hmac_sha1(key: &Vec<u8>, msg: &Vec<u8>) -> (r: Vec<u8>)
    ensures
        r@ == hmac_sha1_of(key@, msg@),
        r@.len() == 20,
{
    let mut mac = <hmac::Hmac<sha1::Sha1> as hmac::KeyInit>::new_from_slice(
        key.as_slice(),
    ).unwrap();
    hmac::Mac::update(&mut mac, msg.as_slice());
    let tag = hmac::Mac::finalize(mac).into_bytes();
    tag.as_slice().to_vec()
}

/// What base64 returns on given bytes.
pub uninterp spec fn base64_of(data: Seq<u8>) -> Seq<u8>;

/// Relies on base64's standard-alphabet padded engine: the base64 text of
/// the input bytes, a function of the input alone.
#[verifier::external_body]
pub(crate) fn base64_encode(data: &Vec<u8>) -> (r: Vec<u8>)
    ensures
        r@ == base64_of(data@),
{
    base64::Engine::encode(&base64::engine::general_purpose::STANDARD, data.as_slice())
        .into_bytes()
}

} // verus!
