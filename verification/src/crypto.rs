//! Authenticated encryption of chunks with ChaCha20-Poly1305.

use vstd::prelude::*;

use chacha20poly1305::aead::AeadInPlace;
use chacha20poly1305::aead::KeyInit;
use chacha20poly1305::ChaCha20Poly1305;
use chacha20poly1305::Key;
use chacha20poly1305::Nonce;
use rand::Rng;

verus! {

use vstd::utf8::encode_utf8;

/// The most bytes that one nonce encrypts: the key stream has 2^32 - 2 blocks of 64 bytes for them.
pub const MAX_PLAINTEXT: u64 = 274877906816;

/// The bytes of the nonce in front of a payload.
pub const NONCE_LEN: usize = 12;

/// The bytes of the authentication tag at the end of a payload.
pub const TAG_LEN: usize = 16;

/// What `encrypt_in_place` of ChaCha20-Poly1305 makes of a plaintext: ciphertext and tag.
pub uninterp spec fn chacha_seal(key: Seq<u8>, nonce: Seq<u8>, plaintext: Seq<u8>) -> Seq<u8>;

/// What `decrypt_in_place` of ChaCha20-Poly1305 makes of a ciphertext with its tag.
pub uninterp spec fn chacha_open(key: Seq<u8>, nonce: Seq<u8>, sealed: Seq<u8>) -> Option<Seq<u8>>;

/// What a payload, a nonce and what was sealed under it, opens to.
pub open spec fn opened(key: Seq<u8>, payload: Seq<u8>) -> Option<Seq<u8>> {
    if payload.len() < NONCE_LEN {
        None
    } else {
        chacha_open(key, payload.take(NONCE_LEN as int), payload.skip(NONCE_LEN as int))
    }
}

/// Twelve bytes from `rand::thread_rng`. They are random, so nothing is said of them.
#[verifier::external_body]
fn random_nonce() -> [u8; 12] {
    let mut nonce = [0u8; 12];
    rand::thread_rng().fill(&mut nonce);
    nonce
}

/// `ChaCha20Poly1305::encrypt_in_place` without associated data, on a copy of the plaintext. Up to
/// the limit of the key stream it succeeds, appends a tag of 16 bytes, and gives what
/// `decrypt_in_place` under the same key and nonce turns back into the plaintext.
#[verifier::external_body]
fn seal(key: &[u8; 32], nonce: &[u8; 12], plaintext: &[u8]) -> (r: Vec<u8>)
    requires
        plaintext@.len() <= MAX_PLAINTEXT,
    ensures
        r@ == chacha_seal(key@, nonce@, plaintext@),
        r@.len() == plaintext@.len() + TAG_LEN,
        chacha_open(key@, nonce@, r@) == Some(plaintext@),
{
    let cipher = ChaCha20Poly1305::new(Key::from_slice(key));
    let mut buffer = plaintext.to_vec();
    cipher
        .encrypt_in_place(Nonce::from_slice(nonce), &[], &mut buffer)
        .expect("encryption failed");
    buffer
}

/// `ChaCha20Poly1305::decrypt_in_place` without associated data, on a copy of the ciphertext. It
/// fails where the tag is missing or does not match, and otherwise drops the tag.
#[verifier::external_body]
fn open(key: &[u8; 32], nonce: &[u8; 12], sealed: &[u8]) -> (r: Option<Vec<u8>>)
    requires
        sealed@.len() <= MAX_PLAINTEXT + TAG_LEN,
    ensures
        r is Some == chacha_open(key@, nonce@, sealed@) is Some,
        r matches Some(p) ==> chacha_open(key@, nonce@, sealed@) == Some(p@) && p@.len() + TAG_LEN
            == sealed@.len(),
{
    let cipher = ChaCha20Poly1305::new(Key::from_slice(key));
    let mut buffer = sealed.to_vec();
    cipher.decrypt_in_place(Nonce::from_slice(nonce), &[], &mut buffer).ok()?;
    Some(buffer)
}

/// Encrypts a chunk under a given nonce: the nonce, the ciphertext, the tag.
pub fn encrypt_with_nonce(key: &[u8; 32], nonce: &[u8; 12], plaintext: &[u8]) -> (r: Vec<u8>)
    requires
        plaintext@.len() <= MAX_PLAINTEXT,
    ensures
        r@ == nonce@ + chacha_seal(key@, nonce@, plaintext@),
        r@.len() == NONCE_LEN + plaintext@.len() + TAG_LEN,
        opened(key@, r@) == Some(plaintext@),
{
    let mut sealed = seal(key, nonce, plaintext);
    let ghost body = sealed@;
    let mut r: Vec<u8> = Vec::with_capacity(NONCE_LEN);
    let mut i: usize = 0;
    while i < NONCE_LEN
        invariant
            i <= NONCE_LEN,
            r@ == nonce@.take(i as int),
        decreases NONCE_LEN - i,
    {
        r.push(nonce[i]);
        i = i + 1;
        assert(nonce@.take(i as int) =~= nonce@.take(i - 1).push(nonce@[i - 1]));
    }
    assert(nonce@.take(NONCE_LEN as int) =~= nonce@);
    r.append(&mut sealed);
    assert(r@.take(NONCE_LEN as int) =~= nonce@);
    assert(r@.skip(NONCE_LEN as int) =~= body);
    r
}

/// Encrypts a chunk under a random nonce, which stands in front.
pub fn encrypt_chunk(key: &[u8; 32], plaintext: &[u8]) -> (r: Vec<u8>)
    requires
        plaintext@.len() <= MAX_PLAINTEXT,
    ensures
        r@.len() == NONCE_LEN + plaintext@.len() + TAG_LEN,
        r@.skip(NONCE_LEN as int) == chacha_seal(key@, r@.take(NONCE_LEN as int), plaintext@),
        opened(key@, r@) == Some(plaintext@),
{
    let nonce = random_nonce();
    let r = encrypt_with_nonce(key, &nonce, plaintext);
    assert(r@.take(NONCE_LEN as int) =~= nonce@);
    assert(r@.skip(NONCE_LEN as int) =~= chacha_seal(key@, nonce@, plaintext@));
    r
}

/// A payload in its two parts: the nonce and what was sealed.
fn split_payload(data: &[u8]) -> (r: ([u8; 12], Vec<u8>))
    requires
        data@.len() >= NONCE_LEN,
    ensures
        r.0@ == data@.take(NONCE_LEN as int),
        r.1@ == data@.skip(NONCE_LEN as int),
{
    let mut nonce: [u8; 12] = [0u8;12];
    let mut i: usize = 0;
    while i < NONCE_LEN
        invariant
            i <= NONCE_LEN,
            NONCE_LEN <= data@.len(),
            forall|j: int| 0 <= j < i ==> nonce@[j] == data@[j],
        decreases NONCE_LEN - i,
    {
        nonce[i] = data[i];
        i = i + 1;
    }
    let n: usize = data.len();
    let mut sealed: Vec<u8> = Vec::with_capacity(n - NONCE_LEN);
    while i < n
        invariant
            NONCE_LEN <= i <= n,
            n == data@.len(),
            sealed@ == data@.subrange(NONCE_LEN as int, i as int),
        decreases n - i,
    {
        sealed.push(data[i]);
        i = i + 1;
        assert(data@.subrange(NONCE_LEN as int, i as int) =~= data@.subrange(
            NONCE_LEN as int,
            i - 1,
        ).push(data@[i - 1]));
    }
    assert(nonce@ =~= data@.take(NONCE_LEN as int));
    assert(sealed@ =~= data@.skip(NONCE_LEN as int));
    (nonce, sealed)
}

/// Decrypts a payload that is known to open.
pub fn decrypt_chunk(key: &[u8; 32], data: &[u8]) -> (r: Vec<u8>)
    requires
        data@.len() <= NONCE_LEN + MAX_PLAINTEXT + TAG_LEN,
        opened(key@, data@) is Some,
    ensures
        opened(key@, data@) == Some(r@),
        r@.len() + NONCE_LEN + TAG_LEN == data@.len(),
{
    let (nonce, sealed) = split_payload(data);
    match open(key, &nonce, &sealed) {
        Some(plaintext) => plaintext,
        None => {
            assert(false);
            Vec::new()
        },
    }
}

/// Decrypts a payload if it opens.
pub fn try_decrypt_chunk(key: &[u8; 32], data: &[u8]) -> (r: Option<Vec<u8>>)
    requires
        data@.len() <= NONCE_LEN + MAX_PLAINTEXT + TAG_LEN,
    ensures
        r is Some == opened(key@, data@) is Some,
        r matches Some(p) ==> opened(key@, data@) == Some(p@),
{
    if data.len() < NONCE_LEN {
        return None;
    }
    let (nonce, sealed) = split_payload(data);
    match open(key, &nonce, &sealed) {
        None => None,
        Some(_) => Some(decrypt_chunk(key, data)),
    }
}

/// The key of 32 zero bytes, for runs without a key file.
pub open spec fn zero_key() -> Seq<u8> {
    Seq::new(32, |i: int| 0u8)
}

/// The key that a key file gives: its bytes if there are exactly 32, else 32 zero bytes.
pub fn key_from_file(content: Option<Vec<u8>>) -> (r: [u8; 32])
    ensures
        r@ == (match content {
            Some(bytes) => if bytes@.len() == 32 {
                bytes@
            } else {
                zero_key()
            },
            None => zero_key(),
        }),
{
    let mut key: [u8; 32] = [0u8;32];
    assert(key@ =~= zero_key());
    match content {
        None => key,
        Some(bytes) => {
            if bytes.len() != 32 {
                return key;
            }
            let mut i: usize = 0;
            while i < 32
                invariant
                    i <= 32,
                    bytes@.len() == 32,
                    forall|j: int| 0 <= j < i ==> key@[j] == bytes@[j],
                decreases 32 - i,
            {
                key[i] = bytes[i];
                i = i + 1;
            }
            assert(key@ =~= bytes@);
            key
        },
    }
}

/// The salt that a salt file gives, or the default one.
pub fn salt_from_file(content: Option<Vec<u8>>) -> (r: Vec<u8>)
    ensures
        r@ == (match content {
            Some(bytes) => bytes@,
            None => encode_utf8("default-group-salt!"@),
        }),
{
    match content {
        Some(bytes) => bytes,
        None => "default-group-salt!".as_bytes_vec(),
    }
}

/// A payload is a nonce of twelve bytes and what was sealed under it; what is shorter opens to
/// nothing.
pub proof fn law_payload_layout(key: Seq<u8>, nonce: Seq<u8>, sealed: Seq<u8>, short: Seq<u8>)
    requires
        nonce.len() == 12,
        short.len() < 12,
    ensures
        opened(key, nonce + sealed) == chacha_open(key, nonce, sealed),
        opened(key, short) is None,
{
    assert((nonce + sealed).take(12) =~= nonce);
    assert((nonce + sealed).skip(12) =~= sealed);
}

/// The key for runs without a key file has 32 bytes, all of them zero.
pub proof fn law_default_key(i: int)
    requires
        0 <= i < 32,
    ensures
        zero_key().len() == 32,
        zero_key()[i] == 0,
{
}

} // verus!
