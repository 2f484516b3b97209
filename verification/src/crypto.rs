//! The session cipher: an AES-128 key derived by SHA-256 from the exchanged
//! key and a constant key, used block by block (ECB) over padded data.

use aes::cipher::{generic_array::GenericArray, BlockDecrypt, BlockEncrypt, KeyInit};
use aes::Aes128;
use rand::Rng;
use sha2::{Digest, Sha256};
use vstd::prelude::*;
use vstd::string::StringSliceAdditionalSpecFns;

verus! {

/// The SHA-256 digest of `data`.
pub uninterp spec fn sha256(data: Seq<u8>) -> Seq<u8>;

/// The AES-128 encryption of one 16-byte `block` under the 16-byte `key`.
pub uninterp spec fn aes128_encrypt(key: Seq<u8>, block: Seq<u8>) -> Seq<u8>;

/// The AES-128 decryption of one 16-byte `block` under the 16-byte `key`.
pub uninterp spec fn aes128_decrypt(key: Seq<u8>, block: Seq<u8>) -> Seq<u8>;

/// `rand`'s thread-local generator, carried through unopened.
#[verifier::external_type_specification]
#[verifier::external_body]
pub struct ExThreadRng(rand::rngs::ThreadRng);

/// Calls `sha2::Sha256::digest` (through `digest::Digest`, which feeds `data`
/// to a fresh hasher and finalises it). Claimed: the result is the digest of
/// `data`, 32 bytes long, as the output size `U32` of `Sha256` fixes.
#[verifier::external_body]
fn sha256_digest(data: &[u8]) -> (out: Vec<u8>)
    ensures
        out@ == sha256(data@),
        out@.len() == 32,
{
    Sha256::digest(data).to_vec()
}

/// Builds an `aes::Aes128` from `key` (`KeyInit::new`) and encrypts one block
/// with it (`BlockEncrypt::encrypt_block`). Claimed: the result is the
/// encryption of `block` under `key`, and decrypting it under the same key
/// gives `block` back (AES is a permutation of blocks for each key).
#[verifier::external_body]
fn aes128_encrypt_block(key: &[u8; 16], block: &[u8; 16]) -> (out: [u8; 16])
    ensures
        out@ == aes128_encrypt(key@, block@),
        aes128_decrypt(key@, out@) == block@,
{
    let cipher = Aes128::new(&GenericArray::from(*key));
    let mut b = GenericArray::from(*block);
    cipher.encrypt_block(&mut b);
    b.into()
}

/// Builds an `aes::Aes128` from `key` (`KeyInit::new`) and decrypts one block
/// with it (`BlockDecrypt::decrypt_block`). Claimed: the result is the
/// decryption of `block` under `key`, and encrypting it under the same key
/// gives `block` back.
#[verifier::external_body]
fn aes128_decrypt_block(key: &[u8; 16], block: &[u8; 16]) -> (out: [u8; 16])
    ensures
        out@ == aes128_decrypt(key@, block@),
        aes128_encrypt(key@, out@) == block@,
{
    let cipher = Aes128::new(&GenericArray::from(*key));
    let mut b = GenericArray::from(*block);
    cipher.decrypt_block(&mut b);
    b.into()
}

/// Calls `rand::rng()`, the thread-local generator. Nothing is claimed of it.
#[verifier::external_body]
fn thread_rng() -> rand::rngs::ThreadRng {
    rand::rng()
}

/// Calls `rand::Rng::random_range` with the inclusive range `low..=high`,
/// which panics on an empty range (hence `low <= high`). Claimed: the result
/// lies in the range; which value comes is left to chance.
#[verifier::external_body]
fn random_byte_in(rng: &mut rand::rngs::ThreadRng, low: u8, high: u8) -> (b: u8)
    requires
        low <= high,
    ensures
        low <= b <= high,
{
    rng.random_range(low..=high)
}

/// Errors of the cipher, matching the kinds of I/O error that the protocol
/// reports.
#[derive(Debug, Clone, Copy, PartialEq, Eq, Structural)]
pub enum CipherError {
    /// The data to decrypt is not a whole number of 16-byte blocks.
    InvalidInput,
    /// The decrypted data holds no padding size byte.
    InvalidData,
}

impl CipherError {
    /// The message that the protocol attaches to this error.
    pub fn message(&self) -> (m: &'static str)
        ensures
            *self == CipherError::InvalidInput ==> m@ == "Invalid data length"@,
            *self == CipherError::InvalidData ==> m@ == "Invalid padding size"@,
    {
        match self {
            CipherError::InvalidInput => "Invalid data length",
            CipherError::InvalidData => "Invalid padding size",
        }
    }
}

/// The AES key that the two sides derive from the exchanged `key` and the
/// shared `const_key`: the first 16 bytes of SHA-256 over both, in order.
pub open spec fn derived_key(key: Seq<u8>, const_key: Seq<u8>) -> Seq<u8> {
    sha256(key + const_key).subrange(0, 16)
}

/// A byte that `RCipher::gen_key` may produce: an upper-case ASCII letter,
/// `A` (0x41) to `Z` (0x5a).
pub open spec fn is_key_letter(b: u8) -> bool {
    0x41 <= b <= 0x5a
}

/// The 16-byte block number `i` of `s`.
pub open spec fn block_at(s: Seq<u8>, i: int) -> Seq<u8> {
    s.subrange(16 * i, 16 * i + 16)
}

/// The number of padding bytes appended to data of `len` bytes: 1 to 16,
/// so that the result is a whole number of blocks.
pub open spec fn padding_size(len: nat) -> nat {
    (16 - len % 16) as nat
}

/// The padding of data of `len` bytes: `padding_size(len)` bytes, each
/// holding that size.
pub open spec fn padding_bytes(len: nat) -> Seq<u8> {
    Seq::new(padding_size(len), |i: int| padding_size(len) as u8)
}

/// `data` followed by its padding.
pub open spec fn pad(data: Seq<u8>) -> Seq<u8> {
    data + padding_bytes(data.len())
}

/// One 16-byte block encrypted, or decrypted, under `key`.
pub open spec fn crypt_block(key: Seq<u8>, block: Seq<u8>, decrypt: bool) -> Seq<u8> {
    if decrypt {
        aes128_decrypt(key, block)
    } else {
        aes128_encrypt(key, block)
    }
}

/// Each 16-byte block of `s` encrypted, or decrypted, under `key`, in place.
pub open spec fn ecb(key: Seq<u8>, s: Seq<u8>, decrypt: bool) -> Seq<u8> {
    Seq::new(s.len(), |j: int| crypt_block(key, block_at(s, j / 16), decrypt)[j % 16])
}

/// Each 16-byte block of `s` encrypted under `key`, in place.
pub open spec fn ecb_encrypt(key: Seq<u8>, s: Seq<u8>) -> Seq<u8> {
    ecb(key, s, false)
}

/// Each 16-byte block of `s` decrypted under `key`, in place.
pub open spec fn ecb_decrypt(key: Seq<u8>, s: Seq<u8>) -> Seq<u8> {
    ecb(key, s, true)
}

/// What is kept of decrypted data: its last `n` bytes, where `n` is the value
/// of its last byte.
pub open spec fn padding_tail(plain: Seq<u8>) -> Seq<u8> {
    plain.subrange(plain.len() - plain.last(), plain.len() as int)
}

/// Decrypted data whose last byte does not count more bytes than there are.
pub open spec fn padding_fits(plain: Seq<u8>) -> bool {
    plain.len() > 0 ==> plain.last() <= plain.len()
}

/// What decrypting `data` under `key` gives.
pub open spec fn decryption(key: Seq<u8>, data: Seq<u8>) -> Result<Seq<u8>, CipherError> {
    if data.len() % 16 != 0 {
        Err(CipherError::InvalidInput)
    } else if data.len() == 0 {
        Err(CipherError::InvalidData)
    } else {
        Ok(padding_tail(ecb_decrypt(key, data)))
    }
}

/// The view of a result that carries bytes.
pub open spec fn bytes_result(r: Result<Vec<u8>, CipherError>) -> Result<Seq<u8>, CipherError> {
    match r {
        Ok(v) => Ok(v@),
        Err(e) => Err(e),
    }
}

/// Takes the padding off decrypted data: its last byte counts the bytes that
/// are kept from its end.
pub fn split_padding(plain: Vec<u8>) -> (r: Result<Vec<u8>, CipherError>)
    requires
        padding_fits(plain@),
    ensures
        plain@.len() == 0 ==> r == Err::<Vec<u8>, CipherError>(CipherError::InvalidData),
        plain@.len() > 0 ==> r is Ok && r->Ok_0@ == padding_tail(plain@),
{
    let mut plain = plain;
    if plain.len() == 0 {
        return Err(CipherError::InvalidData);
    }
    let size: u8 = plain[plain.len() - 1];
    let tail = plain.split_off(plain.len() - size as usize);
    Ok(tail)
}


proof fn lemma_block_index(i: int, k: int)
    requires
        0 <= i,
        0 <= k < 16,
    ensures
        (16 * i + k) / 16 == i,
        (16 * i + k) % 16 == k,
{
    assert((16 * i + k) / 16 == i && (16 * i + k) % 16 == k) by (nonlinear_arith)
        requires
            0 <= i,
            0 <= k < 16,
    ;
}

/// The block that encrypting (or decrypting) `block` under `key` gives is
/// 16 bytes long, and the opposite operation turns it back into `block`.
pub open spec fn block_undone(key: Seq<u8>, block: Seq<u8>, decrypt: bool) -> bool {
    &&& crypt_block(key, block, decrypt).len() == 16
    &&& crypt_block(key, crypt_block(key, block, decrypt), !decrypt) == block
}

/// Every block of `s` comes back from the opposite operation.
pub open spec fn blocks_undone(key: Seq<u8>, s: Seq<u8>, decrypt: bool) -> bool {
    forall|b: int| 0 <= b < s.len() / 16 ==> #[trigger] block_undone(key, block_at(s, b), decrypt)
}

proof fn lemma_split_index(j: int, len: int)
    requires
        0 <= j < len,
        len % 16 == 0,
    ensures
        0 <= j / 16 < len / 16,
        0 <= j % 16 < 16,
        16 * (j / 16) + j % 16 == j,
        16 * (j / 16) + 16 <= len,
{
    assert(0 <= j / 16 < len / 16 && 0 <= j % 16 < 16 && 16 * (j / 16) + j % 16 == j
        && 16 * (j / 16) + 16 <= len) by (nonlinear_arith)
        requires
            0 <= j < len,
            len % 16 == 0,
    ;
}

proof fn lemma_ecb_block(key: Seq<u8>, s: Seq<u8>, decrypt: bool, b: int)
    requires
        s.len() % 16 == 0,
        0 <= b < s.len() / 16,
        crypt_block(key, block_at(s, b), decrypt).len() == 16,
    ensures
        block_at(ecb(key, s, decrypt), b) == crypt_block(key, block_at(s, b), decrypt),
{
    let e = ecb(key, s, decrypt);
    assert(16 * b + 16 <= s.len()) by (nonlinear_arith)
        requires
            0 <= b < s.len() / 16,
            s.len() % 16 == 0,
    ;
    assert forall|k: int| 0 <= k < 16 implies #[trigger] block_at(e, b)[k] == crypt_block(
        key,
        block_at(s, b),
        decrypt,
    )[k] by {
        lemma_block_index(b, k);
    }
    assert(block_at(e, b) =~= crypt_block(key, block_at(s, b), decrypt));
}

/// Where every block of `s` comes back from the opposite operation, running
/// the opposite operation over the whole of `ecb(key, s, decrypt)` gives `s`.
pub proof fn lemma_ecb_roundtrip(key: Seq<u8>, s: Seq<u8>, decrypt: bool)
    requires
        s.len() % 16 == 0,
        blocks_undone(key, s, decrypt),
    ensures
        ecb(key, ecb(key, s, decrypt), !decrypt) == s,
{
    let e = ecb(key, s, decrypt);
    let r = ecb(key, e, !decrypt);
    assert forall|j: int| 0 <= j < s.len() implies #[trigger] r[j] == s[j] by {
        lemma_split_index(j, s.len() as int);
        let b = j / 16;
        assert(block_undone(key, block_at(s, b), decrypt));
        lemma_ecb_block(key, s, decrypt, b);
    }
    assert(r =~= s);
}

proof fn lemma_concat_index(m: int, j: int)
    requires
        0 <= m,
        0 <= j,
    ensures
        (16 * m + j) / 16 == m + j / 16,
        (16 * m + j) % 16 == j % 16,
{
    assert((16 * m + j) / 16 == m + j / 16 && (16 * m + j) % 16 == j % 16) by (nonlinear_arith)
        requires
            0 <= m,
            0 <= j,
    ;
}

/// Blocks are handled one by one: over whole blocks `x` followed by whole
/// blocks `y`, the result is that of `x` followed by that of `y`.
pub proof fn lemma_ecb_concat(key: Seq<u8>, x: Seq<u8>, y: Seq<u8>, decrypt: bool)
    requires
        x.len() % 16 == 0,
        y.len() % 16 == 0,
    ensures
        ecb(key, x + y, decrypt) == ecb(key, x, decrypt) + ecb(key, y, decrypt),
{
    let xy = x + y;
    let m = x.len() / 16;
    assert(x.len() == 16 * m) by (nonlinear_arith)
        requires
            m == x.len() / 16,
            x.len() % 16 == 0,
    ;
    assert forall|j: int| 0 <= j < xy.len() implies #[trigger] ecb(key, xy, decrypt)[j] == (ecb(
        key,
        x,
        decrypt,
    ) + ecb(key, y, decrypt))[j] by {
        if j < x.len() {
            lemma_split_index(j, x.len() as int);
            assert(block_at(xy, j / 16) =~= block_at(x, j / 16));
        } else {
            let i = j - x.len();
            lemma_split_index(i, y.len() as int);
            lemma_concat_index(m as int, i);
            assert(block_at(xy, j / 16) =~= block_at(y, i / 16));
        }
    }
    assert(ecb(key, xy, decrypt) =~= ecb(key, x, decrypt) + ecb(key, y, decrypt));
}

/// Encryption goes block by block and only the end is padded: for data `a`
/// of whole blocks, encrypting `a ++ b` gives the encryption of `a` (without
/// its padding block) followed by the encryption of `b`.
pub proof fn lemma_encrypt_blockwise(key: Seq<u8>, a: Seq<u8>, b: Seq<u8>)
    requires
        a.len() % 16 == 0,
    ensures
        ecb_encrypt(key, pad(a + b)) == ecb_encrypt(key, pad(a)).subrange(0, a.len() as int)
            + ecb_encrypt(key, pad(b)),
{
    assert((a.len() + b.len()) % 16 == b.len() % 16) by (nonlinear_arith)
        requires
            a.len() % 16 == 0,
    ;
    assert(pad(a + b) =~= a + pad(b));
    assert(pad(b).len() % 16 == 0) by (nonlinear_arith)
        requires
            pad(b).len() == b.len() + (16 - b.len() % 16),
    ;
    lemma_ecb_concat(key, a, pad(b), false);
    lemma_ecb_concat(key, a, padding_bytes(a.len()), false);
    assert(padding_bytes(a.len()).len() == 16);
    assert(ecb_encrypt(key, pad(a)).subrange(0, a.len() as int) =~= ecb_encrypt(key, a));
}

/// Padding loses nothing: different data give different padded data.
pub proof fn lemma_pad_injective(d1: Seq<u8>, d2: Seq<u8>)
    requires
        pad(d1) == pad(d2),
    ensures
        d1 == d2,
{
    let p1 = pad(d1);
    let p2 = pad(d2);
    assert(p1.last() == padding_size(d1.len()));
    assert(p2.last() == padding_size(d2.len()));
    assert(d1.len() == d2.len());
    assert(d1 =~= p1.subrange(0, d1.len() as int));
    assert(d2 =~= p2.subrange(0, d2.len() as int));
}

/// Encryption is one to one: where every block of both padded inputs comes
/// back from decryption (as `RCipher::encript_data` ensures of each
/// input it encrypts), different data give different encrypted data.
pub proof fn lemma_encrypt_injective(key: Seq<u8>, d1: Seq<u8>, d2: Seq<u8>)
    requires
        blocks_undone(key, pad(d1), false),
        blocks_undone(key, pad(d2), false),
        d1 != d2,
    ensures
        ecb_encrypt(key, pad(d1)) != ecb_encrypt(key, pad(d2)),
{
    assert(pad(d1).len() % 16 == 0) by (nonlinear_arith)
        requires
            pad(d1).len() == d1.len() + (16 - d1.len() % 16),
    ;
    assert(pad(d2).len() % 16 == 0) by (nonlinear_arith)
        requires
            pad(d2).len() == d2.len() + (16 - d2.len() % 16),
    ;
    lemma_ecb_roundtrip(key, pad(d1), false);
    lemma_ecb_roundtrip(key, pad(d2), false);
    if ecb_encrypt(key, pad(d1)) == ecb_encrypt(key, pad(d2)) {
        lemma_pad_injective(d1, d2);
    }
}

/// The derived AES key is the first 16 bytes of SHA-256 over every byte of
/// the exchanged key followed by every byte of the constant key.
pub proof fn lemma_derived_key_hashes_all(key: Seq<u8>, const_key: Seq<u8>)
    ensures
        derived_key(key, const_key) == sha256(key + const_key).subrange(0, 16),
        forall|c2: Seq<u8>|
            c2 != const_key ==> (key + c2) != (key + const_key),
{
    assert forall|c2: Seq<u8>| c2 != const_key implies (key + c2) != (key + const_key) by {
        if key + c2 == key + const_key {
            assert(c2 =~= (key + c2).subrange(key.len() as int, (key + c2).len() as int));
            assert(const_key =~= (key + const_key).subrange(
                key.len() as int,
                (key + const_key).len() as int,
            ));
        }
    }
}

/// Padded data is the data followed by 1 to 16 bytes, every one of which
/// holds the number of bytes added.
pub proof fn lemma_pad_layout(data: Seq<u8>)
    ensures
        1 <= 16 - data.len() % 16 <= 16,
        pad(data).len() == data.len() + 16 - data.len() % 16,
        pad(data).len() % 16 == 0,
        forall|i: int| 0 <= i < data.len() ==> pad(data)[i] == data[i],
        forall|i: int| data.len() <= i < pad(data).len() ==> pad(data)[i] == 16 - data.len() % 16,
{
    assert((data.len() + 16 - data.len() % 16) % 16 == 0) by (nonlinear_arith);
}

/// Decrypted data fits when its last byte counts no more bytes than there are.
pub proof fn lemma_padding_fits_meaning(plain: Seq<u8>)
    ensures
        padding_fits(plain) <==> (plain.len() > 0 ==> plain.last() <= plain.len()),
        plain.len() > 0 && plain.last() <= plain.len() ==> padding_tail(plain) == plain.subrange(
            plain.len() - plain.last(),
            plain.len() as int,
        ),
        plain.len() > 0 && plain.last() <= plain.len() ==> padding_tail(plain).len()
            == plain.last(),
{
}

/// Decrypting refuses a length that is not a whole number of blocks, refuses
/// empty data, and otherwise keeps as many bytes from the end of the
/// decrypted data as its last byte counts.
pub proof fn lemma_decryption_cases(key: Seq<u8>, data: Seq<u8>)
    ensures
        data.len() % 16 != 0 ==> decryption(key, data) == Err::<Seq<u8>, CipherError>(
            CipherError::InvalidInput,
        ),
        data.len() == 0 ==> decryption(key, data) == Err::<Seq<u8>, CipherError>(
            CipherError::InvalidData,
        ),
        data.len() % 16 == 0 && data.len() > 0 ==> decryption(key, data) == Ok::<
            Seq<u8>,
            CipherError,
        >(
            ecb_decrypt(key, data).subrange(
                data.len() - ecb_decrypt(key, data).last(),
                data.len() as int,
            ),
        ),
{
}

/// The session cipher of one connection.
pub struct RCipher {
    key: [u8; 16],
}

impl View for RCipher {
    type V = Seq<u8>;

    /// The AES-128 key in use.
    closed spec fn view(&self) -> Seq<u8> {
        self.key@
    }
}

impl RCipher {
    /// Derives the session cipher from the exchanged `key` and the shared
    /// `const_key`: the AES key is the first half of SHA-256(key ++ const_key).
    pub fn new(key: &[u8; 16], const_key: &str) -> (r: Result<RCipher, CipherError>)
        requires
            16 + const_key.spec_bytes().len() <= usize::MAX,
        ensures
            r is Ok,
            r->Ok_0@ == derived_key(key@, const_key.spec_bytes()),
            r->Ok_0@ == sha256(key@ + const_key.spec_bytes()).subrange(0, 16),
    {
        let mut input: Vec<u8> = Vec::new();
        crate::frame::append_bytes(&mut input, key);
        crate::frame::append_bytes(&mut input, const_key.as_bytes());
        let digest = sha256_digest(input.as_slice());
        let mut aes_key: [u8; 16] = [0u8; 16];
        let mut i: usize = 0;
        while i < 16
            invariant
                i <= 16,
                digest@.len() == 32,
                aes_key@.len() == 16,
                forall|j: int| 0 <= j < i ==> aes_key@[j] == digest@[j],
            decreases 16 - i,
        {
            aes_key[i] = digest[i];
            i = i + 1;
        }
        assert(aes_key@ =~= digest@.subrange(0, 16));
        Ok(RCipher { key: aes_key })
    }

    /// A fresh random key of 16 upper-case ASCII letters.
    pub fn gen_key() -> (key: [u8; 16])
        ensures
            forall|i: int| 0 <= i < 16 ==> is_key_letter(#[trigger] key@[i]),
    {
        let mut key: [u8; 16] = [0u8; 16];
        let mut r = thread_rng();
        let mut i: usize = 0;
        while i < 16
            invariant
                i <= 16,
                key@.len() == 16,
                forall|j: int| 0 <= j < i ==> is_key_letter(#[trigger] key@[j]),
            decreases 16 - i,
        {
            key[i] = random_byte_in(&mut r, 0x41, 0x5a);
            i = i + 1;
        }
        key
    }

    /// Encrypts, or decrypts, each 16-byte block of `s`.
    fn crypt_blocks(&self, s: &[u8], decrypt: bool) -> (out: Vec<u8>)
        requires
            s@.len() % 16 == 0,
        ensures
            out@ == ecb(self@, s@, decrypt),
            blocks_undone(self@, s@, decrypt),
    {
        let mut out: Vec<u8> = Vec::new();
        let len: usize = s.len();
        let n: usize = len / 16;
        assert(16 * n == len) by (nonlinear_arith)
            requires
                n == len / 16,
                len % 16 == 0,
        ;
        let mut i: usize = 0;
        while i < n
            invariant
                16 * n == len,
                len == s@.len(),
                n == s@.len() / 16,
                s@.len() % 16 == 0,
                i <= n,
                out@.len() == 16 * i,
                forall|j: int| 0 <= j < 16 * i ==> out@[j] == #[trigger] ecb(self@, s@, decrypt)[j],
                forall|b: int| 0 <= b < i ==> #[trigger] block_undone(self@, block_at(s@, b), decrypt),
            decreases n - i,
        {
            let from: usize = i * 16;
            let mut block: [u8; 16] = [0u8; 16];
            let mut k: usize = 0;
            while k < 16
                invariant
                    from == 16 * i,
                    i < n,
                    16 * n == s@.len(),
                    k <= 16,
                    block@.len() == 16,
                    forall|m: int| 0 <= m < k ==> block@[m] == s@[from + m],
                decreases 16 - k,
            {
                block[k] = s[from + k];
                k = k + 1;
            }
            assert(block@ =~= block_at(s@, i as int));
            let done = if decrypt {
                aes128_decrypt_block(&self.key, &block)
            } else {
                aes128_encrypt_block(&self.key, &block)
            };
            assert(block_undone(self@, block_at(s@, i as int), decrypt));
            let mut k: usize = 0;
            while k < 16
                invariant
                    from == 16 * i,
                    i < n,
                    16 * n == s@.len(),
                    k <= 16,
                    done@.len() == 16,
                    decrypt ==> done@ == aes128_decrypt(self@, block_at(s@, i as int)),
                    !decrypt ==> done@ == aes128_encrypt(self@, block_at(s@, i as int)),
                    out@.len() == from + k,
                    forall|j: int| 0 <= j < from + k ==> out@[j] == #[trigger] ecb(self@, s@, decrypt)[j],
                decreases 16 - k,
            {
                proof {
                    lemma_block_index(i as int, k as int);
                }
                out.push(done[k]);
                k = k + 1;
            }
            i = i + 1;
        }
        out
    }

    /// Pads `data` (1 to 16 bytes, each holding the padding size) and
    /// encrypts it block by block.
    pub fn encript_data(&self, data: &[u8]) -> (out: Vec<u8>)
        requires
            data@.len() + 16 <= usize::MAX,
        ensures
            out@ == ecb_encrypt(self@, pad(data@)),
            blocks_undone(self@, pad(data@), false),
            out@.len() == data@.len() + 16 - data@.len() % 16,
            forall|i: int| 0 <= i < data@.len() ==> ecb_decrypt(self@, out@)[i] == data@[i],
            forall|i: int|
                data@.len() <= i < out@.len() ==> ecb_decrypt(self@, out@)[i] == 16 - data@.len()
                    % 16,
            out@.len() == data@.len() + padding_size(data@.len()),
            out@.len() % 16 == 0,
            ecb_decrypt(self@, out@) == pad(data@),
            ecb_decrypt(self@, out@).subrange(0, data@.len() as int) == data@,
            padding_fits(ecb_decrypt(self@, out@)),
            decryption(self@, out@) == Ok::<Seq<u8>, CipherError>(padding_bytes(data@.len())),
    {
        let mut padded: Vec<u8> = Vec::new();
        crate::frame::append_bytes(&mut padded, data);
        let size: usize = 16 - data.len() % 16;
        let mut i: usize = 0;
        while i < size
            invariant
                size == padding_size(data@.len()),
                i <= size,
                padded@ == data@ + Seq::new(i as nat, |m: int| size as u8),
            decreases size - i,
        {
            padded.push(size as u8);
            i = i + 1;
            assert(padded@ =~= data@ + Seq::new(i as nat, |m: int| size as u8));
        }
        assert(padded@ =~= pad(data@));
        let out = self.crypt_blocks(padded.as_slice(), false);
        proof {
            lemma_ecb_roundtrip(self@, pad(data@), false);
            let p = pad(data@);
            assert(p.subrange(0, data@.len() as int) =~= data@);
            assert(p.last() == padding_size(data@.len()));
            assert(padding_tail(p) =~= padding_bytes(data@.len()));
        }
        out
    }

    /// Decrypts `data` block by block and keeps what its last decrypted byte
    /// counts from the end. Data that is not a whole number of blocks is
    /// refused with `InvalidInput`; empty data with `InvalidData`.
    pub fn decript_data(&self, data: &[u8]) -> (r: Result<Vec<u8>, CipherError>)
        requires
            data@.len() % 16 == 0 && data@.len() > 0 ==> ecb_decrypt(self@, data@).last()
                <= data@.len(),
        ensures
            bytes_result(r) == decryption(self@, data@),
            data@.len() % 16 != 0 ==> r == Err::<Vec<u8>, CipherError>(CipherError::InvalidInput),
            data@.len() == 0 ==> r == Err::<Vec<u8>, CipherError>(CipherError::InvalidData),
            data@.len() % 16 == 0 && data@.len() > 0 ==> {
                let plain = ecb_decrypt(self@, data@);
                &&& r is Ok
                &&& r->Ok_0@ == plain.subrange(data@.len() - plain.last(), data@.len() as int)
            },
    {
        if data.len() % 16 != 0 {
            return Err(CipherError::InvalidInput);
        }
        let plain = self.crypt_blocks(data, true);
        split_padding(plain)
    }

    /// Decrypts like `decript_data` where the last decrypted byte fits the
    /// data; gives `None` where it counts more bytes than there are.
    pub fn checked_decript_data(&self, data: &[u8]) -> (r: Option<Result<Vec<u8>, CipherError>>)
        ensures
            r is None <==> (data@.len() % 16 == 0 && !padding_fits(ecb_decrypt(self@, data@))),
            r is None <==> (data@.len() % 16 == 0 && data@.len() > 0 && ecb_decrypt(
                self@,
                data@,
            ).last() > data@.len()),
            r matches Some(x) ==> bytes_result(x) == decryption(self@, data@),
    {
        let len = data.len();
        if len % 16 == 0 && len > 0 {
            let mut block: [u8; 16] = [0u8; 16];
            let from: usize = len - 16;
            let mut k: usize = 0;
            while k < 16
                invariant
                    from + 16 == len,
                    len == data@.len(),
                    k <= 16,
                    block@.len() == 16,
                    forall|m: int| 0 <= m < k ==> block@[m] == data@[from + m],
                decreases 16 - k,
            {
                block[k] = data[from + k];
                k = k + 1;
            }
            let last = aes128_decrypt_block(&self.key, &block);
            proof {
                let q = (len / 16 - 1) as int;
                lemma_block_index(q, 15);
                assert(block@ =~= block_at(data@, q));
                assert(ecb_decrypt(self@, data@).last() == last@[15]);
            }
            if last[15] as usize > len {
                return None;
            }
        }
        Some(self.decript_data(data))
    }
}

} // verus!
