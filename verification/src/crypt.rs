use vstd::prelude::*;

use aes::cipher::BlockCipherDecrypt;
use aes::cipher::KeyInit;
use base64::Engine;

verus! {

#[verifier::external_type_specification]
#[verifier::external_body]
pub struct ExAes256Dec(aes::Aes256Dec);

/// What AES-256 decryption of one 16-byte block under the given 32-byte
/// key yields: a function of key and block alone.
pub uninterp spec fn aes_dec16(key: Seq<u8>, block: Seq<u8>) -> Seq<u8>;

/// A retained decryption key: the raw 256-bit key bytes next to the block
/// cipher built from exactly those bytes.
pub struct PakKey {
    bytes: Vec<u8>,
    cipher: aes::Aes256Dec,
}

/// Relies on `base64::engine::general_purpose::STANDARD.decode`
/// (`base64::engine::Engine::decode`): the decoded bytes are a function of
/// the input alone, `None` exactly where it is not valid base64.
#[verifier::external_body]
pub fn base64_decode(b: &[u8]) -> (r: Option<Vec<u8>>)
    ensures
        match b64_bytes(b@) {
            Some(s) => r matches Some(v) && v@ == s,
            None => r is None,
        },
{
    base64::engine::general_purpose::STANDARD.decode(b).ok()
}

/// What base64 decoding yields: `None` where the input is rejected.
pub uninterp spec fn b64_bytes(b: Seq<u8>) -> Option<Seq<u8>>;

/// Relies on `aes::Aes256Dec` via `aes::cipher::KeyInit::new_from_slice`,
/// which fails exactly when the slice is not 32 bytes long.
#[verifier::external_body]
fn aes_new(key: &[u8]) -> (r: Option<aes::Aes256Dec>)
    ensures
        r is Some <==> key@.len() == 32,
{
    aes::Aes256Dec::new_from_slice(key).ok()
}

/// Relies on `aes::cipher::BlockCipherDecrypt::decrypt_block` for
/// `aes::Aes256Dec`: decrypts one 16-byte block, a pure function of the
/// key the cipher was built from and the block. The contract speaks of
/// `key.bytes` while the body uses `key.cipher`; that is sound because the
/// fields are private and `PakKey::new`, the sole constructor, builds the
/// cipher from exactly those bytes.
#[verifier::external_body]
fn aes_decrypt_block(key: &PakKey, block: &[u8]) -> (r: Vec<u8>)
    requires
        block@.len() == 16,
    ensures
        r@ == aes_dec16(key.bytes@, block@),
        r@.len() == 16,
{
    let mut b: aes::Block = aes::Block::try_from(block).unwrap();
    key.cipher.decrypt_block(&mut b);
    b.as_slice().to_vec()
}

impl PakKey {
    /// The raw key bytes the cipher was built from.
    pub closed spec fn key_bytes(&self) -> Seq<u8> {
        self.bytes@
    }

    pub closed spec fn wf(&self) -> bool {
        self.bytes@.len() == 32
    }

    /// Builds a key from its raw bytes; `None` unless they are exactly a
    /// 256-bit key.
    pub fn new(bytes: Vec<u8>) -> (r: Option<PakKey>)
        ensures
            r is Some <==> bytes@.len() == 32,
            r matches Some(k) ==> k.key_bytes() == bytes@ && k.wf(),
    {
        match aes_new(bytes.as_slice()) {
            Some(cipher) => Some(PakKey { bytes, cipher }),
            None => None,
        }
    }
}

/// `aes_dec16`, forced to its documented 16-byte block width so that
/// buffer decryption provably preserves length.
pub open spec fn dec16n(key: Seq<u8>, b: Seq<u8>) -> Seq<u8> {
    let r = aes_dec16(key, b);
    if r.len() == 16 {
        r
    } else {
        Seq::new(16, |i: int| 0u8)
    }
}

/// Independent block decryption of a buffer: every full 16-byte block is
/// replaced by its decryption; a trailing partial block stays as it is.
pub open spec fn dec_seq(key: Seq<u8>, d: Seq<u8>) -> Seq<u8>
    decreases d.len(),
{
    if d.len() < 16 {
        d
    } else {
        dec16n(key, d.take(16)) + dec_seq(key, d.skip(16))
    }
}

/// Buffer decryption preserves length.
pub proof fn lemma_dec_seq_len(key: Seq<u8>, d: Seq<u8>)
    ensures
        dec_seq(key, d).len() == d.len(),
    decreases d.len(),
{
    if d.len() >= 16 {
        lemma_dec_seq_len(key, d.skip(16));
    }
}

/// Block decryption works on each aligned block independently, so it
/// splits over an aligned concatenation.
proof fn lemma_dec_seq_append(key: Seq<u8>, a: Seq<u8>, b: Seq<u8>)
    requires
        a.len() % 16 == 0,
    ensures
        dec_seq(key, a + b) == dec_seq(key, a) + dec_seq(key, b),
    decreases a.len(),
{
    if a.len() == 0 {
        assert(a + b =~= b);
        assert(dec_seq(key, a) =~= Seq::<u8>::empty());
        assert(dec_seq(key, a) + dec_seq(key, b) =~= dec_seq(key, b));
    } else {
        assert(a.len() >= 16);
        let ab = a + b;
        assert(ab.len() >= 16);
        assert(ab.take(16) =~= a.take(16));
        assert(ab.skip(16) =~= a.skip(16) + b);
        lemma_dec_seq_append(key, a.skip(16), b);
        assert(dec_seq(key, a + b) == dec16n(key, a.take(16)) + (dec_seq(key, a.skip(16))
            + dec_seq(key, b)));
        assert(dec16n(key, a.take(16)) + (dec_seq(key, a.skip(16)) + dec_seq(key, b)) =~= (dec16n(
            key,
            a.take(16),
        ) + dec_seq(key, a.skip(16))) + dec_seq(key, b));
    }
}

/// Decrypts a buffer in place, block by block, with no chaining between
/// blocks.
pub fn decrypt_in_place(key: &PakKey, data: &mut Vec<u8>)
    ensures
        final(data)@ == dec_seq(key.key_bytes(), old(data)@),
{
    let n = data.len();
    let mut i: usize = 0;
    while n - i >= 16
        invariant
            n == data@.len(),
            old(data)@.len() == n,
            i % 16 == 0,
            i <= n,
            data@ == dec_seq(key.key_bytes(), old(data)@.take(i as int)) + old(data)@.skip(
                i as int,
            ),
            dec_seq(key.key_bytes(), old(data)@.take(i as int)).len() == i,
        decreases n - i,
    {
        let mut block: Vec<u8> = Vec::new();
        let mut j: usize = 0;
        while j < 16
            invariant
                i + 16 <= n,
                n == data@.len(),
                j <= 16,
                block@ =~= data@.subrange(i as int, i + j),
            decreases 16 - j,
        {
            block.push(data[i + j]);
            proof {
                assert(block@ =~= data@.subrange(i as int, i + j + 1));
            }
            j = j + 1;
        }
        let dec = aes_decrypt_block(key, block.as_slice());
        let ghost before = data@;
        let mut j2: usize = 0;
        while j2 < 16
            invariant
                i + 16 <= n,
                n == data@.len(),
                j2 <= 16,
                before.len() == n,
                dec@.len() == 16,
                data@ =~= before.take(i as int) + dec@.subrange(0, j2 as int) + before.skip(
                    i + j2,
                ),
            decreases 16 - j2,
        {
            let v = dec[j2];
            data[i + j2] = v;
            proof {
                assert(data@ =~= before.take(i as int) + dec@.subrange(0, j2 + 1) + before.skip(
                    i + j2 + 1,
                ));
            }
            j2 = j2 + 1;
        }
        proof {
            let kb = key.key_bytes();
            let odv = old(data)@;
            assert(block@ =~= odv.skip(i as int).take(16));
            assert(odv.take(i + 16) =~= odv.take(i as int) + odv.skip(i as int).take(16));
            lemma_dec_seq_append(kb, odv.take(i as int), odv.skip(i as int).take(16));
            assert(odv.skip(i as int).take(16).len() == 16);
            assert(dec_seq(kb, odv.skip(i as int).take(16)) == dec16n(
                kb,
                odv.skip(i as int).take(16).take(16),
            ) + dec_seq(kb, odv.skip(i as int).take(16).skip(16)));
            assert(odv.skip(i as int).take(16).take(16) =~= odv.skip(i as int).take(16));
            assert(odv.skip(i as int).take(16).skip(16) =~= Seq::<u8>::empty());
            assert(dec_seq(kb, odv.skip(i as int).take(16)) =~= dec16n(
                kb,
                odv.skip(i as int).take(16),
            ));
            assert(dec@ == dec16n(kb, odv.skip(i as int).take(16)));
            assert(dec_seq(kb, odv.take(i + 16)) == dec_seq(kb, odv.take(i as int)) + dec@);
            assert(before == dec_seq(kb, odv.take(i as int)) + odv.skip(i as int));
            assert(before.take(i as int) =~= dec_seq(kb, odv.take(i as int)));
            assert(before.skip(i + 16) =~= odv.skip(i + 16));
            assert(dec@.subrange(0, 16) =~= dec@);
            assert(data@ =~= dec_seq(kb, odv.take(i + 16)) + odv.skip(i + 16));
        }
        i = i + 16;
    }
    proof {
        let kb = key.key_bytes();
        let odv = old(data)@;
        assert(odv.skip(i as int).len() < 16);
        assert(dec_seq(kb, odv.skip(i as int)) =~= odv.skip(i as int));
        assert(odv =~= odv.take(i as int) + odv.skip(i as int));
        lemma_dec_seq_append(kb, odv.take(i as int), odv.skip(i as int));
        assert(data@ =~= dec_seq(kb, odv));
    }
}

} // verus!
