//! MEGA crypto helpers.
//!
//! MEGA encodes keys and handles with URL-safe base64 *without* padding. Node
//! keys are wrapped with AES-128-ECB under the folder master key, and node
//! attributes are AES-128-CBC encrypted (zero IV, no padding).

use aes::cipher::block_padding::NoPadding;
use aes::cipher::generic_array::GenericArray;
use aes::cipher::{BlockDecrypt, BlockDecryptMut, KeyInit, KeyIvInit};
use aes::Aes128;
use base64::Engine;
use vstd::prelude::*;
use vstd::utf8::{decode_utf8, valid_utf8};

use crate::error::Error;
use crate::text::{
    all_white_space, chars_of, concat_chars, lemma_trim_ws_surrounded, string_of, trim_ws,
    trim_ws_exec,
};

verus! {

type Aes128CbcDec = cbc::Decryptor<Aes128>;

/// The characters of the URL-safe base64 alphabet: `A`-`Z`, `a`-`z`, `0`-`9`, `-` and `_`.
pub open spec fn is_b64url_char(c: char) -> bool {
    ||| 'A' <= c <= 'Z'
    ||| 'a' <= c <= 'z'
    ||| '0' <= c <= '9'
    ||| c == '-'
    ||| c == '_'
}

/// The symbol of the URL-safe base64 alphabet for the six-bit value `v`:
/// `A`-`Z` for 0-25, `a`-`z` for 26-51, `0`-`9` for 52-61, `-` and `_`.
pub open spec fn b64url_symbol(v: int) -> char {
    if v < 26 {
        (65 + v) as char
    } else if v < 52 {
        (71 + v) as char
    } else if v < 62 {
        (v - 4) as char
    } else if v == 62 {
        '-'
    } else {
        '_'
    }
}

/// The six-bit value of a URL-safe base64 symbol (`-1` for any other character).
pub open spec fn b64url_value(c: char) -> int {
    let x = c as int;
    if 65 <= x <= 90 {
        x - 65
    } else if 97 <= x <= 122 {
        x - 71
    } else if 48 <= x <= 57 {
        x + 4
    } else if c == '-' {
        62
    } else if c == '_' {
        63
    } else {
        -1
    }
}

/// URL-safe base64 without padding (RFC 4648, section 5): every three bytes
/// become four symbols of six bits each, most significant bits first; a last
/// one or two bytes become two or three symbols, whose spare low bits are zero.
pub open spec fn b64url_encoding(bytes: Seq<u8>) -> Seq<char>
    decreases bytes.len(),
{
    if bytes.len() == 0 {
        Seq::empty()
    } else if bytes.len() == 1 {
        let b0 = bytes[0] as int;
        seq![b64url_symbol(b0 / 4), b64url_symbol((b0 % 4) * 16)]
    } else if bytes.len() == 2 {
        let b0 = bytes[0] as int;
        let b1 = bytes[1] as int;
        seq![
            b64url_symbol(b0 / 4),
            b64url_symbol((b0 % 4) * 16 + b1 / 16),
            b64url_symbol((b1 % 16) * 4),
        ]
    } else {
        let b0 = bytes[0] as int;
        let b1 = bytes[1] as int;
        let b2 = bytes[2] as int;
        seq![
            b64url_symbol(b0 / 4),
            b64url_symbol((b0 % 4) * 16 + b1 / 16),
            b64url_symbol((b1 % 16) * 4 + b2 / 64),
            b64url_symbol(b2 % 64),
        ] + b64url_encoding(bytes.skip(3))
    }
}

/// The bytes whose URL-safe unpadded base64 text is `text`, or `None` where
/// `text` is no such text (the encoding is one-to-one, see
/// [`lemma_b64url_encoding_injective`]).
pub open spec fn b64url_decoding(text: Seq<char>) -> Option<Seq<u8>> {
    if exists|b: Seq<u8>| #[trigger] b64url_encoding(b) == text {
        Some(choose|b: Seq<u8>| #[trigger] b64url_encoding(b) == text)
    } else {
        None
    }
}

proof fn lemma_b64url_symbol(v: int)
    requires
        0 <= v < 64,
    ensures
        b64url_value(b64url_symbol(v)) == v,
        is_b64url_char(b64url_symbol(v)),
{
    if v < 26 {
        assert(((65 + v) as char) as int == 65 + v);
    } else if v < 52 {
        assert(((71 + v) as char) as int == 71 + v);
    } else if v < 62 {
        assert(((v - 4) as char) as int == v - 4);
    }
}

proof fn lemma_b64url_encoding_len(b: Seq<u8>)
    ensures
        b64url_encoding(b).len() == 4 * (b.len() / 3) + if b.len() % 3 == 0 {
            0int
        } else if b.len() % 3 == 1 {
            2int
        } else {
            3int
        },
        forall|i: int|
            0 <= i < b64url_encoding(b).len() ==> is_b64url_char(#[trigger] b64url_encoding(b)[i]),
    decreases b.len(),
{
    if b.len() >= 3 {
        lemma_b64url_encoding_len(b.skip(3));
    }
    let b0 = b[0] as int;
    let b1 = b[1] as int;
    let b2 = b[2] as int;
    lemma_b64url_symbol(b0 / 4);
    lemma_b64url_symbol((b0 % 4) * 16);
    lemma_b64url_symbol((b0 % 4) * 16 + b1 / 16);
    lemma_b64url_symbol((b1 % 16) * 4);
    lemma_b64url_symbol((b1 % 16) * 4 + b2 / 64);
    lemma_b64url_symbol(b2 % 64);
}

/// Different bytes have different URL-safe base64 texts.
pub proof fn lemma_b64url_encoding_injective(a: Seq<u8>, b: Seq<u8>)
    requires
        b64url_encoding(a) == b64url_encoding(b),
    ensures
        a == b,
    decreases a.len(),
{
    lemma_b64url_encoding_len(a);
    lemma_b64url_encoding_len(b);
    let e = b64url_encoding(a);
    assert(a.len() == b.len());
    if a.len() > 0 {
        let (a0, a1, b0, b1) = (a[0] as int, a[1] as int, b[0] as int, b[1] as int);
        let (a2, b2) = (a[2] as int, b[2] as int);
        lemma_b64url_symbol(a0 / 4);
        lemma_b64url_symbol(b0 / 4);
        assert(e[0] == b64url_symbol(a0 / 4));
        assert(e[0] == b64url_symbol(b0 / 4));
        assert(a0 / 4 == b0 / 4);
        if a.len() == 1 {
            lemma_b64url_symbol((a0 % 4) * 16);
            lemma_b64url_symbol((b0 % 4) * 16);
            assert(a0 % 4 == b0 % 4);
            assert(a =~= b);
        } else {
            lemma_b64url_symbol((a0 % 4) * 16 + a1 / 16);
            lemma_b64url_symbol((b0 % 4) * 16 + b1 / 16);
            assert(e[1] == b64url_symbol((a0 % 4) * 16 + a1 / 16));
            assert(e[1] == b64url_symbol((b0 % 4) * 16 + b1 / 16));
            assert(a0 % 4 == b0 % 4 && a1 / 16 == b1 / 16);
            assert(a0 == b0);
            if a.len() == 2 {
                lemma_b64url_symbol((a1 % 16) * 4);
                lemma_b64url_symbol((b1 % 16) * 4);
                assert(a1 == b1);
                assert(a =~= b);
            } else {
                lemma_b64url_symbol((a1 % 16) * 4 + a2 / 64);
                lemma_b64url_symbol((b1 % 16) * 4 + b2 / 64);
                lemma_b64url_symbol(a2 % 64);
                lemma_b64url_symbol(b2 % 64);
                assert(e[2] == b64url_symbol((a1 % 16) * 4 + a2 / 64));
                assert(e[2] == b64url_symbol((b1 % 16) * 4 + b2 / 64));
                assert(e[3] == b64url_symbol(a2 % 64));
                assert(e[3] == b64url_symbol(b2 % 64));
                assert(a1 == b1);
                assert(a2 == b2);
                assert(b64url_encoding(a.skip(3)) =~= e.skip(4));
                assert(b64url_encoding(b.skip(3)) =~= e.skip(4));
                lemma_b64url_encoding_injective(a.skip(3), b.skip(3));
                assert(a =~= seq![a[0], a[1], a[2]] + a.skip(3));
                assert(b =~= seq![b[0], b[1], b[2]] + b.skip(3));
            }
        }
    }
}

/// Decoding the URL-safe base64 text of some bytes gives those bytes back.
pub proof fn lemma_b64url_decoding_of_encoding(bytes: Seq<u8>)
    ensures
        b64url_decoding(b64url_encoding(bytes)) == Some(bytes),
{
    let text = b64url_encoding(bytes);
    assert(exists|b: Seq<u8>| #[trigger] b64url_encoding(b) == text);
    let c = choose|b: Seq<u8>| #[trigger] b64url_encoding(b) == text;
    lemma_b64url_encoding_injective(c, bytes);
}

/// Encode bytes as MEGA's URL-safe, unpadded base64.
///
/// Trusted: calls `base64::engine::general_purpose::URL_SAFE_NO_PAD.encode`.
/// Claims that the text is the URL-safe base64 encoding of `bytes` without
/// padding, as RFC 4648 defines it.
#[verifier::external_body]
pub fn b64encode(bytes: &[u8]) -> (r: String)
    requires
        bytes@.len() <= isize::MAX,
    ensures
        r@ == b64url_encoding(bytes@),
{
    base64::engine::general_purpose::URL_SAFE_NO_PAD.encode(bytes)
}

/// The message that base64's `DecodeError` displays when the `URL_SAFE_NO_PAD`
/// engine refuses `text` (it names the offending symbol, offset or length).
pub uninterp spec fn b64url_error(text: Seq<char>) -> Seq<char>;

/// Trusted: calls `base64::engine::general_purpose::URL_SAFE_NO_PAD.decode`.
/// Claims that it succeeds exactly on the texts that are the URL-safe,
/// unpadded base64 encoding of some bytes (it refuses `=`, a stray symbol,
/// a length of 1 modulo 4 and a last symbol with spare bits set), returning
/// those bytes, and that the error's text is the displayed `DecodeError`,
/// which depends on `text` alone.
#[verifier::external_body]
fn b64url_decode(text: &str) -> (r: Result<Vec<u8>, String>)
    ensures
        r matches Ok(v) ==> b64url_encoding(v@) == text@,
        r matches Err(m) ==> (forall|b: Seq<u8>| #[trigger] b64url_encoding(b) != text@) && m@
            == b64url_error(text@),
{
    match base64::engine::general_purpose::URL_SAFE_NO_PAD.decode(text) {
        Ok(v) => Ok(v),
        Err(e) => Err(e.to_string()),
    }
}

/// Decode MEGA's URL-safe, unpadded base64 (surrounding white space ignored).
pub fn b64decode(s: &str) -> (r: Result<Vec<u8>, Error>)
    ensures
        match b64url_decoding(trim_ws(s@)) {
            Some(v) => r matches Ok(w) && w@ == v,
            None => r matches Err(Error::Other(m)) && m@ == "base64 decode: "@ + b64url_error(
                trim_ws(s@),
            ),
        },
{
    let trimmed = string_of(trim_ws_exec(&chars_of(s)).as_slice());
    match b64url_decode(trimmed.as_str()) {
        Ok(v) => {
            proof {
                lemma_b64url_decoding_of_encoding(v@);
            }
            Ok(v)
        },
        Err(m) => {
            let prefix = chars_of("base64 decode: ");
            let msg = concat_chars(&prefix, &chars_of(m.as_str()));
            Err(Error::Other(string_of(msg.as_slice())))
        },
    }
}

proof fn lemma_b64url_char_not_space(c: char)
    requires
        is_b64url_char(c),
    ensures
        !crate::text::is_white_space(c),
{
}

/// MEGA base64 round-trips: for any bytes, their text (what [`b64encode`]
/// returns) is decoded by [`b64decode`] back to those same bytes.
pub proof fn lemma_b64_roundtrip(bytes: Seq<u8>, text: Seq<char>)
    requires
        text == b64url_encoding(bytes),
    ensures
        b64url_decoding(trim_ws(text)) == Some(bytes),
{
    lemma_b64url_encoding_len(bytes);
    lemma_b64url_decoding_of_encoding(bytes);
    if text.len() > 0 {
        lemma_b64url_char_not_space(text[0]);
        lemma_b64url_char_not_space(text.last());
    }
    assert(crate::text::trim_start_ws(text) == text);
    assert(crate::text::trim_end_ws(text) == text);
}

/// White space around a text changes nothing that [`b64decode`] returns: the
/// decoded bytes and the error text are those of the bare text.
pub proof fn lemma_b64decode_ignores_surrounding_space(
    before: Seq<char>,
    s: Seq<char>,
    after: Seq<char>,
)
    requires
        all_white_space(before),
        all_white_space(after),
    ensures
        b64url_decoding(trim_ws(before + s + after)) == b64url_decoding(trim_ws(s)),
        b64url_error(trim_ws(before + s + after)) == b64url_error(trim_ws(s)),
{
    lemma_trim_ws_surrounded(before, s, after);
}

/// The AES-128 decryption of one 16-byte block under a 16-byte key, as the
/// `aes` crate computes it.
pub uninterp spec fn aes128_decrypt_block(key: Seq<u8>, block: Seq<u8>) -> Seq<u8>;

/// Trusted: calls `aes::Aes128::new` and `BlockDecrypt::decrypt_block`.
/// Claims only that the result is the AES-128 decryption of `block` under `key`.
#[verifier::external_body]
fn aes128_decrypt(key: &[u8; 16], block: &[u8; 16]) -> (r: [u8; 16])
    ensures
        r@ == aes128_decrypt_block(key@, block@),
{
    let mut b = GenericArray::clone_from_slice(block);
    Aes128::new(GenericArray::from_slice(key)).decrypt_block(&mut b);
    b.into()
}

/// AES-128-ECB decryption: each 16-byte block decrypted on its own.
pub open spec fn ecb_decrypt(key: Seq<u8>, data: Seq<u8>) -> Seq<u8>
    decreases data.len(),
{
    if data.len() < 16 {
        Seq::empty()
    } else {
        aes128_decrypt_block(key, data.take(16)) + ecb_decrypt(key, data.skip(16))
    }
}

/// ECB decryption treats blocks on their own: decrypting two whole-block
/// inputs one after the other gives the two decryptions one after the other.
pub proof fn lemma_ecb_blocks_independent(key: Seq<u8>, a: Seq<u8>, b: Seq<u8>)
    requires
        a.len() % 16 == 0,
    ensures
        ecb_decrypt(key, a + b) == ecb_decrypt(key, a) + ecb_decrypt(key, b),
    decreases a.len(),
{
    if a.len() == 0 {
        assert(a + b =~= b);
        assert(ecb_decrypt(key, a) + ecb_decrypt(key, b) =~= ecb_decrypt(key, b));
    } else {
        let rest = a.skip(16);
        assert((a + b).take(16) =~= a.take(16));
        assert((a + b).skip(16) =~= rest + b);
        lemma_ecb_blocks_independent(key, rest, b);
        assert(aes128_decrypt_block(key, a.take(16)) + ecb_decrypt(key, rest) + ecb_decrypt(key, b)
            =~= aes128_decrypt_block(key, a.take(16)) + (ecb_decrypt(key, rest) + ecb_decrypt(
            key,
            b,
        )));
    }
}

proof fn lemma_ecb_decrypt_append(key: Seq<u8>, data: Seq<u8>, n: int)
    requires
        0 <= n,
        16 * (n + 1) <= data.len(),
        data.len() % 16 == 0,
    ensures
        ecb_decrypt(key, data.take(16 * (n + 1))) == ecb_decrypt(key, data.take(16 * n))
            + aes128_decrypt_block(key, data.subrange(16 * n, 16 * n + 16)),
    decreases n,
{
    if n == 0 {
        assert(data.take(16).take(16) =~= data.subrange(0, 16));
        assert(data.take(16).skip(16) =~= Seq::<u8>::empty());
        assert(data.take(0) =~= Seq::<u8>::empty());
        assert(aes128_decrypt_block(key, data.subrange(0, 16)) + Seq::<u8>::empty()
            =~= aes128_decrypt_block(key, data.subrange(0, 16)));
    } else {
        let rest = data.skip(16);
        assert(rest.len() % 16 == 0) by {
            assert(rest.len() == data.len() - 16);
        }
        lemma_ecb_decrypt_append(key, rest, n - 1);
        assert(data.take(16 * (n + 1)).take(16) =~= data.take(16));
        assert(data.take(16 * (n + 1)).skip(16) =~= rest.take(16 * n));
        assert(data.take(16 * n).take(16) =~= data.take(16));
        assert(data.take(16 * n).skip(16) =~= rest.take(16 * (n - 1)));
        assert(rest.subrange(16 * (n - 1), 16 * (n - 1) + 16) =~= data.subrange(
            16 * n,
            16 * n + 16,
        ));
    }
}

/// AES-128-ECB decrypt, used to unwrap MEGA node keys with the folder master
/// key. `data` length must be a multiple of 16 bytes.
pub fn aes_ecb_decrypt(key: &[u8; 16], data: &[u8]) -> (r: Vec<u8>)
    requires
        data@.len() % 16 == 0,
    ensures
        r@ == ecb_decrypt(key@, data@),
        r@.len() == data@.len(),
{
    let mut out: Vec<u8> = Vec::new();
    let mut i: usize = 0;
    let n = data.len();
    assert(data@.take(0) =~= Seq::<u8>::empty());
    while i < n
        invariant
            n == data@.len(),
            n % 16 == 0,
            i % 16 == 0,
            i <= n,
            out@ == ecb_decrypt(key@, data@.take(i as int)),
            out@.len() == i,
        decreases n - i,
    {
        let mut block = [0u8; 16];
        let mut j: usize = 0;
        while j < 16
            invariant
                i + 16 <= n,
                n == data@.len(),
                j <= 16,
                forall|m: int| 0 <= m < j ==> block@[m] == data@[i + m],
            decreases 16 - j,
        {
            block[j] = data[i + j];
            j = j + 1;
        }
        assert(block@ =~= data@.subrange(i as int, i + 16));
        let plain = aes128_decrypt(key, &block);
        proof {
            lemma_ecb_decrypt_append(key@, data@, (i / 16) as int);
        }
        let mut j: usize = 0;
        while j < 16
            invariant
                j <= 16,
                out@ == ecb_decrypt(key@, data@.take(i as int)) + plain@.take(j as int),
            decreases 16 - j,
        {
            out.push(plain[j]);
            j = j + 1;
            assert(plain@.take(j as int) =~= plain@.take(j - 1).push(plain@[j - 1]));
        }
        assert(plain@.take(16) =~= plain@);
        i = i + 16;
        assert(16 * (i / 16) == i);
    }
    assert(data@.take(n as int) =~= data@);
    out
}

/// Fold a 32-byte MEGA file key into its 16-byte AES key (XOR of the two halves).
/// File keys are stored as `key ^ nonce/mac`; the usable key is `k[..16] ^ k[16..]`.
pub fn unpack_file_key(k32: &[u8]) -> (out: [u8; 16])
    requires
        k32@.len() >= 32,
    ensures
        forall|i: int| 0 <= i < 16 ==> #[trigger] out@[i] == k32@[i] ^ k32@[i + 16],
{
    let mut out = [0u8; 16];
    let mut i: usize = 0;
    while i < 16
        invariant
            k32@.len() >= 32,
            i <= 16,
            forall|m: int| 0 <= m < i ==> #[trigger] out@[m] == k32@[m] ^ k32@[m + 16],
        decreases 16 - i,
    {
        out[i] = k32[i] ^ k32[i + 16];
        i = i + 1;
    }
    out
}


/// Sixteen zero bytes: the IV of MEGA attribute blobs.
pub open spec fn zero_block() -> Seq<u8> {
    Seq::new(16, |i: int| 0u8)
}

/// Bytewise XOR of two sequences (of the length of the first).
pub open spec fn xor_bytes(a: Seq<u8>, b: Seq<u8>) -> Seq<u8> {
    Seq::new(a.len(), |i: int| a[i] ^ b[i])
}

/// AES-128-CBC decryption of whole blocks: each plaintext block is the AES
/// decryption of its ciphertext block XORed with the previous ciphertext block
/// (with `prev` before the first).
pub open spec fn cbc_decrypt(key: Seq<u8>, prev: Seq<u8>, data: Seq<u8>) -> Seq<u8>
    decreases data.len(),
{
    if data.len() < 16 {
        Seq::empty()
    } else {
        xor_bytes(aes128_decrypt_block(key, data.take(16)), prev) + cbc_decrypt(
            key,
            data.take(16),
            data.skip(16),
        )
    }
}

/// Trusted: calls `cbc::Decryptor::<aes::Aes128>::new` and
/// `decrypt_padded_mut::<NoPadding>`. Claims that on block-aligned input it
/// succeeds (no-padding unpadding never fails there) and returns the CBC
/// decryption of `data` under `key` from `iv`, block by block, in terms of
/// AES-128 block decryption.
#[verifier::external_body]
fn aes128_cbc_decrypt(key: &[u8; 16], iv: &[u8; 16], data: &[u8]) -> (r: Option<Vec<u8>>)
    requires
        data@.len() % 16 == 0,
    ensures
        r is Some,
        r matches Some(v) ==> v@ == cbc_decrypt(key@, iv@, data@),
{
    let mut buf = data.to_vec();
    match Aes128CbcDec::new(GenericArray::from_slice(key), GenericArray::from_slice(iv))
        .decrypt_padded_mut::<NoPadding>(&mut buf) {
        Ok(plain) => Some(plain.to_vec()),
        Err(_) => None,
    }
}

/// The text `String::from_utf8_lossy` makes of `bytes`.
pub uninterp spec fn utf8_lossy(bytes: Seq<u8>) -> Seq<char>;

/// Trusted: calls `String::from_utf8_lossy`. Claims that the result is the
/// lossy decoding of `bytes`; as std documents, the exact decoding where
/// `bytes` are valid UTF-8. Every other character of the result is decoded
/// from a valid sequence or is U+FFFD, and in UTF-8 only the byte 0 encodes
/// U+0000, so bytes without a 0 give text without a `'\0'`.
#[verifier::external_body]
fn string_from_utf8_lossy(bytes: &[u8]) -> (s: String)
    ensures
        s@ == utf8_lossy(bytes@),
        valid_utf8(bytes@) ==> s@ == decode_utf8(bytes@),
        (forall|i: int| 0 <= i < bytes@.len() ==> bytes@[i] != 0u8) ==> forall|j: int|
            0 <= j < s@.len() ==> s@[j] != '\0',
{
    String::from_utf8_lossy(bytes).into_owned()
}

/// The bytes `MEGA` that open a decrypted attribute blob.
pub open spec fn mega_magic() -> Seq<u8> {
    seq![0x4du8, 0x45u8, 0x47u8, 0x41u8]
}

/// `p` without a leading `MEGA`, if it has one.
pub open spec fn strip_magic(p: Seq<u8>) -> Seq<u8> {
    if p.len() >= 4 && p.take(4) == mega_magic() {
        p.skip(4)
    } else {
        p
    }
}

/// The bytes of `p` before its first zero byte (all of `p` if it has none).
pub open spec fn until_nul(p: Seq<u8>) -> Seq<u8>
    decreases p.len(),
{
    if p.len() == 0 || p[0] == 0 {
        Seq::empty()
    } else {
        seq![p[0]] + until_nul(p.drop_first())
    }
}

/// The bytes of the JSON text inside an attribute blob of whole blocks: the
/// zero-IV CBC plaintext, without a leading `MEGA`, up to its first zero byte.
pub open spec fn attribute_bytes(key: Seq<u8>, blob: Seq<u8>) -> Seq<u8> {
    until_nul(strip_magic(cbc_decrypt(key, zero_block(), blob)))
}

/// The JSON text inside an attribute blob of whole blocks.
pub open spec fn attributes_text(key: Seq<u8>, blob: Seq<u8>) -> Seq<char> {
    utf8_lossy(attribute_bytes(key, blob))
}

proof fn lemma_until_nul(p: Seq<u8>, end: int)
    requires
        0 <= end <= p.len(),
        forall|k: int| 0 <= k < end ==> p[k] != 0,
        end == p.len() || p[end] == 0,
    ensures
        until_nul(p) == p.take(end),
    decreases end,
{
    if end == 0 {
        assert(p.take(0) =~= Seq::<u8>::empty());
    } else {
        lemma_until_nul(p.drop_first(), end - 1);
        assert(p.take(end) =~= seq![p[0]] + p.drop_first().take(end - 1));
    }
}

/// What [`decrypt_attributes`] yields for a key and a base64 blob: the JSON
/// text, or `None` where it fails.
pub open spec fn attributes_spec(key: Seq<u8>, attr_b64: Seq<char>) -> Option<Seq<char>> {
    match b64url_decoding(trim_ws(attr_b64)) {
        None => None,
        Some(blob) => if blob.len() == 0 || blob.len() % 16 != 0 {
            None
        } else {
            Some(attributes_text(key, blob))
        },
    }
}

/// An attribute blob whose zero-IV CBC plaintext is `MEGA`, then the bytes of
/// a JSON text with no zero byte, then zero padding, yields exactly those
/// bytes: the magic and the padding are taken off and nothing else.
pub proof fn lemma_attribute_bytes_recovered(
    key: Seq<u8>,
    attr_b64: Seq<char>,
    blob: Seq<u8>,
    json: Seq<u8>,
    pad: nat,
)
    requires
        b64url_decoding(trim_ws(attr_b64)) == Some(blob),
        blob.len() > 0,
        blob.len() % 16 == 0,
        cbc_decrypt(key, zero_block(), blob) == mega_magic() + json + Seq::new(pad, |i: int| 0u8),
        forall|i: int| 0 <= i < json.len() ==> json[i] != 0u8,
    ensures
        attribute_bytes(key, blob) == json,
        attributes_spec(key, attr_b64) == Some(utf8_lossy(json)),
{
    let p = mega_magic() + json + Seq::new(pad, |i: int| 0u8);
    assert(p.take(4) =~= mega_magic());
    let stripped = json + Seq::new(pad, |i: int| 0u8);
    assert(p.skip(4) =~= stripped);
    lemma_until_nul(stripped, json.len() as int);
    assert(stripped.take(json.len() as int) =~= json);
}

/// Decrypt a node's `a` (attributes) blob and return the inner JSON string.
///
/// MEGA attributes are AES-128-CBC (zero IV, no padding), and the plaintext is
/// `"MEGA"` followed by a null-padded JSON object such as `{"n":"filename"}`.
pub fn decrypt_attributes(key: &[u8; 16], attr_b64: &str) -> (r: Result<String, Error>)
    ensures
        match b64url_decoding(trim_ws(attr_b64@)) {
            None => r matches Err(Error::Other(m)) && m@ == "base64 decode: "@ + b64url_error(
                trim_ws(attr_b64@),
            ),
            Some(blob) => if blob.len() == 0 || blob.len() % 16 != 0 {
                r matches Err(e) && e@ == crate::error::ErrorView::Other(
                    "attribute blob not block-aligned"@,
                )
            } else {
                &&& r matches Ok(s) && s@ == attributes_text(key@, blob)
                &&& valid_utf8(attribute_bytes(key@, blob)) ==> (r matches Ok(s) && s@
                    == decode_utf8(attribute_bytes(key@, blob)))
            },
        },
        match r {
            Ok(s) => attributes_spec(key@, attr_b64@) == Some(s@),
            Err(_) => attributes_spec(key@, attr_b64@) is None,
        },
        r matches Ok(s) ==> forall|j: int| 0 <= j < s@.len() ==> s@[j] != '\0',
{
    let data = match b64decode(attr_b64) {
        Ok(d) => d,
        Err(e) => return Err(e),
    };
    if data.len() == 0 || data.len() % 16 != 0 {
        let msg = chars_of("attribute blob not block-aligned");
        return Err(Error::Other(string_of(msg.as_slice())));
    }
    let iv: [u8; 16] = [0u8; 16];
    assert(iv@ =~= zero_block());
    let plain = match aes128_cbc_decrypt(key, &iv, data.as_slice()) {
        Some(p) => p,
        None => {
            let msg = chars_of("cbc decrypt: Unpad Error");
            return Err(Error::Other(string_of(msg.as_slice())));
        },
    };
    let start: usize = if plain.len() >= 4 && plain[0] == 0x4d && plain[1] == 0x45 && plain[2]
        == 0x47 && plain[3] == 0x41 {
        assert(plain@.take(4) =~= mega_magic());
        4
    } else {
        assert(plain@.len() >= 4 ==> plain@.take(4) != mega_magic()) by {
            if plain@.len() >= 4 && plain@.take(4) == mega_magic() {
                assert(plain@.take(4)[0] == plain@[0]);
                assert(plain@.take(4)[1] == plain@[1]);
                assert(plain@.take(4)[2] == plain@[2]);
                assert(plain@.take(4)[3] == plain@[3]);
            }
        }
        0
    };
    let ghost stripped = strip_magic(plain@);
    assert(stripped =~= plain@.skip(start as int));
    let mut end = start;
    while end < plain.len() && plain[end] != 0
        invariant
            start <= end <= plain.len(),
            forall|k: int| start <= k < end ==> plain@[k] != 0,
        decreases plain.len() - end,
    {
        end = end + 1;
    }
    let mut text_bytes: Vec<u8> = Vec::new();
    let mut i = start;
    while i < end
        invariant
            start <= i <= end <= plain.len(),
            text_bytes@ == plain@.subrange(start as int, i as int),
        decreases end - i,
    {
        text_bytes.push(plain[i]);
        i = i + 1;
    }
    proof {
        lemma_until_nul(stripped, end - start);
        assert(stripped.take(end - start) =~= plain@.subrange(start as int, end as int));
        assert(forall|k: int| 0 <= k < text_bytes@.len() ==> text_bytes@[k] == plain@[start + k]);
    }
    Ok(string_from_utf8_lossy(text_bytes.as_slice()))
}

} // verus!
