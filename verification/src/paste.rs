//! Reading and decrypting an encrypted paste that lists download links.
use vstd::prelude::*;
use vstd::utf8::{valid_utf8, decode_utf8, encode_utf8};
use crate::text::{chars_of, string_of, is_ascii_digit, all_ascii_digits, digits_value};
use crate::json::{JsonValue, json_get, json_get_exec, json_text, json_to_string};
use crate::links::concat_str;
use base64::Engine;
use aes_gcm::aead::Aead;
use aes_gcm::KeyInit;
use std::io::Read;

verus! {

// ---- base58 -------------------------------------------------------------

/// The value of a character in the Bitcoin base58 alphabet
/// `123456789ABCDEFGHJKLMNPQRSTUVWXYZabcdefghijkmnopqrstuvwxyz`, or -1.
pub open spec fn base58_digit(c: char) -> int {
    let u = c as u32 as int;
    if 49 <= u <= 57 {
        u - 49
    } else if 65 <= u <= 72 {
        u - 56
    } else if 74 <= u <= 78 {
        u - 57
    } else if 80 <= u <= 90 {
        u - 58
    } else if 97 <= u <= 107 {
        u - 64
    } else if 109 <= u <= 122 {
        u - 65
    } else {
        -1
    }
}

/// The number that a base58 text stands for.
pub open spec fn base58_value(s: Seq<char>) -> nat
    decreases s.len(),
{
    if s.len() == 0 {
        0
    } else {
        base58_value(s.drop_last()) * 58 + (if base58_digit(s.last()) >= 0 {
            base58_digit(s.last())
        } else {
            0
        }) as nat
    }
}

/// The number of leading `1`s (base58 zeros) of a text.
pub open spec fn leading_ones(s: Seq<char>) -> nat
    decreases s.len(),
{
    if s.len() > 0 && s[0] == '1' {
        1 + leading_ones(s.drop_first())
    } else {
        0
    }
}

/// The big-endian bytes of `n`, without leading zeros.
pub open spec fn be_bytes(n: nat) -> Seq<u8>
    decreases n,
{
    if n == 0 {
        seq![]
    } else {
        be_bytes(n / 256).push((n % 256) as u8)
    }
}

/// Base58 decoding: one zero byte per leading `1`, then the big-endian
/// bytes of the number; `None` when a character is not in the alphabet.
pub open spec fn base58_bytes(s: Seq<char>) -> Option<Seq<u8>> {
    if forall|i: int| 0 <= i < s.len() ==> base58_digit(#[trigger] s[i]) >= 0 {
        Some(Seq::new(leading_ones(s), |i: int| 0u8) + be_bytes(base58_value(s)))
    } else {
        None
    }
}

/// What `bs58::decode(s).into_vec()` gives, the error taken as its text.
pub uninterp spec fn base58_decode_result(s: Seq<char>) -> Result<Seq<u8>, Seq<char>>;

/// `bs58::decode(s).into_vec()`, the error turned into its message. The
/// contract names the result and states the decoded bytes as the crate's
/// algorithm gives them; the error's wording is left unsaid.
#[verifier::external_body]
fn base58_decode(s: &str) -> (r: Result<Vec<u8>, String>)
    ensures
        base58_decode_result(s@) == match r {
            Ok(b) => Ok(b@),
            Err(e) => Err(e@),
        },
        match r {
            Ok(b) => base58_bytes(s@) == Some(b@),
            Err(_) => base58_bytes(s@) is None,
        },
{
    bs58::decode(s).into_vec().map_err(|e| e.to_string())
}

// ---- base64 -------------------------------------------------------------

/// The value of a character in the standard base64 alphabet, or -1.
pub open spec fn base64_digit(c: char) -> int {
    let u = c as u32 as int;
    if 65 <= u <= 90 {
        u - 65
    } else if 97 <= u <= 122 {
        u - 71
    } else if 48 <= u <= 57 {
        u + 4
    } else if u == 43 {
        62
    } else if u == 47 {
        63
    } else {
        -1
    }
}

/// The three bytes that four base64 digits stand for.
pub open spec fn base64_triple(a: int, b: int, c: int, d: int) -> Seq<u8> {
    seq![(a * 4 + b / 16) as u8, ((b % 16) * 16 + c / 4) as u8, ((c % 4) * 64 + d) as u8]
}

/// The last group of four characters: four digits, or two or three digits
/// padded with `=`, the unused low bits zero.
pub open spec fn base64_last_group(s: Seq<char>) -> Option<Seq<u8>> {
    let a = base64_digit(s[0]);
    let b = base64_digit(s[1]);
    let c = base64_digit(s[2]);
    let d = base64_digit(s[3]);
    if a < 0 || b < 0 {
        None
    } else if s[2] == '=' && s[3] == '=' {
        if b % 16 == 0 {
            Some(base64_triple(a, b, 0, 0).take(1))
        } else {
            None
        }
    } else if c >= 0 && s[3] == '=' {
        if c % 4 == 0 {
            Some(base64_triple(a, b, c, 0).take(2))
        } else {
            None
        }
    } else if c >= 0 && d >= 0 {
        Some(base64_triple(a, b, c, d))
    } else {
        None
    }
}

/// Standard base64 decoding with canonical padding (the `STANDARD` engine
/// of the `base64` crate): groups of four characters, only the last one padded.
pub open spec fn base64_bytes(s: Seq<char>) -> Option<Seq<u8>>
    decreases s.len(),
{
    if s.len() == 0 {
        Some(seq![])
    } else if s.len() < 4 {
        None
    } else if s.len() == 4 {
        base64_last_group(s)
    } else {
        let a = base64_digit(s[0]);
        let b = base64_digit(s[1]);
        let c = base64_digit(s[2]);
        let d = base64_digit(s[3]);
        if a >= 0 && b >= 0 && c >= 0 && d >= 0 {
            match base64_bytes(s.skip(4)) {
                Some(rest) => Some(base64_triple(a, b, c, d) + rest),
                None => None,
            }
        } else {
            None
        }
    }
}

/// What `STANDARD.decode(s)` gives, the error taken as its text.
pub uninterp spec fn base64_decode_result(s: Seq<char>) -> Result<Seq<u8>, Seq<char>>;

/// `base64::engine::general_purpose::STANDARD.decode(s)`, the error turned
/// into its message. The contract names the result and states the decoded
/// bytes by the canonical-padding rules of that engine; the error's wording
/// is left unsaid.
#[verifier::external_body]
fn base64_decode(s: &str) -> (r: Result<Vec<u8>, String>)
    ensures
        base64_decode_result(s@) == match r {
            Ok(b) => Ok(b@),
            Err(e) => Err(e@),
        },
        match r {
            Ok(b) => base64_bytes(s@) == Some(b@),
            Err(_) => base64_bytes(s@) is None,
        },
{
    base64::engine::general_purpose::STANDARD.decode(s.as_bytes()).map_err(|e| e.to_string())
}

// ---- key derivation, cipher, inflation, text ------------------------------

/// What `pbkdf2_hmac::<Sha256>` writes into an output of `len` bytes.
pub uninterp spec fn pbkdf2_sha256_key(password: Seq<u8>, salt: Seq<u8>, rounds: u32, len: nat) -> Seq<u8>;

/// `pbkdf2::pbkdf2_hmac::<sha2::Sha256>` into a new buffer of `len` bytes;
/// the key is named by `pbkdf2_sha256_key` and has `len` bytes.
#[verifier::external_body]
fn pbkdf2_sha256(password: &[u8], salt: &[u8], rounds: u32, len: usize) -> (r: Vec<u8>)
    ensures
        r@ == pbkdf2_sha256_key(password@, salt@, rounds, len as nat),
        r@.len() == len,
{
    let mut out = vec![0u8; len];
    pbkdf2::pbkdf2_hmac::<sha2::Sha256>(password, salt, rounds, &mut out);
    out
}

/// What AES-256-GCM with a 16-byte nonce gives when it opens `msg` (cipher
/// text and tag) with `aad`: the plain text, or nothing when the tag fails.
pub uninterp spec fn aes256_gcm_open_result(key: Seq<u8>, nonce: Seq<u8>, msg: Seq<u8>, aad: Seq<u8>) -> Option<Seq<u8>>;

/// `AesGcm::<Aes256, U16>::new(key).decrypt(nonce, Payload { msg, aad })`;
/// the result is named by `aes256_gcm_open_result`. The key must have 32
/// bytes and the nonce 16 (`from_slice` panics otherwise).
#[verifier::external_body]
fn aes256_gcm_open(key: &[u8], nonce: &[u8], msg: &[u8], aad: &[u8]) -> (r: Option<Vec<u8>>)
    requires
        key@.len() == 32,
        nonce@.len() == 16,
    ensures
        aes256_gcm_open_result(key@, nonce@, msg@, aad@) == match r {
            Some(p) => Some(p@),
            None => None,
        },
{
    let cipher = aes_gcm::AesGcm::<aes::Aes256, typenum::U16>::new(
        aes_gcm::Key::<aes_gcm::AesGcm<aes::Aes256, typenum::U16>>::from_slice(key),
    );
    let nonce = aes_gcm::aead::Nonce::<aes_gcm::AesGcm<aes::Aes256, typenum::U16>>::from_slice(nonce);
    cipher.decrypt(nonce, aes_gcm::aead::Payload { msg, aad }).ok()
}

/// What reading a raw DEFLATE stream to its end gives, an error taken as its text.
pub uninterp spec fn inflate_raw_result(data: Seq<u8>) -> Result<Seq<u8>, Seq<char>>;

/// `flate2::read::DeflateDecoder::new(data).read_to_end(..)`, the error
/// turned into its message; the result is named by `inflate_raw_result`.
#[verifier::external_body]
fn inflate_raw(data: &[u8]) -> (r: Result<Vec<u8>, String>)
    ensures
        inflate_raw_result(data@) == match r {
            Ok(b) => Ok(b@),
            Err(e) => Err(e@),
        },
{
    let mut raw = Vec::new();
    match flate2::read::DeflateDecoder::new(data).read_to_end(&mut raw) {
        Ok(_) => Ok(raw),
        Err(e) => Err(e.to_string()),
    }
}

/// What `String::from_utf8_lossy` gives for some bytes.
pub uninterp spec fn utf8_lossy_text(bytes: Seq<u8>) -> Seq<char>;

/// `String::from_utf8_lossy(bytes)`: valid UTF-8 is decoded as it is; how
/// invalid sequences are replaced is left to the name `utf8_lossy_text`.
#[verifier::external_body]
fn utf8_lossy(bytes: &[u8]) -> (r: String)
    ensures
        r@ == utf8_lossy_text(bytes@),
        valid_utf8(bytes@) ==> r@ == decode_utf8(bytes@),
{
    String::from_utf8_lossy(bytes).to_string()
}


// ---- the paste envelope -------------------------------------------------

/// The items of an array value.
pub open spec fn json_array(v: Option<JsonValue>) -> Option<Seq<JsonValue>> {
    match v {
        Some(JsonValue::Array(items)) => Some(items@),
        _ => None,
    }
}

/// The text of a string value.
pub open spec fn json_str(v: Option<JsonValue>) -> Option<Seq<char>> {
    match v {
        Some(JsonValue::Str(s)) => Some(s@),
        _ => None,
    }
}

/// `Value::as_u64`: the value of a number written as plain digits that fits
/// in a `u64` (negative and fractional numbers are written otherwise).
pub open spec fn json_u64(v: Option<JsonValue>) -> Option<u64> {
    match v {
        Some(JsonValue::Number(t)) => if t@.len() > 0 && all_ascii_digits(t@) && digits_value(t@)
            <= u64::MAX {
            Some(digits_value(t@) as u64)
        } else {
            None
        },
        _ => None,
    }
}

/// The `adata` array of a paste.
pub open spec fn paste_adata(doc: JsonValue) -> Option<Seq<JsonValue>> {
    json_array(json_get(doc, "adata"@))
}

/// The cipher parameters: the first item of `adata`, an array.
pub open spec fn paste_params(doc: JsonValue) -> Option<Seq<JsonValue>> {
    match paste_adata(doc) {
        Some(a) => if a.len() > 0 {
            json_array(Some(a[0]))
        } else {
            None
        },
        None => None,
    }
}

/// Whether reading the paste indexes past the end of `adata` or of its
/// parameter array, where the reader panics: `adata` is empty, or the
/// parameters stop before a field that is reached.
pub open spec fn envelope_fault(doc: JsonValue) -> bool {
    match paste_adata(doc) {
        None => false,
        Some(a) => a.len() == 0 || match json_array(Some(a[0])) {
            None => false,
            Some(sp) => sp.len() < 1 || (json_str(Some(sp[0])) is Some && (sp.len() < 2 || (json_str(
                Some(sp[1]),
            ) is Some && (sp.len() < 3 || (json_u64(Some(sp[2])) is Some && sp.len() < 4))))),
        },
    }
}

/// The message for the first field that is missing or of the wrong type,
/// in the order `adata`, its parameter array, iv, salt, iterations, key
/// size, then `ct`.
pub open spec fn envelope_error(doc: JsonValue) -> Option<Seq<char>> {
    match paste_adata(doc) {
        None => Some("missing adata"@),
        Some(a) => match json_array(Some(a[0])) {
            None => Some("missing spec"@),
            Some(sp) => if json_str(Some(sp[0])) is None {
                Some("missing iv"@)
            } else if json_str(Some(sp[1])) is None {
                Some("missing salt"@)
            } else if json_u64(Some(sp[2])) is None {
                Some("missing iterations"@)
            } else if json_u64(Some(sp[3])) is None {
                Some("missing key_size"@)
            } else if json_str(json_get(doc, "ct"@)) is None {
                Some("missing ct"@)
            } else {
                None
            },
        },
    }
}

/// What the decryption needs from the paste: the base64 texts of the
/// nonce, the salt and the cipher text, the rounds (the JSON number cut to
/// 32 bits), the key size in bits, and the associated data (the `adata`
/// array as compact JSON).
pub struct PasteEnvelope {
    pub iv: String,
    pub salt: String,
    pub iterations: u32,
    pub key_size: u64,
    pub ct: String,
    pub aad: String,
}

/// The envelope as texts and numbers.
pub struct EnvelopeModel {
    pub iv: Seq<char>,
    pub salt: Seq<char>,
    pub iterations: u32,
    pub key_size: u64,
    pub ct: Seq<char>,
    pub aad: Seq<char>,
}

impl View for PasteEnvelope {
    type V = EnvelopeModel;

    open spec fn view(&self) -> EnvelopeModel {
        EnvelopeModel {
            iv: self.iv@,
            salt: self.salt@,
            iterations: self.iterations,
            key_size: self.key_size,
            ct: self.ct@,
            aad: self.aad@,
        }
    }
}

/// The envelope of a paste that has all its fields.
pub open spec fn envelope_of(doc: JsonValue) -> EnvelopeModel {
    let sp = paste_params(doc)->0;
    EnvelopeModel {
        iv: json_str(Some(sp[0]))->0,
        salt: json_str(Some(sp[1]))->0,
        iterations: (json_u64(Some(sp[2]))->0 % 0x1_0000_0000) as u32,
        key_size: json_u64(Some(sp[3]))->0,
        ct: json_str(json_get(doc, "ct"@))->0,
        aad: json_text(json_get(doc, "adata"@)->0),
    }
}

/// `Value::as_u64` on a number's text.
fn digits_to_u64(t: &str) -> (r: Option<u64>)
    ensures
        r == (if t@.len() > 0 && all_ascii_digits(t@) && digits_value(t@) <= u64::MAX {
            Some(digits_value(t@) as u64)
        } else {
            None
        }),
{
    let s = chars_of(t);
    if s.len() == 0 {
        return None;
    }
    let mut value: u64 = 0;
    let mut i: usize = 0;
    while i < s.len()
        invariant
            i <= s.len(),
            s@ == t@,
            value == digits_value(s@.take(i as int)),
            all_ascii_digits(s@.take(i as int)),
        decreases s.len() - i,
    {
        let u = s[i] as u32;
        if u < 48 || u > 57 {
            assert(!is_ascii_digit(s@[i as int]));
            return None;
        }
        assert(s@.take(i + 1).drop_last() =~= s@.take(i as int));
        assert(s@.take(i + 1).last() == s@[i as int]);
        let d = (u - 48) as u64;
        if value > (u64::MAX - d) / 10 {
            proof {
                assert(digits_value(s@.take(i + 1)) > u64::MAX) by (nonlinear_arith)
                    requires
                        digits_value(s@.take(i + 1)) == value * 10 + d,
                        value > (u64::MAX - d) / 10,
                        d <= 9,
                ;
                if all_ascii_digits(s@) {
                    crate::text::lemma_digits_value_prefix(s@, i + 1);
                }
            }
            return None;
        }
        value = value * 10 + d;
        i = i + 1;
    }
    assert(s@.take(s@.len() as int) =~= s@);
    Some(value)
}

/// Whether reading this paste would index past an array's end.
pub fn envelope_would_fault(doc: &JsonValue) -> (r: bool)
    ensures
        r == envelope_fault(*doc),
{
    match json_get_exec(doc, "adata") {
        Some(JsonValue::Array(a)) => {
            if a.len() == 0 {
                return true;
            }
            match &a[0] {
                JsonValue::Array(sp) => {
                    if sp.len() < 1 {
                        return true;
                    }
                    if !matches!(sp[0], JsonValue::Str(_)) {
                        return false;
                    }
                    if sp.len() < 2 {
                        return true;
                    }
                    if !matches!(sp[1], JsonValue::Str(_)) {
                        return false;
                    }
                    if sp.len() < 3 {
                        return true;
                    }
                    let n = match &sp[2] {
                        JsonValue::Number(t) => digits_to_u64(t.as_str()),
                        _ => None,
                    };
                    n.is_some() && sp.len() < 4
                },
                _ => false,
            }
        },
        _ => false,
    }
}

/// Reads the cipher parameters from a paste, or names the first field that
/// is missing.
pub fn read_envelope(doc: &JsonValue) -> (r: Result<PasteEnvelope, String>)
    requires
        !envelope_fault(*doc),
    ensures
        match r {
            Ok(e) => envelope_error(*doc) is None && e@ == envelope_of(*doc),
            Err(m) => envelope_error(*doc) == Some(m@),
        },
{
    let adata_value = match json_get_exec(doc, "adata") {
        Some(v) => v,
        None => {
            return Err(string_of(&chars_of("missing adata")));
        },
    };
    let a = match adata_value {
        JsonValue::Array(a) => a,
        _ => {
            return Err(string_of(&chars_of("missing adata")));
        },
    };
    let sp = match &a[0] {
        JsonValue::Array(sp) => sp,
        _ => {
            return Err(string_of(&chars_of("missing spec")));
        },
    };
    let iv = match &sp[0] {
        JsonValue::Str(s) => s.clone(),
        _ => {
            return Err(string_of(&chars_of("missing iv")));
        },
    };
    let salt = match &sp[1] {
        JsonValue::Str(s) => s.clone(),
        _ => {
            return Err(string_of(&chars_of("missing salt")));
        },
    };
    let rounds = match &sp[2] {
        JsonValue::Number(t) => digits_to_u64(t.as_str()),
        _ => None,
    };
    let rounds = match rounds {
        Some(n) => n,
        None => {
            return Err(string_of(&chars_of("missing iterations")));
        },
    };
    let key_size = match &sp[3] {
        JsonValue::Number(t) => digits_to_u64(t.as_str()),
        _ => None,
    };
    let key_size = match key_size {
        Some(n) => n,
        None => {
            return Err(string_of(&chars_of("missing key_size")));
        },
    };
    let ct = match json_get_exec(doc, "ct") {
        Some(JsonValue::Str(s)) => s.clone(),
        _ => {
            return Err(string_of(&chars_of("missing ct")));
        },
    };
    let aad = json_to_string(adata_value);
    let iterations = (rounds % 0x1_0000_0000) as u32;
    Ok(PasteEnvelope { iv, salt, iterations, key_size, ct, aad })
}


// ---- decryption ---------------------------------------------------------

/// The 32-byte key made from the decoded paste key: zeros in front of a
/// short key, the first 32 bytes of a long one.
pub open spec fn padded_key(raw: Seq<u8>) -> Seq<u8> {
    if raw.len() <= 32 {
        Seq::new((32 - raw.len()) as nat, |i: int| 0u8) + raw
    } else {
        raw.take(32)
    }
}

/// The 32-byte key made from the decoded paste key.
pub fn pad_key(raw: &Vec<u8>) -> (r: Vec<u8>)
    ensures
        r@ == padded_key(raw@),
        r@.len() == 32,
{
    let n = raw.len();
    let take = if n < 32 {
        n
    } else {
        32
    };
    let offset: usize = 32 - take;
    let mut key: Vec<u8> = Vec::new();
    let mut i: usize = 0;
    while i < offset
        invariant
            i <= offset,
            key@ == Seq::new(i as nat, |j: int| 0u8),
        decreases offset - i,
    {
        key.push(0u8);
        assert(key@ =~= Seq::new((i + 1) as nat, |j: int| 0u8));
        i = i + 1;
    }
    let mut k: usize = 0;
    while k < take
        invariant
            k <= take,
            take <= raw.len(),
            key@ == Seq::new(offset as nat, |j: int| 0u8) + raw@.take(k as int),
        decreases take - k,
    {
        key.push(raw[k]);
        assert(raw@.take(k + 1) =~= raw@.take(k as int).push(raw@[k as int]));
        assert(key@ =~= Seq::new(offset as nat, |j: int| 0u8) + raw@.take(k + 1));
        k = k + 1;
    }
    if n <= 32 {
        assert(raw@.take(take as int) =~= raw@);
    } else {
        assert(Seq::new(0, |j: int| 0u8) + raw@.take(32) =~= raw@.take(32));
    }
    key
}

/// Whether decrypting panics: every text decodes, but the key size does
/// not give a 32-byte AES key or the nonce is not 16 bytes.
pub open spec fn decrypt_fault(e: EnvelopeModel, key: Seq<char>) -> bool {
    match (base58_bytes(key), base64_bytes(e.salt), base64_bytes(e.iv), base64_bytes(e.ct)) {
        (Some(_), Some(_), Some(iv), Some(_)) => e.key_size / 8 != 32 || iv.len() != 16,
        _ => false,
    }
}

/// The message of a failed decoding.
pub open spec fn error_text(r: Result<Seq<u8>, Seq<char>>) -> Seq<char> {
    match r {
        Err(m) => m,
        Ok(_) => seq![],
    }
}

/// The text of a paste or the reason it could not be read: the key is
/// base58 and the salt, nonce and cipher text base64 (each failure named
/// with the decoder's message); the AES-256-GCM key comes from PBKDF2-SHA256
/// over the padded key; the plain text is raw DEFLATE data, read as UTF-8
/// with invalid sequences replaced.
pub open spec fn decrypt_outcome(e: EnvelopeModel, key: Seq<char>) -> Result<Seq<char>, Seq<char>> {
    match base58_bytes(key) {
        None => Err("base58: "@ + error_text(base58_decode_result(key))),
        Some(raw) => match base64_bytes(e.salt) {
            None => Err("salt base64: "@ + error_text(base64_decode_result(e.salt))),
            Some(salt) => match base64_bytes(e.iv) {
                None => Err("iv base64: "@ + error_text(base64_decode_result(e.iv))),
                Some(iv) => match base64_bytes(e.ct) {
                    None => Err("ct base64: "@ + error_text(base64_decode_result(e.ct))),
                    Some(ct) => {
                        let derived = pbkdf2_sha256_key(
                            padded_key(raw),
                            salt,
                            e.iterations,
                            (e.key_size / 8) as nat,
                        );
                        match aes256_gcm_open_result(derived, iv, ct, encode_utf8(e.aad)) {
                            None => Err("decryption failed (wrong key?)"@),
                            Some(plain) => match inflate_raw_result(plain) {
                                Err(m) => Err("decompress: "@ + m),
                                Ok(text) => Ok(utf8_lossy_text(text)),
                            },
                        }
                    },
                },
            },
        },
    }
}

/// The value of a base58 text does not change with a leading `1`.
proof fn lemma_base58_value_leading_one(k: Seq<char>)
    ensures
        base58_value(seq!['1'] + k) == base58_value(k),
    decreases k.len(),
{
    let s = seq!['1'] + k;
    if k.len() == 0 {
        let e = Seq::<char>::empty();
        assert(s.drop_last() =~= e);
        assert(s.last() == '1');
        assert(base58_digit('1') == 0);
        assert(base58_value(e) == 0);
        assert(base58_value(s) == base58_value(s.drop_last()) * 58 + 0);
        assert(k =~= e);
    } else {
        lemma_base58_value_leading_one(k.drop_last());
        assert(s.drop_last() =~= seq!['1'] + k.drop_last());
        assert(s.last() == k.last());
        assert(base58_value(s) == base58_value(s.drop_last()) * 58 + (if base58_digit(s.last()) >= 0 {
            base58_digit(s.last())
        } else {
            0
        }) as nat);
    }
}

/// A leading `1` of a base58 key decodes to a leading zero byte.
pub proof fn lemma_base58_leading_one(k: Seq<char>)
    ensures
        base58_bytes(seq!['1'] + k) == match base58_bytes(k) {
            Some(b) => Some(seq![0u8] + b),
            None => None,
        },
{
    let s = seq!['1'] + k;
    assert(base58_digit('1') == 0);
    assert(s.drop_first() =~= k);
    lemma_base58_value_leading_one(k);
    if forall|i: int| 0 <= i < k.len() ==> base58_digit(#[trigger] k[i]) >= 0 {
        assert forall|i: int| 0 <= i < s.len() implies base58_digit(#[trigger] s[i]) >= 0 by {
            if i > 0 {
                assert(s[i] == k[i - 1]);
            }
        }
        let n = leading_ones(k);
        assert(leading_ones(s) == n + 1);
        assert(Seq::new(n + 1, |i: int| 0u8) =~= seq![0u8] + Seq::new(n, |i: int| 0u8));
        assert(Seq::new(leading_ones(s), |i: int| 0u8) + be_bytes(base58_value(s)) =~= seq![0u8] + (
        Seq::new(n, |i: int| 0u8) + be_bytes(base58_value(k))));
    } else {
        let i = choose|i: int| 0 <= i < k.len() && !(base58_digit(#[trigger] k[i]) >= 0);
        assert(s[i + 1] == k[i]);
    }
}

/// A leading `1` of the paste key changes nothing while the key has fewer
/// than 32 bytes: it is a leading zero byte, and the key is padded with
/// zero bytes in front to 32 bytes anyway.
pub proof fn lemma_key_leading_one(e: EnvelopeModel, k: Seq<char>)
    requires
        base58_bytes(k) is Some,
        base58_bytes(k)->0.len() < 32,
    ensures
        decrypt_outcome(e, seq!['1'] + k) == decrypt_outcome(e, k),
        decrypt_fault(e, seq!['1'] + k) == decrypt_fault(e, k),
{
    lemma_base58_leading_one(k);
    let raw = base58_bytes(k)->0;
    let raw1 = seq![0u8] + raw;
    assert(base58_bytes(seq!['1'] + k) == Some(raw1));
    assert(padded_key(raw1) =~= padded_key(raw)) by {
        assert(Seq::new((32 - raw1.len()) as nat, |i: int| 0u8) + raw1 =~= Seq::new(
            (32 - raw.len()) as nat,
            |i: int| 0u8,
        ) + raw);
    }
}

/// A message prefix followed by an error text.
fn prefixed(prefix: &str, m: String) -> (r: String)
    ensures
        r@ == prefix@ + m@,
{
    concat_str(prefix, m.as_str())
}

/// Whether decrypting this envelope with this key would panic.
pub fn decrypt_would_fault(e: &PasteEnvelope, key_b58: &str) -> (r: bool)
    ensures
        r == decrypt_fault(e@, key_b58@),
{
    match (base58_decode(key_b58), base64_decode(e.salt.as_str()), base64_decode(e.iv.as_str()), base64_decode(e.ct.as_str())) {
        (Ok(_), Ok(_), Ok(iv), Ok(_)) => e.key_size / 8 != 32 || iv.len() != 16,
        _ => false,
    }
}

/// Decrypts the paste text with the key from the URL fragment.
pub fn decrypt_envelope(e: &PasteEnvelope, key_b58: &str) -> (r: Result<String, String>)
    requires
        !decrypt_fault(e@, key_b58@),
    ensures
        match r {
            Ok(t) => decrypt_outcome(e@, key_b58@) == Ok::<Seq<char>, Seq<char>>(t@),
            Err(m) => decrypt_outcome(e@, key_b58@) == Err::<Seq<char>, Seq<char>>(m@),
        },
{
    let raw = match base58_decode(key_b58) {
        Ok(b) => b,
        Err(m) => {
            return Err(prefixed("base58: ", m));
        },
    };
    let salt = match base64_decode(e.salt.as_str()) {
        Ok(b) => b,
        Err(m) => {
            return Err(prefixed("salt base64: ", m));
        },
    };
    let iv = match base64_decode(e.iv.as_str()) {
        Ok(b) => b,
        Err(m) => {
            return Err(prefixed("iv base64: ", m));
        },
    };
    let ct = match base64_decode(e.ct.as_str()) {
        Ok(b) => b,
        Err(m) => {
            return Err(prefixed("ct base64: ", m));
        },
    };
    let key = pad_key(&raw);
    let derived = pbkdf2_sha256(key.as_slice(), salt.as_slice(), e.iterations, (e.key_size / 8) as usize);
    let plain = match aes256_gcm_open(derived.as_slice(), iv.as_slice(), ct.as_slice(), e.aad.as_str().as_bytes()) {
        Some(p) => p,
        None => {
            return Err(string_of(&chars_of("decryption failed (wrong key?)")));
        },
    };
    match inflate_raw(plain.as_slice()) {
        Ok(text) => Ok(utf8_lossy(text.as_slice())),
        Err(m) => Err(prefixed("decompress: ", m)),
    }
}

/// Whether an exec result shows the given outcome.
pub open spec fn outcome_matches(res: Result<String, String>, o: Result<Seq<char>, Seq<char>>) -> bool {
    match res {
        Ok(t) => o == Ok::<Seq<char>, Seq<char>>(t@),
        Err(m) => o == Err::<Seq<char>, Seq<char>>(m@),
    }
}

/// The text of a paste read as JSON, decrypted with the key of its URL:
/// `None` where reading or decrypting it would index out of bounds or
/// build a key or nonce of the wrong size (where the reader panics), else
/// the first missing field, the first decoding or decryption failure, or
/// the text.
pub fn decrypt_paste(doc: &JsonValue, key_b58: &str) -> (r: Option<Result<String, String>>)
    ensures
        r is None <==> (envelope_fault(*doc) || (envelope_error(*doc) is None && decrypt_fault(
            envelope_of(*doc),
            key_b58@,
        ))),
        !envelope_fault(*doc) && envelope_error(*doc) is Some ==> r == Some(
            Err::<String, String>(r->0->Err_0),
        ) && envelope_error(*doc) == Some(r->0->Err_0@),
        envelope_error(*doc) is None ==> (r matches Some(res) ==> outcome_matches(
            res,
            decrypt_outcome(envelope_of(*doc), key_b58@),
        )),
{
    if envelope_would_fault(doc) {
        return None;
    }
    match read_envelope(doc) {
        Err(m) => Some(Err(m)),
        Ok(e) => {
            if decrypt_would_fault(&e, key_b58) {
                None
            } else {
                Some(decrypt_envelope(&e, key_b58))
            }
        },
    }
}

} // verus!
