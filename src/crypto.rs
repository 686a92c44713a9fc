//! Password vault cryptography: key derivation, AES-256-GCM sealing of
//! vault entries in a base64 envelope, a session-keyed cache of derived keys,
//! password generation and password strength scoring.
use vstd::prelude::*;
use vstd::utf8::encode_utf8;
use crate::chars::{append_bytes, chars_of, string_of, sub_bytes};

verus! {

/// Length in bytes of an AES-256 key.
pub const KEY_LEN: usize = 32;

/// Length in bytes of an AES-GCM nonce.
pub const NONCE_LEN: usize = 12;

/// Longest plaintext, in bytes, that AES-GCM seals.
pub const SEAL_MAX: u64 = 68719476736;

/// Length in bytes of a freshly generated salt.
pub const SALT_LEN: usize = 16;

/// The SHA-256 digest of a byte sequence.
pub uninterp spec fn sha256_of(data: Seq<u8>) -> Seq<u8>;

/// The AES-256-GCM sealing of `plaintext` (ciphertext followed by the tag)
/// under `key` and `nonce`, with no associated data.
pub uninterp spec fn aes256_gcm_seal(key: Seq<u8>, nonce: Seq<u8>, plaintext: Seq<u8>) -> Seq<u8>;

/// The standard padded base64 encoding of a byte sequence.
pub uninterp spec fn base64_of(bytes: Seq<u8>) -> Seq<char>;

#[verifier::external_type_specification]
#[verifier::external_body]
pub struct ExAeadError(aes_gcm::Error);

#[verifier::external_type_specification]
#[verifier::external_body]
pub struct ExDecodeError(base64::DecodeError);

#[verifier::external_type_specification]
#[verifier::external_body]
pub struct ExFromUtf8Error(std::string::FromUtf8Error);

/// Relies on sha2's `Sha256::digest`: the 32-byte SHA-256 digest of `data`.
#[verifier::external_body]
fn sha256(data: &[u8]) -> (r: Vec<u8>)
    ensures
        r@ == sha256_of(data@),
        r@.len() == 32,
{
    <sha2::Sha256 as sha2::Digest>::digest(data).to_vec()
}

/// Relies on rand's `OsRng`, filled through `Rng::fill`: `n` bytes from the
/// operating system's generator.
#[verifier::external_body]
fn os_random_bytes(n: usize) -> (r: Vec<u8>)
    ensures
        r@.len() == n,
{
    let mut v = vec![0u8; n];
    rand::Rng::fill(&mut rand::rngs::OsRng, &mut v[..]);
    v
}

/// Relies on rand's `thread_rng` and `Rng::gen_range`: an index below `n`.
#[verifier::external_body]
fn random_index(n: usize) -> (r: usize)
    requires
        n > 0,
    ensures
        r < n,
{
    rand::Rng::gen_range(&mut rand::thread_rng(), 0..n)
}

/// Relies on aes-gcm's `Aes256Gcm::encrypt` (trait `Aead`): on success the
/// sealed plaintext under the 32-byte key and 12-byte nonce; it fails only
/// on a plaintext longer than `P_MAX` (2^36 bytes).
#[verifier::external_body]
fn aes256_gcm_encrypt(key: &[u8], nonce: &[u8], plaintext: &[u8]) -> (r: Result<Vec<u8>, aes_gcm::Error>)
    requires
        key@.len() == 32,
        nonce@.len() == 12,
    ensures
        r matches Ok(c) ==> c@ == aes256_gcm_seal(key@, nonce@, plaintext@),
        plaintext@.len() <= SEAL_MAX ==> r is Ok,
{
    let cipher = <aes_gcm::Aes256Gcm as aes_gcm::KeyInit>::new(aes_gcm::Key::<aes_gcm::Aes256Gcm>::from_slice(key));
    aes_gcm::aead::Aead::encrypt(&cipher, aes_gcm::Nonce::from_slice(nonce), plaintext)
}

/// Relies on aes-gcm's `Aes256Gcm::decrypt` (trait `Aead`): on success the
/// plaintext whose sealing under the key and nonce is `ciphertext`; a
/// genuine sealing (its tag matches) opens to its plaintext.
#[verifier::external_body]
fn aes256_gcm_decrypt(key: &[u8], nonce: &[u8], ciphertext: &[u8]) -> (r: Result<Vec<u8>, aes_gcm::Error>)
    requires
        key@.len() == 32,
        nonce@.len() == 12,
    ensures
        r matches Ok(p) ==> aes256_gcm_seal(key@, nonce@, p@) == ciphertext@,
        r matches Ok(q) ==> forall|p: Seq<u8>|
            p.len() <= SEAL_MAX && #[trigger] aes256_gcm_seal(key@, nonce@, p) == ciphertext@ ==> q@ == p,
        r is Err ==> forall|p: Seq<u8>| p.len() <= SEAL_MAX ==> #[trigger] aes256_gcm_seal(key@, nonce@, p) != ciphertext@,
{
    let cipher = <aes_gcm::Aes256Gcm as aes_gcm::KeyInit>::new(aes_gcm::Key::<aes_gcm::Aes256Gcm>::from_slice(key));
    aes_gcm::aead::Aead::decrypt(&cipher, aes_gcm::Nonce::from_slice(nonce), ciphertext)
}

/// Relies on base64's `STANDARD` engine `encode`: the padded encoding of `bytes`.
#[verifier::external_body]
fn base64_encode(bytes: &[u8]) -> (r: String)
    ensures
        r@ == base64_of(bytes@),
{
    base64::Engine::encode(&base64::engine::general_purpose::STANDARD, bytes)
}

/// Relies on base64's `STANDARD` engine `decode`, which accepts exactly the
/// canonical padded encodings: it succeeds with the bytes whose encoding is
/// `text`, and fails when no byte sequence encodes to `text`.
#[verifier::external_body]
fn base64_decode(text: &str) -> (r: Result<Vec<u8>, base64::DecodeError>)
    ensures
        r matches Ok(b) ==> base64_of(b@) == text@,
        r is Err ==> forall|b: Seq<u8>| base64_of(b) != text@,
        r matches Ok(x) ==> forall|b: Seq<u8>| #[trigger] base64_of(b) == text@ ==> x@ == b,
{
    base64::Engine::decode(&base64::engine::general_purpose::STANDARD, text)
}

/// Relies on `String::from_utf8`: succeeds exactly on valid UTF-8, with the
/// characters that the bytes encode.
#[verifier::external_body]
fn utf8_decode(bytes: Vec<u8>) -> (r: Result<String, std::string::FromUtf8Error>)
    ensures
        r matches Ok(s) ==> encode_utf8(s@) == bytes@,
        r is Err ==> forall|cs: Seq<char>| encode_utf8(cs) != bytes@,
        r matches Ok(s) ==> forall|cs: Seq<char>| #[trigger] encode_utf8(cs) == bytes@ ==> s@ == cs,
{
    String::from_utf8(bytes)
}

/// Why an encryption or decryption did not succeed.
#[derive(Debug, Clone, Copy, PartialEq, Eq, Structural)]
pub enum CryptoError {
    InvalidKeyLength,
    EncryptionFailed,
    Base64DecodeFailed,
    CiphertextTooShort,
    DecryptionFailed,
    Utf8ConversionFailed,
    NoCachedKey,
}

impl CryptoError {
    /// A readable description of the failure.
    pub fn message(&self) -> (r: String) {
        match self {
            CryptoError::InvalidKeyLength => "Invalid key length. Expected 32 bytes for AES-256".to_owned(),
            CryptoError::EncryptionFailed => "Encryption failed".to_owned(),
            CryptoError::Base64DecodeFailed => "Base64 decode failed".to_owned(),
            CryptoError::CiphertextTooShort => "Invalid ciphertext: too short".to_owned(),
            CryptoError::DecryptionFailed => "Decryption failed".to_owned(),
            CryptoError::Utf8ConversionFailed => "UTF-8 conversion failed".to_owned(),
            CryptoError::NoCachedKey => "No cached key found for session".to_owned(),
        }
    }
}

/// The key derived from a master password and a salt: SHA-256 of the
/// password's UTF-8 bytes followed by the salt.
pub open spec fn derived_key(master_password: Seq<char>, salt: Seq<u8>) -> Seq<u8> {
    sha256_of(encode_utf8(master_password) + salt)
}

/// The envelope of `plaintext` sealed under `key` with `nonce`: base64 of the
/// nonce followed by the sealed bytes.
pub open spec fn envelope(key: Seq<u8>, nonce: Seq<u8>, plaintext: Seq<char>) -> Seq<char> {
    base64_of(nonce + aes256_gcm_seal(key, nonce, encode_utf8(plaintext)))
}

/// `text` is an envelope of `p` under `key`, made with some nonce.
pub open spec fn genuine_envelope(key: Seq<u8>, text: Seq<char>, p: Seq<char>) -> bool {
    encode_utf8(p).len() <= SEAL_MAX && exists|n: Seq<u8>| n.len() == NONCE_LEN && text == #[trigger] envelope(key, n, p)
}

/// The bytes that `text` is the base64 encoding of, if any.
pub open spec fn base64_decoded(text: Seq<char>) -> Option<Seq<u8>> {
    if exists|b: Seq<u8>| base64_of(b) == text {
        Some(choose|b: Seq<u8>| base64_of(b) == text)
    } else {
        None
    }
}

/// `p` is what the envelope `text` holds under `key`: the envelope decodes to
/// a nonce and sealed bytes that seal exactly `p`.
pub open spec fn opens_to(key: Seq<u8>, text: Seq<char>, p: Seq<char>) -> bool {
    exists|b: Seq<u8>|
        base64_of(b) == text && b.len() >= 12 && aes256_gcm_seal(
            key,
            b.subrange(0, 12),
            encode_utf8(p),
        ) == b.subrange(12, b.len() as int)
}

/// What a decryption with `key` of the envelope `text` yields, for each way it can end.
pub open spec fn decrypt_outcome(key: Seq<u8>, text: Seq<char>, r: Result<Seq<char>, CryptoError>) -> bool {
    if key.len() != 32 {
        r == Err::<Seq<char>, CryptoError>(CryptoError::InvalidKeyLength)
    } else if base64_decoded(text) is None {
        r == Err::<Seq<char>, CryptoError>(CryptoError::Base64DecodeFailed)
    } else {
        match r {
            Ok(p) => opens_to(key, text, p),
            Err(e) => e == CryptoError::CiphertextTooShort || e == CryptoError::DecryptionFailed
                || e == CryptoError::Utf8ConversionFailed,
        }
    }
}

pub open spec fn result_view(r: Result<String, CryptoError>) -> Result<Seq<char>, CryptoError> {
    match r {
        Ok(s) => Ok(s@),
        Err(e) => Err(e),
    }
}

pub open spec fn is_lower(c: char) -> bool {
    'a' <= c && c <= 'z'
}

pub open spec fn is_upper(c: char) -> bool {
    'A' <= c && c <= 'Z'
}

pub open spec fn is_digit(c: char) -> bool {
    '0' <= c && c <= '9'
}

pub open spec fn is_alnum(c: char) -> bool {
    is_lower(c) || is_upper(c) || is_digit(c)
}

/// The symbols that generated passwords may hold.
pub open spec fn is_password_symbol(c: char) -> bool {
    c == '!' || c == '@' || c == '#' || c == '$' || c == '%' || c == '^' || c == '&' || c == '*'
        || c == '(' || c == ')' || c == '_' || c == '+' || c == '-' || c == '=' || c == '['
        || c == ']' || c == '{' || c == '}' || c == '|' || c == ';' || c == ':' || c == ','
        || c == '.' || c == '<' || c == '>' || c == '?'
}

/// `c` belongs to the character set selected by the four flags; with no
/// flag set the set is the ASCII letters and digits.
pub open spec fn in_charset(c: char, upper: bool, lower: bool, numbers: bool, symbols: bool) -> bool {
    if !upper && !lower && !numbers && !symbols {
        is_alnum(c)
    } else {
        (lower && is_lower(c)) || (upper && is_upper(c)) || (numbers && is_digit(c)) || (symbols
            && is_password_symbol(c))
    }
}

/// The strength score of a password of `byte_len` bytes and characters `s`.
pub open spec fn strength_score(byte_len: int, s: Seq<char>) -> int {
    (if byte_len >= 8 { 25int } else { 0 }) + (if byte_len >= 12 { 10int } else { 0 }) + (if byte_len
        >= 16 { 5int } else { 0 }) + (if exists|i: int| 0 <= i < s.len() && is_lower(s[i]) { 15int } else { 0 })
        + (if exists|i: int| 0 <= i < s.len() && is_upper(s[i]) { 15int } else { 0 }) + (if exists|i: int|
        0 <= i < s.len() && is_digit(s[i]) { 15int } else { 0 }) + (if exists|i: int|
        0 <= i < s.len() && !is_alnum(s[i]) { 15int } else { 0 })
}

fn any_lower(cs: &Vec<char>) -> (r: bool)
    ensures
        r == exists|i: int| 0 <= i < cs@.len() && is_lower(cs@[i]),
{
    let mut i: usize = 0;
    while i < cs.len()
        invariant
            i <= cs@.len(),
            forall|j: int| 0 <= j < i ==> !is_lower(#[trigger] cs@[j]),
        decreases cs@.len() - i,
    {
        if 'a' <= cs[i] && cs[i] <= 'z' {
            return true;
        }
        i = i + 1;
    }
    false
}

fn any_upper(cs: &Vec<char>) -> (r: bool)
    ensures
        r == exists|i: int| 0 <= i < cs@.len() && is_upper(cs@[i]),
{
    let mut i: usize = 0;
    while i < cs.len()
        invariant
            i <= cs@.len(),
            forall|j: int| 0 <= j < i ==> !is_upper(#[trigger] cs@[j]),
        decreases cs@.len() - i,
    {
        if 'A' <= cs[i] && cs[i] <= 'Z' {
            return true;
        }
        i = i + 1;
    }
    false
}

fn any_digit(cs: &Vec<char>) -> (r: bool)
    ensures
        r == exists|i: int| 0 <= i < cs@.len() && is_digit(cs@[i]),
{
    let mut i: usize = 0;
    while i < cs.len()
        invariant
            i <= cs@.len(),
            forall|j: int| 0 <= j < i ==> !is_digit(#[trigger] cs@[j]),
        decreases cs@.len() - i,
    {
        if '0' <= cs[i] && cs[i] <= '9' {
            return true;
        }
        i = i + 1;
    }
    false
}

fn any_symbol(cs: &Vec<char>) -> (r: bool)
    ensures
        r == exists|i: int| 0 <= i < cs@.len() && !is_alnum(cs@[i]),
{
    let mut i: usize = 0;
    while i < cs.len()
        invariant
            i <= cs@.len(),
            forall|j: int| 0 <= j < i ==> is_alnum(#[trigger] cs@[j]),
        decreases cs@.len() - i,
    {
        let c = cs[i];
        if !(('a' <= c && c <= 'z') || ('A' <= c && c <= 'Z') || ('0' <= c && c <= '9')) {
            return true;
        }
        i = i + 1;
    }
    false
}

/// Pushes the characters `lo..=hi`.
fn push_char_range(v: &mut Vec<char>, lo: u8, hi: u8, upper: bool, lower: bool, numbers: bool, symbols: bool)
    requires
        lo <= hi < 128,
        forall|c: char| (lo as char) <= c && c <= (hi as char) ==> in_charset(c, upper, lower, numbers, symbols),
        forall|j: int| 0 <= j < old(v)@.len() ==> in_charset(#[trigger] old(v)@[j], upper, lower, numbers, symbols),
    ensures
        final(v)@.len() > old(v)@.len(),
        forall|j: int| 0 <= j < final(v)@.len() ==> in_charset(#[trigger] final(v)@[j], upper, lower, numbers, symbols),
{
    let mut b: u8 = lo;
    while b <= hi
        invariant
            lo <= b <= hi + 1,
            hi < 128,
            v@.len() >= old(v)@.len() + (b - lo),
            forall|c: char| (lo as char) <= c && c <= (hi as char) ==> in_charset(c, upper, lower, numbers, symbols),
            forall|j: int| 0 <= j < v@.len() ==> in_charset(#[trigger] v@[j], upper, lower, numbers, symbols),
        decreases hi + 1 - b,
    {
        v.push(b as char);
        b = b + 1;
    }
}

/// The characters that generated passwords are drawn from.
fn build_charset(upper: bool, lower: bool, numbers: bool, symbols: bool) -> (r: Vec<char>)
    ensures
        r@.len() > 0,
        forall|j: int| 0 <= j < r@.len() ==> in_charset(#[trigger] r@[j], upper, lower, numbers, symbols),
{
    let mut v: Vec<char> = Vec::new();
    if lower {
        push_char_range(&mut v, 97, 122, upper, lower, numbers, symbols);
    }
    if upper {
        push_char_range(&mut v, 65, 90, upper, lower, numbers, symbols);
    }
    if numbers {
        push_char_range(&mut v, 48, 57, upper, lower, numbers, symbols);
    }
    if symbols {
        let syms: Vec<char> = vec![
            '!', '@', '#', '$', '%', '^', '&', '*', '(', ')', '_', '+', '-', '=', '[', ']', '{',
            '}', '|', ';', ':', ',', '.', '<', '>', '?',
        ];
        let mut k: usize = 0;
        while k < syms.len()
            invariant
                k <= syms@.len(),
                forall|j: int| 0 <= j < syms@.len() ==> is_password_symbol(#[trigger] syms@[j]),
                symbols,
                v@.len() >= k,
                forall|j: int| 0 <= j < v@.len() ==> in_charset(#[trigger] v@[j], upper, lower, numbers, symbols),
            decreases syms@.len() - k,
        {
            v.push(syms[k]);
            k = k + 1;
        }
    }
    if v.len() == 0 {
        push_char_range(&mut v, 97, 122, upper, lower, numbers, symbols);
        push_char_range(&mut v, 65, 90, upper, lower, numbers, symbols);
        push_char_range(&mut v, 48, 57, upper, lower, numbers, symbols);
    }
    v
}

/// Derived keys by session, kept for as long as a session lasts.
pub struct KeyCache {
    entries: Vec<(String, Vec<u8>)>,
}

/// The key stored last for `k` among `es`.
pub open spec fn lookup(es: Seq<(Seq<char>, Seq<u8>)>, k: Seq<char>) -> Option<Seq<u8>>
    decreases es.len(),
{
    if es.len() == 0 {
        None
    } else if es.last().0 == k {
        Some(es.last().1)
    } else {
        lookup(es.drop_last(), k)
    }
}

/// The entries of a cache as plain values.
pub open spec fn pairs_of(v: Seq<(String, Vec<u8>)>) -> Seq<(Seq<char>, Seq<u8>)> {
    v.map_values(|e: (String, Vec<u8>)| (e.0@, e.1@))
}

impl KeyCache {
    pub closed spec fn pairs(&self) -> Seq<(Seq<char>, Seq<u8>)> {
        pairs_of(self.entries@)
    }

    pub closed spec fn view(&self) -> Map<Seq<char>, Seq<u8>> {
        Map::new(|k: Seq<char>| lookup(self.pairs(), k) is Some, |k: Seq<char>| lookup(self.pairs(), k)->0)
    }

    /// An empty cache.
    pub fn new() -> (r: KeyCache)
        ensures
            r@ == Map::<Seq<char>, Seq<u8>>::empty(),
    {
        let r = KeyCache { entries: Vec::new() };
        assert(r@ =~= Map::<Seq<char>, Seq<u8>>::empty());
        r
    }

    fn insert(&mut self, k: &str, v: Vec<u8>)
        ensures
            final(self)@ == old(self)@.insert(k@, v@),
    {
        let ghost v0 = v@;
        self.entries.push((k.to_owned(), v));
        assert(self.pairs().drop_last() =~= old(self).pairs());
        assert(self@ =~= old(self)@.insert(k@, v0));
    }

    fn get(&self, k: &str) -> (r: Option<Vec<u8>>)
        ensures
            r is Some <==> self@.contains_key(k@),
            r matches Some(v) ==> v@ == self@[k@],
    {
        let key = k.to_owned();
        let mut i: usize = self.entries.len();
        assert(self.pairs().subrange(0, i as int) =~= self.pairs());
        while i > 0
            invariant
                i <= self.entries@.len(),
                key@ == k@,
                lookup(self.pairs(), k@) == lookup(self.pairs().subrange(0, i as int), k@),
            decreases i,
        {
            assert(self.pairs().subrange(0, i as int).drop_last() =~= self.pairs().subrange(0, i - 1));
            assert(self.entries@[i - 1].1@.subrange(0, self.entries@[i - 1].1@.len() as int) =~= self.entries@[i - 1].1@);
            if self.entries[i - 1].0 == key {
                return Some(sub_bytes(self.entries[i - 1].1.as_slice(), 0, self.entries[i - 1].1.len()));
            }
            i = i - 1;
        }
        None
    }

    fn remove(&mut self, k: &str)
        ensures
            final(self)@ == old(self)@.remove(k@),
    {
        let key = k.to_owned();
        let mut kept: Vec<(String, Vec<u8>)> = Vec::new();
        let ghost old_pairs = self.pairs();
        let mut i: usize = 0;
        while i < self.entries.len()
            invariant
                i <= self.entries@.len(),
                key@ == k@,
                old_pairs == self.pairs(),
                self == old(self),
                forall|k2: Seq<char>| #[trigger] lookup(pairs_of(kept@), k2)
                    == if k2 == k@ { None } else { lookup(old_pairs.subrange(0, i as int), k2) },
            decreases self.entries@.len() - i,
        {
            let ghost before = pairs_of(kept@);
            let ghost ii = i as int;
            assert(old_pairs.subrange(0, ii + 1).drop_last() =~= old_pairs.subrange(0, ii));
            assert(old_pairs.subrange(0, ii + 1).last() == old_pairs[ii]);
            assert(old_pairs[ii] == (self.entries@[ii].0@, self.entries@[ii].1@));
            if !(self.entries[i].0 == key) {
                let e = (self.entries[i].0.clone(), sub_bytes(self.entries[i].1.as_slice(), 0, self.entries[i].1.len()));
                assert(self.entries@[ii].1@.subrange(0, self.entries@[ii].1@.len() as int) =~= self.entries@[ii].1@);
                kept.push(e);
                assert(pairs_of(kept@).drop_last() =~= before);
                assert(pairs_of(kept@).last() == old_pairs[ii]);
            }
            i = i + 1;
            assert forall|k2: Seq<char>|
                #[trigger] lookup(pairs_of(kept@), k2) == (if k2 == k@ {
                    None
                } else {
                    lookup(old_pairs.subrange(0, i as int), k2)
                }) by {
                assert(lookup(before, k2) == (if k2 == k@ { None } else { lookup(old_pairs.subrange(0, ii), k2) }));
            }
        }
        assert(old_pairs.subrange(0, old_pairs.len() as int) =~= old_pairs);
        self.entries = kept;
        assert(self@ =~= old(self)@.remove(k@));
    }

    fn clear(&mut self)
        ensures
            final(self)@ == Map::<Seq<char>, Seq<u8>>::empty(),
    {
        self.entries = Vec::new();
        assert(self@ =~= Map::<Seq<char>, Seq<u8>>::empty());
    }
}

/// Entry point of the vault's cryptography.
pub struct CryptoService;

impl CryptoService {
    /// Derives the 32-byte encryption key from a master password and a salt.
    pub fn derive_key_from_password(master_password: &str, salt: &[u8]) -> (r: Vec<u8>)
        ensures
            r@ == derived_key(master_password@, salt@),
            r@.len() == 32,
    {
        let mut data: Vec<u8> = Vec::new();
        append_bytes(&mut data, master_password.as_bytes());
        append_bytes(&mut data, salt);
        sha256(data.as_slice())
    }

    /// A fresh random salt.
    pub fn generate_salt() -> (r: Vec<u8>)
        ensures
            r@.len() == SALT_LEN,
    {
        os_random_bytes(SALT_LEN)
    }

    /// A fresh random nonce.
    pub fn generate_nonce() -> (r: Vec<u8>)
        ensures
            r@.len() == NONCE_LEN,
    {
        os_random_bytes(NONCE_LEN)
    }

    /// Seals `plaintext` under `key` with the given nonce and wraps nonce and
    /// sealed bytes in base64.
    pub fn encrypt_with_key_nonce(key: &[u8], nonce: &[u8], plaintext: &str) -> (r: Result<String, CryptoError>)
        requires
            nonce@.len() == NONCE_LEN,
        ensures
            key@.len() != KEY_LEN <==> r == Err::<String, CryptoError>(CryptoError::InvalidKeyLength),
            r matches Ok(s) ==> s@ == envelope(key@, nonce@, plaintext@),
            key@.len() == KEY_LEN && r is Err ==> r == Err::<String, CryptoError>(CryptoError::EncryptionFailed),
            key@.len() == KEY_LEN && encode_utf8(plaintext@).len() <= SEAL_MAX ==> r is Ok,
    {
        if key.len() != KEY_LEN {
            return Err(CryptoError::InvalidKeyLength);
        }
        match aes256_gcm_encrypt(key, nonce, plaintext.as_bytes()) {
            Ok(sealed) => {
                let mut combined: Vec<u8> = Vec::new();
                append_bytes(&mut combined, nonce);
                append_bytes(&mut combined, sealed.as_slice());
                Ok(base64_encode(combined.as_slice()))
            },
            Err(_) => Err(CryptoError::EncryptionFailed),
        }
    }

    /// Encrypts `plaintext` under `key` with a fresh random nonce.
    pub fn encrypt_with_key(key: &[u8], plaintext: &str) -> (r: Result<String, CryptoError>)
        ensures
            key@.len() != KEY_LEN <==> r == Err::<String, CryptoError>(CryptoError::InvalidKeyLength),
            r matches Ok(s) ==> exists|n: Seq<u8>| n.len() == NONCE_LEN && s@ == envelope(key@, n, plaintext@),
            key@.len() == KEY_LEN && r is Err ==> r == Err::<String, CryptoError>(CryptoError::EncryptionFailed),
            key@.len() == KEY_LEN && encode_utf8(plaintext@).len() <= SEAL_MAX ==> r is Ok,
            r matches Ok(s) ==> (encode_utf8(plaintext@).len() <= SEAL_MAX ==> genuine_envelope(key@, s@, plaintext@)),
    {
        let nonce = Self::generate_nonce();
        Self::encrypt_with_key_nonce(key, nonce.as_slice(), plaintext)
    }

    /// Opens an envelope made by `encrypt_with_key`.
    pub fn decrypt_with_key(key: &[u8], ciphertext_base64: &str) -> (r: Result<String, CryptoError>)
        ensures
            decrypt_outcome(key@, ciphertext_base64@, result_view(r)),
            forall|p: Seq<char>|
                key@.len() == KEY_LEN && #[trigger] genuine_envelope(key@, ciphertext_base64@, p) ==> (r matches Ok(s) && s@ == p),
    {
        if key.len() != KEY_LEN {
            return Err(CryptoError::InvalidKeyLength);
        }
        let combined = match base64_decode(ciphertext_base64) {
            Ok(b) => b,
            Err(_) => {
                proof {
                    assert forall|p: Seq<char>| !genuine_envelope(key@, ciphertext_base64@, p) by {
                        if genuine_envelope(key@, ciphertext_base64@, p) {
                            let n = choose|n: Seq<u8>| n.len() == NONCE_LEN && ciphertext_base64@ == #[trigger] envelope(key@, n, p);
                            assert(base64_of(n + aes256_gcm_seal(key@, n, encode_utf8(p))) == ciphertext_base64@);
                        }
                    }
                }
                return Err(CryptoError::Base64DecodeFailed);
            },
        };
        proof {
            assert forall|p: Seq<char>| #[trigger] genuine_envelope(key@, ciphertext_base64@, p) implies exists|n: Seq<u8>|
                n.len() == NONCE_LEN && combined@ == n + aes256_gcm_seal(key@, n, encode_utf8(p)) by {
                let n = choose|n: Seq<u8>| n.len() == NONCE_LEN && ciphertext_base64@ == #[trigger] envelope(key@, n, p);
                let b = n + aes256_gcm_seal(key@, n, encode_utf8(p));
                assert(base64_of(b) == ciphertext_base64@);
            }
        }
        assert(base64_of(combined@) == ciphertext_base64@);
        if combined.len() < NONCE_LEN {
            proof {
                assert forall|p: Seq<char>| !genuine_envelope(key@, ciphertext_base64@, p) by {
                    if genuine_envelope(key@, ciphertext_base64@, p) {
                        let n = choose|n: Seq<u8>| n.len() == NONCE_LEN && combined@ == n + aes256_gcm_seal(key@, n, encode_utf8(p));
                    }
                }
            }
            return Err(CryptoError::CiphertextTooShort);
        }
        let nonce = sub_bytes(combined.as_slice(), 0, NONCE_LEN);
        let sealed = sub_bytes(combined.as_slice(), NONCE_LEN, combined.len());
        proof {
            assert forall|p: Seq<char>| #[trigger] genuine_envelope(key@, ciphertext_base64@, p) implies
                aes256_gcm_seal(key@, nonce@, encode_utf8(p)) == sealed@ && encode_utf8(p).len() <= SEAL_MAX by {
                let n = choose|n: Seq<u8>| n.len() == NONCE_LEN && combined@ == n + aes256_gcm_seal(key@, n, encode_utf8(p));
                assert(nonce@ =~= n);
                assert(sealed@ =~= aes256_gcm_seal(key@, n, encode_utf8(p)));
            }
        }
        let plain = match aes256_gcm_decrypt(key, nonce.as_slice(), sealed.as_slice()) {
            Ok(p) => p,
            Err(_) => {
                proof {
                    assert forall|p: Seq<char>| !genuine_envelope(key@, ciphertext_base64@, p) by {
                        if genuine_envelope(key@, ciphertext_base64@, p) {
                            assert(aes256_gcm_seal(key@, nonce@, encode_utf8(p)) == sealed@);
                        }
                    }
                }
                return Err(CryptoError::DecryptionFailed);
            },
        };
        proof {
            assert forall|p: Seq<char>| #[trigger] genuine_envelope(key@, ciphertext_base64@, p) implies plain@ == encode_utf8(p) by {
                assert(aes256_gcm_seal(key@, nonce@, encode_utf8(p)) == sealed@);
            }
        }
        match utf8_decode(plain) {
            Ok(s) => {
                assert(opens_to(key@, ciphertext_base64@, s@));
                Ok(s)
            },
            Err(_) => {
                proof {
                    assert forall|p: Seq<char>| !genuine_envelope(key@, ciphertext_base64@, p) by {
                        if genuine_envelope(key@, ciphertext_base64@, p) {
                            assert(plain@ == encode_utf8(p));
                        }
                    }
                }
                Err(CryptoError::Utf8ConversionFailed)
            },
        }
    }

    /// Tells whether `master_password` opens the test envelope.
    pub fn verify_master_password(master_password: &str, salt: &[u8], test_encrypted: &str) -> (r: Result<bool, CryptoError>)
        ensures
            r matches Ok(true) ==> exists|p: Seq<char>| opens_to(derived_key(master_password@, salt@), test_encrypted@, p),
            base64_decoded(test_encrypted@) is None ==> r == Ok::<bool, CryptoError>(false),
            r is Ok,
            forall|p: Seq<char>| #[trigger] genuine_envelope(derived_key(master_password@, salt@), test_encrypted@, p) ==> r == Ok::<bool, CryptoError>(true),
    {
        let key = Self::derive_key_from_password(master_password, salt);
        let test_result = Self::decrypt_with_key(key.as_slice(), test_encrypted);
        Ok(test_result.is_ok())
    }

    /// Encrypts with the key derived from a master password.
    pub fn encrypt_with_master_password(master_password: &str, salt: &[u8], plaintext: &str) -> (r: Result<String, CryptoError>)
        ensures
            r matches Ok(s) ==> exists|n: Seq<u8>|
                n.len() == NONCE_LEN && s@ == envelope(derived_key(master_password@, salt@), n, plaintext@),
            r is Err ==> r == Err::<String, CryptoError>(CryptoError::EncryptionFailed),
            encode_utf8(plaintext@).len() <= SEAL_MAX ==> r is Ok,
            r matches Ok(s) ==> (encode_utf8(plaintext@).len() <= SEAL_MAX ==> genuine_envelope(derived_key(master_password@, salt@), s@, plaintext@)),
    {
        let key = Self::derive_key_from_password(master_password, salt);
        Self::encrypt_with_key(key.as_slice(), plaintext)
    }

    /// Decrypts with the key derived from a master password.
    pub fn decrypt_with_master_password(master_password: &str, salt: &[u8], ciphertext: &str) -> (r: Result<String, CryptoError>)
        ensures
            decrypt_outcome(derived_key(master_password@, salt@), ciphertext@, result_view(r)),
            forall|p: Seq<char>| #[trigger] genuine_envelope(derived_key(master_password@, salt@), ciphertext@, p) ==> (r matches Ok(s) && s@ == p),
    {
        let key = Self::derive_key_from_password(master_password, salt);
        Self::decrypt_with_key(key.as_slice(), ciphertext)
    }

    /// Stores the key derived from `master_password` and `salt` for `session_id`.
    pub fn cache_master_key(cache: &mut KeyCache, session_id: &str, master_password: &str, salt: &[u8])
        ensures
            final(cache)@ == old(cache)@.insert(session_id@, derived_key(master_password@, salt@)),
    {
        let key = Self::derive_key_from_password(master_password, salt);
        cache.insert(session_id, key);
    }

    /// The key cached for `session_id`, if any.
    pub fn get_cached_key(cache: &KeyCache, session_id: &str) -> (r: Option<Vec<u8>>)
        ensures
            r is Some <==> cache@.contains_key(session_id@),
            r matches Some(k) ==> k@ == cache@[session_id@],
    {
        cache.get(session_id)
    }

    /// Forgets the key cached for `session_id`.
    pub fn clear_cached_key(cache: &mut KeyCache, session_id: &str)
        ensures
            final(cache)@ == old(cache)@.remove(session_id@),
    {
        cache.remove(session_id);
    }

    /// Forgets every cached key.
    pub fn clear_all_cached_keys(cache: &mut KeyCache)
        ensures
            final(cache)@ == Map::<Seq<char>, Seq<u8>>::empty(),
    {
        cache.clear();
    }

    /// Encrypts with the key cached for `session_id`.
    pub fn encrypt_with_cached_key(cache: &KeyCache, session_id: &str, plaintext: &str) -> (r: Result<String, CryptoError>)
        ensures
            !cache@.contains_key(session_id@) <==> r == Err::<String, CryptoError>(CryptoError::NoCachedKey),
            cache@.contains_key(session_id@) ==> {
                let key = cache@[session_id@];
                &&& key.len() != KEY_LEN <==> r == Err::<String, CryptoError>(CryptoError::InvalidKeyLength)
                &&& r matches Ok(s) ==> exists|n: Seq<u8>| n.len() == NONCE_LEN && s@ == envelope(key, n, plaintext@)
                &&& key.len() == KEY_LEN && r is Err ==> r == Err::<String, CryptoError>(CryptoError::EncryptionFailed)
                &&& key.len() == KEY_LEN && encode_utf8(plaintext@).len() <= SEAL_MAX ==> r is Ok
            },
    {
        match Self::get_cached_key(cache, session_id) {
            Some(key) => Self::encrypt_with_key(key.as_slice(), plaintext),
            None => Err(CryptoError::NoCachedKey),
        }
    }

    /// Decrypts with the key cached for `session_id`.
    pub fn decrypt_with_cached_key(cache: &KeyCache, session_id: &str, ciphertext: &str) -> (r: Result<String, CryptoError>)
        ensures
            !cache@.contains_key(session_id@) ==> r == Err::<String, CryptoError>(CryptoError::NoCachedKey),
            cache@.contains_key(session_id@) ==> decrypt_outcome(cache@[session_id@], ciphertext@, result_view(r)),
            forall|p: Seq<char>|
                cache@.contains_key(session_id@) && cache@[session_id@].len() == KEY_LEN && #[trigger] genuine_envelope(cache@[session_id@], ciphertext@, p) ==> (r matches Ok(s) && s@ == p),
    {
        match Self::get_cached_key(cache, session_id) {
            Some(key) => Self::decrypt_with_key(key.as_slice(), ciphertext),
            None => Err(CryptoError::NoCachedKey),
        }
    }

    /// A random password of `length` characters drawn from the selected
    /// character classes (letters and digits when none is selected).
    pub fn generate_password(
        length: usize,
        include_uppercase: bool,
        include_lowercase: bool,
        include_numbers: bool,
        include_symbols: bool,
    ) -> (r: String)
        ensures
            r@.len() == length,
            forall|i: int|
                0 <= i < length ==> in_charset(
                    r@[i],
                    include_uppercase,
                    include_lowercase,
                    include_numbers,
                    include_symbols,
                ),
    {
        let charset = build_charset(include_uppercase, include_lowercase, include_numbers, include_symbols);
        let mut out: Vec<char> = Vec::new();
        let mut i: usize = 0;
        while i < length
            invariant
                i <= length,
                out@.len() == i,
                charset@.len() > 0,
                forall|j: int| 0 <= j < charset@.len() ==> in_charset(
                    #[trigger] charset@[j],
                    include_uppercase,
                    include_lowercase,
                    include_numbers,
                    include_symbols,
                ),
                forall|j: int| 0 <= j < i ==> in_charset(
                    #[trigger] out@[j],
                    include_uppercase,
                    include_lowercase,
                    include_numbers,
                    include_symbols,
                ),
            decreases length - i,
        {
            let idx = random_index(charset.len());
            out.push(charset[idx]);
            i = i + 1;
        }
        string_of(&out)
    }

    /// Scores a password from 0 to 100 by length and character classes.
    pub fn check_password_strength(password: &str) -> (r: u8)
        ensures
            r as int == strength_score(password.len() as int, password@),
    {
        let mut score: u8 = 0;
        let length = password.len();
        if length >= 8 {
            score = score + 25;
        }
        if length >= 12 {
            score = score + 10;
        }
        if length >= 16 {
            score = score + 5;
        }
        let cs = chars_of(password);
        if any_lower(&cs) {
            score = score + 15;
        }
        if any_upper(&cs) {
            score = score + 15;
        }
        if any_digit(&cs) {
            score = score + 15;
        }
        if any_symbol(&cs) {
            score = score + 15;
        }
        if score > 100 {
            score = 100;
        }
        score
    }
}

} // verus!
