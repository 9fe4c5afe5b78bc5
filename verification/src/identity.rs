//! An employee's verifiable identity: an Ed25519 public key, its key id, and
//! the key set it is published in.
//!
//! The key id is the key: unpadded base64url of its bytes. It is stable without
//! being stored, and it cannot name a key that it is not.
use crate::ids;
use crate::ids::{EmployeeId, SecretRef, SecretRefError, TenantId};
use base64::engine::general_purpose::URL_SAFE_NO_PAD;
use base64::Engine;
use vstd::prelude::*;
use vstd::string::*;

verus! {

/// Length of an Ed25519 public key.
pub const PUBLIC_KEY_LEN: usize = 32;

/// Where a key set lives, ours and everybody else's.
pub const DIRECTORY_PATH: &'static str = "/.well-known/http-message-signatures-directory";

/// The name an employee's private signing key is stored under.
pub const SIGNING_KEY_NAME: &'static str = "signing-key";

/// The byte at position `i`, or zero past the end.
pub open spec fn byte_at(bytes: Seq<u8>, i: int) -> nat {
    if i < bytes.len() {
        bytes[i] as nat
    } else {
        0
    }
}

/// The `i`-th group of six bits of `bytes`, the highest bits first.
pub open spec fn sextet(bytes: Seq<u8>, i: int) -> nat {
    let t = i / 4 * 3;
    if i % 4 == 0 {
        byte_at(bytes, t) / 4
    } else if i % 4 == 1 {
        byte_at(bytes, t) % 4 * 16 + byte_at(bytes, t + 1) / 16
    } else if i % 4 == 2 {
        byte_at(bytes, t + 1) % 16 * 4 + byte_at(bytes, t + 2) / 64
    } else {
        byte_at(bytes, t + 2) % 64
    }
}

/// The URL-safe alphabet: `A-Z`, `a-z`, `0-9`, `-` and `_`.
pub open spec fn base64url_char(v: nat) -> char {
    if v < 26 {
        (65 + v) as char
    } else if v < 52 {
        (71 + v) as char
    } else if v < 62 {
        (v - 4) as char
    } else if v == 62 {
        '-'
    } else {
        '_'
    }
}

/// Unpadded base64url.
pub open spec fn base64url(bytes: Seq<u8>) -> Seq<char> {
    Seq::new((bytes.len() * 8 + 5) / 6, |i: int| base64url_char(sextet(bytes, i)))
}

/// The bytes that the `base64` crate reads in an unpadded base64url text,
/// where it reads any.
pub uninterp spec fn base64url_read(s: Seq<char>) -> Option<Seq<u8>>;

/// `base64::Engine::encode` of the engine `URL_SAFE_NO_PAD`: unpadded
/// base64url.
#[verifier::external_body]
fn encode(bytes: &[u8]) -> (r: String)
    requires
        bytes@.len() <= 0x1000_0000,
    ensures
        r@ == base64url(bytes@),
{
    URL_SAFE_NO_PAD.encode(bytes)
}

/// `base64::Engine::decode` of the engine `URL_SAFE_NO_PAD`: the bytes of an
/// unpadded base64url text. What was encoded decodes to itself.
#[verifier::external_body]
fn decode(s: &str) -> (r: Option<Vec<u8>>)
    ensures
        match r {
            Some(v) => base64url_read(s@) == Some(v@),
            None => base64url_read(s@) is None,
        },
        forall|bytes: Seq<u8>|
            s@ == #[trigger] base64url(bytes) ==> r is Some && r->Some_0@ == bytes,
{
    URL_SAFE_NO_PAD.decode(s).ok()
}

/// Where an employee's private signing key lives.
pub fn signing_key_ref(tenant_id: TenantId, employee_id: EmployeeId) -> (r: Result<
    SecretRef,
    SecretRefError,
>)
    ensures
        r is Ok,
        r->Ok_0@ == (tenant_id@, employee_id@, SIGNING_KEY_NAME@),
{
    proof {
        reveal_strlit("signing-key");
        assert(crate::text::drawn_from(SIGNING_KEY_NAME@, crate::text::Charset::SecretName));
        crate::text::lemma_first_outside(SIGNING_KEY_NAME@, crate::text::Charset::SecretName);
        crate::text::lemma_drawn_from_is_ascii(
            SIGNING_KEY_NAME@,
            crate::text::Charset::SecretName,
        );
    }
    SecretRef::new(tenant_id, employee_id, SIGNING_KEY_NAME)
}

/// The id a signature names and a verifier looks up in the key set.
///
/// Only [`PublicKey::key_id`] makes one, so an id that belongs to no key
/// cannot be spelled.
#[derive(Debug, PartialEq, Eq, Hash, PartialOrd, Ord)]
pub struct KeyId(String);

impl View for KeyId {
    type V = Seq<char>;

    closed spec fn view(&self) -> Seq<char> {
        self.0@
    }
}

impl KeyId {
    /// The id as it appears on the wire.
    pub fn as_str(&self) -> (r: &str)
        ensures
            r@ == self@,
    {
        self.0.as_str()
    }
}

/// Why some bytes are not an Ed25519 public key.
#[derive(Debug, Clone, Copy, PartialEq, Eq, Structural)]
pub enum PublicKeyError {
    /// Wrong length.
    Length {
        /// What was offered.
        got: usize,
    },
    /// Not unpadded base64url.
    Encoding,
}

/// An employee's Ed25519 public key.
#[derive(Debug, Clone, Copy, PartialEq, Eq, Hash, PartialOrd, Ord)]
pub struct PublicKey([u8; 32]);

impl View for PublicKey {
    type V = Seq<u8>;

    closed spec fn view(&self) -> Seq<u8> {
        self.0@
    }
}

/// One public key as a verifier reads it (RFC 8037). The members are exactly
/// these six.
#[derive(Debug, Clone, PartialEq, Eq)]
pub struct Jwk {
    /// Key type.
    pub kty: &'static str,
    /// Curve.
    pub crv: &'static str,
    /// The one algorithm the key is for.
    pub alg: &'static str,
    /// The one use the key is for.
    pub usage: &'static str,
    /// The key id.
    pub kid: String,
    /// The key itself.
    pub x: String,
}

/// What is published for the key `bytes`.
pub open spec fn is_jwk(j: Jwk, bytes: Seq<u8>) -> bool {
    &&& j.kty@ == "OKP"@
    &&& j.crv@ == "Ed25519"@
    &&& j.alg@ == "EdDSA"@
    &&& j.usage@ == "sig"@
    &&& j.kid@ == base64url(bytes)
    &&& j.x@ == base64url(bytes)
}

impl PublicKey {
    /// Wrap 32 bytes that are already known to be a key.
    pub fn new(bytes: [u8; 32]) -> (r: PublicKey)
        ensures
            r@ == bytes@,
    {
        PublicKey(bytes)
    }

    /// Wrap bytes of unknown length.
    pub fn from_slice(bytes: &[u8]) -> (r: Result<PublicKey, PublicKeyError>)
        ensures
            match r {
                Ok(key) => bytes@.len() == PUBLIC_KEY_LEN && key@ == bytes@,
                Err(e) => bytes@.len() != PUBLIC_KEY_LEN && e == (PublicKeyError::Length {
                    got: bytes@.len() as usize,
                }),
            },
    {
        if bytes.len() != PUBLIC_KEY_LEN {
            return Err(PublicKeyError::Length { got: bytes.len() });
        }
        let mut out: [u8; 32] = [0; 32];
        for i in 0..32
            invariant
                bytes@.len() == 32,
                out@.len() == 32,
                forall|j: int| 0 <= j < i ==> out@[j] == bytes@[j],
        {
            out[i] = bytes[i];
        }
        assert(out@ == bytes@);
        Ok(PublicKey(out))
    }

    /// Takes up what was read in the `x` member of a key: its bytes, where it
    /// was base64url.
    pub fn from_decoded(bytes: Option<Vec<u8>>) -> (r: Result<PublicKey, PublicKeyError>)
        ensures
            match (bytes, r) {
                (None, Err(e)) => e == PublicKeyError::Encoding,
                (Some(v), Ok(key)) => v@.len() == PUBLIC_KEY_LEN && key@ == v@,
                (Some(v), Err(e)) => v@.len() != PUBLIC_KEY_LEN && e == (PublicKeyError::Length {
                    got: v@.len() as usize,
                }),
                _ => false,
            },
    {
        match bytes {
            None => Err(PublicKeyError::Encoding),
            Some(v) => PublicKey::from_slice(v.as_slice()),
        }
    }

    /// Decode the `x` member of an Ed25519 key. The `x` member of a published
    /// key reads back as that key.
    pub fn from_jwk_x(x: &str) -> (r: Result<PublicKey, PublicKeyError>)
        ensures
            match (base64url_read(x@), r) {
                (None, Err(e)) => e == PublicKeyError::Encoding,
                (Some(v), Ok(key)) => v.len() == PUBLIC_KEY_LEN && key@ == v,
                (Some(v), Err(e)) => v.len() != PUBLIC_KEY_LEN && e == (PublicKeyError::Length {
                    got: v.len() as usize,
                }),
                _ => false,
            },
            forall|bytes: Seq<u8>|
                x@ == #[trigger] base64url(bytes) && bytes.len() == PUBLIC_KEY_LEN ==> r is Ok
                    && r->Ok_0@ == bytes,
    {
        PublicKey::from_decoded(decode(x))
    }

    /// The raw key.
    pub fn as_bytes(&self) -> (r: &[u8; 32])
        ensures
            r@ == self@,
    {
        &self.0
    }

    /// The id this key is published and referenced under.
    pub fn key_id(&self) -> (r: KeyId)
        ensures
            r@ == base64url(self@),
    {
        KeyId(encode(self.0.as_slice()))
    }

    /// This key as it is published.
    pub fn jwk(&self) -> (r: Jwk)
        ensures
            is_jwk(r, self@),
    {
        Jwk {
            kty: "OKP",
            crv: "Ed25519",
            alg: "EdDSA",
            usage: "sig",
            kid: encode(self.0.as_slice()),
            x: encode(self.0.as_slice()),
        }
    }
}

/// The key set a verifier fetches: one entry for each key, in order, and
/// nothing but public keys.
pub fn jwks(keys: &[PublicKey]) -> (r: Vec<Jwk>)
    ensures
        r@.len() == keys@.len(),
        forall|i: int| 0 <= i < r@.len() ==> is_jwk(#[trigger] r@[i], keys@[i]@),
{
    let mut out: Vec<Jwk> = Vec::new();
    for i in 0..keys.len()
        invariant
            out@.len() == i,
            forall|j: int| 0 <= j < i ==> is_jwk(#[trigger] out@[j], keys@[j]@),
    {
        out.push(keys[i].jwk());
    }
    out
}

proof fn lemma_base64url_char_injective(a: nat, b: nat)
    requires
        a < 64,
        b < 64,
        base64url_char(a) == base64url_char(b),
    ensures
        a == b,
{
}

/// Different keys have different key ids.
pub proof fn law_key_ids_are_distinct(a: Seq<u8>, b: Seq<u8>)
    requires
        a.len() == PUBLIC_KEY_LEN,
        b.len() == PUBLIC_KEY_LEN,
        base64url(a) == base64url(b),
    ensures
        a == b,
{
    assert forall|i: int| 0 <= i < 43 implies sextet(a, i) == #[trigger] sextet(b, i) by {
        assert(base64url(a).len() == 43 && base64url(b).len() == 43);
        assert(base64url(a)[i] == base64url_char(sextet(a, i)));
        assert(base64url(b)[i] == base64url_char(sextet(b, i)));
        lemma_base64url_char_injective(sextet(a, i), sextet(b, i));
    }
    assert forall|k: int| 0 <= k < 32 implies #[trigger] a[k] == b[k] by {
        let t = k / 3 * 4;
        assert(sextet(a, t) == sextet(b, t));
        assert(sextet(a, t + 1) == sextet(b, t + 1));
        assert(sextet(a, t + 2) == sextet(b, t + 2));
        assert(t / 4 * 3 == k / 3 * 3);
        assert((t + 1) / 4 * 3 == k / 3 * 3 && (t + 2) / 4 * 3 == k / 3 * 3);
        if k % 3 == 2 {
            assert(sextet(a, t + 3) == sextet(b, t + 3));
            assert((t + 3) / 4 * 3 == k / 3 * 3);
        }
    }
    assert(a =~= b);
}

} // verus!
