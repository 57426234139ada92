//! Pedersen commitment parameters over the Ristretto group.
//!
//! Group elements are held as their canonical 32-byte compressed encodings;
//! all group arithmetic is done by `curve25519_dalek`.

use curve25519_dalek::constants::RISTRETTO_BASEPOINT_COMPRESSED;
use curve25519_dalek::ristretto::{CompressedRistretto, RistrettoPoint};
use curve25519_dalek::scalar::Scalar;
use sha2::{Digest, Sha256, Sha512};
use vstd::prelude::*;

verus! {

/// The SHA-256 digest of a byte string.
pub uninterp spec fn sha256_of(data: Seq<u8>) -> Seq<u8>;

/// The compressed encoding of the Ristretto point that
/// `RistrettoPoint::hash_from_bytes::<Sha512>` derives from a byte string.
pub uninterp spec fn hash_to_point_of(data: Seq<u8>) -> Seq<u8>;

/// Whether 32 bytes are the canonical encoding of a Ristretto point.
pub uninterp spec fn decodes_of(bytes: Seq<u8>) -> bool;

/// The encoding of the point `p` times the scalar whose 32 little-endian
/// bytes are `s`, reduced modulo the group order.
pub uninterp spec fn scalar_mul_of(p: Seq<u8>, s: Seq<u8>) -> Seq<u8>;

/// The encoding of the sum of two points.
pub uninterp spec fn point_sum_of(a: Seq<u8>, b: Seq<u8>) -> Seq<u8>;

/// Relies on sha2's `Sha256::digest`: a 32-byte digest of the input.
#[verifier::external_body]
pub(crate) fn sha256(data: &[u8]) -> (r: [u8; 32])
    ensures
        r@ == sha256_of(data@),
{
    Sha256::digest(data).into()
}

/// Relies on curve25519_dalek's `RistrettoPoint::hash_from_bytes` (with
/// SHA-512) and `compress`: the encoding of the point derived from the input.
#[verifier::external_body]
fn hash_to_point(data: &[u8]) -> (r: [u8; 32])
    ensures
        r@ == hash_to_point_of(data@),
        decodes_of(r@),
{
    RistrettoPoint::hash_from_bytes::<Sha512>(data).compress().to_bytes()
}

/// The compressed encoding of the Ristretto base point.
pub open spec fn basepoint_encoding() -> Seq<u8> {
    seq![
        0xe2u8, 0xf2u8, 0xaeu8, 0x0au8, 0x6au8, 0xbcu8, 0x4eu8, 0x71u8,
        0xa8u8, 0x84u8, 0xa9u8, 0x61u8, 0xc5u8, 0x00u8, 0x51u8, 0x5fu8,
        0x58u8, 0xe3u8, 0x0bu8, 0x6au8, 0xa5u8, 0x82u8, 0xddu8, 0x8du8,
        0xb6u8, 0xa6u8, 0x59u8, 0x45u8, 0xe0u8, 0x8du8, 0x2du8, 0x76u8,
    ]
}

/// Relies on curve25519_dalek's `RISTRETTO_BASEPOINT_COMPRESSED`, whose bytes
/// the source lists.
#[verifier::external_body]
fn basepoint() -> (r: [u8; 32])
    ensures
        r@ == basepoint_encoding(),
        decodes_of(r@),
{
    RISTRETTO_BASEPOINT_COMPRESSED.to_bytes()
}

/// Relies on curve25519_dalek's `CompressedRistretto::decompress`: `Some`
/// exactly for the canonical encoding of a point.
#[verifier::external_body]
fn is_point_encoding(bytes: &[u8; 32]) -> (r: bool)
    ensures
        r == decodes_of(bytes@),
{
    CompressedRistretto(*bytes).decompress().is_some()
}

/// 32 zero bytes: the encoding of the identity point and of the zero scalar.
pub open spec fn zeros() -> Seq<u8> {
    Seq::new(32, |i: int| 0u8)
}

/// Relies on curve25519_dalek's `Scalar::from_bytes_mod_order` and Ristretto
/// scalar multiplication: the encoding of `p * s`, itself a point encoding;
/// the zero scalar gives the identity, which compresses to zeros.
#[verifier::external_body]
fn mul_point(p: &[u8; 32], s: &[u8; 32]) -> (r: [u8; 32])
    requires
        decodes_of(p@),
    ensures
        r@ == scalar_mul_of(p@, s@),
        decodes_of(r@),
        s@ == zeros() ==> r@ == zeros(),
{
    let p = CompressedRistretto(*p).decompress().unwrap();
    (p * Scalar::from_bytes_mod_order(*s)).compress().to_bytes()
}

/// The 32-byte little-endian scalar encoding of a value.
pub open spec fn scalar_bytes(v: u64) -> Seq<u8> {
    Seq::new(32, |i: int| if i < 8 { ((v >> ((8 * i) as u64)) & 0xff) as u8 } else { 0u8 })
}

/// The scalar encoding of `v`: its eight little-endian bytes, then zeros.
pub fn scalar_from_u64(v: u64) -> (r: [u8; 32])
    ensures
        r@ == scalar_bytes(v),
{
    let mut r = [0u8; 32];
    let mut i: usize = 0;
    while i < 8
        invariant
            i <= 8,
            forall|j: int| 0 <= j < i ==> r@[j] == scalar_bytes(v)[j],
            forall|j: int| i <= j < 32 ==> r@[j] == 0u8,
        decreases 8 - i,
    {
        let shift: u64 = (8 * i) as u64;
        r.set(i, ((v >> shift) & 0xff) as u8);
        i = i + 1;
    }
    assert(r@ =~= scalar_bytes(v));
    r
}

/// The encoding of `g * value + h * blinding`, the blinding read as a scalar
/// reduced modulo the group order.
pub open spec fn commitment_of(g: Seq<u8>, h: Seq<u8>, value: u64, blinding: Seq<u8>) -> Seq<u8> {
    point_sum_of(scalar_mul_of(g, scalar_bytes(value)), scalar_mul_of(h, blinding))
}

/// Relies on curve25519_dalek's Ristretto point addition: the encoding of the
/// sum, itself a point encoding; the identity plus itself is the identity.
#[verifier::external_body]
fn add_points(a: &[u8; 32], b: &[u8; 32]) -> (r: [u8; 32])
    requires
        decodes_of(a@),
        decodes_of(b@),
    ensures
        r@ == point_sum_of(a@, b@),
        decodes_of(r@),
        a@ == zeros() && b@ == zeros() ==> r@ == zeros(),
{
    let a = CompressedRistretto(*a).decompress().unwrap();
    let b = CompressedRistretto(*b).decompress().unwrap();
    (a + b).compress().to_bytes()
}

/// Whether two 32-byte strings are equal.
pub fn bytes_equal(a: &[u8; 32], b: &[u8; 32]) -> (r: bool)
    ensures
        r == (a@ == b@),
{
    let mut i: usize = 0;
    while i < 32
        invariant
            0 <= i <= 32,
            forall|j: int| 0 <= j < i ==> a@[j] == b@[j],
        decreases 32 - i,
    {
        if a[i] != b[i] {
            return false;
        }
        i = i + 1;
    }
    assert(a@ =~= b@);
    true
}

/// The domain separator hashed to derive the blinding generator.
pub open spec fn blinding_domain() -> Seq<u8> {
    seq![
        80u8, 101u8, 100u8, 101u8, 114u8, 115u8, 101u8, 110u8, 32u8,
        98u8, 108u8, 105u8, 110u8, 100u8, 105u8, 110u8, 103u8, 32u8,
        103u8, 101u8, 110u8, 101u8, 114u8, 97u8, 116u8, 111u8, 114u8,
    ]
}

/// The encoding of the blinding generator `h`: the point derived from the
/// SHA-256 digest of the domain separator.
pub open spec fn blinding_generator() -> Seq<u8> {
    hash_to_point_of(sha256_of(blinding_domain()))
}

/// Core cryptographic parameters for Pedersen commitments.
#[derive(Debug, Clone, Copy, PartialEq, Eq)]
pub struct PedersenParameters {
    /// Base generator point, compressed.
    pub g: [u8; 32],
    /// Blinding generator point, compressed.
    pub h: [u8; 32],
    /// Security parameter (e.g., 128 bits).
    pub lambda: u32,
}

impl PedersenParameters {

    /// Creates the Pedersen parameters for the security parameter `lambda`.
    pub fn new(lambda: u32) -> (r: Self)
        ensures
            r.g@ == basepoint_encoding(),
            r.h@ == blinding_generator(),
            r.lambda == lambda,
            r.wf(),
    {
        let domain: [u8; 27] = [
            80, 101, 100, 101, 114, 115, 101, 110, 32,
            98, 108, 105, 110, 100, 105, 110, 103, 32,
            103, 101, 110, 101, 114, 97, 116, 111, 114,
        ];
        assert(domain@ == blinding_domain());
        let seed = sha256(domain.as_slice());
        PedersenParameters { g: basepoint(), h: hash_to_point(seed.as_slice()), lambda }
    }

    /// Both generators are point encodings.
    pub open spec fn wf(&self) -> bool {
        decodes_of(self.g@) && decodes_of(self.h@)
    }

    /// Builds parameters from their serialised form, rejecting any generator
    /// that is not the canonical encoding of a point.
    pub fn from_serde(s: SerdePedersenParameters) -> (r: Result<Self, CommitmentError>)
        ensures
            r is Ok <==> decodes_of(s.g@) && decodes_of(s.h@),
            r is Err ==> r->Err_0 == CommitmentError::InvalidEncoding,
            r is Ok ==> r->Ok_0.g == s.g && r->Ok_0.h == s.h && r->Ok_0.lambda == s.lambda,
    {
        if is_point_encoding(&s.g) && is_point_encoding(&s.h) {
            Ok(PedersenParameters { g: s.g, h: s.h, lambda: s.lambda })
        } else {
            Err(CommitmentError::InvalidEncoding)
        }
    }

    /// Commits to `value` with the blinding factor `blinding`:
    /// `g * value + h * blinding`.
    pub fn commit(&self, value: u64, blinding: &[u8; 32]) -> (r: Commitment)
        requires
            self.wf(),
        ensures
            r.point@ == commitment_of(self.g@, self.h@, value, blinding@),
            r.wf(),
            value == 0 && blinding@ == zeros() ==> r.point@ == zeros(),
    {
        Commitment { point: self.commit_point(value, blinding) }
    }

    /// The encoding of `g * value + h * blinding`.
    fn commit_point(&self, value: u64, blinding: &[u8; 32]) -> (r: [u8; 32])
        requires
            self.wf(),
        ensures
            r@ == commitment_of(self.g@, self.h@, value, blinding@),
            decodes_of(r@),
            value == 0 && blinding@ == zeros() ==> r@ == zeros(),
    {
        let v = scalar_from_u64(value);
        proof {
            if value == 0 {
                assert forall|i: int| 0 <= i < 8 implies #[trigger] scalar_bytes(0)[i] == 0u8 by {
                    let s = (8 * i) as u64;
                    assert((0u64 >> s) & 0xff == 0) by (bit_vector);
                }
                assert(scalar_bytes(0) =~= zeros());
            }
        }
        let gv = mul_point(&self.g, &v);
        let hr = mul_point(&self.h, blinding);
        add_points(&gv, &hr)
    }

    /// Whether `commitment` opens to `value` with `blinding`.
    pub fn verify_opening(&self, commitment: &Commitment, value: u64, blinding: &[u8; 32]) -> (r: bool)
        requires
            self.wf(),
        ensures
            r == (commitment.point@ == commitment_of(self.g@, self.h@, value, blinding@)),
    {
        let expected = self.commit_point(value, blinding);
        bytes_equal(&commitment.point, &expected)
    }
}

impl Default for PedersenParameters {
    fn default() -> (r: Self)
        ensures
            r.g@ == basepoint_encoding(),
            r.h@ == blinding_generator(),
            r.lambda == 128,
            r.wf(),
    {
        Self::new(128)
    }
}

/// Serialize helper struct for PedersenParameters.
#[derive(Debug, Clone, Copy, PartialEq, Eq)]
pub struct SerdePedersenParameters {
    pub g: [u8; 32],
    pub h: [u8; 32],
    pub lambda: u32,
}

impl From<PedersenParameters> for SerdePedersenParameters {
    fn from(params: PedersenParameters) -> (r: Self)
        ensures
            r.g == params.g,
            r.h == params.h,
            r.lambda == params.lambda,
    {
        SerdePedersenParameters { g: params.g, h: params.h, lambda: params.lambda }
    }
}

impl vstd::std_specs::convert::FromSpecImpl<PedersenParameters> for SerdePedersenParameters {
    open spec fn obeys_from_spec() -> bool {
        true
    }

    open spec fn from_spec(params: PedersenParameters) -> Self {
        SerdePedersenParameters { g: params.g, h: params.h, lambda: params.lambda }
    }
}

/// Errors of the commitment layer.
#[derive(Debug, Clone, Copy, PartialEq, Eq, Structural)]
pub enum CommitmentError {
    /// Bytes that are not the canonical encoding of a point.
    InvalidEncoding,
}

/// A Pedersen commitment `g * value + h * blinding`, compressed.
#[derive(Debug, Clone, Copy, PartialEq, Eq)]
pub struct Commitment {
    pub point: [u8; 32],
}

impl Commitment {
    /// The point is a point encoding.
    pub open spec fn wf(&self) -> bool {
        decodes_of(self.point@)
    }

    /// Reads a commitment from its encoding, rejecting any that is not the
    /// canonical encoding of a point.
    pub fn from_bytes(bytes: [u8; 32]) -> (r: Result<Commitment, CommitmentError>)
        ensures
            r is Ok <==> decodes_of(bytes@),
            r is Ok ==> r->Ok_0.point == bytes,
            r is Err ==> r->Err_0 == CommitmentError::InvalidEncoding,
    {
        if is_point_encoding(&bytes) {
            Ok(Commitment { point: bytes })
        } else {
            Err(CommitmentError::InvalidEncoding)
        }
    }

    /// The sum of two commitments as group elements. Under the group law this
    /// commits to the sum of the values with the sum of the blindings; the
    /// contract states only that it is the sum of the two points.
    pub fn add(&self, other: &Commitment) -> (r: Commitment)
        requires
            self.wf(),
            other.wf(),
        ensures
            r.point@ == point_sum_of(self.point@, other.point@),
            r.wf(),
    {
        Commitment { point: add_points(&self.point, &other.point) }
    }
}

} // verus!
