//! Byte codecs for Groth16 artifacts over BN254.
//!
//! The wire layout is shared with external verifiers: curve points are
//! fixed-width big-endian encodings (64 bytes for G1, 128 for G2, 32 for a
//! scalar), and vectors are length-prefixed with a 4-byte big-endian count
//! followed by the concatenated fixed-width elements.  Decoding reads
//! sequentially and fails fast on truncated input; bytes past the encoded
//! payload are ignored, mirroring the sequential reader it round-trips
//! with.

use vstd::prelude::*;

use vstd::arithmetic::div_mod::{
    lemma_breakdown, lemma_fundamental_div_mod, lemma_small_mod,
};

use crate::tree::views_of;

verus! {

/// Size of a serialized BN254 G1 affine point (32 bytes x, 32 bytes y).
pub const BN254_G1_SERIALIZED_SIZE: usize = 64;

/// Size of a serialized BN254 G2 affine point (64 bytes x, 64 bytes y).
pub const BN254_G2_SERIALIZED_SIZE: usize = 128;

/// Size of a BN254 scalar field element.
pub const BN254_FR_SIZE: usize = 32;

/// Decoding errors of the byte codecs.
#[derive(Clone, Copy, Debug, PartialEq, Eq, PartialOrd, Ord, Structural)]
pub enum ZkError {
    MalformedVerificationKey,
    MalformedProof,
    MalformedPublicSignals,
    InvalidInputLength,
}

/// The unsigned 32-bit count held by four big-endian bytes.
pub open spec fn be32(s: Seq<u8>) -> nat
    recommends
        s.len() == 4,
{
    (s[0] as nat) * 0x1000000 + (s[1] as nat) * 0x10000 + (s[2] as nat) * 0x100 + (s[3] as nat)
}

/// The four bytes at `pos`, read as a big-endian 32-bit count.
pub open spec fn be32_at(bytes: Seq<u8>, pos: int) -> nat {
    be32(bytes.subrange(pos, pos + 4))
}

/// The four-byte big-endian encoding of a count below `2^32`.
pub open spec fn be32_bytes(n: nat) -> Seq<u8> {
    seq![
        ((n / 0x1000000) % 0x100) as u8,
        ((n / 0x10000) % 0x100) as u8,
        ((n / 0x100) % 0x100) as u8,
        (n % 0x100) as u8,
    ]
}

/// Encoding then decoding a count below `2^32` returns it: the four digits
/// reassemble to the original value.
pub proof fn lemma_be32_round_trip(n: nat)
    requires
        n < 0x100000000,
    ensures
        be32(be32_bytes(n)) == n,
{
    let b = be32_bytes(n);
    assert(n / 0x1000000 < 0x100) by (nonlinear_arith)
        requires
            n < 0x100000000,
    ;
    lemma_small_mod(n / 0x1000000, 0x100);
    lemma_breakdown(n as int, 0x10000, 0x100);
    lemma_breakdown(n as int, 0x100, 0x100);
    lemma_breakdown(n as int, 0x1000000, 0x100);
    lemma_fundamental_div_mod(n as int, 0x1000000);
    lemma_fundamental_div_mod(n as int, 0x10000);
    lemma_fundamental_div_mod(n as int, 0x100);
    assert((b[0] as nat) == n / 0x1000000);
    assert(be32(b) == n) by (nonlinear_arith)
        requires
            b[0] as nat == n / 0x1000000,
            b[1] as nat == (n / 0x10000) % 0x100,
            b[2] as nat == (n / 0x100) % 0x100,
            b[3] as nat == n % 0x100,
            n < 0x100000000,
    ;
}

/// Reads the four bytes at `pos` as a big-endian count.
pub(crate) fn be32_read(bytes: &[u8], pos: usize) -> (n: u32)
    requires
        pos + 4 <= bytes@.len(),
    ensures
        n as nat == be32_at(bytes@, pos as int),
{
    let n = (bytes[pos] as u32) * 0x1000000 + (bytes[pos + 1] as u32) * 0x10000 + (bytes[pos
        + 2] as u32) * 0x100 + (bytes[pos + 3] as u32);
    proof {
        let s = bytes@.subrange(pos as int, pos as int + 4);
        assert(s[0] == bytes@[pos as int]);
        assert(s[1] == bytes@[pos as int + 1]);
        assert(s[2] == bytes@[pos as int + 2]);
        assert(s[3] == bytes@[pos as int + 3]);
    }
    n
}

/// Appends the four-byte big-endian encoding of `n`.
fn be32_write(out: &mut Vec<u8>, n: u32)
    ensures
        final(out)@ == old(out)@ + be32_bytes(n as nat),
{
    out.push(((n / 0x1000000) % 0x100) as u8);
    out.push(((n / 0x10000) % 0x100) as u8);
    out.push(((n / 0x100) % 0x100) as u8);
    out.push((n % 0x100) as u8);
    proof {
        assert(final(out)@ =~= old(out)@ + be32_bytes(n as nat));
    }
}

/// Appends a fixed-width value to the output.
fn push_bytes<const N: usize>(out: &mut Vec<u8>, src: &[u8; N])
    ensures
        final(out)@ == old(out)@ + src@,
{
    let mut i: usize = 0;
    while i < N
        invariant
            i <= N,
            out@ == old(out)@ + src@.take(i as int),
        decreases N - i,
    {
        out.push(src[i]);
        i = i + 1;
    }
    proof {
        assert(src@.take(N as int) =~= src@);
    }
}

/// Copies the `N` bytes at `pos` out of the input.
pub(crate) fn read_bytes<const N: usize>(bytes: &[u8], pos: usize) -> (r: [u8; N])
    requires
        pos + N <= bytes@.len(),
    ensures
        r@ == bytes@.subrange(pos as int, pos as int + N),
{
    let n = bytes.len();
    let mut out: [u8; N] = [0u8; N];
    let mut i: usize = 0;
    while i < N
        invariant
            i <= N,
            pos + N <= n,
            n == bytes@.len(),
            out@.len() == N,
            forall|k: int| 0 <= k < i ==> out@[k] == bytes@[pos + k],
        decreases N - i,
    {
        out[i] = bytes[pos + i];
        i = i + 1;
    }
    proof {
        assert(out@ =~= bytes@.subrange(pos as int, pos as int + N));
    }
    out
}

/// A Groth16 verification key over BN254, in wire form: the points from the
/// trusted setup and the G1 points for the public-input linear combination.
pub struct VerificationKeyBN254 {
    pub alpha: [u8; 64],
    pub beta: [u8; 128],
    pub gamma: [u8; 128],
    pub delta: [u8; 128],
    pub ic: Vec<[u8; 64]>,
}

/// Whether `bytes` carries a well-formed verification key: the fixed header
/// of four points, the count, and that many further G1 points.
pub open spec fn vk_wire_ok(bytes: Seq<u8>) -> bool {
    bytes.len() >= 452 && bytes.len() >= 452 + 64 * be32_at(bytes, 448)
}

impl VerificationKeyBN254 {
    /// The serialized form: the four setup points, then the length-prefixed
    /// `ic` vector.
    pub open spec fn bytes_spec(self) -> Seq<u8> {
        self.alpha@ + self.beta@ + self.gamma@ + self.delta@ + be32_bytes(self.ic@.len() as nat)
            + views_of(self.ic@).flatten()
    }

    /// Serializes the key.
    pub fn to_bytes(&self) -> (r: Vec<u8>)
        requires
            self.ic@.len() < 0x100000000,
        ensures
            r@ == self.bytes_spec(),
    {
        let mut bytes: Vec<u8> = Vec::new();
        push_bytes(&mut bytes, &self.alpha);
        push_bytes(&mut bytes, &self.beta);
        push_bytes(&mut bytes, &self.gamma);
        push_bytes(&mut bytes, &self.delta);
        let ic_len = self.ic.len() as u32;
        be32_write(&mut bytes, ic_len);
        let ghost prefix = bytes@;
        let mut i: usize = 0;
        while i < self.ic.len()
            invariant
                i <= self.ic@.len(),
                bytes@ == prefix + views_of(self.ic@.take(i as int)).flatten(),
            decreases self.ic@.len() - i,
        {
            proof {
                let taken = views_of(self.ic@.take(i as int));
                taken.lemma_flatten_push(self.ic@[i as int]@);
                assert(views_of(self.ic@.take(i as int + 1)) =~= taken.push(
                    self.ic@[i as int]@,
                ));
            }
            push_bytes(&mut bytes, &self.ic[i]);
            i = i + 1;
        }
        proof {
            assert(self.ic@.take(self.ic@.len() as int) =~= self.ic@);
        }
        bytes
    }

    /// Parses a verification key.  Returns `InvalidInputLength` exactly when
    /// the input is too short for the header or for the announced number of
    /// `ic` points; bytes past the payload are ignored.
    pub fn from_bytes(bytes: &[u8]) -> (r: Result<Self, ZkError>)
        ensures
            match r {
                Ok(vk) => {
                    &&& vk_wire_ok(bytes@)
                    &&& vk.alpha@ == bytes@.subrange(0, 64)
                    &&& vk.beta@ == bytes@.subrange(64, 192)
                    &&& vk.gamma@ == bytes@.subrange(192, 320)
                    &&& vk.delta@ == bytes@.subrange(320, 448)
                    &&& vk.ic@.len() == be32_at(bytes@, 448)
                    &&& forall|i: int|
                        0 <= i < vk.ic@.len() ==> (#[trigger] vk.ic@[i])@ == bytes@.subrange(
                            452 + 64 * i,
                            516 + 64 * i,
                        )
                },
                Err(e) => !vk_wire_ok(bytes@) && e == ZkError::InvalidInputLength,
            },
    {
        let mut pos: usize = 0;
        if bytes.len() < 64 {
            return Err(ZkError::InvalidInputLength);
        }
        let alpha = read_bytes::<64>(bytes, pos);
        pos = pos + 64;
        if bytes.len() - pos < 128 {
            return Err(ZkError::InvalidInputLength);
        }
        let beta = read_bytes::<128>(bytes, pos);
        pos = pos + 128;
        if bytes.len() - pos < 128 {
            return Err(ZkError::InvalidInputLength);
        }
        let gamma = read_bytes::<128>(bytes, pos);
        pos = pos + 128;
        if bytes.len() - pos < 128 {
            return Err(ZkError::InvalidInputLength);
        }
        let delta = read_bytes::<128>(bytes, pos);
        pos = pos + 128;
        if bytes.len() - pos < 4 {
            return Err(ZkError::InvalidInputLength);
        }
        let ic_len = be32_read(bytes, pos);
        pos = pos + 4;
        let mut ic: Vec<[u8; 64]> = Vec::new();
        let mut i: u32 = 0;
        while i < ic_len
            invariant
                i <= ic_len,
                pos == 452 + 64 * (i as int),
                pos <= bytes@.len(),
                bytes@.len() >= 452,
                ic_len as nat == be32_at(bytes@, 448),
                ic@.len() == i as int,
                forall|k: int|
                    0 <= k < ic@.len() ==> (#[trigger] ic@[k])@ == bytes@.subrange(
                        452 + 64 * k,
                        516 + 64 * k,
                    ),
            decreases ic_len - i,
        {
            if bytes.len() - pos < 64 {
                return Err(ZkError::InvalidInputLength);
            }
            ic.push(read_bytes::<64>(bytes, pos));
            pos = pos + 64;
            i = i + 1;
        }
        Ok(VerificationKeyBN254 { alpha, beta, gamma, delta, ic })
    }
}

/// The serialized key announces exactly its own `ic` count: the four count
/// bytes written by `to_bytes` decode back to the vector's length, so a
/// parse of the serialization walks precisely the points that were written.
pub proof fn lemma_vk_count_round_trip(vk: VerificationKeyBN254)
    requires
        vk.ic@.len() < 0x100000000,
    ensures
        vk.bytes_spec().len() == 452 + 64 * vk.ic@.len(),
        be32_at(vk.bytes_spec(), 448) == vk.ic@.len(),
        vk_wire_ok(vk.bytes_spec()),
    decreases vk.ic@.len(),
{
    let s = vk.bytes_spec();
    let ic_views = views_of(vk.ic@);
    assert(ic_views.flatten().len() == 64 * vk.ic@.len()) by {
        lemma_flatten_len_uniform(ic_views, 64);
    }
    assert(s.subrange(448, 452) =~= be32_bytes(vk.ic@.len() as nat));
    lemma_be32_round_trip(vk.ic@.len() as nat);
}

/// Flattening a sequence of equal-length pieces multiplies the length.
proof fn lemma_flatten_len_uniform(pieces: Seq<Seq<u8>>, width: nat)
    requires
        forall|i: int| 0 <= i < pieces.len() ==> (#[trigger] pieces[i]).len() == width,
    ensures
        pieces.flatten().len() == width * pieces.len(),
    decreases pieces.len(),
{
    reveal(Seq::flatten);
    if pieces.len() == 0 {
    } else {
        lemma_flatten_len_uniform(pieces.drop_first(), width);
        assert(pieces.flatten() == pieces.first() + pieces.drop_first().flatten());
        assert(width * pieces.len() == width + width * (pieces.len() - 1))
            by (nonlinear_arith);
    }
}

/// A Groth16 proof over BN254, in wire form: the points `a`, `b`, `c`.
pub struct ProofBN254 {
    pub a: [u8; 64],
    pub b: [u8; 128],
    pub c: [u8; 64],
}

impl ProofBN254 {
    /// The serialized form: the three points, concatenated.
    pub open spec fn bytes_spec(self) -> Seq<u8> {
        self.a@ + self.b@ + self.c@
    }

    /// Serializes the proof.
    pub fn to_bytes(&self) -> (r: Vec<u8>)
        ensures
            r@ == self.bytes_spec(),
    {
        let mut bytes: Vec<u8> = Vec::new();
        push_bytes(&mut bytes, &self.a);
        push_bytes(&mut bytes, &self.b);
        push_bytes(&mut bytes, &self.c);
        bytes
    }

    /// Parses a proof.  Returns `MalformedProof` exactly when fewer than the
    /// 256 payload bytes are present; bytes past the payload are ignored.
    pub fn from_bytes(bytes: &[u8]) -> (r: Result<Self, ZkError>)
        ensures
            match r {
                Ok(p) => {
                    &&& bytes@.len() >= 256
                    &&& p.a@ == bytes@.subrange(0, 64)
                    &&& p.b@ == bytes@.subrange(64, 192)
                    &&& p.c@ == bytes@.subrange(192, 256)
                },
                Err(e) => bytes@.len() < 256 && e == ZkError::MalformedProof,
            },
    {
        let mut pos: usize = 0;
        if bytes.len() < 64 {
            return Err(ZkError::MalformedProof);
        }
        let a = read_bytes::<64>(bytes, pos);
        pos = pos + 64;
        if bytes.len() - pos < 128 {
            return Err(ZkError::MalformedProof);
        }
        let b = read_bytes::<128>(bytes, pos);
        pos = pos + 128;
        if bytes.len() - pos < 64 {
            return Err(ZkError::MalformedProof);
        }
        let c = read_bytes::<64>(bytes, pos);
        Ok(ProofBN254 { a, b, c })
    }
}

/// Decoding the serialization of a proof recovers it, field for field.
pub proof fn lemma_proof_codec_round_trip(p: ProofBN254)
    ensures
        p.bytes_spec().len() == 256,
        p.bytes_spec().subrange(0, 64) == p.a@,
        p.bytes_spec().subrange(64, 192) == p.b@,
        p.bytes_spec().subrange(192, 256) == p.c@,
{
    let s = p.bytes_spec();
    assert(s.subrange(0, 64) =~= p.a@);
    assert(s.subrange(64, 192) =~= p.b@);
    assert(s.subrange(192, 256) =~= p.c@);
}

/// Public signals for proof verification: a vector of 32-byte scalars.
pub struct PublicSignalsBN254 {
    pub signals: Vec<[u8; 32]>,
}

impl PublicSignalsBN254 {
    /// Wraps a vector of 32-byte scalars.
    pub fn new(signals: Vec<[u8; 32]>) -> (r: Self)
        ensures
            r.signals == signals,
    {
        Self { signals }
    }

    /// The serialized form: the length-prefixed scalar vector.
    pub open spec fn bytes_spec(self) -> Seq<u8> {
        be32_bytes(self.signals@.len() as nat) + views_of(self.signals@).flatten()
    }

    /// Serializes the signals.
    pub fn to_bytes(&self) -> (r: Vec<u8>)
        requires
            self.signals@.len() < 0x100000000,
        ensures
            r@ == self.bytes_spec(),
    {
        let mut bytes: Vec<u8> = Vec::new();
        let len = self.signals.len() as u32;
        be32_write(&mut bytes, len);
        let ghost prefix = bytes@;
        let mut i: usize = 0;
        while i < self.signals.len()
            invariant
                i <= self.signals@.len(),
                bytes@ == prefix + views_of(self.signals@.take(i as int)).flatten(),
            decreases self.signals@.len() - i,
        {
            proof {
                let taken = views_of(self.signals@.take(i as int));
                taken.lemma_flatten_push(self.signals@[i as int]@);
                assert(views_of(self.signals@.take(i as int + 1)) =~= taken.push(
                    self.signals@[i as int]@,
                ));
            }
            push_bytes(&mut bytes, &self.signals[i]);
            i = i + 1;
        }
        proof {
            assert(self.signals@.take(self.signals@.len() as int) =~= self.signals@);
        }
        bytes
    }

    /// Parses public signals.  Returns `MalformedPublicSignals` exactly when
    /// the input is too short for the count or for the announced number of
    /// scalars; bytes past the payload are ignored.
    pub fn from_bytes(bytes: &[u8]) -> (r: Result<Self, ZkError>)
        ensures
            match r {
                Ok(ps) => {
                    &&& bytes@.len() >= 4
                    &&& ps.signals@.len() == be32_at(bytes@, 0)
                    &&& bytes@.len() >= 4 + 32 * ps.signals@.len()
                    &&& forall|i: int|
                        0 <= i < ps.signals@.len() ==> (#[trigger] ps.signals@[i])@ == bytes@
                            .subrange(4 + 32 * i, 36 + 32 * i)
                },
                Err(e) => {
                    &&& (bytes@.len() < 4 || bytes@.len() < 4 + 32 * be32_at(bytes@, 0))
                    &&& e == ZkError::MalformedPublicSignals
                },
            },
    {
        if bytes.len() < 4 {
            return Err(ZkError::MalformedPublicSignals);
        }
        let len = be32_read(bytes, 0);
        let mut pos: usize = 4;
        let mut signals: Vec<[u8; 32]> = Vec::new();
        let mut i: u32 = 0;
        while i < len
            invariant
                i <= len,
                pos == 4 + 32 * (i as int),
                pos <= bytes@.len(),
                bytes@.len() >= 4,
                len as nat == be32_at(bytes@, 0),
                signals@.len() == i as int,
                forall|k: int|
                    0 <= k < signals@.len() ==> (#[trigger] signals@[k])@ == bytes@.subrange(
                        4 + 32 * k,
                        36 + 32 * k,
                    ),
            decreases len - i,
        {
            if bytes.len() - pos < 32 {
                return Err(ZkError::MalformedPublicSignals);
            }
            signals.push(read_bytes::<32>(bytes, pos));
            pos = pos + 32;
            i = i + 1;
        }
        Ok(PublicSignalsBN254 { signals })
    }

    /// The number of signals.
    pub fn len(&self) -> (n: u32)
        requires
            self.signals@.len() <= u32::MAX as nat,
        ensures
            n as nat == self.signals@.len(),
    {
        self.signals.len() as u32
    }

    /// Whether no signal is present.
    pub fn is_empty(&self) -> (b: bool)
        ensures
            b == (self.signals@.len() == 0),
    {
        self.signals.len() == 0
    }

    /// The signal at `index`, if present.
    pub fn get(&self, index: u32) -> (r: Option<[u8; 32]>)
        ensures
            match r {
                Some(s) => index < self.signals@.len() && s == self.signals@[index as int],
                None => index >= self.signals@.len(),
            },
    {
        if (index as u64) < self.signals.len() as u64 {
            Some(self.signals[index as usize])
        } else {
            None
        }
    }
}

/// The canonical encoding of the zero scalar: 32 zero bytes.
pub fn zero_scalar() -> (r: [u8; 32])
    ensures
        r@ == crate::tree::zero32(),
{
    let r = [0u8; 32];
    proof {
        assert(r@ =~= crate::tree::zero32());
    }
    r
}

} // verus!
