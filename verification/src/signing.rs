//! Signing of firmware images for the bootloader: the key pair of a project
//! kept consistent on disk, the signature of an image (the SHA-512 of its
//! bytes, signed with Ed25519), and the check that what is signed is a raw
//! image rather than an ELF file.

use vstd::prelude::*;
use vstd::string::StringSliceAdditionalSpecFns;
use crate::bytes::{push_all, starts_with, starts_with_exec, eq_bytes};

verus! {

/// The SHA-512 digest of `data`.
pub uninterp spec fn sha512_of(data: Seq<u8>) -> Seq<u8>;

/// The Ed25519 public key that the 32-byte secret seed `seed` expands to.
pub uninterp spec fn ed25519_public_key(seed: Seq<u8>) -> Seq<u8>;

/// The Ed25519 signature of `message` under the key pair of `seed`.
pub uninterp spec fn ed25519_signature(seed: Seq<u8>, message: Seq<u8>) -> Seq<u8>;

/// SHA-512 of `data`, by `salty::Sha512` (`new`, `updated`, `finalize`): the
/// contract says that the digest is the one the name `sha512_of` gives for
/// these bytes; what that digest is, is not stated.
#[verifier::external_body]
fn sha512_digest(data: &[u8]) -> (r: [u8; 64])
    ensures
        r@ == sha512_of(data@),
{
    salty::Sha512::new().updated(data).finalize()
}

/// The public key of the pair `salty::Keypair::from(seed)` builds, as
/// `PublicKey::to_bytes` gives it: the contract ties it to the seed alone,
/// by the name `ed25519_public_key`.
#[verifier::external_body]
fn keypair_public(seed: &[u8; 32]) -> (r: [u8; 32])
    ensures
        r@ == ed25519_public_key(seed@),
{
    salty::Keypair::from(seed).public.to_bytes()
}

/// `Keypair::sign` of `salty` on `message` with the pair of `seed`, as
/// `Signature::to_bytes` gives it. Ed25519 signing is deterministic: the
/// contract ties the signature to the seed and the message, by the name
/// `ed25519_signature`.
#[verifier::external_body]
fn keypair_sign(seed: &[u8; 32], message: &[u8]) -> (r: [u8; 64])
    ensures
        r@ == ed25519_signature(seed@, message@),
{
    salty::Keypair::from(seed).sign(message).to_bytes()
}

/// The error of the operating system's source of randomness.
#[verifier::external_type_specification]
#[verifier::external_body]
pub struct ExRandomError(getrandom::Error);

/// `getrandom::fill`: fills `dest` with bytes from the operating system's
/// source of randomness. What the bytes are, and whether the call succeeds,
/// is up to the system: nothing is stated of either.
#[verifier::external_body]
fn fill_random(dest: &mut [u8; 32]) -> (r: Result<(), getrandom::Error>) {
    getrandom::fill(dest)
}

/// The operating system gave no random bytes.
#[derive(Debug)]
pub struct NoRandomness(pub getrandom::Error);

/// A key pair for signing images: the secret seed and its public key.
#[derive(Clone, Copy, Debug)]
pub struct KeyPair {
    pub seed: [u8; 32],
    pub public: [u8; 32],
}

/// A new key pair: a seed of 32 random bytes from the operating system, and
/// the public key it expands to. Whatever the system gives, the pair is
/// consistent: the public key is the seed's.
pub fn new_key_pair() -> (r: Result<KeyPair, NoRandomness>)
    ensures
        r matches Ok(p) ==> p.public@ == ed25519_public_key(p.seed@),
{
    let mut seed = [0u8; 32];
    match fill_random(&mut seed) {
        Ok(()) => {
            let public = keypair_public(&seed);
            Ok(KeyPair { seed, public })
        },
        Err(e) => Err(NoRandomness(e)),
    }
}

/// The public key that a device checks images with, for the secret seed.
pub fn public_key_of(seed: &[u8; 32]) -> (r: [u8; 32])
    ensures
        r@ == ed25519_public_key(seed@),
{
    keypair_public(seed)
}

/// The signature of an image as the bootloader checks it: the SHA-512 of
/// the image's bytes, signed with the key pair of `seed`.
pub fn image_signature(image: &[u8], seed: &[u8; 32]) -> (r: [u8; 64])
    ensures
        r@ == ed25519_signature(seed@, sha512_of(image@)),
{
    let digest = sha512_digest(image);
    keypair_sign(seed, digest.as_slice())
}

/// Whether the stored public key is the one that the seed expands to.
pub fn public_key_matches(stored: &[u8], seed: &[u8; 32]) -> (r: bool)
    ensures
        r == (stored@ == ed25519_public_key(seed@)),
{
    let public = keypair_public(seed);
    eq_bytes(stored, public.as_slice())
}

/// The 32-byte secret seed that a key file holds; `None` unless it holds
/// exactly 32 bytes.
pub fn seed_from_bytes(bytes: &[u8]) -> (r: Option<[u8; 32]>)
    ensures
        match r {
            Some(s) => bytes@.len() == 32 && s@ == bytes@,
            None => bytes@.len() != 32,
        },
{
    if bytes.len() != 32 {
        return None;
    }
    let mut seed = [0u8; 32];
    let mut i: usize = 0;
    while i < 32
        invariant
            0 <= i <= 32,
            bytes@.len() == 32,
            seed@.len() == 32,
            forall|k: int| 0 <= k < i ==> seed@[k] == bytes@[k],
        decreases 32 - i,
    {
        seed[i] = bytes[i];
        i = i + 1;
    }
    assert(seed@ =~= bytes@);
    Some(seed)
}

/// What to do with the key files of a project before a signed build.
#[derive(Clone, Copy, Debug, PartialEq, Eq, Structural)]
pub enum KeyAction {
    /// Neither file is there: make a new pair.
    CreatePair,
    /// Only the public key is there: refuse, since a new pair would be a new
    /// root of trust that no flashed device accepts.
    RefuseWithoutPrivate,
    /// Only the secret key is there: write the public key it expands to.
    RestorePublic,
    /// Both are there: check that the public key is the secret one's.
    CheckPublic,
}

/// The action for the key files that exist: a pair is made only when
/// neither file is there, and never when only the public key is.
pub fn key_action(private_exists: bool, public_exists: bool) -> (r: KeyAction)
    ensures
        r == (if !private_exists {
            if public_exists { KeyAction::RefuseWithoutPrivate } else { KeyAction::CreatePair }
        } else if public_exists {
            KeyAction::CheckPublic
        } else {
            KeyAction::RestorePublic
        }),
        r == KeyAction::CreatePair <==> (!private_exists && !public_exists),
{
    if !private_exists {
        if public_exists {
            KeyAction::RefuseWithoutPrivate
        } else {
            KeyAction::CreatePair
        }
    } else if public_exists {
        KeyAction::CheckPublic
    } else {
        KeyAction::RestorePublic
    }
}

/// Why a file cannot be signed as a raw image.
#[derive(Clone, Copy, Debug, PartialEq, Eq, Structural)]
pub enum RawImageError {
    Empty,
    /// The file starts with the ELF magic: it holds sections and symbols that
    /// never reach the flash.
    Elf,
}

pub open spec fn elf_magic() -> Seq<u8> {
    seq![0x7Fu8, 0x45u8, 0x4Cu8, 0x46u8]
}

/// Checks that `bytes` can be signed as a raw image: not empty, not an ELF
/// file.
pub fn check_raw_image(bytes: &[u8]) -> (r: Result<(), RawImageError>)
    ensures
        r == (if bytes@.len() == 0 {
            Err(RawImageError::Empty)
        } else if starts_with(bytes@, elf_magic()) {
            Err(RawImageError::Elf)
        } else {
            Ok(())
        }),
{
    if bytes.len() == 0 {
        return Err(RawImageError::Empty);
    }
    let magic: [u8; 4] = [0x7F, 0x45, 0x4C, 0x46];
    assert(magic@ =~= elf_magic());
    if starts_with_exec(bytes, magic.as_slice()) {
        Err(RawImageError::Elf)
    } else {
        Ok(())
    }
}

/// Upper-case hex digit.
pub open spec fn hex_digit_upper(d: int) -> u8 {
    if d < 10 { (0x30 + d) as u8 } else { (0x41 + d - 10) as u8 }
}

/// `0xHH,` for a byte.
pub open spec fn byte_literal(b: u8) -> Seq<u8> {
    seq![0x30u8, 0x78u8, hex_digit_upper((b / 16) as int), hex_digit_upper((b % 16) as int), 0x2Cu8]
}

/// The row of the key from byte `from` to `to`: the literals joined by
/// spaces.
pub open spec fn key_row(key: Seq<u8>, from: int, to: int) -> Seq<u8>
    decreases to - from,
{
    if to <= from {
        Seq::empty()
    } else if to == from + 1 {
        byte_literal(key[from])
    } else {
        key_row(key, from, to - 1) + seq![0x20u8] + byte_literal(key[to - 1])
    }
}

/// The rows of the key from row `n` on, eight bytes each, indented.
pub open spec fn key_rows(key: Seq<u8>, n: int) -> Seq<u8>
    decreases key.len() + 8 - 8 * n,
{
    if n < 0 || 8 * n >= key.len() {
        Seq::empty()
    } else {
        let to = if 8 * n + 8 <= key.len() { 8 * n + 8 } else { key.len() as int };
        "    ".spec_bytes() + key_row(key, 8 * n, to) + "\n".spec_bytes() + key_rows(key, n + 1)
    }
}

/// The public key as a Rust constant to paste into the firmware.
pub open spec fn public_key_listing_text(key: Seq<u8>) -> Seq<u8> {
    "pub const PUBLIC_KEY: [u8; 32] = [\n".spec_bytes() + key_rows(key, 0) + "];\n".spec_bytes()
}

fn push_byte_literal(out: &mut Vec<u8>, b: u8)
    ensures
        final(out)@ == old(out)@ + byte_literal(b),
{
    let hi = b / 16;
    let lo = b % 16;
    let ghost start = out@;
    out.push(0x30);
    out.push(0x78);
    out.push(if hi < 10 { 0x30 + hi } else { 0x41 + hi - 10 });
    out.push(if lo < 10 { 0x30 + lo } else { 0x41 + lo - 10 });
    out.push(0x2C);
    assert(out@ =~= start + byte_literal(b));
}

/// Writes the public key as the constant `PUBLIC_KEY`, eight `0xHH,` per row.
pub fn public_key_listing(key: &[u8]) -> (r: Vec<u8>)
    requires
        key@.len() <= usize::MAX / 2,
    ensures
        r@ == public_key_listing_text(key@),
{
    let mut out: Vec<u8> = Vec::new();
    push_all(&mut out, "pub const PUBLIC_KEY: [u8; 32] = [\n".as_bytes());
    let ghost head = out@;
    let mut n: usize = 0;
    let mut rows_done: Vec<u8> = Vec::new();
    while 8 * n < key.len()
        invariant
            key@.len() <= usize::MAX / 2,
            8 * n <= key@.len() + 7,
            key_rows(key@, 0) == rows_done@ + key_rows(key@, n as int),
        decreases key@.len() + 8 - 8 * n,
    {
        let from: usize = 8 * n;
        let to: usize = if from + 8 <= key.len() { from + 8 } else { key.len() };
        let ghost before = rows_done@;
        push_all(&mut rows_done, "    ".as_bytes());
        let ghost row_start = rows_done@;
        let mut k: usize = from;
        while k < to
            invariant
                from <= k <= to,
                to <= key@.len(),
                from < to,
                rows_done@ == row_start + key_row(key@, from as int, k as int),
            decreases to - k,
        {
            if k > from {
                rows_done.push(0x20);
            }
            push_byte_literal(&mut rows_done, key[k]);
            assert(rows_done@ =~= row_start + key_row(key@, from as int, k + 1));
            k = k + 1;
        }
        push_all(&mut rows_done, "\n".as_bytes());
        assert(rows_done@ =~= before + ("    ".spec_bytes() + key_row(key@, from as int, to as int)
            + "\n".spec_bytes()));
        n = n + 1;
    }
    push_all(&mut out, rows_done.as_slice());
    push_all(&mut out, "];\n".as_bytes());
    assert(key_rows(key@, n as int) =~= Seq::<u8>::empty());
    assert(out@ =~= public_key_listing_text(key@));
    out
}

} // verus!
