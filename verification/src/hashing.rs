//! Content fingerprints: a file's bytes streamed through one of three hash
//! algorithms.
//!
//! The hash functions themselves are those of the `sha2`, `blake3` and
//! `twox-hash` crates. Their results are named here, not defined: the
//! contracts say which bytes reach which function, and in what order.

use vstd::bytes::*;
use vstd::prelude::*;
use vstd::slice::*;

verus! {

/// The hash algorithm that a run fingerprints its files with.
#[derive(Clone, Copy, Debug, PartialEq, Eq, Structural)]
pub enum HashAlgo {
    /// SHA-256: cryptographic, 32-byte digest.
    Sha256,
    /// BLAKE3: cryptographic, 32-byte digest.
    Blake3,
    /// XXH64 with seed 0: fast, not cryptographic, 8-byte digest.
    XxHash,
}

/// Why a file has no fingerprint.
#[derive(Clone, Copy, Debug, PartialEq, Eq, Structural)]
pub enum HashError {
    /// The file could not be opened, or a read failed part-way.
    Io,
    /// The content is longer than `MAX_INPUT_LEN` bytes.
    TooLong,
}

/// The reference size of one read, in bytes. It affects speed only.
pub const CHUNK_SIZE: usize = 8192;

/// The longest content, in bytes, that every algorithm here accepts: SHA-256
/// counts its input in bits, in 64 of them.
pub const MAX_INPUT_LEN: u64 = 0x1fff_ffff_ffff_ffff;

/// The seed that the XXH64 fingerprints are computed with.
pub const XXH64_SEED: u64 = 0;

// ---------------------------------------------------------------------------
// The outside hashers
// ---------------------------------------------------------------------------

/// A running SHA-256 computation of the `sha2` crate. `sha2::Sha256` is an
/// alias of a nest of generic types, which Verus does not take as it is, so
/// the hasher is kept in a struct that Verus does not look into. It is only
/// ever made by `sha256_new` and fed by `sha256_update`.
#[verifier::external_body]
pub struct Sha256State {
    inner: sha2::Sha256,
}

/// `blake3::Hasher`, the incremental BLAKE3 hasher, as an opaque value.
#[verifier::external_type_specification]
#[verifier::external_body]
pub struct ExBlake3Hasher(blake3::Hasher);

/// `twox_hash::XxHash64`, the incremental XXH64 hasher, as an opaque value.
#[verifier::external_type_specification]
#[verifier::external_body]
pub struct ExXxHash64(twox_hash::XxHash64);

/// The bytes that a SHA-256 computation has taken in so far, in order.
pub uninterp spec fn sha256_absorbed(h: Sha256State) -> Seq<u8>;

/// The SHA-256 digest of `data`, as `sha2` computes it.
pub uninterp spec fn sha256_digest(data: Seq<u8>) -> Seq<u8>;

/// The bytes that a BLAKE3 hasher has taken in so far, in order.
pub uninterp spec fn blake3_absorbed(h: blake3::Hasher) -> Seq<u8>;

/// Whether a BLAKE3 hasher computes the regular hash function from the start
/// of its input: made by `Hasher::new`, with no key, context or input offset.
pub uninterp spec fn blake3_regular(h: blake3::Hasher) -> bool;

/// The BLAKE3 hash of `data`, as the regular hash function of `blake3`
/// computes it.
pub uninterp spec fn blake3_digest(data: Seq<u8>) -> Seq<u8>;

/// The bytes that an XXH64 hasher has taken in so far, in order.
pub uninterp spec fn xxh64_absorbed(h: twox_hash::XxHash64) -> Seq<u8>;

/// The seed that an XXH64 hasher was made with.
pub uninterp spec fn xxh64_seed(h: twox_hash::XxHash64) -> u64;

/// The XXH64 hash of `data` under `seed`, as `twox-hash` computes it.
pub uninterp spec fn xxh64_digest(seed: u64, data: Seq<u8>) -> u64;

/// `sha2::Digest::new` for `Sha256`: a computation that has taken in nothing.
#[verifier::external_body]
fn sha256_new() -> (h: Sha256State)
    ensures
        sha256_absorbed(h) == Seq::<u8>::empty(),
{
    Sha256State { inner: <sha2::Sha256 as sha2::Digest>::new() }
}

/// `sha2::Digest::update`: the computation takes in `data` after what it had.
/// The bound keeps the crate's block counter from overflowing.
#[verifier::external_body]
fn sha256_update(h: &mut Sha256State, data: &[u8])
    requires
        sha256_absorbed(*old(h)).len() + data@.len() <= MAX_INPUT_LEN,
    ensures
        sha256_absorbed(*final(h)) == sha256_absorbed(*old(h)) + data@,
{
    sha2::Digest::update(&mut h.inner, data)
}

/// `sha2::Digest::finalize`, copied into a vector: the 32-byte digest of all
/// that was taken in. The bound keeps the length in bits within 64 bits, which
/// the crate multiplies out without a check.
#[verifier::external_body]
fn sha256_finalize(h: Sha256State) -> (d: Vec<u8>)
    requires
        sha256_absorbed(h).len() <= MAX_INPUT_LEN,
    ensures
        d@ == sha256_digest(sha256_absorbed(h)),
        d@.len() == 32,
{
    sha2::Digest::finalize(h.inner).to_vec()
}

/// `blake3::Hasher::new`: a hasher for the regular hash function that has
/// taken in nothing.
#[verifier::external_body]
fn blake3_new() -> (h: blake3::Hasher)
    ensures
        blake3_regular(h),
        blake3_absorbed(h) == Seq::<u8>::empty(),
{
    blake3::Hasher::new()
}

/// `blake3::Hasher::update`: the hasher takes in `data` after what it had, and
/// stays a hasher for the regular function. A hasher with an input offset
/// panics on some lengths; a regular one has none.
#[verifier::external_body]
fn blake3_update(h: &mut blake3::Hasher, data: &[u8])
    requires
        blake3_regular(*old(h)),
        blake3_absorbed(*old(h)).len() + data@.len() <= MAX_INPUT_LEN,
    ensures
        blake3_regular(*final(h)),
        blake3_absorbed(*final(h)) == blake3_absorbed(*old(h)) + data@,
{
    h.update(data);
}

/// `blake3::Hasher::finalize` and `Hash::as_bytes`, copied into a vector: the
/// 32-byte hash of all that was taken in. Finalizing a hasher with an input
/// offset panics; a regular one has none.
#[verifier::external_body]
fn blake3_finalize(h: &blake3::Hasher) -> (d: Vec<u8>)
    requires
        blake3_regular(*h),
    ensures
        d@ == blake3_digest(blake3_absorbed(*h)),
        d@.len() == 32,
{
    h.finalize().as_bytes().to_vec()
}

/// `twox_hash::XxHash64::with_seed`: a hasher with that seed that has taken in
/// nothing.
#[verifier::external_body]
fn xxh64_with_seed(seed: u64) -> (h: twox_hash::XxHash64)
    ensures
        xxh64_seed(h) == seed,
        xxh64_absorbed(h) == Seq::<u8>::empty(),
{
    twox_hash::XxHash64::with_seed(seed)
}

/// `std::hash::Hasher::write` of `XxHash64`: the hasher takes in `data` after
/// what it had and keeps its seed. The bound keeps the crate's 64-bit count
/// of bytes from overflowing.
#[verifier::external_body]
fn xxh64_write(h: &mut twox_hash::XxHash64, data: &[u8])
    requires
        xxh64_absorbed(*old(h)).len() + data@.len() <= MAX_INPUT_LEN,
    ensures
        xxh64_seed(*final(h)) == xxh64_seed(*old(h)),
        xxh64_absorbed(*final(h)) == xxh64_absorbed(*old(h)) + data@,
{
    std::hash::Hasher::write(h, data)
}

/// `std::hash::Hasher::finish` of `XxHash64`: the hash, under the hasher's
/// seed, of all that was taken in.
#[verifier::external_body]
fn xxh64_finish(h: &twox_hash::XxHash64) -> (x: u64)
    ensures
        x == xxh64_digest(xxh64_seed(*h), xxh64_absorbed(*h)),
{
    std::hash::Hasher::finish(h)
}

// ---------------------------------------------------------------------------
// The model
// ---------------------------------------------------------------------------

/// The number of bytes in a digest of `algo`.
pub open spec fn spec_digest_len(algo: HashAlgo) -> usize {
    match algo {
        HashAlgo::Sha256 => 32,
        HashAlgo::Blake3 => 32,
        HashAlgo::XxHash => 8,
    }
}

/// The digest of `data` under `algo`. The 64-bit XXH64 hash is laid out with
/// its least significant byte first.
pub open spec fn digest_of(algo: HashAlgo, data: Seq<u8>) -> Seq<u8> {
    match algo {
        HashAlgo::Sha256 => sha256_digest(data),
        HashAlgo::Blake3 => blake3_digest(data),
        HashAlgo::XxHash => spec_u64_to_le_bytes(xxh64_digest(XXH64_SEED, data)),
    }
}

/// What fingerprinting `content` under `algo` yields: its digest, unless it is
/// too long to hash.
pub open spec fn fingerprint_of(algo: HashAlgo, content: Seq<u8>) -> Result<Seq<u8>, HashError> {
    if content.len() <= MAX_INPUT_LEN {
        Ok(digest_of(algo, content))
    } else {
        Err(HashError::TooLong)
    }
}

/// The view of a fingerprinting result: the digest as a sequence of bytes.
pub open spec fn outcome_view(r: Result<Vec<u8>, HashError>) -> Result<Seq<u8>, HashError> {
    match r {
        Ok(d) => Ok(d@),
        Err(e) => Err(e),
    }
}

/// The number of bytes in a digest of `algo`: fixed per algorithm.
#[verifier::when_used_as_spec(spec_digest_len)]
pub fn digest_len(algo: HashAlgo) -> (n: usize)
    ensures
        n == spec_digest_len(algo),
{
    match algo {
        HashAlgo::Sha256 => 32,
        HashAlgo::Blake3 => 32,
        HashAlgo::XxHash => 8,
    }
}

// ---------------------------------------------------------------------------
// Digests as text
// ---------------------------------------------------------------------------

/// The sixteen hexadecimal digits, in lower case.
pub open spec fn hex_digits() -> Seq<char> {
    seq!['0', '1', '2', '3', '4', '5', '6', '7', '8', '9', 'a', 'b', 'c', 'd', 'e', 'f']
}

/// `bytes` in hexadecimal: two digits for each byte, the high half first.
pub open spec fn hex_of(bytes: Seq<u8>) -> Seq<char> {
    Seq::new(
        2 * bytes.len(),
        |i: int|
            if i % 2 == 0 {
                hex_digits()[bytes[i / 2] as int / 16]
            } else {
                hex_digits()[bytes[i / 2] as int % 16]
            },
    )
}

/// `hex::encode`: each byte as two hexadecimal digits in lower case, the high
/// half first.
#[verifier::external_body]
fn encode_hex(bytes: &[u8]) -> (text: String)
    ensures
        text@ == hex_of(bytes@),
{
    hex::encode(bytes)
}

/// A digest as text: two hexadecimal digits in lower case for each byte.
pub fn to_hex(digest: &[u8]) -> (text: String)
    ensures
        text@ == hex_of(digest@),
        text@.len() == 2 * digest@.len(),
{
    encode_hex(digest)
}

/// The text tells the digests apart: two digests with the same text are the
/// same, byte for byte.
pub proof fn lemma_hex_tells_apart(a: Seq<u8>, b: Seq<u8>)
    requires
        hex_of(a) == hex_of(b),
    ensures
        a == b,
{
    assert(hex_of(a).len() == 2 * a.len());
    assert forall|k: int| 0 <= k < a.len() implies a[k] == b[k] by {
        let high = hex_of(a)[2 * k];
        let low = hex_of(a)[2 * k + 1];
        assert(high == hex_of(b)[2 * k]);
        assert(low == hex_of(b)[2 * k + 1]);
    }
}

// ---------------------------------------------------------------------------
// Streaming
// ---------------------------------------------------------------------------

enum HasherState {
    Sha256(Sha256State),
    Blake3(blake3::Hasher),
    XxHash(twox_hash::XxHash64),
}

/// One file's fingerprint in the making: the hasher of the chosen algorithm
/// and the number of bytes it has taken in, which never passes
/// `MAX_INPUT_LEN`.
pub struct Fingerprinter {
    state: HasherState,
    fed: u64,
}

impl Fingerprinter {
    /// The algorithm that this fingerprint is computed with.
    pub closed spec fn algo(&self) -> HashAlgo {
        match self.state {
            HasherState::Sha256(_) => HashAlgo::Sha256,
            HasherState::Blake3(_) => HashAlgo::Blake3,
            HasherState::XxHash(_) => HashAlgo::XxHash,
        }
    }

    /// The bytes taken in so far, in the order in which they came.
    pub closed spec fn absorbed(&self) -> Seq<u8> {
        match self.state {
            HasherState::Sha256(h) => sha256_absorbed(h),
            HasherState::Blake3(h) => blake3_absorbed(h),
            HasherState::XxHash(h) => xxh64_absorbed(h),
        }
    }

    /// The count of bytes is exact and within the limit, and the hasher is
    /// the plain one of its algorithm.
    #[verifier::type_invariant]
    spec fn plain_and_counted(self) -> bool {
        &&& self.fed == self.absorbed().len()
        &&& self.fed <= MAX_INPUT_LEN
        &&& match self.state {
            HasherState::Sha256(_) => true,
            HasherState::Blake3(h) => blake3_regular(h),
            HasherState::XxHash(h) => xxh64_seed(h) == XXH64_SEED,
        }
    }

    /// A fingerprint of `algo` that has taken in nothing yet.
    pub fn new(algo: HashAlgo) -> (s: Self)
        ensures
            s.algo() == algo,
            s.absorbed() == Seq::<u8>::empty(),
    {
        let state = match algo {
            HashAlgo::Sha256 => HasherState::Sha256(sha256_new()),
            HashAlgo::Blake3 => HasherState::Blake3(blake3_new()),
            HashAlgo::XxHash => HasherState::XxHash(xxh64_with_seed(XXH64_SEED)),
        };
        Fingerprinter { state, fed: 0 }
    }

    /// The number of bytes taken in so far.
    pub fn len(&self) -> (n: u64)
        ensures
            n == self.absorbed().len(),
            n <= MAX_INPUT_LEN,
    {
        proof {
            use_type_invariant(self);
        }
        self.fed
    }

    /// Takes in `chunk` after what came before. Where that would pass
    /// `MAX_INPUT_LEN` bytes in all, the fingerprint is given up and the
    /// error says so.
    pub fn absorb(self, chunk: &[u8]) -> (r: Result<Self, HashError>)
        ensures
            self.absorbed().len() + chunk@.len() <= MAX_INPUT_LEN ==> r is Ok && r->Ok_0.algo()
                == self.algo() && r->Ok_0.absorbed() == self.absorbed() + chunk@,
            self.absorbed().len() + chunk@.len() > MAX_INPUT_LEN ==> r is Err && r->Err_0
                == HashError::TooLong,
    {
        proof {
            use_type_invariant(&self);
        }
        let room: u64 = MAX_INPUT_LEN - self.fed;
        if chunk.len() as u64 > room {
            return Err(HashError::TooLong);
        }
        let fed: u64 = self.fed + chunk.len() as u64;
        let state = match self.state {
            HasherState::Sha256(h) => {
                let mut h = h;
                sha256_update(&mut h, chunk);
                HasherState::Sha256(h)
            },
            HasherState::Blake3(h) => {
                let mut h = h;
                blake3_update(&mut h, chunk);
                HasherState::Blake3(h)
            },
            HasherState::XxHash(h) => {
                let mut h = h;
                xxh64_write(&mut h, chunk);
                HasherState::XxHash(h)
            },
        };
        Ok(Fingerprinter { state, fed })
    }

    /// The digest of all that was taken in.
    pub fn finalize(self) -> (d: Vec<u8>)
        ensures
            d@ == digest_of(self.algo(), self.absorbed()),
            d@.len() == digest_len(self.algo()),
    {
        proof {
            use_type_invariant(&self);
        }
        match self.state {
            HasherState::Sha256(h) => sha256_finalize(h),
            HasherState::Blake3(h) => blake3_finalize(&h),
            HasherState::XxHash(h) => u64_to_le_bytes(xxh64_finish(&h)),
        }
    }
}

/// What one read of the file brought.
pub enum ReadEvent<'a> {
    /// The bytes that the read filled in; none at all marks the end of the
    /// file.
    Data(&'a [u8]),
    /// The file could not be opened, or the read failed.
    Failed,
}

/// What to do after a read.
pub enum Progress {
    /// Read on, and hand the next event to this state.
    Continue(Fingerprinter),
    /// Stop: the fingerprint is done, or there will be none.
    Finished(Result<Vec<u8>, HashError>),
}

/// What `on_read` answers to `event` in `state`: a failed read ends in
/// `HashError::Io`; a read of no bytes ends in the digest of all that came
/// before; any other read is taken in, or ends in `HashError::TooLong` where
/// it passes the limit.
pub open spec fn on_read_spec(state: Fingerprinter, event: ReadEvent, next: Progress) -> bool {
    match event {
        ReadEvent::Failed => next == Progress::Finished(Err(HashError::Io)),
        ReadEvent::Data(chunk) => if chunk@.len() == 0 {
            &&& next matches Progress::Finished(Ok(d))
            &&& d@ == digest_of(state.algo(), state.absorbed())
            &&& d@.len() == digest_len(state.algo())
        } else if state.absorbed().len() + chunk@.len() <= MAX_INPUT_LEN {
            &&& next matches Progress::Continue(s)
            &&& s.algo() == state.algo()
            &&& s.absorbed() == state.absorbed() + chunk@
        } else {
            next == Progress::Finished(Err(HashError::TooLong))
        },
    }
}

/// One step of fingerprinting a file that somebody else reads: from the state
/// and the outcome of a read to the next state, or to the result. A failed
/// read ends in `HashError::Io` and never in a digest of what came before it.
pub fn on_read(state: Fingerprinter, event: ReadEvent) -> (next: Progress)
    ensures
        on_read_spec(state, event, next),
{
    match event {
        ReadEvent::Failed => Progress::Finished(Err(HashError::Io)),
        ReadEvent::Data(chunk) => {
            if chunk.len() == 0 {
                Progress::Finished(Ok(state.finalize()))
            } else {
                match state.absorb(chunk) {
                    Ok(next) => Progress::Continue(next),
                    Err(e) => Progress::Finished(Err(e)),
                }
            }
        },
    }
}

/// The fingerprint of `content` under `algo`, streamed through the hasher in
/// pieces of `chunk_size` bytes, or in one piece where `chunk_size` is 0. The
/// size of the pieces does not show in the result.
pub fn hash_in_chunks(content: &[u8], algo: HashAlgo, chunk_size: usize) -> (r: Result<
    Vec<u8>,
    HashError,
>)
    ensures
        outcome_view(r) == fingerprint_of(algo, content@),
        r matches Ok(d) ==> d@.len() == digest_len(algo),
{
    let total = content.len();
    if total as u64 > MAX_INPUT_LEN {
        return Err(HashError::TooLong);
    }
    let step = if chunk_size == 0 {
        total
    } else {
        chunk_size
    };
    let mut state = Fingerprinter::new(algo);
    let mut offset: usize = 0;
    while offset < total
        invariant
            total == content@.len(),
            total <= MAX_INPUT_LEN,
            step > 0 || total == 0,
            offset <= total,
            state.algo() == algo,
            state.absorbed() == content@.subrange(0, offset as int),
        decreases total - offset,
    {
        let rest = total - offset;
        let n = if rest < step {
            rest
        } else {
            step
        };
        let chunk = slice_subrange(content, offset, offset + n);
        assert(content@.subrange(0, offset as int) + chunk@ == content@.subrange(
            0,
            offset + n,
        ));
        match state.absorb(chunk) {
            Ok(next) => {
                state = next;
            },
            Err(e) => {
                return Err(e);
            },
        }
        offset = offset + n;
    }
    assert(content@.subrange(0, total as int) == content@);
    Ok(state.finalize())
}

/// The fingerprint of `content` under `algo`: its digest, whose length is
/// fixed by `algo`, or `HashError::TooLong` for content of more than
/// `MAX_INPUT_LEN` bytes.
pub fn calculate_hash(content: &[u8], algo: HashAlgo) -> (r: Result<Vec<u8>, HashError>)
    ensures
        outcome_view(r) == fingerprint_of(algo, content@),
        r matches Ok(d) ==> d@.len() == digest_len(algo),
{
    hash_in_chunks(content, algo, CHUNK_SIZE)
}

/// Two contents of the same bytes have the same fingerprint under one
/// algorithm, whatever the sizes of the pieces they are streamed in.
pub proof fn lemma_equal_content_equal_fingerprint(
    a: &[u8],
    b: &[u8],
    algo: HashAlgo,
    size_a: usize,
    size_b: usize,
    ra: Result<Vec<u8>, HashError>,
    rb: Result<Vec<u8>, HashError>,
)
    requires
        a@ == b@,
        call_ensures(hash_in_chunks, (a, algo, size_a), ra),
        call_ensures(hash_in_chunks, (b, algo, size_b), rb),
    ensures
        outcome_view(ra) == outcome_view(rb),
{
}

} // verus!
