//! The approximate-membership filter behind the block index: an Xor8
//! structure built from 64-bit digests. The filter itself comes from
//! an outside crate; this module destructures it into plain values
//! (seed, block length, fingerprints) so that everything around the
//! two trusted calls — building and probing — is verified, including
//! the byte codec the engine stores filters with.

use vstd::prelude::*;
use vstd::string::StringExecFns;

use crate::error::EngineError;
use crate::error::ErrorKind;

verus! {

/// Whether the filter with the given parts reports the digest as
/// present. The probe is a pure computation over these values, so the
/// answer is a function of them alone.
pub uninterp spec fn xor8_member(seed: u64, block_length: u32, finger_prints: Seq<u8>, digest: u64) -> bool;

/// Whether the filter with the given parts reports the raw key as
/// present under the filter's own default hasher; the version-gated
/// legacy probe goes through this.
pub uninterp spec fn xor8_member_bytes(seed: u64, block_length: u32, finger_prints: Seq<u8>, key: Seq<u8>) -> bool;

/// The most digests a filter build accepts. The builder sizes its
/// fingerprint table at `32 + 1.23` bytes per distinct digest, cast
/// into the block index's type; near three and a half billion
/// distinct digests that cast overflows and the peel cannot finish,
/// so the build is kept comfortably below it.
pub const MAX_FILTER_DIGESTS: u64 = 2000000000;

/// The parts of a built filter: its seed, its block length, and its
/// fingerprint bytes, of which it holds three blocks.
pub struct FilterParts {
    pub seed: u64,
    pub block_length: u32,
    pub finger_prints: Vec<u8>,
}

impl FilterParts {
    /// A probe will not reach past the fingerprints.
    pub open spec fn wf(&self) -> bool {
        &&& self.finger_prints@.len() == 3 * (self.block_length as nat)
        &&& self.block_length >= 1
        &&& self.finger_prints@.len() <= u32::MAX
    }
}

/// Relies on `xorfilter::Xor8`: `populate_keys` records the digests
/// (deduplicating them in an ordered map), `build` peels the set into
/// fingerprints — retrying seeds until it succeeds, never failing —
/// and the construction guarantees that every recorded digest is
/// reported present afterwards (an xor filter has no false
/// negatives). The count bound keeps the builder's capacity inside
/// its index type, where the peel is sound and terminating.
#[verifier::external_body]
fn xor8_build_parts(digests: &Vec<u64>) -> (r: FilterParts)
    requires
        digests@.len() < MAX_FILTER_DIGESTS,
    ensures
        r.wf(),
        forall|j: int|
            0 <= j < digests@.len() ==> xor8_member(
                r.seed,
                r.block_length,
                r.finger_prints@,
                #[trigger] digests@[j],
            ),
{
    let mut filter: xorfilter::Xor8 = xorfilter::Xor8::new();
    filter.populate_keys(digests);
    let _ = filter.build();
    FilterParts {
        seed: filter.seed,
        block_length: filter.block_length,
        finger_prints: filter.finger_prints,
    }
}

/// Relies on `xorfilter::Xor8::contains_key`: a pure probe of the
/// fingerprints at three positions derived from the seed and digest.
#[verifier::external_body]
fn xor8_contains_digest(parts: &FilterParts, digest: u64) -> (r: bool)
    requires
        parts.wf(),
    ensures
        r == xor8_member(parts.seed, parts.block_length, parts.finger_prints@, digest),
{
    let mut filter: xorfilter::Xor8 = xorfilter::Xor8::new();
    filter.seed = parts.seed;
    filter.block_length = parts.block_length;
    filter.finger_prints = parts.finger_prints.clone();
    filter.contains_key(digest)
}

/// Relies on `xorfilter::Xor8::contains`: the raw key is hashed with
/// the filter's default hasher and probed like a digest.
#[verifier::external_body]
fn xor8_contains_raw(parts: &FilterParts, key: &Vec<u8>) -> (r: bool)
    requires
        parts.wf(),
    ensures
        r == xor8_member_bytes(parts.seed, parts.block_length, parts.finger_prints@, key@),
{
    let mut filter: xorfilter::Xor8 = xorfilter::Xor8::new();
    filter.seed = parts.seed;
    filter.block_length = parts.block_length;
    filter.finger_prints = parts.finger_prints.clone();
    filter.contains(key.as_slice())
}

/// Build a filter over the digests, returning its parts and the
/// number of distinct digests among them.
pub fn build_filter(digests: &Vec<u64>) -> (r: (FilterParts, usize))
    requires
        digests@.len() < MAX_FILTER_DIGESTS,
    ensures
        r.0.wf(),
        r.1 == digests@.to_set().len(),
        forall|j: int|
            0 <= j < digests@.len() ==> xor8_member(
                r.0.seed,
                r.0.block_length,
                r.0.finger_prints@,
                #[trigger] digests@[j],
            ),
{
    let parts = xor8_build_parts(digests);
    let distinct = count_distinct(digests);
    (parts, distinct)
}

/// The number of distinct words in the sequence.
fn count_distinct(digests: &Vec<u64>) -> (r: usize)
    ensures
        r == digests@.to_set().len(),
{
    let mut seen: Vec<u64> = Vec::new();
    let mut j: usize = 0;
    while j < digests.len()
        invariant
            0 <= j <= digests@.len(),
            seen@.no_duplicates(),
            seen@.to_set() == digests@.subrange(0, j as int).to_set(),
            seen@.len() <= j,
        decreases digests@.len() - j,
    {
        let d = digests[j];
        let mut present = false;
        let mut t: usize = 0;
        while t < seen.len()
            invariant
                0 <= t <= seen@.len(),
                present == seen@.subrange(0, t as int).contains(d),
            decreases seen@.len() - t,
        {
            proof {
                assert(seen@.subrange(0, t + 1).drop_last() =~= seen@.subrange(0, t as int));
            }
            if seen[t] == d {
                present = true;
            }
            proof {
                if present && !seen@.subrange(0, t + 1).contains(d) {
                    if seen@[t as int] == d {
                        assert(seen@.subrange(0, t + 1)[t as int] == d);
                    }
                    assert(false);
                }
                if !present && seen@.subrange(0, t + 1).contains(d) {
                    let w = choose|w: int| 0 <= w < t + 1 && #[trigger] seen@.subrange(0, t + 1)[w] == d;
                    if w < t {
                        assert(seen@.subrange(0, t as int)[w] == d);
                    }
                    assert(false);
                }
            }
            t += 1;
        }
        proof {
            assert(seen@.subrange(0, seen@.len() as int) =~= seen@);
        }
        proof {
            lemma_subrange_to_set_step(digests@, j as int);
        }
        if !present {
            let ghost seen0 = seen@;
            seen.push(d);
            proof {
                lemma_push_to_set(seen0, d);
                assert(seen@ =~= seen0.push(d));
                assert(seen@.to_set() =~= digests@.subrange(0, j + 1).to_set());
            }
        } else {
            proof {
                assert(seen@.to_set().contains(d));
                assert(seen@.to_set() =~= digests@.subrange(0, j + 1).to_set());
            }
        }
        j += 1;
    }
    proof {
        assert(digests@.subrange(0, digests@.len() as int) =~= digests@);
        seen@.unique_seq_to_set();
    }
    seen.len()
}

/// Probe a filter for a digest.
pub fn filter_contains(parts: &FilterParts, digest: u64) -> (r: bool)
    requires
        parts.wf(),
    ensures
        r == xor8_member(parts.seed, parts.block_length, parts.finger_prints@, digest),
{
    xor8_contains_digest(parts, digest)
}

/// Probe a filter for a raw key, as filters written by older layouts
/// were probed.
pub fn filter_contains_raw(parts: &FilterParts, key: &Vec<u8>) -> (r: bool)
    requires
        parts.wf(),
    ensures
        r == xor8_member_bytes(parts.seed, parts.block_length, parts.finger_prints@, key@),
{
    xor8_contains_raw(parts, key)
}

/// The stored form of a filter: seed, block length and fingerprint
/// count as little-endian words, then the fingerprints.
pub open spec fn filter_encoding(seed: u64, block_length: u32, finger_prints: Seq<u8>) -> Seq<u8> {
    crate::digest::le_bytes64(seed) + crate::digest::le_bytes32(block_length)
        + crate::digest::le_bytes32(finger_prints.len() as u32) + finger_prints
}

impl FilterParts {
    /// Serialize the filter for storage.
    pub fn to_bytes(&self) -> (r: Vec<u8>)
        requires
            self.finger_prints@.len() <= u32::MAX,
        ensures
            r@ == filter_encoding(self.seed, self.block_length, self.finger_prints@),
    {
        let mut out: Vec<u8> = Vec::new();
        push_le64_pub(&mut out, self.seed);
        push_le32(&mut out, self.block_length);
        push_le32(&mut out, self.finger_prints.len() as u32);
        let mut j: usize = 0;
        let ghost head = out@;
        while j < self.finger_prints.len()
            invariant
                0 <= j <= self.finger_prints@.len(),
                out@ == head + self.finger_prints@.subrange(0, j as int),
            decreases self.finger_prints@.len() - j,
        {
            out.push(self.finger_prints[j]);
            proof {
                assert(out@ =~= head + self.finger_prints@.subrange(0, j + 1));
            }
            j += 1;
        }
        proof {
            assert(self.finger_prints@.subrange(0, self.finger_prints@.len() as int)
                =~= self.finger_prints@);
            assert(out@ =~= filter_encoding(self.seed, self.block_length, self.finger_prints@));
        }
        out
    }

    /// Deserialize a stored filter; bytes that are not a stored filter
    /// are rejected as internal corruption. Exactly the encodings of
    /// well-formed filters are accepted.
    pub fn from_bytes(bytes: &Vec<u8>) -> (r: Result<FilterParts, EngineError>)
        ensures
            match r {
                Ok(p) => {
                    &&& p.wf()
                    &&& bytes@ == filter_encoding(p.seed, p.block_length, p.finger_prints@)
                },
                Err(e) => {
                    &&& e.kind == ErrorKind::Internal
                    &&& forall|p: FilterParts|
                        p.wf() ==> bytes@ != filter_encoding(
                            p.seed,
                            p.block_length,
                            (#[trigger] p.finger_prints)@,
                        )
                },
            },
    {
        if bytes.len() < 16 {
            proof {
                lemma_encoding_len_refutes(bytes@);
            }
            return Err(EngineError::internal(String::from_str(
                "stored filter is truncated",
            )));
        }
        let seed = read_le64(bytes, 0);
        let block_length = read_le32(bytes, 8);
        let fp_len = read_le32(bytes, 12);
        if bytes.len() - 16 != fp_len as usize {
            proof {
                lemma_encoding_fp_len_refutes(bytes@, seed, block_length, fp_len);
            }
            return Err(EngineError::internal(String::from_str(
                "stored filter length is wrong",
            )));
        }
        let mut finger_prints: Vec<u8> = Vec::new();
        let mut j: usize = 16;
        while j < bytes.len()
            invariant
                16 <= j <= bytes@.len(),
                finger_prints@ == bytes@.subrange(16, j as int),
            decreases bytes@.len() - j,
        {
            finger_prints.push(bytes[j]);
            proof {
                assert(finger_prints@ =~= bytes@.subrange(16, j + 1));
            }
            j += 1;
        }
        if block_length < 1 || fp_len as u64 != 3u64 * (block_length as u64) {
            proof {
                lemma_encoding_parts_refute(bytes@, seed, block_length, fp_len);
            }
            return Err(EngineError::internal(String::from_str(
                "stored filter shape is wrong",
            )));
        }
        let p = FilterParts { seed, block_length, finger_prints };
        proof {
            assert(bytes@ =~= filter_encoding(p.seed, p.block_length, p.finger_prints@));
        }
        Ok(p)
    }
}

/// Extending a prefix by one element inserts that element into the
/// prefix's set.
proof fn lemma_subrange_to_set_step(s: Seq<u64>, j: int)
    requires
        0 <= j < s.len(),
    ensures
        s.subrange(0, j + 1).to_set() =~= s.subrange(0, j).to_set().insert(s[j]),
{
    assert forall|x: u64| s.subrange(0, j + 1).contains(x) implies (s.subrange(0, j).contains(x)
        || x == s[j]) by {
        let w = choose|w: int| 0 <= w < j + 1 && #[trigger] s.subrange(0, j + 1)[w] == x;
        if w < j {
            assert(s.subrange(0, j)[w] == x);
        }
    }
    assert forall|x: u64| s.subrange(0, j).contains(x) implies s.subrange(0, j + 1).contains(
        x,
    ) by {
        let w = choose|w: int| 0 <= w < j && #[trigger] s.subrange(0, j)[w] == x;
        assert(s.subrange(0, j + 1)[w] == x);
    }
    assert(s.subrange(0, j + 1)[j] == s[j]);
    assert(s.subrange(0, j + 1).contains(s[j]));
}

/// Appending an element inserts it into the sequence's set.
proof fn lemma_push_to_set(s: Seq<u64>, d: u64)
    ensures
        s.push(d).to_set() =~= s.to_set().insert(d),
{
    assert forall|x: u64| s.push(d).contains(x) implies (s.contains(x) || x == d) by {
        let w = choose|w: int| 0 <= w < s.push(d).len() && #[trigger] s.push(d)[w] == x;
        if w < s.len() {
            assert(s[w] == x);
        }
    }
    assert forall|x: u64| s.contains(x) implies s.push(d).contains(x) by {
        let w = choose|w: int| 0 <= w < s.len() && #[trigger] s[w] == x;
        assert(s.push(d)[w] == x);
    }
    assert(s.push(d)[s.len() as int] == d);
    assert(s.push(d).contains(d));
}

/// Bytes shorter than the header encode no well-formed filter.
proof fn lemma_encoding_len_refutes(bytes: Seq<u8>)
    requires
        bytes.len() < 16,
    ensures
        forall|p: FilterParts|
            p.wf() ==> bytes != filter_encoding(
                p.seed,
                p.block_length,
                (#[trigger] p.finger_prints)@,
            ),
{
    assert forall|p: FilterParts| p.wf() implies bytes != filter_encoding(
        p.seed,
        p.block_length,
        p.finger_prints@,
    ) by {
        assert(filter_encoding(p.seed, p.block_length, p.finger_prints@).len() >= 16);
    }
}

/// A length field that disagrees with the remaining bytes refutes
/// every well-formed encoding.
proof fn lemma_encoding_fp_len_refutes(bytes: Seq<u8>, seed: u64, block_length: u32, fp_len: u32)
    requires
        bytes.len() >= 16,
        bytes.subrange(0, 8) == crate::digest::le_bytes64(seed),
        bytes.subrange(8, 12) == crate::digest::le_bytes32(block_length),
        bytes.subrange(12, 16) == crate::digest::le_bytes32(fp_len),
        bytes.len() - 16 != fp_len as nat,
    ensures
        forall|p: FilterParts|
            p.wf() ==> bytes != filter_encoding(
                p.seed,
                p.block_length,
                (#[trigger] p.finger_prints)@,
            ),
{
    assert forall|p: FilterParts| p.wf() implies bytes != filter_encoding(
        p.seed,
        p.block_length,
        p.finger_prints@,
    ) by {
        if bytes == filter_encoding(p.seed, p.block_length, p.finger_prints@) {
            lemma_le32_injective(fp_len, p.finger_prints@.len() as u32, bytes.subrange(12, 16));
            assert(false);
        }
    }
}

/// A header whose fields do not describe a well-formed filter refutes
/// every well-formed encoding.
proof fn lemma_encoding_parts_refute(bytes: Seq<u8>, seed: u64, block_length: u32, fp_len: u32)
    requires
        bytes.len() >= 16,
        bytes.subrange(0, 8) == crate::digest::le_bytes64(seed),
        bytes.subrange(8, 12) == crate::digest::le_bytes32(block_length),
        bytes.subrange(12, 16) == crate::digest::le_bytes32(fp_len),
        bytes.len() - 16 == fp_len as nat,
        block_length < 1 || fp_len as nat != 3 * (block_length as nat),
    ensures
        forall|p: FilterParts|
            p.wf() ==> bytes != filter_encoding(
                p.seed,
                p.block_length,
                (#[trigger] p.finger_prints)@,
            ),
{
    assert forall|p: FilterParts| p.wf() implies bytes != filter_encoding(
        p.seed,
        p.block_length,
        p.finger_prints@,
    ) by {
        if bytes == filter_encoding(p.seed, p.block_length, p.finger_prints@) {
            lemma_le32_injective(block_length, p.block_length, bytes.subrange(8, 12));
            lemma_le32_injective(fp_len, p.finger_prints@.len() as u32, bytes.subrange(12, 16));
            assert(false);
        }
    }
}

/// Two well-formed filters with the same stored bytes are the same
/// filter: the header fields read back injectively, and the
/// fingerprints are whatever follows.
pub proof fn lemma_filter_encoding_injective(p1: FilterParts, p2: FilterParts)
    requires
        p1.wf(),
        p2.wf(),
        filter_encoding(p1.seed, p1.block_length, p1.finger_prints@) == filter_encoding(
            p2.seed,
            p2.block_length,
            p2.finger_prints@,
        ),
    ensures
        p1.seed == p2.seed,
        p1.block_length == p2.block_length,
        p1.finger_prints@ == p2.finger_prints@,
{
    let e1 = filter_encoding(p1.seed, p1.block_length, p1.finger_prints@);
    let e2 = filter_encoding(p2.seed, p2.block_length, p2.finger_prints@);
    assert(e1.subrange(0, 8) =~= crate::digest::le_bytes64(p1.seed));
    assert(e2.subrange(0, 8) =~= crate::digest::le_bytes64(p2.seed));
    lemma_le64_injective(p1.seed, p2.seed, e1.subrange(0, 8));
    assert(e1.subrange(8, 12) =~= crate::digest::le_bytes32(p1.block_length));
    assert(e2.subrange(8, 12) =~= crate::digest::le_bytes32(p2.block_length));
    lemma_le32_injective(p1.block_length, p2.block_length, e1.subrange(8, 12));
    assert(e1.len() == 16 + p1.finger_prints@.len());
    assert(e2.len() == 16 + p2.finger_prints@.len());
    assert(p1.finger_prints@ =~= e1.subrange(16, e1.len() as int));
    assert(p2.finger_prints@ =~= e2.subrange(16, e2.len() as int));
}

/// Two words with the same eight little-endian bytes are equal.
proof fn lemma_le64_injective(a: u64, b: u64, bytes: Seq<u8>)
    requires
        crate::digest::le_bytes64(a) == bytes,
        crate::digest::le_bytes64(b) == bytes,
    ensures
        a == b,
{
    assert(crate::digest::le_bytes64(a)[0] == crate::digest::le_bytes64(b)[0]);
    assert(crate::digest::le_bytes64(a)[1] == crate::digest::le_bytes64(b)[1]);
    assert(crate::digest::le_bytes64(a)[2] == crate::digest::le_bytes64(b)[2]);
    assert(crate::digest::le_bytes64(a)[3] == crate::digest::le_bytes64(b)[3]);
    assert(crate::digest::le_bytes64(a)[4] == crate::digest::le_bytes64(b)[4]);
    assert(crate::digest::le_bytes64(a)[5] == crate::digest::le_bytes64(b)[5]);
    assert(crate::digest::le_bytes64(a)[6] == crate::digest::le_bytes64(b)[6]);
    assert(crate::digest::le_bytes64(a)[7] == crate::digest::le_bytes64(b)[7]);
    assert(a == b) by (bit_vector)
        requires
            ((a & 0xff) as u8 == (b & 0xff) as u8) && (((a >> 8) & 0xff) as u8 == ((b >> 8)
                & 0xff) as u8) && (((a >> 16) & 0xff) as u8 == ((b >> 16) & 0xff) as u8) && (((a
                >> 24) & 0xff) as u8 == ((b >> 24) & 0xff) as u8) && (((a >> 32) & 0xff) as u8 == ((
            b >> 32) & 0xff) as u8) && (((a >> 40) & 0xff) as u8 == ((b >> 40) & 0xff) as u8) && (((
            a >> 48) & 0xff) as u8 == ((b >> 48) & 0xff) as u8) && (((a >> 56) & 0xff) as u8 == ((b
                >> 56) & 0xff) as u8),
    ;
}

/// Two words with the same four little-endian bytes are equal.
proof fn lemma_le32_injective(a: u32, b: u32, bytes: Seq<u8>)
    requires
        crate::digest::le_bytes32(a) == bytes,
        crate::digest::le_bytes32(b) == bytes,
    ensures
        a == b,
{
    assert(crate::digest::le_bytes32(a)[0] == crate::digest::le_bytes32(b)[0]);
    assert(crate::digest::le_bytes32(a)[1] == crate::digest::le_bytes32(b)[1]);
    assert(crate::digest::le_bytes32(a)[2] == crate::digest::le_bytes32(b)[2]);
    assert(crate::digest::le_bytes32(a)[3] == crate::digest::le_bytes32(b)[3]);
    assert(a == b) by (bit_vector)
        requires
            ((a & 0xff) as u8 == (b & 0xff) as u8) && (((a >> 8) & 0xff) as u8 == ((b >> 8)
                & 0xff) as u8) && (((a >> 16) & 0xff) as u8 == ((b >> 16) & 0xff) as u8) && (((a
                >> 24) & 0xff) as u8 == ((b >> 24) & 0xff) as u8),
    ;
}

/// Append the eight little-endian bytes of a word.
fn push_le64_pub(out: &mut Vec<u8>, x: u64)
    ensures
        final(out)@ == old(out)@ + crate::digest::le_bytes64(x),
{
    out.push((x & 0xff) as u8);
    out.push(((x >> 8) & 0xff) as u8);
    out.push(((x >> 16) & 0xff) as u8);
    out.push(((x >> 24) & 0xff) as u8);
    out.push(((x >> 32) & 0xff) as u8);
    out.push(((x >> 40) & 0xff) as u8);
    out.push(((x >> 48) & 0xff) as u8);
    out.push(((x >> 56) & 0xff) as u8);
    proof {
        assert(out@ =~= old(out)@ + crate::digest::le_bytes64(x));
    }
}

/// Append the four little-endian bytes of a word.
fn push_le32(out: &mut Vec<u8>, x: u32)
    ensures
        final(out)@ == old(out)@ + crate::digest::le_bytes32(x),
{
    out.push((x & 0xff) as u8);
    out.push(((x >> 8) & 0xff) as u8);
    out.push(((x >> 16) & 0xff) as u8);
    out.push(((x >> 24) & 0xff) as u8);
    proof {
        assert(out@ =~= old(out)@ + crate::digest::le_bytes32(x));
    }
}

/// Read eight little-endian bytes as a word.
fn read_le64(bytes: &Vec<u8>, at: usize) -> (r: u64)
    requires
        at + 8 <= bytes@.len(),
    ensures
        crate::digest::le_bytes64(r) == bytes@.subrange(at as int, at as int + 8),
{
    let n = bytes.len();
    let r: u64 = (bytes[at] as u64) | ((bytes[at + 1] as u64) << 8) | ((bytes[at + 2] as u64)
        << 16) | ((bytes[at + 3] as u64) << 24) | ((bytes[at + 4] as u64) << 32) | ((bytes[at
        + 5] as u64) << 40) | ((bytes[at + 6] as u64) << 48) | ((bytes[at + 7] as u64) << 56);
    proof {
        let b0 = bytes@[at as int];
        let b1 = bytes@[at as int + 1];
        let b2 = bytes@[at as int + 2];
        let b3 = bytes@[at as int + 3];
        let b4 = bytes@[at as int + 4];
        let b5 = bytes@[at as int + 5];
        let b6 = bytes@[at as int + 6];
        let b7 = bytes@[at as int + 7];
        assert(r == ((b0 as u64) | ((b1 as u64) << 8) | ((b2 as u64) << 16) | ((b3 as u64) << 24)
            | ((b4 as u64) << 32) | ((b5 as u64) << 40) | ((b6 as u64) << 48) | ((
        b7 as u64) << 56)));
        assert((r & 0xff) as u8 == b0 && ((r >> 8) & 0xff) as u8 == b1 && ((r >> 16) & 0xff) as u8
            == b2 && ((r >> 24) & 0xff) as u8 == b3 && ((r >> 32) & 0xff) as u8 == b4 && ((r >> 40)
            & 0xff) as u8 == b5 && ((r >> 48) & 0xff) as u8 == b6 && ((r >> 56) & 0xff) as u8 == b7)
            by (bit_vector)
            requires
                r == ((b0 as u64) | ((b1 as u64) << 8) | ((b2 as u64) << 16) | ((b3 as u64) << 24)
                    | ((b4 as u64) << 32) | ((b5 as u64) << 40) | ((b6 as u64) << 48) | ((
                b7 as u64) << 56)),
        ;
        assert(crate::digest::le_bytes64(r) =~= bytes@.subrange(at as int, at as int + 8));
    }
    r
}

/// Read four little-endian bytes as a word.
fn read_le32(bytes: &Vec<u8>, at: usize) -> (r: u32)
    requires
        at + 4 <= bytes@.len(),
    ensures
        crate::digest::le_bytes32(r) == bytes@.subrange(at as int, at as int + 4),
{
    let n = bytes.len();
    let r: u32 = (bytes[at] as u32) | ((bytes[at + 1] as u32) << 8) | ((bytes[at + 2] as u32)
        << 16) | ((bytes[at + 3] as u32) << 24);
    proof {
        let b0 = bytes@[at as int];
        let b1 = bytes@[at as int + 1];
        let b2 = bytes@[at as int + 2];
        let b3 = bytes@[at as int + 3];
        assert(((r & 0xff) as u8 == b0 && ((r >> 8) & 0xff) as u8 == b1 && ((r >> 16) & 0xff) as u8
            == b2 && ((r >> 24) & 0xff) as u8 == b3)) by (bit_vector)
            requires
                r == ((b0 as u32) | ((b1 as u32) << 8) | ((b2 as u32) << 16) | ((b3 as u32) << 24)),
        ;
        assert(crate::digest::le_bytes32(r) =~= bytes@.subrange(at as int, at as int + 4));
    }
    r
}

} // verus!
