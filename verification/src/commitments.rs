//! Trade commitments: deterministic digests of trade parameters.
//!
//! A commitment binds the bettor, the covered worlds, the share quantity
//! and a per-market strictly increasing nonce into one fixed-width
//! digest, hex-encoded for transport. The byte message is built and
//! specified here exactly; the digest itself is named
//! [`sha256_of`] and computed by an outside hash implementation.

use vstd::bytes::{spec_u64_to_le_bytes, u64_to_le_bytes};
use vstd::prelude::*;
use vstd::string::StringSliceAdditionalSpecFns;

verus! {

/// What SHA-256 returns on a byte sequence; a function of the bytes
/// alone.
pub uninterp spec fn sha256_of(bytes: Seq<u8>) -> Seq<u8>;

/// Relies on sha2's `Sha256::digest`: one 32-byte digest, determined by
/// the input bytes alone.
#[verifier::external_body]
fn sha256_digest(bytes: &[u8]) -> (r: Vec<u8>)
    ensures
        r@ == sha256_of(bytes@),
        r@.len() == 32,
{
    <sha2::Sha256 as sha2::Digest>::digest(bytes).to_vec()
}

/// The lower-case hex digit of a value below 16.
pub open spec fn hex_digit(nibble: u8) -> char {
    if nibble == 0 {
        '0'
    } else if nibble == 1 {
        '1'
    } else if nibble == 2 {
        '2'
    } else if nibble == 3 {
        '3'
    } else if nibble == 4 {
        '4'
    } else if nibble == 5 {
        '5'
    } else if nibble == 6 {
        '6'
    } else if nibble == 7 {
        '7'
    } else if nibble == 8 {
        '8'
    } else if nibble == 9 {
        '9'
    } else if nibble == 10 {
        'a'
    } else if nibble == 11 {
        'b'
    } else if nibble == 12 {
        'c'
    } else if nibble == 13 {
        'd'
    } else if nibble == 14 {
        'e'
    } else {
        'f'
    }
}

/// The lower-case hex encoding of a byte sequence: two digits per byte,
/// high nibble first.
pub open spec fn hex_of(bytes: Seq<u8>) -> Seq<char> {
    Seq::new(
        bytes.len() * 2,
        |i: int|
            if i % 2 == 0 {
                hex_digit(bytes[i / 2] / 16)
            } else {
                hex_digit(bytes[i / 2] % 16)
            },
    )
}

/// Relies on hex's `encode`: the lower-case hex digits of the bytes,
/// high nibble of each byte first.
#[verifier::external_body]
fn hex_encode(bytes: &[u8]) -> (r: String)
    ensures
        r@ == hex_of(bytes@),
{
    hex::encode(bytes)
}

/// The little-endian bytes of a list of world indices, in list order.
pub open spec fn worlds_le_bytes(worlds: Seq<u64>) -> Seq<u8>
    decreases worlds.len(),
{
    if worlds.len() == 0 {
        Seq::empty()
    } else {
        worlds_le_bytes(worlds.drop_last()) + spec_u64_to_le_bytes(worlds.last())
    }
}

/// The byte message a commitment digests: the bettor's identity, the
/// number of covered worlds, each world index, the share quantity and
/// the nonce, every number in 8 little-endian bytes.
pub open spec fn commitment_message(
    user_bytes: Seq<u8>,
    worlds: Seq<u64>,
    shares: u64,
    nonce: u64,
) -> Seq<u8> {
    user_bytes + spec_u64_to_le_bytes(worlds.len() as u64) + worlds_le_bytes(worlds)
        + spec_u64_to_le_bytes(shares) + spec_u64_to_le_bytes(nonce)
}

/// The hex digest that commits to a trade's parameters.
pub open spec fn commitment_digest(
    user: Seq<char>,
    worlds: Seq<u64>,
    shares: u64,
    nonce: u64,
) -> Seq<char> {
    hex_of(sha256_of(commitment_message(vstd::utf8::encode_utf8(user), worlds, shares, nonce)))
}

/// The models of the world indices a bet covers, as 64-bit numbers.
pub open spec fn world_models(worlds: Seq<usize>) -> Seq<u64> {
    worlds.map_values(|w: usize| w as u64)
}

/// Builds the exact byte message that [`commitment_digest`] digests.
#[verifier::loop_isolation(false)]
fn build_commitment_message(user: &str, worlds: &Vec<usize>, shares: u64, nonce: u64) -> (msg: Vec<
    u8,
>)
    ensures
        msg@ == commitment_message(user.spec_bytes(), world_models(worlds@), shares, nonce),
{
    let ghost wm = world_models(worlds@);
    let mut msg: Vec<u8> = vstd::slice::slice_to_vec(user.as_bytes());
    let mut count_bytes = u64_to_le_bytes(worlds.len() as u64);
    msg.append(&mut count_bytes);
    proof {
        assert(wm.len() == worlds@.len());
        assert(msg@ == user.spec_bytes() + spec_u64_to_le_bytes(wm.len() as u64));
        assert(wm.take(0) =~= Seq::<u64>::empty());
        assert(msg@ + worlds_le_bytes(wm.take(0)) =~= msg@);
    }
    let ghost base = msg@;
    let n = worlds.len();
    let mut i: usize = 0;
    while i < n
        invariant
            n == worlds@.len(),
            i <= n,
            msg@ == base + worlds_le_bytes(wm.take(i as int)),
        decreases n - i,
    {
        let mut world_bytes = u64_to_le_bytes(worlds[i] as u64);
        msg.append(&mut world_bytes);
        proof {
            assert(wm.take(i + 1).drop_last() =~= wm.take(i as int));
            assert(wm.take(i + 1).last() == wm[i as int]);
            assert(wm[i as int] == worlds@[i as int] as u64);
            assert(msg@ =~= base + worlds_le_bytes(wm.take(i + 1)));
        }
        i += 1;
    }
    proof {
        assert(wm.take(n as int) =~= wm);
    }
    let mut shares_bytes = u64_to_le_bytes(shares);
    msg.append(&mut shares_bytes);
    let mut nonce_bytes = u64_to_le_bytes(nonce);
    msg.append(&mut nonce_bytes);
    proof {
        assert(msg@ =~= commitment_message(user.spec_bytes(), wm, shares, nonce));
    }
    msg
}

/// Digests a trade's parameters into the hex commitment string.
pub fn compute_commitment(user: &str, worlds: &Vec<usize>, shares: u64, nonce: u64) -> (r: String)
    ensures
        r@ == commitment_digest(user@, world_models(worlds@), shares, nonce),
{
    let msg = build_commitment_message(user, worlds, shares, nonce);
    let digest = sha256_digest(msg.as_slice());
    hex_encode(digest.as_slice())
}

/// Two trades that differ only in their nonce are digested from
/// different byte messages: the strictly increasing nonce is what makes
/// repeated bit-identical trades distinguishable in the commitment log.
pub proof fn lemma_distinct_nonces_distinct_messages(
    user_bytes: Seq<u8>,
    worlds: Seq<u64>,
    shares: u64,
    nonce_a: u64,
    nonce_b: u64,
)
    requires
        nonce_a != nonce_b,
    ensures
        commitment_message(user_bytes, worlds, shares, nonce_a) != commitment_message(
            user_bytes,
            worlds,
            shares,
            nonce_b,
        ),
{
    vstd::bytes::lemma_auto_spec_u64_to_from_le_bytes();
    let msg_a = commitment_message(user_bytes, worlds, shares, nonce_a);
    let msg_b = commitment_message(user_bytes, worlds, shares, nonce_b);
    let prefix = user_bytes + spec_u64_to_le_bytes(worlds.len() as u64) + worlds_le_bytes(worlds)
        + spec_u64_to_le_bytes(shares);
    assert(msg_a =~= prefix + spec_u64_to_le_bytes(nonce_a));
    assert(msg_b =~= prefix + spec_u64_to_le_bytes(nonce_b));
    if msg_a == msg_b {
        assert(spec_u64_to_le_bytes(nonce_a) =~= msg_a.subrange(
            prefix.len() as int,
            prefix.len() as int + 8,
        ));
        assert(spec_u64_to_le_bytes(nonce_b) =~= msg_b.subrange(
            prefix.len() as int,
            prefix.len() as int + 8,
        ));
        assert(vstd::bytes::spec_u64_from_le_bytes(spec_u64_to_le_bytes(nonce_a)) == nonce_a);
        assert(vstd::bytes::spec_u64_from_le_bytes(spec_u64_to_le_bytes(nonce_b)) == nonce_b);
    }
}

/// The append-only log of issued commitments, one `(user, digest)` pair
/// per trade, in issue order.
#[derive(Debug)]
pub struct CommitmentLog {
    entries: Vec<(String, String)>,
}

impl View for CommitmentLog {
    type V = Seq<(Seq<char>, Seq<char>)>;

    closed spec fn view(&self) -> Seq<(Seq<char>, Seq<char>)> {
        self.entries@.map_values(|e: (String, String)| (e.0@, e.1@))
    }
}

impl CommitmentLog {
    /// An empty log.
    pub fn new() -> (log: Self)
        ensures
            log@ == Seq::<(Seq<char>, Seq<char>)>::empty(),
    {
        let log = CommitmentLog { entries: Vec::new() };
        proof {
            assert(log@ =~= Seq::<(Seq<char>, Seq<char>)>::empty());
        }
        log
    }

    /// Appends one issued commitment to the log.
    pub fn record(&mut self, user: &str, digest: String)
        ensures
            final(self)@ == old(self)@.push((user@, digest@)),
    {
        let ghost s0 = self@;
        let owned_user = user.to_owned();
        let ghost entry = (owned_user@, digest@);
        self.entries.push((owned_user, digest));
        proof {
            assert(self@ =~= s0.push(entry));
        }
    }

    /// Whether `digest` was ever issued to `user`.
    pub fn contains_commitment(&self, user: &str, digest: &str) -> (r: bool)
        ensures
            r == self@.contains((user@, digest@)),
    {
        let user_owned = user.to_owned();
        let digest_owned = digest.to_owned();
        let n = self.entries.len();
        let mut i: usize = 0;
        while i < n
            invariant
                n == self.entries@.len(),
                i <= n,
                user_owned@ == user@,
                digest_owned@ == digest@,
                forall|k: int| 0 <= k < i ==> #[trigger] self@[k] != (user@, digest@),
            decreases n - i,
        {
            let hit = self.entries[i].0 == user_owned && self.entries[i].1 == digest_owned;
            if hit {
                proof {
                    assert(self@[i as int] == (user@, digest@));
                }
                return true;
            }
            proof {
                assert(self@[i as int] == (self.entries@[i as int].0@, self.entries@[i as int].1@));
            }
            i += 1;
        }
        proof {
            if self@.contains((user@, digest@)) {
                let k = choose|k: int| 0 <= k < self@.len() && self@[k] == (user@, digest@);
                assert(false);
            }
        }
        false
    }
}

} // verus!
