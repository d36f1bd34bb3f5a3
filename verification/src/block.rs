//! Blocks, their headers, and the proof-of-work search over the nonce.

use crate::digest::{sha256, sha256_digest};
use std::time::{SystemTime, UNIX_EPOCH};
use vstd::bytes::{spec_u32_to_le_bytes, u32_to_le_bytes};
use vstd::prelude::*;

verus! {

/// A transaction: an opaque payload.
#[derive(Debug)]
pub struct Transaction {
    pub data: Vec<u8>,
}

/// The header of a block.
#[derive(Clone, Copy, Debug, PartialEq, Eq)]
pub struct BlockHeader {
    pub version: u32,
    pub prev_block: [u8; 32],
    pub merkle_root: [u8; 32],
    pub timestamp: u32,
    pub target: [u8; 32],
    pub nonce: u32,
}

/// A block: a header and the transactions it commits to.
#[derive(Debug)]
pub struct Block {
    pub header: BlockHeader,
    pub transactions: Vec<Transaction>,
}

/// The payloads of transactions.
pub open spec fn payloads(transactions: Seq<Transaction>) -> Seq<Seq<u8>> {
    transactions.map_values(|t: Transaction| t.data@)
}

impl Clone for Transaction {
    fn clone(&self) -> (copy: Transaction)
        ensures
            copy.data@ == self.data@,
    {
        let mut data: Vec<u8> = Vec::new();
        append_bytes(&mut data, self.data.as_slice());
        Transaction { data }
    }
}

impl Clone for Block {
    fn clone(&self) -> (copy: Block)
        ensures
            copy.header == self.header,
            payloads(copy.transactions@) == payloads(self.transactions@),
    {
        let mut transactions: Vec<Transaction> = Vec::new();
        let mut i: usize = 0;
        while i < self.transactions.len()
            invariant
                i <= self.transactions.len(),
                transactions.len() == i,
                forall|k: int| 0 <= k < i ==> transactions@[k].data@ == self.transactions@[k].data@,
            decreases self.transactions.len() - i,
        {
            transactions.push(self.transactions[i].clone());
            i += 1;
        }
        assert(payloads(transactions@) =~= payloads(self.transactions@));
        Block { header: self.header, transactions }
    }
}

/// The bytes a header is hashed over: version, previous block, Merkle root,
/// timestamp, target and nonce, integers in little-endian order.
pub open spec fn header_bytes(h: BlockHeader) -> Seq<u8> {
    spec_u32_to_le_bytes(h.version) + h.prev_block@ + h.merkle_root@ + spec_u32_to_le_bytes(
        h.timestamp,
    ) + h.target@ + spec_u32_to_le_bytes(h.nonce)
}

/// The SHA-256 hash of a header.
pub open spec fn header_hash(h: BlockHeader) -> Seq<u8> {
    sha256(header_bytes(h))
}

/// A hash meets a difficulty when its first `difficulty / 8` bytes are zero.
pub open spec fn meets_difficulty(hash: Seq<u8>, difficulty: u32) -> bool {
    &&& difficulty / 8 <= hash.len()
    &&& forall|i: int| 0 <= i < difficulty / 8 ==> hash[i] == 0
}

/// The header with another nonce.
pub open spec fn with_nonce(h: BlockHeader, nonce: u32) -> BlockHeader {
    BlockHeader { nonce, ..h }
}

/// The header with `nonce` meets `difficulty`.
pub open spec fn nonce_works(h: BlockHeader, nonce: u32, difficulty: u32) -> bool {
    meets_difficulty(header_hash(with_nonce(h, nonce)), difficulty)
}

/// The difficulty blocks are mined at: one leading zero byte.
pub open spec fn spec_difficulty() -> u32 {
    8
}

/// The largest hash that meets a difficulty: zero in its first
/// `difficulty / 8` bytes, `0xff` in the rest.
pub open spec fn target_for(difficulty: u32) -> Seq<u8> {
    Seq::new(
        32,
        |i: int|
            if i < difficulty / 8 {
                0u8
            } else {
                0xffu8
            },
    )
}

/// The digests of a level, pair by pair; an odd last one is paired with
/// itself.
pub open spec fn pair_digests(level: Seq<Seq<u8>>) -> Seq<Seq<u8>> {
    Seq::new(
        (level.len() + 1) / 2,
        |i: int|
            sha256(
                level[2 * i] + if 2 * i + 1 < level.len() {
                    level[2 * i + 1]
                } else {
                    level[2 * i]
                },
            ),
    )
}

/// The root over a level of digests: 32 zero bytes for none.
pub open spec fn root_of(level: Seq<Seq<u8>>) -> Seq<u8>
    decreases level.len(),
{
    if level.len() == 0 {
        Seq::new(32, |i: int| 0u8)
    } else if level.len() == 1 {
        level[0]
    } else {
        root_of(pair_digests(level))
    }
}

/// The Merkle root of transactions: the root over the SHA-256 digests of
/// their payloads.
pub open spec fn merkle_root_of(transactions: Seq<Transaction>) -> Seq<u8> {
    root_of(transactions.map_values(|t: Transaction| sha256(t.data@)))
}

/// Reads the clock: `std::time::SystemTime::now`, measured from the Unix
/// epoch with `duration_since`, in whole seconds; `None` when the clock
/// stands before the epoch. Trusted to return; nothing is claimed of the
/// value, which differs from call to call.
#[verifier::external_body]
fn unix_time_now() -> (secs: Option<u64>) {
    SystemTime::now().duration_since(UNIX_EPOCH).ok().map(|d| d.as_secs())
}

impl BlockHeader {
    /// The bytes the header is hashed over.
    pub fn to_bytes(&self) -> (bytes: Vec<u8>)
        ensures
            bytes@ == header_bytes(*self),
    {
        let mut bytes = u32_to_le_bytes(self.version);
        append_bytes(&mut bytes, self.prev_block.as_slice());
        append_bytes(&mut bytes, self.merkle_root.as_slice());
        let mut timestamp = u32_to_le_bytes(self.timestamp);
        bytes.append(&mut timestamp);
        append_bytes(&mut bytes, self.target.as_slice());
        let mut nonce = u32_to_le_bytes(self.nonce);
        bytes.append(&mut nonce);
        bytes
    }

    /// The SHA-256 hash of the header.
    pub fn hash(&self) -> (digest: [u8; 32])
        ensures
            digest@ == header_hash(*self),
    {
        let bytes = self.to_bytes();
        sha256_digest(bytes.as_slice())
    }
}

/// Appends a slice to a vector.
fn append_bytes(out: &mut Vec<u8>, more: &[u8])
    ensures
        final(out)@ == old(out)@ + more@,
{
    let mut i: usize = 0;
    while i < more.len()
        invariant
            i <= more.len(),
            out@ == old(out)@ + more@.subrange(0, i as int),
        decreases more.len() - i,
    {
        out.push(more[i]);
        assert(out@ =~= old(out)@ + more@.subrange(0, i + 1));
        i += 1;
    }
    assert(more@.subrange(0, more.len() as int) =~= more@);
}

/// Whether a hash has `difficulty / 8` leading zero bytes.
pub fn hash_meets_difficulty(hash: &[u8; 32], difficulty: u32) -> (r: bool)
    ensures
        r == meets_difficulty(hash@, difficulty),
{
    let zeros: u32 = difficulty / 8;
    if zeros > 32 {
        return false;
    }
    let mut i: u32 = 0;
    while i < zeros
        invariant
            i <= zeros,
            zeros == difficulty / 8,
            zeros <= 32,
            forall|j: int| 0 <= j < i ==> hash@[j] == 0,
        decreases zeros - i,
    {
        if hash[i as usize] != 0 {
            return false;
        }
        i += 1;
    }
    true
}

/// Searches the nonces above the header's own, in increasing order, for one
/// under which the header's hash meets `difficulty`. The first such nonce is
/// stored and `true` returned; when none is left the block stays unchanged
/// and `false` is returned.
pub fn proof_of_work(block: &mut Block, difficulty: u32) -> (found: bool)
    ensures
        final(block).transactions == old(block).transactions,
        found ==> {
            &&& final(block).header == with_nonce(old(block).header, final(block).header.nonce)
            &&& old(block).header.nonce < final(block).header.nonce
            &&& nonce_works(old(block).header, final(block).header.nonce, difficulty)
            &&& forall|n: u32|
                old(block).header.nonce < n < final(block).header.nonce ==> !nonce_works(
                    old(block).header,
                    n,
                    difficulty,
                )
        },
        !found ==> {
            &&& final(block).header == old(block).header
            &&& forall|n: u32| old(block).header.nonce < n ==> !nonce_works(
                old(block).header,
                n,
                difficulty,
            )
        },
{
    let mut header = block.header;
    let ghost start = block.header;
    while header.nonce < u32::MAX
        invariant
            header == with_nonce(start, header.nonce),
            start.nonce <= header.nonce,
            start == block.header,
            start == old(block).header,
            block.transactions == old(block).transactions,
            forall|n: u32| start.nonce < n <= header.nonce ==> !nonce_works(start, n, difficulty),
        decreases u32::MAX - header.nonce,
    {
        header.nonce = header.nonce + 1;
        let hash = header.hash();
        if hash_meets_difficulty(&hash, difficulty) {
            block.header = header;
            return true;
        }
    }
    false
}

/// The difficulty blocks are mined at.
pub fn calculate_difficulty() -> (d: u32)
    ensures
        d == spec_difficulty(),
{
    8
}

/// The target of the difficulty blocks are mined at.
pub fn calculate_target() -> (target: [u8; 32])
    ensures
        target@ == target_for(spec_difficulty()),
{
    let mut target = [0xffu8;32];
    target[0] = 0;
    assert(target@ =~= target_for(spec_difficulty()));
    target
}

/// The digests of a level, as sequences of bytes.
pub open spec fn digests_view(level: Seq<[u8; 32]>) -> Seq<Seq<u8>> {
    level.map_values(|d: [u8; 32]| d@)
}

/// The digests of the pairs of a level with at least two digests.
fn pair_level_digests(level: &Vec<[u8; 32]>) -> (next: Vec<[u8; 32]>)
    requires
        level.len() >= 2,
    ensures
        digests_view(next@) == pair_digests(digests_view(level@)),
        next.len() == (level.len() + 1) / 2,
{
    let len = level.len();
    let half = len / 2 + len % 2;
    let mut next: Vec<[u8; 32]> = Vec::new();
    let mut k: usize = 0;
    while k < half
        invariant
            len == level.len(),
            half == (len + 1) / 2,
            k <= half,
            next.len() == k,
            forall|j: int|
                0 <= j < next.len() ==> next@[j]@ == pair_digests(digests_view(level@))[j],
        decreases half - k,
    {
        let i = 2 * k;
        let mut both: Vec<u8> = Vec::new();
        append_bytes(&mut both, level[i].as_slice());
        if i + 1 < len {
            append_bytes(&mut both, level[i + 1].as_slice());
        } else {
            append_bytes(&mut both, level[i].as_slice());
        }
        let digest = sha256_digest(both.as_slice());
        proof {
            assert(digests_view(level@)[i as int] == level@[i as int]@);
            if i + 1 < len {
                assert(digests_view(level@)[i + 1] == level@[i + 1]@);
            }
        }
        next.push(digest);
        k += 1;
    }
    assert(digests_view(next@) =~= pair_digests(digests_view(level@)));
    next
}

/// The Merkle root of the transactions: 32 zero bytes for none.
pub fn calculate_merkle_root(transactions: &Vec<Transaction>) -> (root: [u8; 32])
    ensures
        root@ == merkle_root_of(transactions@),
{
    let mut level: Vec<[u8; 32]> = Vec::new();
    let mut i: usize = 0;
    while i < transactions.len()
        invariant
            i <= transactions.len(),
            level.len() == i,
            forall|k: int| 0 <= k < i ==> level@[k]@ == sha256(transactions@[k].data@),
        decreases transactions.len() - i,
    {
        level.push(sha256_digest(transactions[i].data.as_slice()));
        i += 1;
    }
    proof {
        assert(digests_view(level@) =~= transactions@.map_values(
            |t: Transaction| sha256(t.data@),
        ));
    }
    if level.len() == 0 {
        let zeros = [0u8;32];
        assert(zeros@ =~= root_of(digests_view(level@)));
        return zeros;
    }
    while level.len() > 1
        invariant
            level.len() >= 1,
            root_of(digests_view(level@)) == merkle_root_of(transactions@),
        decreases level.len(),
    {
        level = pair_level_digests(&level);
    }
    assert(digests_view(level@)[0] == level@[0]@);
    level[0]
}

/// The block that follows `prev_block` with the given transactions and
/// timestamp: version 1, the hash of the previous header, the Merkle root of
/// the transactions, the target of the mining difficulty, and the first nonce
/// above 0 that meets that difficulty (0 when there is none).
pub fn create_block_at(prev_block: &Block, transactions: Vec<Transaction>, timestamp: u32) -> (block:
    Block)
    ensures
        block.transactions == transactions,
        block.header.version == 1,
        block.header.prev_block@ == header_hash(prev_block.header),
        block.header.merkle_root@ == merkle_root_of(transactions@),
        block.header.timestamp == timestamp,
        block.header.target@ == target_for(spec_difficulty()),
        block.header.nonce > 0 ==> nonce_works(
            block.header,
            block.header.nonce,
            spec_difficulty(),
        ),
        forall|n: u32|
            0 < n && (n < block.header.nonce || block.header.nonce == 0) ==> !nonce_works(
                block.header,
                n,
                spec_difficulty(),
            ),
{
    let header = BlockHeader {
        version: 1,
        prev_block: prev_block.header.hash(),
        merkle_root: calculate_merkle_root(&transactions),
        timestamp,
        target: calculate_target(),
        nonce: 0,
    };
    let mut block = Block { header, transactions };
    let found = proof_of_work(&mut block, calculate_difficulty());
    proof {
        assert forall|n: u32| #[trigger]
            nonce_works(block.header, n, spec_difficulty()) == nonce_works(
                header,
                n,
                spec_difficulty(),
            ) by {
            assert(with_nonce(block.header, n) == with_nonce(header, n));
        }
    }
    block
}

/// The block that follows `prev_block` with the given transactions, stamped
/// with the current time in seconds since the Unix epoch, taken modulo 2^32
/// (0 when the clock stands before the epoch). All but the timestamp is as
/// `create_block_at` makes it.
pub fn create_block(prev_block: &Block, transactions: Vec<Transaction>) -> (block: Block)
    ensures
        block.transactions == transactions,
        block.header.version == 1,
        block.header.prev_block@ == header_hash(prev_block.header),
        block.header.merkle_root@ == merkle_root_of(transactions@),
        block.header.target@ == target_for(spec_difficulty()),
        block.header.nonce > 0 ==> nonce_works(
            block.header,
            block.header.nonce,
            spec_difficulty(),
        ),
        forall|n: u32|
            0 < n && (n < block.header.nonce || block.header.nonce == 0) ==> !nonce_works(
                block.header,
                n,
                spec_difficulty(),
            ),
{
    let secs: u64 = match unix_time_now() {
        Some(secs) => secs,
        None => 0,
    };
    let timestamp = (secs % 0x1_0000_0000) as u32;
    create_block_at(prev_block, transactions, timestamp)
}

} // verus!
