use vstd::prelude::*;
use crate::transaction::{Transaction, TxM, tx_models, txs_ok, lemma_txs_view_ok};
use crate::codec::{enc_str, enc_i32, enc_tx_list, le_bytes, pow256, lemma_pow256_values};
use crate::hashing::{sha256_hex_of, sha256_hex, current_millis};
use crate::errors::LedgerError;

verus! {

/// The number of leading hexadecimal `'0'` characters a digest must show for
/// a block to count as mined. Fixed; there is no retargeting.
pub const TARGET_HEXT: usize = 4;

/// Mathematical model of a block.
#[verifier::ext_equal]
pub ghost struct BlockM {
    pub timestamp: int,
    pub height: int,
    pub transactions: Seq<TxM>,
    pub prev_hash: Seq<char>,
    pub hash: Seq<char>,
    pub nonce: int,
}

/// A record of the ledger: frozen transactions, a link to the predecessor,
/// and a digest found by the proof-of-work search.
#[derive(Debug)]
pub struct Block {
    pub timestamp: u128,
    pub height: usize,
    pub transactions: Vec<Transaction>,
    pub prev_hash: String,
    pub hash: String,
    pub nonce: i32,
}

impl View for Block {
    type V = BlockM;

    open spec fn view(&self) -> BlockM {
        BlockM {
            timestamp: self.timestamp as int,
            height: self.height as int,
            transactions: tx_models(self.transactions@),
            prev_hash: self.prev_hash@,
            hash: self.hash@,
            nonce: self.nonce as int,
        }
    }
}

/// Every numeric field of the block fits its storage width.
pub open spec fn block_ok(b: BlockM) -> bool {
    &&& 0 <= b.timestamp < pow256(16)
    &&& 0 <= b.height <= usize::MAX
    &&& -0x8000_0000 <= b.nonce < 0x8000_0000
    &&& txs_ok(b.transactions)
}

/// The model of any in-memory block satisfies `block_ok`.
pub proof fn lemma_block_view_ok(b: &Block)
    ensures
        block_ok(b@),
{
    lemma_pow256_values();
    lemma_txs_view_ok(b.transactions@);
}

/// The bytes whose digest decides the proof-of-work puzzle: the frozen
/// `(prev_hash, transactions, timestamp, difficulty, nonce)` content.
pub open spec fn pow_content(b: BlockM) -> Seq<u8> {
    enc_str(b.prev_hash) + enc_tx_list(b.transactions) + le_bytes(b.timestamp as nat, 16)
        + le_bytes(TARGET_HEXT as nat, 8) + enc_i32(b.nonce)
}

/// The part of `pow_content` that the nonce search leaves untouched: all of
/// it but the trailing nonce field.
pub open spec fn pow_prefix(b: BlockM) -> Seq<u8> {
    enc_str(b.prev_hash) + enc_tx_list(b.transactions) + le_bytes(b.timestamp as nat, 16)
        + le_bytes(TARGET_HEXT as nat, 8)
}

/// The difficulty predicate: the first `TARGET_HEXT` characters are `'0'`.
pub open spec fn meets_difficulty(h: Seq<char>) -> bool {
    h.len() == 64 && forall|i: int| 0 <= i < TARGET_HEXT ==> h[i] == '0'
}

/// A mined block: its stored hash is exactly the digest of its frozen
/// content, and that digest meets the difficulty predicate.
pub open spec fn mined(b: BlockM) -> bool {
    b.hash == sha256_hex_of(pow_content(b)) && meets_difficulty(b.hash)
}

/// The position of a nonce in the search order, which starts at 0, counts
/// up, and continues from the smallest negative value after the largest
/// positive one.
pub open spec fn nonce_rank(n: int) -> int {
    if n >= 0 {
        n
    } else {
        n + 0x1_0000_0000
    }
}

/// The same block content under another nonce.
pub open spec fn with_nonce(b: BlockM, n: int) -> BlockM {
    BlockM { nonce: n, ..b }
}

/// The block's nonce is the first one in the search order whose digest
/// meets the difficulty predicate: every nonce tried before it fails.
pub open spec fn first_valid_nonce(b: BlockM) -> bool {
    forall|m: int|
        -0x8000_0000 <= m < 0x8000_0000 && nonce_rank(m) < nonce_rank(b.nonce)
            ==> !meets_difficulty(sha256_hex_of(pow_content(#[trigger] with_nonce(b, m))))
}

/// Law: recomputing the digest over a mined block's frozen
/// `(prev_hash, transactions, timestamp, difficulty, nonce)` content yields
/// exactly its stored hash, and the first `TARGET_HEXT` hexadecimal
/// characters of that hash are `'0'`.
pub proof fn lemma_mined_block_hash(b: BlockM)
    requires
        mined(b),
    ensures
        b.hash == sha256_hex_of(pow_content(b)),
        forall|i: int| 0 <= i < TARGET_HEXT ==> b.hash[i] == '0',
{
}

impl Block {
    /// The serialized `(prev_hash, transactions, timestamp, difficulty,
    /// nonce)` content whose digest decides the proof-of-work puzzle.
    fn prepare_hash_data(&self) -> (r: Vec<u8>)
        ensures
            r@ == pow_content(self@),
    {
        let mut out: Vec<u8> = Vec::new();
        crate::codec::push_str_enc(&mut out, self.prev_hash.as_str());
        crate::codec::push_tx_list(&mut out, &self.transactions);
        crate::codec::push_le(&mut out, self.timestamp, 16);
        crate::codec::push_le(&mut out, TARGET_HEXT as u128, 8);
        crate::codec::push_i32(&mut out, self.nonce);
        proof {
            assert(out@ =~= pow_content(self@));
        }
        out
    }

    /// The serialized content shared by every try of the nonce search,
    /// computed once per block.
    fn prepare_prefix(&self) -> (r: Vec<u8>)
        ensures
            r@ == pow_prefix(self@),
    {
        let mut out: Vec<u8> = Vec::new();
        crate::codec::push_str_enc(&mut out, self.prev_hash.as_str());
        crate::codec::push_tx_list(&mut out, &self.transactions);
        crate::codec::push_le(&mut out, self.timestamp, 16);
        crate::codec::push_le(&mut out, TARGET_HEXT as u128, 8);
        proof {
            assert(out@ =~= pow_prefix(self@));
        }
        out
    }

    /// Whether the digest of the current content meets the difficulty
    /// target. The caller hands in the serialized nonce-free prefix so that
    /// each try only appends the nonce and digests.
    fn validate(&self, prefix: &Vec<u8>) -> (r: bool)
        requires
            prefix@ == pow_prefix(self@),
        ensures
            r == meets_difficulty(sha256_hex_of(pow_content(self@))),
    {
        let mut data = crate::codec::clone_bytes(prefix);
        crate::codec::push_i32(&mut data, self.nonce);
        proof {
            assert(data@ =~= pow_content(self@));
        }
        let hash = sha256_hex(&data);
        let mut ok = true;
        let mut i: usize = 0;
        while i < TARGET_HEXT
            invariant
                i <= TARGET_HEXT,
                hash@ == sha256_hex_of(pow_content(self@)),
                hash@.len() == 64,
                ok == (forall|q: int| 0 <= q < i ==> hash@[q] == '0'),
            decreases TARGET_HEXT - i,
        {
            let c = hash.as_str().get_char(i);
            ok = ok && c == '0';
            i = i + 1;
        }
        ok
    }

    /// The proof-of-work search: starting from nonce 0, increment the nonce
    /// until the digest of the frozen content shows the required zeros, then
    /// store that digest as the block's hash. The stored nonce is the first
    /// qualifying one in the search order. For the fixed target the search
    /// succeeds in expectation after about 65536 tries; after one sweep of
    /// the whole nonce space, which proves that no nonce qualifies for this
    /// content, it reports the fatal defect kind, since the design promises
    /// no liveness and has no error kind for an unsatisfiable puzzle.
    fn run_proof_if_work(&mut self) -> (r: Result<(), LedgerError>)
        requires
            old(self).nonce == 0,
        ensures
            r matches Ok(_) ==> ({
                &&& mined(final(self)@)
                &&& first_valid_nonce(final(self)@)
                &&& vstd::utf8::is_ascii_chars(final(self)@.hash)
                &&& final(self).timestamp == old(self).timestamp
                &&& final(self).height == old(self).height
                &&& final(self).transactions == old(self).transactions
                &&& final(self).prev_hash == old(self).prev_hash
            }),
            r matches Err(e) ==> e == LedgerError::SerializationError,
    {
        let mut tries: u64 = 0;
        let prefix = self.prepare_prefix();
        loop
            invariant_except_break
                prefix@ == pow_prefix(self@),
                self.timestamp == old(self).timestamp,
                self.height == old(self).height,
                self.transactions == old(self).transactions,
                self.prev_hash == old(self).prev_hash,
                self.hash == old(self).hash,
                tries <= 0x1_0000_0000,
                (tries as int) < 0x1_0000_0000 ==> nonce_rank(self.nonce as int) == tries as int,
                forall|m: int|
                    -0x8000_0000 <= m < 0x8000_0000 && nonce_rank(m) < tries as int
                        ==> !meets_difficulty(
                        sha256_hex_of(pow_content(#[trigger] with_nonce(self@, m))),
                    ),
            ensures
                self.timestamp == old(self).timestamp,
                self.height == old(self).height,
                self.transactions == old(self).transactions,
                self.prev_hash == old(self).prev_hash,
                meets_difficulty(sha256_hex_of(pow_content(self@))),
                first_valid_nonce(self@),
            decreases 0x1_0000_0001u64 - tries,
        {
            let ghost at_check = self@;
            let hit = self.validate(&prefix);
            if hit {
                proof {
                    assert(with_nonce(self@, self.nonce as int) =~= self@);
                    if tries == 0x1_0000_0000u64 {
                        assert(nonce_rank(self.nonce as int) < 0x1_0000_0000);
                        assert(false);
                    }
                }
                break;
            }
            if tries == 0x1_0000_0000u64 {
                return Err(LedgerError::SerializationError);
            }
            let ghost prev_nonce: int = self.nonce as int;
            tries = tries + 1;
            if self.nonce == i32::MAX {
                self.nonce = i32::MIN;
            } else {
                self.nonce = self.nonce + 1;
            }
            proof {
                assert(with_nonce(self@, prev_nonce) =~= at_check);
                assert forall|m: int|
                    -0x8000_0000 <= m < 0x8000_0000 && nonce_rank(m) < tries as int implies !meets_difficulty(
                    sha256_hex_of(pow_content(#[trigger] with_nonce(self@, m))),
                ) by {
                    assert(with_nonce(self@, m) =~= with_nonce(at_check, m));
                    if nonce_rank(m) == tries - 1 {
                        assert(m == prev_nonce);
                    }
                }
            }
        }
        let ghost searched = self@;
        let data = self.prepare_hash_data();
        self.hash = sha256_hex(&data);
        proof {
            assert forall|m: int|
                -0x8000_0000 <= m < 0x8000_0000 && nonce_rank(m) < nonce_rank(self@.nonce) implies !meets_difficulty(
                sha256_hex_of(pow_content(#[trigger] with_nonce(self@, m))),
            ) by {
                assert(pow_content(with_nonce(self@, m)) == pow_content(with_nonce(searched, m)));
            }
            assert(pow_content(self@) == pow_content(searched));
        }
        Ok(())
    }

    /// Builds and mines a block over the given transactions, stamped with the
    /// current time. `Err(ClockError)` exactly when the clock cannot be read;
    /// `Err(SerializationError)` only on the infeasible exhaustion of the
    /// nonce search.
    pub fn new_block(data: Vec<Transaction>, prev_block_hash: String, height: usize) -> (r: Result<
        Block,
        LedgerError,
    >)
        ensures
            r matches Ok(b) ==> ({
                &&& mined(b@)
                &&& first_valid_nonce(b@)
                &&& vstd::utf8::is_ascii_chars(b@.hash)
                &&& b@.transactions == tx_models(data@)
                &&& b@.prev_hash == prev_block_hash@
                &&& b@.height == height
            }),
            r matches Err(e) ==> (e == LedgerError::ClockError || e == LedgerError::SerializationError),
    {
        let timestamp = match current_millis() {
            Ok(t) => t,
            Err(_) => {
                return Err(LedgerError::ClockError);
            },
        };
        let mut block = Block {
            timestamp,
            transactions: data,
            height,
            nonce: 0,
            prev_hash: prev_block_hash,
            hash: String::new(),
        };
        match block.run_proof_if_work() {
            Ok(_) => Ok(block),
            Err(e) => Err(e),
        }
    }

    /// Builds and mines the first block of a chain: no predecessor, height 0,
    /// and the given coinbase transaction as its only content.
    pub fn new_genesis_block(coinbase: Transaction) -> (r: Result<Block, LedgerError>)
        ensures
            r matches Ok(b) ==> ({
                &&& mined(b@)
                &&& first_valid_nonce(b@)
                &&& vstd::utf8::is_ascii_chars(b@.hash)
                &&& b@.transactions == seq![coinbase@]
                &&& b@.prev_hash.len() == 0
                &&& b@.height == 0
            }),
            r matches Err(e) ==> (e == LedgerError::ClockError || e == LedgerError::SerializationError),
    {
        let ghost cm = coinbase@;
        let mut txs: Vec<Transaction> = Vec::new();
        txs.push(coinbase);
        proof {
            assert(tx_models(txs@) =~= seq![cm]);
        }
        Block::new_block(txs, String::new(), 0)
    }

    /// The stored hash, assigned once at the end of mining.
    pub fn get_hash(&self) -> (r: String)
        ensures
            r@ == self@.hash,
    {
        self.hash.clone()
    }

    /// The hash of the chain predecessor; empty only for the genesis block.
    pub fn get_prev_hash(&self) -> (r: String)
        ensures
            r@ == self@.prev_hash,
    {
        self.prev_hash.clone()
    }

    /// The transactions frozen into the block.
    pub fn get_transaction(&self) -> (r: &Vec<Transaction>)
        ensures
            tx_models(r@) == self@.transactions,
    {
        &self.transactions
    }
}

} // verus!
