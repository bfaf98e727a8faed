use vstd::prelude::*;
use vstd::string::*;
use vstd::utf8::{encode_utf8, is_ascii_chars, is_ascii_chars_encode_utf8, encode_utf8_valid_utf8,
    encode_utf8_decode_utf8};
use crate::block::{Block, BlockM, mined, block_ok, lemma_block_view_ok, TARGET_HEXT};
use crate::codec::{enc_block, encode_block, decode_block_exact, bytes_to_string};
use crate::errors::LedgerError;
use crate::storage::{db_view, db_open, db_get, db_insert, db_flush};
use crate::transaction::{Transaction, TXOutput, TxM, TxOutM, tx_models, vout_models,
    is_coinbase_model, coinbase_model, tx_digest};

verus! {

/// The fixed key under which the head hash is stored.
pub open spec fn last_key() -> Seq<u8> {
    encode_utf8("LAST"@)
}

/// The key under which a block is stored: the UTF-8 bytes of its hash.
pub open spec fn block_key(hash: Seq<char>) -> Seq<u8> {
    encode_utf8(hash)
}

/// A block is present in the mapping under its hash, as its exact encoding.
pub open spec fn stored(m: Map<Seq<u8>, Seq<u8>>, b: BlockM) -> bool {
    m.contains_key(block_key(b.hash)) && m[block_key(b.hash)] == enc_block(b)
}

/// The shape of a stored chain suffix, walking toward the genesis block:
/// the cursor points at the first block, every block is mined and stored,
/// each block links to the next, and the last block is the genesis block.
#[verifier::opaque]
pub open spec fn tail_wf(rest: Seq<Block>, m: Map<Seq<u8>, Seq<u8>>, cur: Seq<char>) -> bool {
    &&& (rest.len() == 0 ==> cur.len() == 0)
    &&& (rest.len() > 0 ==> cur == rest[0]@.hash)
    &&& (forall|i: int|
        0 <= i < rest.len() ==> (mined(#[trigger] rest[i]@) && block_ok(rest[i]@) && stored(
            m,
            rest[i]@,
        )))
    &&& (forall|i: int| 0 <= i < rest.len() - 1 ==> (#[trigger] rest[i]@).prev_hash == rest[i
        + 1]@.hash)
    &&& (rest.len() > 0 ==> rest[rest.len() - 1]@.prev_hash.len() == 0)
}

/// The durable chain store: a key-value tree holding every block under its
/// hash, one head pointer under `"LAST"`, and the ghost sequence of blocks,
/// newest first, that the store is known to hold.
pub struct Blockchain {
    pub current_hash: String,
    pub db: sled::Db,
    pub chain: Ghost<Seq<Block>>,
}

/// A backward cursor over the chain: the hash still to fetch, the store it
/// reads, and the ghost suffix of blocks it has yet to yield.
pub struct BlockchainIter<'a> {
    pub current_hash: String,
    pub bc: &'a Blockchain,
    pub rest: Ghost<Seq<Block>>,
}

impl Blockchain {
    /// The store is well formed: it holds at least the genesis block, the
    /// head pointer names the newest block, and the walk from the head is a
    /// hash-linked, mined, stored chain ending at the genesis block.
    pub open spec fn wf(self) -> bool {
        &&& self.chain@.len() >= 1
        &&& self.chain@.len() <= 0x7fff_ffff_ffff_ffff
        &&& tail_wf(self.chain@, db_view(self.db), self.current_hash@)
        &&& db_view(self.db).contains_key(last_key())
        &&& db_view(self.db)[last_key()] == encode_utf8(self.current_hash@)
    }
}

/// The model of the genesis coinbase transaction: a coinbase to the given
/// address with the default memo, with its id finalized.
pub open spec fn genesis_coinbase(addr: Seq<char>) -> TxM {
    let c = coinbase_model(addr, Seq::empty());
    TxM { id: tx_digest(c), vin: c.vin, vout: c.vout }
}

proof fn lemma_last_key_len()
    ensures
        last_key().len() == 4,
        "LAST"@.len() == 4,
        is_ascii_chars("LAST"@),
{
    reveal_strlit("LAST");
    assert(is_ascii_chars("LAST"@)) by {
        assert(forall|i: int| 0 <= i < 4 ==> '\0' <= #[trigger] "LAST"@[i] <= '\u{7f}');
    }
    is_ascii_chars_encode_utf8("LAST"@);
}

proof fn lemma_utf8_inj(a: Seq<char>, b: Seq<char>)
    requires
        encode_utf8(a) == encode_utf8(b),
    ensures
        a == b,
{
    encode_utf8_decode_utf8(a);
    encode_utf8_decode_utf8(b);
}

/// Law: a well-formed chain is hash-linked: each block's `prev_hash` is the
/// stored hash of the block appended just before it, the head pointer names
/// the newest block, and the walk ends at the genesis block, whose
/// `prev_hash` is empty.
pub proof fn lemma_chain_shape(bc: Blockchain)
    requires
        bc.wf(),
    ensures
        bc.chain@.len() >= 1,
        bc.current_hash@ == bc.chain@[0]@.hash,
        forall|i: int| 0 <= i < bc.chain@.len() - 1 ==> (#[trigger] bc.chain@[i]@).prev_hash
            == bc.chain@[i + 1]@.hash,
        bc.chain@[bc.chain@.len() - 1]@.prev_hash.len() == 0,
        forall|i: int| 0 <= i < bc.chain@.len() ==> mined(#[trigger] bc.chain@[i]@),
{
    reveal(tail_wf);
}

impl Blockchain {
    /// Attaches to the chain already stored at `path`. Fails with
    /// `ChainStateError` when no head pointer exists there: a chain is never
    /// empty, so a missing head means no chain was ever created. What the
    /// disk holds cannot be promised, so nothing is known of the opened
    /// store's shape; its guarantees come from the runtime checks of each
    /// later operation.
    pub fn new(path: &str) -> (r: Result<Blockchain, LedgerError>)
        ensures
            r matches Ok(bc) ==> (db_view(bc.db).contains_key(last_key()) && db_view(bc.db)[
                last_key()] == encode_utf8(bc.current_hash@)),
            r matches Err(e) ==> (e == LedgerError::ChainStateError || e == LedgerError::StorageError || e
                == LedgerError::EncodingError),
    {
        let db = match db_open(path) {
            Ok(d) => d,
            Err(_) => {
                return Err(LedgerError::StorageError);
            },
        };
        let got = match db_get(&db, "LAST".as_bytes()) {
            Ok(v) => v,
            Err(_) => {
                return Err(LedgerError::StorageError);
            },
        };
        let bytes = match got {
            Some(b) => b,
            None => {
                return Err(LedgerError::ChainStateError);
            },
        };
        let lasthash = match bytes_to_string(bytes) {
            Some(s) => s,
            None => {
                return Err(LedgerError::EncodingError);
            },
        };
        Ok(Blockchain { current_hash: lasthash, db, chain: Ghost(Seq::empty()) })
    }

    /// Creates a new chain at `path`: builds the finalized genesis coinbase
    /// for the address, mines the genesis block, writes it under its hash,
    /// sets the head pointer and flushes. Fails with `ChainStateError` when a
    /// head pointer already exists there: creating a chain twice is refused,
    /// not idempotent.
    pub fn create_blockchain(address: String, path: &str) -> (r: Result<Blockchain, LedgerError>)
        ensures
            r matches Ok(bc) ==> ({
                &&& bc.wf()
                &&& bc.chain@.len() == 1
                &&& bc.chain@[0]@.prev_hash.len() == 0
                &&& bc.chain@[0]@.height == 0
                &&& bc.chain@[0]@.transactions == seq![genesis_coinbase(address@)]
            }),
            r matches Err(e) ==> (e == LedgerError::ChainStateError || e == LedgerError::StorageError || e
                == LedgerError::ClockError || e == LedgerError::SerializationError),
    {
        let mut db = match db_open(path) {
            Ok(d) => d,
            Err(_) => {
                return Err(LedgerError::StorageError);
            },
        };
        match db_get(&db, "LAST".as_bytes()) {
            Ok(Some(_)) => {
                return Err(LedgerError::ChainStateError);
            },
            Ok(None) => {},
            Err(_) => {
                return Err(LedgerError::StorageError);
            },
        }
        let ghost addr_view = address@;
        let mut cbtx = match Transaction::new_coinbase(address, String::new()) {
            Ok(t) => t,
            Err(e) => {
                return Err(e);
            },
        };
        match cbtx.set_id() {
            Ok(_) => {},
            Err(e) => {
                return Err(e);
            },
        }
        proof {
            assert(cbtx@ =~~= genesis_coinbase(addr_view));
        }
        let genesis = match Block::new_genesis_block(cbtx) {
            Ok(b) => b,
            Err(e) => {
                return Err(e);
            },
        };
        let enc = encode_block(&genesis);
        let hash_str = genesis.get_hash();
        match db_insert(&mut db, hash_str.as_str().as_bytes(), &enc) {
            Ok(_) => {},
            Err(_) => {
                return Err(LedgerError::StorageError);
            },
        }
        let head_vec = hash_str.as_str().as_bytes_vec();
        match db_insert(&mut db, "LAST".as_bytes(), &head_vec) {
            Ok(_) => {},
            Err(_) => {
                return Err(LedgerError::StorageError);
            },
        }
        match db_flush(&mut db) {
            Ok(_) => {},
            Err(_) => {
                return Err(LedgerError::StorageError);
            },
        }
        let ghost gchain: Seq<Block> = seq![genesis];
        let bc = Blockchain { current_hash: hash_str, db, chain: Ghost(gchain) };
        proof {
            reveal(tail_wf);
            lemma_last_key_len();
            lemma_block_view_ok(&genesis);
            lemma_utf8_inj_contrapositive(genesis@.hash, "LAST"@);
        }
        Ok(bc)
    }

    /// Appends a block of the given transactions: reads the head pointer,
    /// mines a block whose `prev_hash` is that head, writes it under its
    /// hash, advances the head and flushes. A mined hash that already names a
    /// stored value would corrupt the walk, so such an append is refused with
    /// `StorageError`; no feasible run reaches that case.
    #[verifier::rlimit(100)]
    pub fn add_block(&mut self, data: Vec<Transaction>) -> (r: Result<(), LedgerError>)
        ensures
            r matches Ok(_) ==> ({
                &&& final(self).chain@.len() == old(self).chain@.len() + 1
                &&& final(self).chain@.skip(1) == old(self).chain@
                &&& mined(final(self).chain@[0]@)
                &&& final(self).chain@[0]@.transactions == tx_models(data@)
                &&& final(self).chain@[0]@.height == TARGET_HEXT
                &&& final(self).current_hash@ == final(self).chain@[0]@.hash
                &&& db_view(final(self).db) == db_view(old(self).db).insert(
                    block_key(final(self).chain@[0]@.hash),
                    enc_block(final(self).chain@[0]@),
                ).insert(last_key(), encode_utf8(final(self).current_hash@))
                &&& (old(self).wf() ==> ({
                    &&& final(self).chain@[0]@.prev_hash == old(self).chain@[0]@.hash
                    &&& (old(self).chain@.len() < 0x7fff_ffff_ffff_ffff ==> final(self).wf())
                }))
            }),
            r matches Err(_) ==> ({
                &&& final(self).chain@ == old(self).chain@
                &&& final(self).current_hash == old(self).current_hash
            }),
    {
        let got = match db_get(&self.db, "LAST".as_bytes()) {
            Ok(v) => v,
            Err(_) => {
                return Err(LedgerError::StorageError);
            },
        };
        let bytes = match got {
            Some(b) => b,
            None => {
                return Err(LedgerError::ChainStateError);
            },
        };
        let lasthash = match bytes_to_string(bytes) {
            Some(s) => s,
            None => {
                return Err(LedgerError::EncodingError);
            },
        };
        proof {
            reveal(tail_wf);
            if old(self).wf() {
                encode_utf8_valid_utf8(old(self).current_hash@);
                lemma_utf8_inj(lasthash@, old(self).current_hash@);
            }
        }
        let block = match Block::new_block(data, lasthash, TARGET_HEXT) {
            Ok(b) => b,
            Err(e) => {
                return Err(e);
            },
        };
        let enc = encode_block(&block);
        let hash_str = block.get_hash();
        match db_get(&self.db, hash_str.as_str().as_bytes()) {
            Ok(None) => {},
            Ok(Some(_)) => {
                return Err(LedgerError::StorageError);
            },
            Err(_) => {
                return Err(LedgerError::StorageError);
            },
        }
        match db_insert(&mut self.db, hash_str.as_str().as_bytes(), &enc) {
            Ok(_) => {},
            Err(_) => {
                return Err(LedgerError::StorageError);
            },
        }
        let head_vec = hash_str.as_str().as_bytes_vec();
        match db_insert(&mut self.db, "LAST".as_bytes(), &head_vec) {
            Ok(_) => {},
            Err(_) => {
                return Err(LedgerError::StorageError);
            },
        }
        match db_flush(&mut self.db) {
            Ok(_) => {},
            Err(_) => {
                return Err(LedgerError::StorageError);
            },
        }
        self.current_hash = hash_str;
        let ghost oldchain = self.chain@;
        let ghost newchain: Seq<Block> = seq![block] + oldchain;
        self.chain = Ghost(newchain);
        proof {
            reveal(tail_wf);
            assert(self.chain@.skip(1) =~= oldchain);
            if old(self).wf() {
                lemma_last_key_len();
                lemma_block_view_ok(&block);
                lemma_utf8_inj_contrapositive(block@.hash, "LAST"@);
                assert forall|i: int| 0 <= i < self.chain@.len() implies (mined(
                    #[trigger] self.chain@[i]@,
                ) && block_ok(self.chain@[i]@) && stored(db_view(self.db), self.chain@[i]@)) by {
                    if i > 0 {
                        assert(self.chain@[i] == oldchain[i - 1]);
                        assert(stored(db_view(old(self).db), oldchain[i - 1]@));
                        assert(!db_view(old(self).db).contains_key(block_key(block@.hash)));
                        assert(oldchain[i - 1]@.hash != block@.hash);
                        lemma_utf8_inj_contrapositive(oldchain[i - 1]@.hash, block@.hash);
                        lemma_utf8_inj_contrapositive(oldchain[i - 1]@.hash, "LAST"@);
                    }
                }
            }
        }
        Ok(())
    }

    /// A fresh backward cursor, starting from the head at the time of the
    /// call.
    pub fn iter(&self) -> (r: BlockchainIter<'_>)
        ensures
            r.bc == self,
            r.rest@ == self.chain@,
            r.current_hash@ == self.current_hash@,
            self.wf() ==> r.wf(),
    {
        BlockchainIter { current_hash: self.current_hash.clone(), bc: self, rest: Ghost(
            self.chain@,
        ) }
    }
}

/// Helper: distinct character sequences have distinct UTF-8 encodings.
proof fn lemma_utf8_inj_contrapositive(a: Seq<char>, b: Seq<char>)
    requires
        a != b,
    ensures
        encode_utf8(a) != encode_utf8(b),
{
    if encode_utf8(a) == encode_utf8(b) {
        lemma_utf8_inj(a, b);
    }
}

impl<'a> BlockchainIter<'a> {
    /// The cursor is consistent with the store it walks.
    pub open spec fn wf(self) -> bool {
        tail_wf(self.rest@, db_view(self.bc.db), self.current_hash@)
    }

    /// Advances the walk by one block. On a well-formed cursor this yields
    /// the blocks of the chain in order, newest first, and then `Ok(None)`
    /// once the genesis block has been yielded. A missing or undecodable
    /// stored block surfaces as `EncodingError` rather than being skipped.
    pub fn next(&mut self) -> (r: Result<Option<Block>, LedgerError>)
        ensures
            r matches Ok(o) ==> (o matches Some(b) ==> final(self).current_hash@ == b@.prev_hash),
            r matches Ok(o) ==> (o is None ==> *final(self) == *old(self)),
            r matches Err(_) ==> *final(self) == *old(self),
            old(self).wf() ==> ({
                &&& final(self).wf()
                &&& final(self).bc == old(self).bc
                &&& (r matches Err(e) ==> (e == LedgerError::StorageError
                    && *final(self) == *old(self)))
                &&& (r matches Ok(o) ==> ({
                    &&& (old(self).rest@.len() == 0 ==> (o is None
                        && final(self).rest@ == old(self).rest@))
                    &&& (old(self).rest@.len() > 0 ==> (o matches Some(b)
                        && b@ == old(self).rest@[0]@
                        && final(self).rest@ == old(self).rest@.drop_first()))
                }))
            }),
    {
        proof {
            reveal(tail_wf);
        }
        if self.current_hash.as_str().is_empty() {
            return Ok(None);
        }
        let got = match db_get(&self.bc.db, self.current_hash.as_str().as_bytes()) {
            Ok(v) => v,
            Err(_) => {
                return Err(LedgerError::StorageError);
            },
        };
        let bytes = match got {
            Some(b) => b,
            None => {
                return Err(LedgerError::EncodingError);
            },
        };
        let ghost gb: BlockM = if self.rest@.len() > 0 {
            self.rest@[0]@
        } else {
            arbitrary()
        };
        let block = match decode_block_exact(&bytes, Ghost(gb)) {
            Some(b) => b,
            None => {
                return Err(LedgerError::EncodingError);
            },
        };
        self.current_hash = block.get_prev_hash();
        let ghost oldrest = self.rest@;
        self.rest = Ghost(oldrest.drop_first());
        proof {
            reveal(tail_wf);
            if old(self).wf() {
                assert(oldrest.len() > 0);
                assert(block@ == oldrest[0]@);
                assert forall|i: int| 0 <= i < self.rest@.len() implies (mined(
                    #[trigger] self.rest@[i]@,
                ) && block_ok(self.rest@[i]@) && stored(db_view(self.bc.db), self.rest@[i]@)) by {
                    assert(self.rest@[i] == oldrest[i + 1]);
                }
                assert forall|i: int| 0 <= i < self.rest@.len() - 1 implies (
                #[trigger] self.rest@[i]@).prev_hash == self.rest@[i + 1]@.hash by {
                    assert(self.rest@[i] == oldrest[i + 1]);
                    assert(self.rest@[i + 1] == oldrest[i + 2]);
                }
                if self.rest@.len() > 0 {
                    assert(self.rest@[self.rest@.len() - 1] == oldrest[oldrest.len() - 1]);
                    assert(self.rest@[0] == oldrest[1]);
                    assert(self.current_hash@ == oldrest[0]@.prev_hash);
                } else {
                    assert(oldrest.len() == 1);
                }
            }
        }
        Ok(Some(block))
    }
}

// ---------------------------------------------------------------------------
// UTXO reconstruction.
//
// The unspent outputs of an address are recomputed by walking the chain
// newest-first. A set of `(transaction id, output index)` pairs records every
// spend seen so far; an output is collected when its token matches the
// address and no later transaction has spent it. For each transaction the
// outputs are examined first, then its own spends are recorded.
// ---------------------------------------------------------------------------

/// The spends of the first `k` inputs of a transaction.
pub open spec fn tx_spends_upto(t: TxM, k: int) -> Set<(Seq<char>, int)>
    decreases k,
{
    if k <= 0 {
        Set::empty()
    } else {
        tx_spends_upto(t, k - 1).insert((t.vin[k - 1].txid, t.vin[k - 1].vout))
    }
}

/// The spends a transaction records: one pair per input, none for a coinbase.
pub open spec fn tx_spends(t: TxM) -> Set<(Seq<char>, int)> {
    if is_coinbase_model(t) {
        Set::empty()
    } else {
        tx_spends_upto(t, t.vin.len() as int)
    }
}

/// Output `j` of the transaction is collected: its token matches the address
/// and no recorded spend names it.
pub open spec fn keep_out(t: TxM, addr: Seq<char>, spent: Set<(Seq<char>, int)>, j: int) -> bool {
    t.vout[j].script_pub_key == addr && !spent.contains((t.id, j))
}

/// The `(transaction, output index)` pairs collected from the first `j`
/// outputs of one transaction, under the given spent set.
pub open spec fn kept_pairs_tx(
    t: TxM,
    addr: Seq<char>,
    spent: Set<(Seq<char>, int)>,
    j: int,
) -> Seq<(TxM, int)>
    decreases j,
{
    if j <= 0 {
        Seq::empty()
    } else {
        kept_pairs_tx(t, addr, spent, j - 1) + (if keep_out(t, addr, spent, j - 1) {
            seq![(t, j - 1)]
        } else {
            Seq::empty()
        })
    }
}

/// The spent set after the first `n` transactions of a list, starting from
/// `spent`.
pub open spec fn spent_after_txs(
    spent: Set<(Seq<char>, int)>,
    txs: Seq<TxM>,
    n: int,
) -> Set<(Seq<char>, int)>
    decreases n,
{
    if n <= 0 {
        spent
    } else {
        spent_after_txs(spent, txs, n - 1).union(tx_spends(txs[n - 1]))
    }
}

/// The pairs collected from the first `n` transactions of a list, each under
/// the spent set as it stood when that transaction was visited.
pub open spec fn pairs_after_txs(
    spent: Set<(Seq<char>, int)>,
    txs: Seq<TxM>,
    addr: Seq<char>,
    n: int,
) -> Seq<(TxM, int)>
    decreases n,
{
    if n <= 0 {
        Seq::empty()
    } else {
        pairs_after_txs(spent, txs, addr, n - 1) + kept_pairs_tx(
            txs[n - 1],
            addr,
            spent_after_txs(spent, txs, n - 1),
            txs[n - 1].vout.len() as int,
        )
    }
}

/// The models of a sequence of blocks.
pub open spec fn chain_ms(ch: Seq<Block>) -> Seq<BlockM> {
    ch.map_values(|b: Block| b@)
}

/// The spent set after the first `n` blocks of the walk, newest first.
pub open spec fn spent_after_chain(ch: Seq<BlockM>, n: int) -> Set<(Seq<char>, int)>
    decreases n,
{
    if n <= 0 {
        Set::empty()
    } else {
        spent_after_txs(
            spent_after_chain(ch, n - 1),
            ch[n - 1].transactions,
            ch[n - 1].transactions.len() as int,
        )
    }
}

/// The pairs collected over the first `n` blocks of the walk, newest first.
pub open spec fn pairs_after_chain(ch: Seq<BlockM>, addr: Seq<char>, n: int) -> Seq<(TxM, int)>
    decreases n,
{
    if n <= 0 {
        Seq::empty()
    } else {
        pairs_after_chain(ch, addr, n - 1) + pairs_after_txs(
            spent_after_chain(ch, n - 1),
            ch[n - 1].transactions,
            addr,
            ch[n - 1].transactions.len() as int,
        )
    }
}

/// Every `(transaction, output index)` pair the full walk collects for the
/// address: the unspent outputs, newest block first.
pub open spec fn unspent_pairs(ch: Seq<BlockM>, addr: Seq<char>) -> Seq<(TxM, int)> {
    pairs_after_chain(ch, addr, ch.len() as int)
}

/// The transactions holding those outputs, one entry per collected output.
pub open spec fn unspent_tx_seq(ch: Seq<BlockM>, addr: Seq<char>) -> Seq<TxM> {
    unspent_pairs(ch, addr).map_values(|p: (TxM, int)| p.0)
}

/// The collected outputs themselves.
pub open spec fn utxo_seq(ch: Seq<BlockM>, addr: Seq<char>) -> Seq<TxOutM> {
    unspent_pairs(ch, addr).map_values(|p: (TxM, int)| p.0.vout[p.1])
}

/// The spends a working list of `(transaction id, output index)` entries
/// denotes.
pub open spec fn spent_set_of(v: Seq<(String, i32)>) -> Set<(Seq<char>, int)> {
    Set::new(
        |p: (Seq<char>, int)|
            exists|k: int|
                0 <= k < v.len() && (#[trigger] v[k]).0@ == p.0 && v[k].1 == p.1,
    )
}

/// The models of a working list of `(transaction, output index)` pairs.
pub open spec fn pairs_model(v: Seq<(Transaction, usize)>) -> Seq<(TxM, int)> {
    v.map_values(|p: (Transaction, usize)| (p.0@, p.1 as int))
}

proof fn lemma_spent_push(v: Seq<(String, i32)>, x: (String, i32))
    ensures
        spent_set_of(v.push(x)) =~= spent_set_of(v).insert((x.0@, x.1 as int)),
{
    let w = v.push(x);
    assert forall|p: (Seq<char>, int)| spent_set_of(w).contains(p) implies spent_set_of(v).insert(
        (x.0@, x.1 as int),
    ).contains(p) by {
        let k = choose|k: int| 0 <= k < w.len() && (#[trigger] w[k]).0@ == p.0 && w[k].1 == p.1;
        if k < v.len() {
            assert(w[k] == v[k]);
            assert(spent_set_of(v).contains(p));
        } else {
            assert(w[k] == x);
        }
    }
    assert forall|p: (Seq<char>, int)| spent_set_of(v).insert(
        (x.0@, x.1 as int),
    ).contains(p) implies spent_set_of(w).contains(p) by {
        if p == (x.0@, x.1 as int) {
            assert(w[v.len() as int] == x);
        } else {
            let k = choose|k: int| 0 <= k < v.len() && (#[trigger] v[k]).0@ == p.0 && v[k].1 == p.1;
            assert(w[k] == v[k]);
        }
    }
}

/// Whether the working list records the pair `(txid, j)` as spent.
fn spent_contains(v: &Vec<(String, i32)>, txid: &String, j: usize) -> (r: bool)
    ensures
        r == spent_set_of(v@).contains((txid@, j as int)),
{
    let mut k: usize = 0;
    while k < v.len()
        invariant
            k <= v@.len(),
            forall|m: int| 0 <= m < k ==> !((#[trigger] v@[m]).0@ == txid@ && v@[m].1 == j as int),
        decreases v@.len() - k,
    {
        if v[k].0 == *txid && v[k].1 >= 0 && (v[k].1 as usize) == j {
            assert(spent_set_of(v@).contains((txid@, j as int)));
            return true;
        }
        k = k + 1;
    }
    assert(!spent_set_of(v@).contains((txid@, j as int)));
    false
}

/// Records every spend of a non-coinbase transaction; a coinbase records
/// nothing.
fn record_spends(spent: &mut Vec<(String, i32)>, tx: &Transaction)
    ensures
        spent_set_of(final(spent)@) == spent_set_of(old(spent)@).union(tx_spends(tx@)),
{
    if tx.is_coinbase() {
        proof {
            assert(spent_set_of(spent@) =~= spent_set_of(spent@).union(Set::empty()));
        }
        return;
    }
    let ghost s0 = spent_set_of(spent@);
    let mut k: usize = 0;
    while k < tx.vin.len()
        invariant
            k <= tx.vin@.len(),
            !is_coinbase_model(tx@),
            s0 == spent_set_of(old(spent)@),
            spent_set_of(spent@) == s0.union(tx_spends_upto(tx@, k as int)),
        decreases tx.vin@.len() - k,
    {
        let ghost pre = spent@;
        let entry = (tx.vin[k].txid.clone(), tx.vin[k].vout);
        let ghost ge = entry;
        spent.push(entry);
        proof {
            lemma_spent_push(pre, ge);
            assert(tx@.vin[k as int] == tx.vin@[k as int]@);
            assert(spent_set_of(spent@) =~= s0.union(tx_spends_upto(tx@, k + 1)));
        }
        k = k + 1;
    }
    proof {
        assert(tx@.vin.len() == tx.vin@.len());
    }
}

/// Collects the unspent outputs of one transaction addressed to `address`,
/// given the spends recorded so far.
fn collect_tx_outputs(
    tx: &Transaction,
    address: &str,
    spent: &Vec<(String, i32)>,
    found: &mut Vec<(Transaction, usize)>,
)
    ensures
        pairs_model(final(found)@) == pairs_model(old(found)@) + kept_pairs_tx(
            tx@,
            address@,
            spent_set_of(spent@),
            tx@.vout.len() as int,
        ),
        forall|q: int| 0 <= q < old(found)@.len() ==> final(found)@[q] == old(found)@[q],
        forall|q: int|
            old(found)@.len() <= q < final(found)@.len() ==> ((#[trigger] final(found)@[q]).1
                as int) < final(found)@[q].0.vout@.len(),
{
    let ghost s = spent_set_of(spent@);
    let ghost base = found@;
    let mut j: usize = 0;
    while j < tx.vout.len()
        invariant
            j <= tx.vout@.len(),
            s == spent_set_of(spent@),
            base == old(found)@,
            pairs_model(found@) == pairs_model(base) + kept_pairs_tx(tx@, address@, s, j as int),
            forall|q: int| 0 <= q < base.len() ==> found@[q] == base[q],
            forall|q: int|
                base.len() <= q < found@.len() ==> ((#[trigger] found@[q]).1 as int)
                    < found@[q].0.vout@.len(),
        decreases tx.vout@.len() - j,
    {
        let is_spent = spent_contains(spent, &tx.id, j);
        let unlocks = tx.vout[j].can_be_unlock_with(address.to_owned());
        proof {
            assert(tx@.vout[j as int] == tx.vout@[j as int]@);
        }
        if !is_spent && unlocks {
            let ghost pre = found@;
            found.push((tx.clone(), j));
            proof {
                let ghost x = found@[pre.len() as int];
                assert(forall|q: int| 0 <= q < pre.len() ==> found@[q] == pre[q]);
                assert(x.0@ == tx@);
                assert(x.0@.vout.len() == x.0.vout@.len());
                assert((x.1 as int) < x.0.vout@.len());
                assert(keep_out(tx@, address@, s, j as int));
                assert(pairs_model(found@) =~= pairs_model(pre) + seq![(tx@, j as int)]);
                assert(pairs_model(pre) + seq![(tx@, j as int)] =~= pairs_model(base)
                    + kept_pairs_tx(tx@, address@, s, j + 1));
            }
        } else {
            proof {
                assert(!keep_out(tx@, address@, s, j as int));
                assert(kept_pairs_tx(tx@, address@, s, j + 1) =~= kept_pairs_tx(
                    tx@,
                    address@,
                    s,
                    j as int,
                ));
            }
        }
        j = j + 1;
    }
    proof {
        assert(tx@.vout.len() == tx.vout@.len());
    }
}

/// Visits the transactions of one block in order: collect each transaction's
/// unspent outputs first, then record its spends.
fn process_block_txs(
    txs: &Vec<Transaction>,
    address: &str,
    spent: &mut Vec<(String, i32)>,
    found: &mut Vec<(Transaction, usize)>,
)
    ensures
        spent_set_of(final(spent)@) == spent_after_txs(
            spent_set_of(old(spent)@),
            tx_models(txs@),
            txs@.len() as int,
        ),
        pairs_model(final(found)@) == pairs_model(old(found)@) + pairs_after_txs(
            spent_set_of(old(spent)@),
            tx_models(txs@),
            address@,
            txs@.len() as int,
        ),
        forall|q: int| 0 <= q < old(found)@.len() ==> final(found)@[q] == old(found)@[q],
        forall|q: int|
            old(found)@.len() <= q < final(found)@.len() ==> ((#[trigger] final(found)@[q]).1
                as int) < final(found)@[q].0.vout@.len(),
{
    let ghost s0 = spent_set_of(spent@);
    let ghost base = found@;
    let ghost ms = tx_models(txs@);
    let mut i: usize = 0;
    while i < txs.len()
        invariant
            i <= txs@.len(),
            s0 == spent_set_of(old(spent)@),
            base == old(found)@,
            ms == tx_models(txs@),
            spent_set_of(spent@) == spent_after_txs(s0, ms, i as int),
            pairs_model(found@) == pairs_model(base) + pairs_after_txs(s0, ms, address@, i as int),
            forall|q: int| 0 <= q < base.len() ==> found@[q] == base[q],
            forall|q: int|
                base.len() <= q < found@.len() ==> ((#[trigger] found@[q]).1 as int)
                    < found@[q].0.vout@.len(),
        decreases txs@.len() - i,
    {
        proof {
            assert(ms[i as int] == txs@[i as int]@);
        }
        collect_tx_outputs(&txs[i], address, spent, found);
        record_spends(spent, &txs[i]);
        i = i + 1;
    }
}

impl Blockchain {
    /// Reads the whole chain into memory, newest block first.
    #[verifier::rlimit(100)]
    #[verifier::spinoff_prover]
    fn collect_blocks(&self) -> (r: Result<Vec<Block>, LedgerError>)
        ensures
            self.wf() ==> ({
                &&& (r matches Ok(v) ==> (v@.len() == self.chain@.len() && forall|i: int|
                    0 <= i < v@.len() ==> (#[trigger] v@[i])@ == self.chain@[i]@))
                &&& (r matches Err(e) ==> e == LedgerError::StorageError)
            }),
    {
        let ghost ch = self.chain@;
        let mut it = self.iter();
        let mut out: Vec<Block> = Vec::new();
        let ghost mut n: int = 0;
        let mut steps: u64 = 0;
        proof {
            assert(ch.skip(0) =~= ch);
        }
        loop
            invariant_except_break
                ch == self.chain@,
                self.wf() ==> ({
                    &&& it.wf()
                    &&& it.bc == self
                    &&& 0 <= n <= ch.len()
                    &&& n == steps as int
                    &&& out@.len() == n
                    &&& it.rest@ == ch.skip(n)
                    &&& forall|i: int| 0 <= i < n ==> (#[trigger] out@[i])@ == ch[i]@
                }),
            ensures
                self.wf() ==> (out@.len() == ch.len() && forall|i: int|
                    0 <= i < ch.len() ==> (#[trigger] out@[i])@ == ch[i]@),
            decreases u64::MAX - steps,
        {
            let step = it.next();
            match step {
                Err(_) => {
                    return Err(LedgerError::StorageError);
                },
                Ok(None) => {
                    proof {
                        if self.wf() {
                            assert(ch.skip(n).len() == 0);
                        }
                    }
                    break;
                },
                Ok(Some(block)) => {
                    if steps == u64::MAX {
                        proof {
                            if self.wf() {
                                assert(ch.skip(n).len() > 0);
                            }
                        }
                        return Err(LedgerError::EncodingError);
                    }
                    steps = steps + 1;
                    proof {
                        if self.wf() {
                            assert(ch.skip(n)[0] == ch[n]);
                            assert(ch.skip(n).drop_first() =~= ch.skip(n + 1));
                        }
                    }
                    out.push(block);
                    proof {
                        n = n + 1;
                    }
                },
            }
        }
        Ok(out)
    }

    /// Walks the whole chain and collects every `(transaction, output index)`
    /// pair whose output is addressed to `address` and unspent.
    fn scan_unspent(&self, address: &str) -> (r: Result<Vec<(Transaction, usize)>, LedgerError>)
        ensures
            self.wf() ==> ({
                &&& (r matches Ok(v) ==> pairs_model(v@) == unspent_pairs(chain_ms(self.chain@), address@))
                &&& (r matches Err(e) ==> e == LedgerError::StorageError)
            }),
            r matches Ok(v) ==> forall|q: int|
                0 <= q < v@.len() ==> ((#[trigger] v@[q]).1 as int) < v@[q].0.vout@.len(),
    {
        let blocks = match self.collect_blocks() {
            Ok(v) => v,
            Err(e) => {
                return Err(e);
            },
        };
        let ghost chm = chain_ms(blocks@);
        proof {
            if self.wf() {
                assert(chm =~= chain_ms(self.chain@));
            }
        }
        let mut spent: Vec<(String, i32)> = Vec::new();
        let mut found: Vec<(Transaction, usize)> = Vec::new();
        let mut n: usize = 0;
        proof {
            assert(spent_set_of(spent@) =~= Set::<(Seq<char>, int)>::empty());
            assert(pairs_model(found@) =~= Seq::<(TxM, int)>::empty());
        }
        while n < blocks.len()
            invariant
                n <= blocks@.len(),
                chm == chain_ms(blocks@),
                spent_set_of(spent@) == spent_after_chain(chm, n as int),
                pairs_model(found@) == pairs_after_chain(chm, address@, n as int),
                forall|q: int|
                    0 <= q < found@.len() ==> ((#[trigger] found@[q]).1 as int)
                        < found@[q].0.vout@.len(),
            decreases blocks@.len() - n,
        {
            proof {
                assert(chm[n as int] == blocks@[n as int]@);
            }
            let txs = blocks[n].get_transaction();
            process_block_txs(txs, address, &mut spent, &mut found);
            n = n + 1;
        }
        Ok(found)
    }

    /// The transactions that still hold an unspent output addressed to
    /// `address`, one entry per such output, newest block first.
    pub fn find_unspent_transaction(&self, address: &str) -> (r: Result<
        Vec<Transaction>,
        LedgerError,
    >)
        ensures
            self.wf() ==> ({
                &&& (r matches Ok(v) ==> tx_models(v@) == unspent_tx_seq(chain_ms(self.chain@), address@))
                &&& (r matches Err(e) ==> e == LedgerError::StorageError)
            }),
    {
        let pairs = match self.scan_unspent(address) {
            Ok(p) => p,
            Err(e) => {
                return Err(e);
            },
        };
        let mut out: Vec<Transaction> = Vec::new();
        let mut i: usize = 0;
        while i < pairs.len()
            invariant
                i <= pairs@.len(),
                out@.len() == i,
                forall|q: int| 0 <= q < i ==> out@[q]@ == (#[trigger] pairs@[q]).0@,
            decreases pairs@.len() - i,
        {
            out.push(pairs[i].0.clone());
            i = i + 1;
        }
        proof {
            if self.wf() {
                assert(tx_models(out@) =~= unspent_tx_seq(chain_ms(self.chain@), address@));
            }
        }
        Ok(out)
    }

    /// The unspent outputs addressed to `address`, newest block first: the
    /// address's spendable balance.
    #[allow(non_snake_case)]
    pub fn find_UTXO(&self, address: &str) -> (r: Result<Vec<TXOutput>, LedgerError>)
        ensures
            self.wf() ==> ({
                &&& (r matches Ok(v) ==> vout_models(v@) == utxo_seq(chain_ms(self.chain@), address@))
                &&& (r matches Err(e) ==> e == LedgerError::StorageError)
            }),
    {
        let pairs = match self.scan_unspent(address) {
            Ok(p) => p,
            Err(e) => {
                return Err(e);
            },
        };
        let mut out: Vec<TXOutput> = Vec::new();
        let mut i: usize = 0;
        while i < pairs.len()
            invariant
                i <= pairs@.len(),
                out@.len() == i,
                forall|q: int|
                    0 <= q < pairs@.len() ==> ((#[trigger] pairs@[q]).1 as int)
                        < pairs@[q].0.vout@.len(),
                forall|q: int|
                    0 <= q < i ==> out@[q]@ == (#[trigger] pairs@[q]).0@.vout[pairs@[q].1 as int],
            decreases pairs@.len() - i,
        {
            let j = pairs[i].1;
            proof {
                assert(pairs@[i as int].0@.vout[j as int] == pairs@[i as int].0.vout@[j as int]@);
            }
            out.push(pairs[i].0.vout[j].clone());
            i = i + 1;
        }
        proof {
            if self.wf() {
                assert(vout_models(out@) =~= utxo_seq(chain_ms(self.chain@), address@));
            }
        }
        Ok(out)
    }
}

} // verus!
