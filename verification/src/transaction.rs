use vstd::prelude::*;
use vstd::string::*;
use crate::errors::LedgerError;

verus! {

/// The amount granted by a coinbase (reward) transaction.
pub const COINBASE_REWARD: i32 = 100;

/// Mathematical model of a transaction input.
#[verifier::ext_equal]
pub ghost struct TxInM {
    pub txid: Seq<char>,
    pub vout: int,
    pub script_sig: Seq<char>,
}

/// Mathematical model of a transaction output.
#[verifier::ext_equal]
pub ghost struct TxOutM {
    pub value: int,
    pub script_pub_key: Seq<char>,
}

/// Mathematical model of a transaction.
#[verifier::ext_equal]
pub ghost struct TxM {
    pub id: Seq<char>,
    pub vin: Seq<TxInM>,
    pub vout: Seq<TxOutM>,
}

/// A reference to an output of an earlier transaction, together with the
/// token that claims it. Unlocking is plain string equality, a deliberate
/// placeholder for a signature scheme.
#[derive(Debug)]
pub struct TXInput {
    pub txid: String,
    pub vout: i32,
    pub script_sig: String,
}

/// A value addressed to whoever can present the stored token.
#[derive(Debug)]
pub struct TXOutput {
    pub value: i32,
    pub script_pub_key: String,
}

/// An ordered bundle of inputs and outputs, identified by the digest of its
/// own content once `set_id` has run.
#[derive(Debug)]
pub struct Transaction {
    pub id: String,
    pub vin: Vec<TXInput>,
    pub vout: Vec<TXOutput>,
}

impl View for TXInput {
    type V = TxInM;

    open spec fn view(&self) -> TxInM {
        TxInM { txid: self.txid@, vout: self.vout as int, script_sig: self.script_sig@ }
    }
}

impl View for TXOutput {
    type V = TxOutM;

    open spec fn view(&self) -> TxOutM {
        TxOutM { value: self.value as int, script_pub_key: self.script_pub_key@ }
    }
}

/// The models of a sequence of inputs.
pub open spec fn vin_models(v: Seq<TXInput>) -> Seq<TxInM> {
    v.map_values(|t: TXInput| t@)
}

/// The models of a sequence of outputs.
pub open spec fn vout_models(v: Seq<TXOutput>) -> Seq<TxOutM> {
    v.map_values(|t: TXOutput| t@)
}

impl View for Transaction {
    type V = TxM;

    open spec fn view(&self) -> TxM {
        TxM { id: self.id@, vin: vin_models(self.vin@), vout: vout_models(self.vout@) }
    }
}

/// The models of a sequence of transactions.
pub open spec fn tx_models(v: Seq<Transaction>) -> Seq<TxM> {
    v.map_values(|t: Transaction| t@)
}

/// The output index of an input fits the field that stores it.
pub open spec fn txin_ok(t: TxInM) -> bool {
    -0x8000_0000 <= t.vout < 0x8000_0000
}

/// The amount of an output fits the field that stores it.
pub open spec fn txout_ok(o: TxOutM) -> bool {
    -0x8000_0000 <= o.value < 0x8000_0000
}

/// Every input of the sequence satisfies `txin_ok`.
pub open spec fn txins_ok(s: Seq<TxInM>) -> bool {
    forall|i: int| 0 <= i < s.len() ==> txin_ok(#[trigger] s[i])
}

/// Every output of the sequence satisfies `txout_ok`.
pub open spec fn txouts_ok(s: Seq<TxOutM>) -> bool {
    forall|i: int| 0 <= i < s.len() ==> txout_ok(#[trigger] s[i])
}

/// Every numeric field of the transaction fits its storage width.
pub open spec fn tx_ok(t: TxM) -> bool {
    txins_ok(t.vin) && txouts_ok(t.vout)
}

/// Every transaction of the sequence satisfies `tx_ok`.
pub open spec fn txs_ok(s: Seq<TxM>) -> bool {
    forall|i: int| 0 <= i < s.len() ==> tx_ok(#[trigger] s[i])
}

/// The model of any in-memory transaction satisfies `tx_ok`.
pub proof fn lemma_tx_view_ok(t: &Transaction)
    ensures
        tx_ok(t@),
{
    assert forall|i: int| 0 <= i < t@.vin.len() implies txin_ok(#[trigger] t@.vin[i]) by {
        assert(t@.vin[i] == t.vin@[i]@);
    }
    assert forall|i: int| 0 <= i < t@.vout.len() implies txout_ok(#[trigger] t@.vout[i]) by {
        assert(t@.vout[i] == t.vout@[i]@);
    }
}

/// The models of any in-memory transaction sequence satisfy `tx_ok`.
pub proof fn lemma_txs_view_ok(v: Seq<Transaction>)
    ensures
        txs_ok(tx_models(v)),
{
    assert forall|i: int| 0 <= i < tx_models(v).len() implies tx_ok(#[trigger] tx_models(v)[i]) by {
        assert(tx_models(v)[i] == v[i]@);
        lemma_tx_view_ok(&v[i]);
    }
}

/// True of the model of a coinbase transaction: exactly one input, with an
/// empty source id and the sentinel output index `-1`.
pub open spec fn is_coinbase_model(t: TxM) -> bool {
    t.vin.len() == 1 && t.vin[0].txid.len() == 0 && t.vin[0].vout == -1
}

impl Clone for TXInput {
    /// A clone carries the same model.
    fn clone(&self) -> (r: Self)
        ensures
            r@ == self@,
    {
        TXInput {
            txid: self.txid.clone(),
            vout: self.vout,
            script_sig: self.script_sig.clone(),
        }
    }
}

impl Clone for TXOutput {
    /// A clone carries the same model.
    fn clone(&self) -> (r: Self)
        ensures
            r@ == self@,
    {
        TXOutput { value: self.value, script_pub_key: self.script_pub_key.clone() }
    }
}

impl Clone for Transaction {
    /// A clone carries the same model.
    fn clone(&self) -> (r: Self)
        ensures
            r@ == self@,
    {
        let mut vin: Vec<TXInput> = Vec::new();
        let mut i: usize = 0;
        while i < self.vin.len()
            invariant
                i <= self.vin@.len(),
                vin@.len() == i,
                forall|m: int| 0 <= m < i ==> vin@[m]@ == self.vin@[m]@,
            decreases self.vin@.len() - i,
        {
            vin.push(self.vin[i].clone());
            i = i + 1;
        }
        let mut vout: Vec<TXOutput> = Vec::new();
        let mut j: usize = 0;
        while j < self.vout.len()
            invariant
                j <= self.vout@.len(),
                vout@.len() == j,
                forall|m: int| 0 <= m < j ==> vout@[m]@ == self.vout@[m]@,
            decreases self.vout@.len() - j,
        {
            vout.push(self.vout[j].clone());
            j = j + 1;
        }
        proof {
            assert(vin_models(vin@) =~= vin_models(self.vin@));
            assert(vout_models(vout@) =~= vout_models(self.vout@));
        }
        Transaction { id: self.id.clone(), vin, vout }
    }
}

impl TXInput {
    /// Whether the token equals the stored unlock token, by exact equality.
    pub fn can_be_unlock_with(&self, unlocking_data: String) -> (r: bool)
        ensures
            r == (self@.script_sig == unlocking_data@),
    {
        self.script_sig == unlocking_data
    }
}

impl TXOutput {
    /// Whether the token equals the stored unlock token, by exact equality.
    pub fn can_be_unlock_with(&self, unlocking_data: String) -> (r: bool)
        ensures
            r == (self@.script_pub_key == unlocking_data@),
    {
        self.script_pub_key == unlocking_data
    }
}

/// The memo a coinbase input carries: the caller's text, or a default
/// naming the recipient when the caller's text is empty.
pub open spec fn coinbase_memo(to: Seq<char>, data: Seq<char>) -> Seq<char> {
    if data.len() == 0 {
        "Reward to "@ + to
    } else {
        data
    }
}

/// The model of a freshly built coinbase transaction: one sentinel input,
/// one reward output to the recipient, and no id yet.
pub open spec fn coinbase_model(to: Seq<char>, data: Seq<char>) -> TxM {
    TxM {
        id: Seq::empty(),
        vin: seq![TxInM { txid: Seq::empty(), vout: -1, script_sig: coinbase_memo(to, data) }],
        vout: seq![TxOutM { value: COINBASE_REWARD as int, script_pub_key: to }],
    }
}

/// The id that finalizing a transaction assigns: the digest of its own
/// `(vin, vout)` content.
pub open spec fn tx_digest(t: TxM) -> Seq<char> {
    crate::hashing::sha256_hex_of(crate::codec::tx_content(t))
}

/// Law: the id assigned by `set_id` depends on the inputs and outputs alone,
/// so finalizing an unchanged transaction twice yields the same id both times.
pub proof fn lemma_set_id_idempotent(a: TxM, b: TxM)
    requires
        a.vin == b.vin,
        a.vout == b.vout,
    ensures
        tx_digest(a) == tx_digest(b),
{
    assert(crate::codec::tx_content(a) == crate::codec::tx_content(b));
}

/// Law: a transaction built by `new_coinbase` is always detected as a
/// coinbase; one whose input count differs from one, or whose first input
/// carries a non-empty source id, never is.
pub proof fn lemma_coinbase_detection(to: Seq<char>, data: Seq<char>, t: TxM)
    ensures
        is_coinbase_model(coinbase_model(to, data)),
        t.vin.len() != 1 ==> !is_coinbase_model(t),
        t.vin.len() > 0 && t.vin[0].txid.len() > 0 ==> !is_coinbase_model(t),
{
}

impl Transaction {
    /// Builds the reward transaction of a block: one input with an empty
    /// source id, the sentinel index `-1` and the memo as its token, and one
    /// output of `COINBASE_REWARD` addressed to the recipient. The id is not
    /// assigned here.
    pub fn new_coinbase(to: String, data: String) -> (r: Result<Transaction, LedgerError>)
        ensures
            r matches Ok(t) && t@ == coinbase_model(to@, data@),
    {
        let memo: String = if data.as_str().is_empty() {
            let prefix = String::from_str("Reward to ");
            prefix.concat(to.as_str())
        } else {
            data
        };
        let mut vin: Vec<TXInput> = Vec::new();
        vin.push(TXInput { txid: String::new(), vout: -1, script_sig: memo });
        let mut vout: Vec<TXOutput> = Vec::new();
        vout.push(TXOutput { value: COINBASE_REWARD, script_pub_key: to });
        let tx = Transaction { id: String::new(), vin, vout };
        proof {
            assert(tx@ =~~= coinbase_model(to@, data@));
        }
        Ok(tx)
    }

    /// Computes and assigns the id: the digest of the transaction's own
    /// `(vin, vout)` content. The inputs and outputs are untouched, so a
    /// second call assigns the same id again.
    pub fn set_id(&mut self) -> (r: Result<(), LedgerError>)
        ensures
            r is Ok,
            final(self)@.id == tx_digest(old(self)@),
            final(self).vin == old(self).vin,
            final(self).vout == old(self).vout,
    {
        let data = crate::codec::tx_content_bytes(&*self);
        self.id = crate::hashing::sha256_hex(&data);
        Ok(())
    }

    /// True exactly of transactions shaped like a coinbase: one input whose
    /// source id is empty and whose output index is `-1`.
    pub fn is_coinbase(&self) -> (r: bool)
        ensures
            r == is_coinbase_model(self@),
    {
        self.vin.len() == 1 && self.vin[0].txid.as_str().is_empty() && self.vin[0].vout == -1
    }
}

} // verus!
