use vstd::prelude::*;
use vstd::string::*;
use vstd::utf8::is_scalar;
use crate::transaction::{TXInput, TXOutput, Transaction, TxInM, TxOutM, TxM, vin_models,
    vout_models, tx_models, txin_ok, txout_ok, tx_ok, txins_ok, txouts_ok, txs_ok};

verus! {

// ---------------------------------------------------------------------------
// The canonical binary encoding.
//
// Every value hashed or persisted by the ledger is first rendered into bytes
// by the schema below, which is deterministic by construction: fixed-width
// little-endian integers, length-prefixed character sequences, and fields in
// a fixed order.
//
//   integer of width k : k bytes, little endian
//   i32                : offset by 2^31, then 4 bytes little endian
//   string             : 8-byte character count, then one 4-byte scalar per character
//   list               : 8-byte element count, then the elements in order
// ---------------------------------------------------------------------------

/// `256^k`, the number of values a `k`-byte field can carry.
pub open spec fn pow256(k: nat) -> nat
    decreases k,
{
    if k == 0 {
        1nat
    } else {
        256 * pow256((k - 1) as nat)
    }
}

/// The `k` little-endian bytes of `n`.
pub open spec fn le_bytes(n: nat, k: nat) -> Seq<u8>
    decreases k,
{
    if k == 0 {
        Seq::empty()
    } else {
        seq![(n % 256) as u8] + le_bytes(n / 256, (k - 1) as nat)
    }
}

/// The number a little-endian byte sequence denotes.
pub open spec fn from_le(s: Seq<u8>) -> nat
    decreases s.len(),
{
    if s.len() == 0 {
        0nat
    } else {
        (s[0] + 256 * from_le(s.drop_first())) as nat
    }
}

pub proof fn lemma_pow256_values()
    ensures
        pow256(4) == 0x1_0000_0000,
        pow256(8) == 0x1_0000_0000_0000_0000,
        pow256(16) == 0x1_0000_0000_0000_0000_0000_0000_0000_0000,
{
    reveal_with_fuel(pow256, 17);
}

pub proof fn lemma_pow256_mono(a: nat, b: nat)
    requires
        a <= b,
    ensures
        0 < pow256(a) <= pow256(b),
    decreases b,
{
    if b == 0 {
    } else if a == b {
        lemma_pow256_mono(0, (b - 1) as nat);
    } else {
        lemma_pow256_mono(a, (b - 1) as nat);
    }
}

pub proof fn lemma_le_bytes_len(n: nat, k: nat)
    ensures
        le_bytes(n, k).len() == k,
    decreases k,
{
    if k > 0 {
        lemma_le_bytes_len(n / 256, (k - 1) as nat);
    }
}

/// A number below `256^k` is recovered exactly from its `k` bytes.
pub proof fn lemma_le_roundtrip(n: nat, k: nat)
    requires
        n < pow256(k),
    ensures
        from_le(le_bytes(n, k)) == n,
    decreases k,
{
    if k > 0 {
        lemma_le_bytes_len(n / 256, (k - 1) as nat);
        assert(le_bytes(n, k).drop_first() =~= le_bytes(n / 256, (k - 1) as nat));
        assert(n / 256 < pow256((k - 1) as nat)) by (nonlinear_arith)
            requires
                n < pow256(k),
                pow256(k) == 256 * pow256((k - 1) as nat),
        ;
        lemma_le_roundtrip(n / 256, (k - 1) as nat);
        assert(n % 256 + 256 * (n / 256) == n) by (nonlinear_arith);
    }
}

/// Appends the `k` little-endian bytes of `n`.
pub fn push_le(out: &mut Vec<u8>, n: u128, k: usize)
    ensures
        final(out)@ == old(out)@ + le_bytes(n as nat, k as nat),
{
    let mut cur: u128 = n;
    let mut i: usize = 0;
    while i < k
        invariant
            i <= k,
            old(out)@ + le_bytes(n as nat, k as nat) == out@ + le_bytes(cur as nat, (k - i) as nat),
        decreases k - i,
    {
        let ghost pre = out@;
        let ghost c0 = cur as nat;
        out.push((cur % 256) as u8);
        cur = cur / 256;
        proof {
            assert(le_bytes(c0, (k - i) as nat) == seq![(c0 % 256) as u8] + le_bytes(
                c0 / 256,
                (k - i - 1) as nat,
            ));
            assert(pre + le_bytes(c0, (k - i) as nat) =~= out@ + le_bytes(
                c0 / 256,
                (k - i - 1) as nat,
            ));
        }
        i = i + 1;
    }
    assert(out@ + le_bytes(cur as nat, 0) =~= out@);
}

/// A byte-for-byte copy.
pub fn clone_bytes(v: &Vec<u8>) -> (r: Vec<u8>)
    ensures
        r@ == v@,
{
    let mut out: Vec<u8> = Vec::new();
    let mut i: usize = 0;
    while i < v.len()
        invariant
            i <= v@.len(),
            out@ == v@.take(i as int),
        decreases v@.len() - i,
    {
        out.push(v[i]);
        proof {
            assert(out@ =~= v@.take(i + 1));
        }
        i = i + 1;
    }
    proof {
        assert(v@.take(v@.len() as int) =~= v@);
    }
    out
}

/// Is `enc` the exact content of `b` at position `pos`?
pub open spec fn bytes_at(b: Seq<u8>, pos: int, enc: Seq<u8>) -> bool {
    &&& 0 <= pos
    &&& pos + enc.len() <= b.len()
    &&& b.subrange(pos, pos + enc.len()) == enc
}

/// A run of bytes splits into its two halves.
pub proof fn lemma_bytes_at_split(b: Seq<u8>, pos: int, x: Seq<u8>, y: Seq<u8>)
    requires
        bytes_at(b, pos, x + y),
    ensures
        bytes_at(b, pos, x),
        bytes_at(b, pos + x.len(), y),
{
    let xy = x + y;
    assert(forall|i: int| 0 <= i < xy.len() ==> xy[i] == b[pos + i]);
    assert(b.subrange(pos, pos + x.len()) =~= x);
    assert forall|i: int| 0 <= i < y.len() implies b.subrange(
        pos + x.len(),
        pos + x.len() + y.len(),
    )[i] == y[i] by {
        assert(y[i] == xy[x.len() + i]);
    }
    assert(b.subrange(pos + x.len(), pos + x.len() + y.len()) =~= y);
}

/// Reads the `k`-byte little-endian field at `pos`.
///
/// When the bytes there are `le_bytes(g, k)`, the value read is `g`.
pub fn read_le(buf: &Vec<u8>, pos: usize, k: usize, g: Ghost<nat>) -> (r: Option<(u128, usize)>)
    requires
        k <= 16,
    ensures
        (g@ < pow256(k as nat) && pos + k <= buf@.len() && buf@.subrange(
            pos as int,
            pos + k,
        ) == le_bytes(g@, k as nat)) ==> (r matches Some(p) && p.0 as nat == g@ && p.1 == pos + k),
        r matches Some(p) ==> p.0 < pow256(k as nat) && p.1 == pos + k && pos + k <= buf@.len(),
{
    proof {
        lemma_le_bytes_len(g@, k as nat);
    }
    let bl = buf.len();
    if k > bl || pos > bl - k {
        return None;
    }
    let mut val: u128 = 0;
    let mut j: usize = 0;
    while j < k
        invariant
            j <= k <= 16,
            pos + k <= bl,
            bl == buf@.len(),
            val as nat == from_le(buf@.subrange(pos + k - j, pos + k as int)),
            val < pow256(j as nat),
        decreases k - j,
    {
        proof {
            lemma_pow256_mono((j + 1) as nat, 16);
            lemma_pow256_values();
            assert(val as nat * 256 + 256 <= pow256((j + 1) as nat)) by (nonlinear_arith)
                requires
                    val < pow256(j as nat),
                    pow256((j + 1) as nat) == 256 * pow256(j as nat),
            ;
        }
        let b = buf[pos + k - j - 1];
        let ghost oldval = val as nat;
        val = val * 256 + (b as u128);
        proof {
            let s1 = buf@.subrange(pos + k - j - 1, pos + k as int);
            assert(s1.drop_first() =~= buf@.subrange(pos + k - j, pos + k as int));
            assert(s1[0] == b);
            assert(from_le(s1) == b + 256 * oldval);
        }
        j = j + 1;
    }
    proof {
        if g@ < pow256(k as nat) && pos + k <= buf@.len() && buf@.subrange(pos as int, pos + k)
            == le_bytes(g@, k as nat) {
            lemma_le_roundtrip(g@, k as nat);
        }
    }
    Some((val, pos + k))
}

// ---------------------------------------------------------------------------
// Characters and strings
// ---------------------------------------------------------------------------

/// Relies on char::from_u32: `Some` exactly for Unicode scalar values, and the
/// returned character casts back to the given value.
#[verifier::external_body]
fn char_from_u32(x: u32) -> (r: Option<char>)
    ensures
        r matches Some(c) ==> c as u32 == x,
        is_scalar(x) ==> r is Some,
{
    char::from_u32(x)
}

/// Relies on String::from_utf8: `Some` exactly when the bytes are valid
/// UTF-8, and then the returned string's UTF-8 bytes are the given ones.
#[verifier::external_body]
pub fn bytes_to_string(v: Vec<u8>) -> (r: Option<String>)
    ensures
        r matches Some(s) ==> vstd::utf8::encode_utf8(s@) == v@,
        vstd::utf8::valid_utf8(v@) ==> r is Some,
{
    match String::from_utf8(v) {
        Ok(s) => Some(s),
        Err(_) => None,
    }
}

/// Relies on String::push: appends one character at the end.
#[verifier::external_body]
fn string_push(s: &mut String, c: char)
    ensures
        final(s)@ == old(s)@.push(c),
{
    s.push(c);
}

/// One 4-byte field per character, in order.
pub open spec fn enc_chars(s: Seq<char>) -> Seq<u8>
    decreases s.len(),
{
    if s.len() == 0 {
        Seq::empty()
    } else {
        le_bytes(s[0] as u32 as nat, 4) + enc_chars(s.drop_first())
    }
}

/// A character count, then the characters.
pub open spec fn enc_str(s: Seq<char>) -> Seq<u8> {
    le_bytes(s.len(), 8) + enc_chars(s)
}

pub proof fn lemma_enc_chars_len(s: Seq<char>)
    ensures
        enc_chars(s).len() == 4 * s.len(),
    decreases s.len(),
{
    if s.len() > 0 {
        lemma_le_bytes_len(s[0] as u32 as nat, 4);
        lemma_enc_chars_len(s.drop_first());
    }
}

pub proof fn lemma_enc_str_len(s: Seq<char>)
    ensures
        enc_str(s).len() == 8 + 4 * s.len(),
{
    lemma_le_bytes_len(s.len(), 8);
    lemma_enc_chars_len(s);
}

proof fn lemma_enc_chars_snoc(s: Seq<char>, i: int)
    requires
        0 <= i < s.len(),
    ensures
        enc_chars(s.take(i + 1)) == enc_chars(s.take(i)) + le_bytes(s[i] as u32 as nat, 4),
    decreases i,
{
    if i == 0 {
        assert(s.take(1)[0] == s[0]);
        assert(s.take(1).drop_first() =~= Seq::<char>::empty());
        assert(s.take(0) =~= Seq::<char>::empty());
        assert(le_bytes(s[0] as u32 as nat, 4) + Seq::<u8>::empty() =~= Seq::<u8>::empty()
            + le_bytes(s[0] as u32 as nat, 4));
    } else {
        let t = s.drop_first();
        lemma_enc_chars_snoc(t, i - 1);
        assert(s.take(i + 1)[0] == s[0]);
        assert(s.take(i)[0] == s[0]);
        assert(s.take(i + 1).drop_first() =~= t.take(i));
        assert(s.take(i).drop_first() =~= t.take(i - 1));
        assert(t[i - 1] == s[i]);
        assert(le_bytes(s[0] as u32 as nat, 4) + (enc_chars(t.take(i - 1)) + le_bytes(
            s[i] as u32 as nat,
            4,
        )) =~= (le_bytes(s[0] as u32 as nat, 4) + enc_chars(t.take(i - 1))) + le_bytes(
            s[i] as u32 as nat,
            4,
        ));
    }
}

proof fn lemma_enc_chars_slice(s: Seq<char>, i: int)
    requires
        0 <= i < s.len(),
    ensures
        enc_chars(s).subrange(4 * i, 4 * i + 4) == le_bytes(s[i] as u32 as nat, 4),
    decreases i,
{
    lemma_enc_chars_len(s);
    lemma_le_bytes_len(s[0] as u32 as nat, 4);
    if i == 0 {
        lemma_enc_chars_len(s.drop_first());
        assert(enc_chars(s).subrange(0, 4) =~= le_bytes(s[0] as u32 as nat, 4));
    } else {
        let t = s.drop_first();
        lemma_enc_chars_slice(t, i - 1);
        lemma_enc_chars_len(t);
        assert(t[i - 1] == s[i]);
        assert(enc_chars(s).subrange(4 * i, 4 * i + 4) =~= enc_chars(t).subrange(
            4 * (i - 1),
            4 * (i - 1) + 4,
        ));
    }
}

/// Appends the encoding of a string.
pub fn push_str_enc(out: &mut Vec<u8>, s: &str)
    ensures
        final(out)@ == old(out)@ + enc_str(s@),
{
    let n = s.unicode_len();
    push_le(out, n as u128, 8);
    let mut i: usize = 0;
    while i < n
        invariant
            i <= n,
            n == s@.len(),
            out@ == old(out)@ + le_bytes(s@.len(), 8) + enc_chars(s@.take(i as int)),
        decreases n - i,
    {
        let c = s.get_char(i);
        let ghost pre = out@;
        push_le(out, c as u32 as u128, 4);
        proof {
            lemma_enc_chars_snoc(s@, i as int);
            assert((old(out)@ + le_bytes(s@.len(), 8) + enc_chars(s@.take(i as int))) + le_bytes(
                c as u32 as nat,
                4,
            ) =~= old(out)@ + le_bytes(s@.len(), 8) + enc_chars(s@.take(i + 1)));
        }
        i = i + 1;
    }
    proof {
        assert(s@.take(n as int) =~= s@);
        assert(old(out)@ + le_bytes(s@.len(), 8) + enc_chars(s@) =~= old(out)@ + enc_str(s@));
    }
}

/// Reads an encoded string at `pos`.
///
/// When the bytes there encode the character sequence `g`, the string read
/// has exactly that view.
pub fn read_str_enc(buf: &Vec<u8>, pos: usize, g: Ghost<Seq<char>>) -> (r: Option<(String, usize)>)
    ensures
        bytes_at(buf@, pos as int, enc_str(g@)) ==> (r matches Some(p) && p.0@ == g@ && p.1 == pos
            + enc_str(g@).len()),
        r matches Some(p) ==> pos <= p.1 <= buf@.len(),
{
    let ghost prem = bytes_at(buf@, pos as int, enc_str(g@));
    let bl = buf.len();
    proof {
        lemma_enc_str_len(g@);
        lemma_le_bytes_len(g@.len(), 8);
        if prem {
            lemma_bytes_at_split(buf@, pos as int, le_bytes(g@.len(), 8), enc_chars(g@));
            lemma_pow256_values();
        }
    }
    let m_opt = read_le(buf, pos, 8, Ghost(g@.len()));
    let (m, p1) = match m_opt {
        Some(p) => p,
        None => {
            return None;
        },
    };
    if m > ((bl - p1) / 4) as u128 {
        proof {
            if prem {
                lemma_enc_chars_len(g@);
            }
        }
        return None;
    }
    let mlen: usize = m as usize;
    let mut out_s = String::new();
    let mut i: usize = 0;
    let mut p: usize = p1;
    while i < mlen
        invariant
            i <= mlen,
            p == p1 + 4 * i,
            p1 == pos + 8,
            pos + 8 <= bl,
            mlen <= (bl - p1) / 4,
            bl == buf@.len(),
            prem == bytes_at(buf@, pos as int, enc_str(g@)),
            prem ==> (mlen == g@.len() && out_s@ == g@.take(i as int)),
        decreases mlen - i,
    {
        proof {
            if prem {
                lemma_enc_str_len(g@);
                lemma_le_bytes_len(g@.len(), 8);
                lemma_enc_chars_len(g@);
                lemma_bytes_at_split(buf@, pos as int, le_bytes(g@.len(), 8), enc_chars(g@));
                lemma_enc_chars_slice(g@, i as int);
                lemma_le_bytes_len(g@[i as int] as u32 as nat, 4);
                assert(buf@.subrange(p as int, p + 4) =~= enc_chars(g@).subrange(
                    4 * i,
                    4 * i + 4,
                ));
                lemma_pow256_values();
            }
        }
        let v_opt = read_le(buf, p, 4, Ghost(g@[i as int] as u32 as nat));
        let (v, p2) = match v_opt {
            Some(q) => q,
            None => {
                return None;
            },
        };
        proof {
            lemma_pow256_values();
        }
        let c_opt = char_from_u32(v as u32);
        proof {
            if prem {
                vstd::utf8::char_is_scalar(g@[i as int]);
            }
        }
        let c = match c_opt {
            Some(c) => c,
            None => {
                return None;
            },
        };
        proof {
            if prem {
                vstd::utf8::char_u32_cast(g@[i as int], v as u32);
                vstd::utf8::char_u32_cast(c, v as u32);
            }
        }
        string_push(&mut out_s, c);
        proof {
            if prem {
                assert(out_s@ =~= g@.take(i + 1));
            }
        }
        i = i + 1;
        p = p2;
    }
    proof {
        if prem {
            assert(g@.take(mlen as int) =~= g@);
            lemma_enc_str_len(g@);
        }
    }
    Some((out_s, p))
}

// ---------------------------------------------------------------------------
// Signed 32-bit integers, stored with a bias of 2^31
// ---------------------------------------------------------------------------

/// A 32-bit signed value, biased into an unsigned 4-byte field.
pub open spec fn enc_i32(n: int) -> Seq<u8> {
    le_bytes((n + 0x8000_0000) as nat, 4)
}

pub proof fn lemma_enc_i32_len(n: int)
    ensures
        enc_i32(n).len() == 4,
{
    lemma_le_bytes_len((n + 0x8000_0000) as nat, 4);
}

/// Appends the encoding of an `i32`.
pub fn push_i32(out: &mut Vec<u8>, n: i32)
    ensures
        final(out)@ == old(out)@ + enc_i32(n as int),
{
    let off: i64 = n as i64 + 0x8000_0000i64;
    push_le(out, off as u128, 4);
}

/// Reads an encoded `i32` at `pos`.
pub fn read_i32(buf: &Vec<u8>, pos: usize, g: Ghost<int>) -> (r: Option<(i32, usize)>)
    ensures
        (-0x8000_0000 <= g@ < 0x8000_0000 && bytes_at(buf@, pos as int, enc_i32(g@))) ==> (r
            matches Some(p) && p.0 as int == g@ && p.1 == pos + 4),
        r matches Some(p) ==> pos <= p.1 <= buf@.len(),
{
    let ghost prem = -0x8000_0000 <= g@ < 0x8000_0000 && bytes_at(buf@, pos as int, enc_i32(g@));
    proof {
        lemma_pow256_values();
        lemma_enc_i32_len(g@);
    }
    let v_opt = read_le(buf, pos, 4, Ghost(((g@ + 0x8000_0000) as nat)));
    match v_opt {
        Some((v, p2)) => {
            proof {
                lemma_pow256_values();
            }
            let x: i64 = v as i64 - 0x8000_0000i64;
            Some((x as i32, p2))
        },
        None => None,
    }
}

// ---------------------------------------------------------------------------
// Lists
// ---------------------------------------------------------------------------

/// The elements of a list, encoded in order by `f`.
pub open spec fn enc_items<T>(s: Seq<T>, f: spec_fn(T) -> Seq<u8>) -> Seq<u8>
    decreases s.len(),
{
    if s.len() == 0 {
        Seq::empty()
    } else {
        f(s[0]) + enc_items(s.drop_first(), f)
    }
}

pub proof fn lemma_enc_items_snoc<T>(s: Seq<T>, f: spec_fn(T) -> Seq<u8>, i: int)
    requires
        0 <= i < s.len(),
    ensures
        enc_items(s.take(i + 1), f) == enc_items(s.take(i), f) + f(s[i]),
    decreases i,
{
    if i == 0 {
        assert(s.take(1)[0] == s[0]);
        assert(s.take(1).drop_first() =~= Seq::<T>::empty());
        assert(s.take(0) =~= Seq::<T>::empty());
        assert(f(s[0]) + Seq::<u8>::empty() =~= Seq::<u8>::empty() + f(s[0]));
    } else {
        let t = s.drop_first();
        lemma_enc_items_snoc(t, f, i - 1);
        assert(s.take(i + 1)[0] == s[0]);
        assert(s.take(i)[0] == s[0]);
        assert(s.take(i + 1).drop_first() =~= t.take(i));
        assert(s.take(i).drop_first() =~= t.take(i - 1));
        assert(t[i - 1] == s[i]);
        assert(f(s[0]) + (enc_items(t.take(i - 1), f) + f(t[i - 1])) =~= (f(s[0]) + enc_items(
            t.take(i - 1),
            f,
        )) + f(s[i]));
    }
}

pub proof fn lemma_enc_items_skip<T>(s: Seq<T>, f: spec_fn(T) -> Seq<u8>, i: int)
    requires
        0 <= i < s.len(),
    ensures
        enc_items(s.skip(i), f) == f(s[i]) + enc_items(s.skip(i + 1), f),
{
    assert(s.skip(i)[0] == s[i]);
    assert(s.skip(i).drop_first() =~= s.skip(i + 1));
}

pub proof fn lemma_enc_items_split<T>(s: Seq<T>, f: spec_fn(T) -> Seq<u8>, i: int)
    requires
        0 <= i <= s.len(),
    ensures
        enc_items(s, f) == enc_items(s.take(i), f) + enc_items(s.skip(i), f),
    decreases i,
{
    if i == 0 {
        assert(s.take(0) =~= Seq::<T>::empty());
        assert(s.skip(0) =~= s);
        assert(Seq::<u8>::empty() + enc_items(s, f) =~= enc_items(s, f));
    } else {
        lemma_enc_items_split(s, f, i - 1);
        lemma_enc_items_snoc(s, f, i - 1);
        assert(s.skip(i - 1)[0] == s[i - 1]);
        assert(s.skip(i - 1).drop_first() =~= s.skip(i));
        assert((enc_items(s.take(i - 1), f) + f(s[i - 1])) + enc_items(s.skip(i), f)
            =~= enc_items(s.take(i - 1), f) + (f(s[i - 1]) + enc_items(s.skip(i), f)));
    }
}

pub proof fn lemma_enc_items_len_lb<T>(s: Seq<T>, f: spec_fn(T) -> Seq<u8>)
    requires
        forall|x: T| #[trigger] f(x).len() >= 1,
    ensures
        enc_items(s, f).len() >= s.len(),
    decreases s.len(),
{
    if s.len() > 0 {
        lemma_enc_items_len_lb(s.drop_first(), f);
    }
}

// ---------------------------------------------------------------------------
// Transactions and blocks
// ---------------------------------------------------------------------------

/// The encoding of a transaction input: source id, output index, unlock token.
pub open spec fn enc_txin(t: TxInM) -> Seq<u8> {
    enc_str(t.txid) + enc_i32(t.vout) + enc_str(t.script_sig)
}

/// The encoding of a transaction output: amount, unlock token.
pub open spec fn enc_txout(o: TxOutM) -> Seq<u8> {
    enc_i32(o.value) + enc_str(o.script_pub_key)
}

pub open spec fn enc_txin_f() -> spec_fn(TxInM) -> Seq<u8> {
    |t: TxInM| enc_txin(t)
}

pub open spec fn enc_txout_f() -> spec_fn(TxOutM) -> Seq<u8> {
    |o: TxOutM| enc_txout(o)
}

/// The encoding of an input list.
pub open spec fn enc_txin_list(s: Seq<TxInM>) -> Seq<u8> {
    le_bytes(s.len(), 8) + enc_items(s, enc_txin_f())
}

/// The encoding of an output list.
pub open spec fn enc_txout_list(s: Seq<TxOutM>) -> Seq<u8> {
    le_bytes(s.len(), 8) + enc_items(s, enc_txout_f())
}

/// The content of a transaction that its id digests: inputs, then outputs.
pub open spec fn tx_content(t: TxM) -> Seq<u8> {
    enc_txin_list(t.vin) + enc_txout_list(t.vout)
}

/// The full encoding of a transaction: id, then its content.
pub open spec fn enc_tx(t: TxM) -> Seq<u8> {
    enc_str(t.id) + tx_content(t)
}

pub open spec fn enc_tx_f() -> spec_fn(TxM) -> Seq<u8> {
    |t: TxM| enc_tx(t)
}

/// The encoding of a transaction list.
pub open spec fn enc_tx_list(s: Seq<TxM>) -> Seq<u8> {
    le_bytes(s.len(), 8) + enc_items(s, enc_tx_f())
}

/// The full encoding of a block, as persisted in the store.
pub open spec fn enc_block(b: crate::block::BlockM) -> Seq<u8> {
    le_bytes(b.timestamp as nat, 16) + le_bytes(b.height as nat, 8) + enc_tx_list(b.transactions)
        + enc_str(b.prev_hash) + enc_str(b.hash) + enc_i32(b.nonce)
}

/// Appends the encoding of one input.
pub fn push_txin(out: &mut Vec<u8>, t: &TXInput)
    ensures
        final(out)@ == old(out)@ + enc_txin(t@),
{
    push_str_enc(out, t.txid.as_str());
    push_i32(out, t.vout);
    push_str_enc(out, t.script_sig.as_str());
    proof {
        assert(out@ =~= old(out)@ + enc_txin(t@));
    }
}

/// Appends the encoding of one output.
pub fn push_txout(out: &mut Vec<u8>, o: &TXOutput)
    ensures
        final(out)@ == old(out)@ + enc_txout(o@),
{
    push_i32(out, o.value);
    push_str_enc(out, o.script_pub_key.as_str());
    proof {
        assert(out@ =~= old(out)@ + enc_txout(o@));
    }
}

/// Appends the encoding of an input list.
pub fn push_txin_list(out: &mut Vec<u8>, v: &Vec<TXInput>)
    ensures
        final(out)@ == old(out)@ + enc_txin_list(vin_models(v@)),
{
    let ghost F = enc_txin_f();
    let ghost s = vin_models(v@);
    push_le(out, v.len() as u128, 8);
    proof {
        assert(s.take(0) =~= Seq::<TxInM>::empty());
        assert(out@ =~= old(out)@ + le_bytes(s.len(), 8) + enc_items(s.take(0), F));
    }
    let mut i: usize = 0;
    while i < v.len()
        invariant
            i <= v@.len(),
            s == vin_models(v@),
            F == enc_txin_f(),
            out@ == old(out)@ + le_bytes(s.len(), 8) + enc_items(s.take(i as int), F),
        decreases v@.len() - i,
    {
        let ghost pre = out@;
        push_txin(out, &v[i]);
        proof {
            lemma_enc_items_snoc(s, F, i as int);
            assert(s[i as int] == v@[i as int]@);
            assert(out@ =~= old(out)@ + le_bytes(s.len(), 8) + enc_items(s.take(i + 1), F));
        }
        i = i + 1;
    }
    proof {
        assert(s.take(s.len() as int) =~= s);
        assert(out@ =~= old(out)@ + enc_txin_list(s));
    }
}

/// Appends the encoding of an output list.
pub fn push_txout_list(out: &mut Vec<u8>, v: &Vec<TXOutput>)
    ensures
        final(out)@ == old(out)@ + enc_txout_list(vout_models(v@)),
{
    let ghost F = enc_txout_f();
    let ghost s = vout_models(v@);
    push_le(out, v.len() as u128, 8);
    proof {
        assert(s.take(0) =~= Seq::<TxOutM>::empty());
        assert(out@ =~= old(out)@ + le_bytes(s.len(), 8) + enc_items(s.take(0), F));
    }
    let mut i: usize = 0;
    while i < v.len()
        invariant
            i <= v@.len(),
            s == vout_models(v@),
            F == enc_txout_f(),
            out@ == old(out)@ + le_bytes(s.len(), 8) + enc_items(s.take(i as int), F),
        decreases v@.len() - i,
    {
        let ghost pre = out@;
        push_txout(out, &v[i]);
        proof {
            lemma_enc_items_snoc(s, F, i as int);
            assert(s[i as int] == v@[i as int]@);
            assert(out@ =~= old(out)@ + le_bytes(s.len(), 8) + enc_items(s.take(i + 1), F));
        }
        i = i + 1;
    }
    proof {
        assert(s.take(s.len() as int) =~= s);
        assert(out@ =~= old(out)@ + enc_txout_list(s));
    }
}

/// Appends the content of a transaction, the bytes its id digests.
pub fn push_tx_content(out: &mut Vec<u8>, t: &Transaction)
    ensures
        final(out)@ == old(out)@ + tx_content(t@),
{
    push_txin_list(out, &t.vin);
    push_txout_list(out, &t.vout);
    proof {
        assert(out@ =~= old(out)@ + tx_content(t@));
    }
}

/// Appends the full encoding of a transaction.
pub fn push_tx(out: &mut Vec<u8>, t: &Transaction)
    ensures
        final(out)@ == old(out)@ + enc_tx(t@),
{
    push_str_enc(out, t.id.as_str());
    push_txin_list(out, &t.vin);
    push_txout_list(out, &t.vout);
    proof {
        assert(out@ =~= old(out)@ + enc_tx(t@));
    }
}

/// Appends the encoding of a transaction list.
pub fn push_tx_list(out: &mut Vec<u8>, v: &Vec<Transaction>)
    ensures
        final(out)@ == old(out)@ + enc_tx_list(tx_models(v@)),
{
    let ghost F = enc_tx_f();
    let ghost s = tx_models(v@);
    push_le(out, v.len() as u128, 8);
    proof {
        assert(s.take(0) =~= Seq::<TxM>::empty());
        assert(out@ =~= old(out)@ + le_bytes(s.len(), 8) + enc_items(s.take(0), F));
    }
    let mut i: usize = 0;
    while i < v.len()
        invariant
            i <= v@.len(),
            s == tx_models(v@),
            F == enc_tx_f(),
            out@ == old(out)@ + le_bytes(s.len(), 8) + enc_items(s.take(i as int), F),
        decreases v@.len() - i,
    {
        let ghost pre = out@;
        push_tx(out, &v[i]);
        proof {
            lemma_enc_items_snoc(s, F, i as int);
            assert(s[i as int] == v@[i as int]@);
            assert(out@ =~= old(out)@ + le_bytes(s.len(), 8) + enc_items(s.take(i + 1), F));
        }
        i = i + 1;
    }
    proof {
        assert(s.take(s.len() as int) =~= s);
        assert(out@ =~= old(out)@ + enc_tx_list(s));
    }
}

/// The content bytes of a transaction, for its id digest.
pub fn tx_content_bytes(t: &Transaction) -> (r: Vec<u8>)
    ensures
        r@ == tx_content(t@),
{
    let mut out: Vec<u8> = Vec::new();
    push_tx_content(&mut out, t);
    proof {
        assert(out@ =~= tx_content(t@));
    }
    out
}

/// Reads one encoded input at `pos`.
pub fn decode_txin(buf: &Vec<u8>, pos: usize, g: Ghost<TxInM>) -> (r: Option<(TXInput, usize)>)
    ensures
        (txin_ok(g@) && bytes_at(buf@, pos as int, enc_txin(g@))) ==> (r matches Some(p) && p.0@
            == g@ && p.1 as int == pos + enc_txin(g@).len()),
        r matches Some(p) ==> pos <= p.1 <= buf@.len(),
{
    let ghost prem = txin_ok(g@) && bytes_at(buf@, pos as int, enc_txin(g@));
    proof {
        lemma_enc_i32_len(g@.vout);
        if prem {
            assert(enc_txin(g@) =~= enc_str(g@.txid) + (enc_i32(g@.vout) + enc_str(
                g@.script_sig,
            )));
            lemma_bytes_at_split(
                buf@,
                pos as int,
                enc_str(g@.txid),
                enc_i32(g@.vout) + enc_str(g@.script_sig),
            );
            lemma_bytes_at_split(
                buf@,
                pos + enc_str(g@.txid).len(),
                enc_i32(g@.vout),
                enc_str(g@.script_sig),
            );
        }
    }
    let r1 = read_str_enc(buf, pos, Ghost(g@.txid));
    let (txid_s, pa) = match r1 {
        Some(q) => q,
        None => {
            return None;
        },
    };
    let r2 = read_i32(buf, pa, Ghost(g@.vout));
    let (vout_v, pb) = match r2 {
        Some(q) => q,
        None => {
            return None;
        },
    };
    let r3 = read_str_enc(buf, pb, Ghost(g@.script_sig));
    let (sig_s, pc) = match r3 {
        Some(q) => q,
        None => {
            return None;
        },
    };
    let res = TXInput { txid: txid_s, vout: vout_v, script_sig: sig_s };
    proof {
        if prem {
            lemma_enc_i32_len(g@.vout);
            assert(res@ =~= g@);
        }
    }
    Some((res, pc))
}

/// Reads one encoded output at `pos`.
pub fn decode_txout(buf: &Vec<u8>, pos: usize, g: Ghost<TxOutM>) -> (r: Option<(TXOutput, usize)>)
    ensures
        (txout_ok(g@) && bytes_at(buf@, pos as int, enc_txout(g@))) ==> (r matches Some(p) && p.0@
            == g@ && p.1 as int == pos + enc_txout(g@).len()),
        r matches Some(p) ==> pos <= p.1 <= buf@.len(),
{
    let ghost prem = txout_ok(g@) && bytes_at(buf@, pos as int, enc_txout(g@));
    proof {
        lemma_enc_i32_len(g@.value);
        if prem {
            lemma_bytes_at_split(buf@, pos as int, enc_i32(g@.value), enc_str(g@.script_pub_key));
        }
    }
    let r1 = read_i32(buf, pos, Ghost(g@.value));
    let (val_v, pa) = match r1 {
        Some(q) => q,
        None => {
            return None;
        },
    };
    let r2 = read_str_enc(buf, pa, Ghost(g@.script_pub_key));
    let (key_s, pb) = match r2 {
        Some(q) => q,
        None => {
            return None;
        },
    };
    let res = TXOutput { value: val_v, script_pub_key: key_s };
    proof {
        if prem {
            lemma_enc_i32_len(g@.value);
            assert(res@ =~= g@);
        }
    }
    Some((res, pb))
}

/// Reads an encoded input list at `pos`.
pub fn decode_txins(buf: &Vec<u8>, pos: usize, g: Ghost<Seq<TxInM>>) -> (r: Option<
    (Vec<TXInput>, usize),
>)
    ensures
        (txins_ok(g@) && bytes_at(buf@, pos as int, enc_txin_list(g@))) ==> (r matches Some(p)
            && vin_models(p.0@) == g@ && p.1 as int == pos + enc_txin_list(g@).len()),
        r matches Some(p) ==> pos <= p.1 <= buf@.len(),
{
    let ghost F = enc_txin_f();
    let ghost prem = txins_ok(g@) && bytes_at(buf@, pos as int, enc_txin_list(g@));
    let bl = buf.len();
    proof {
        lemma_le_bytes_len(g@.len(), 8);
        assert forall|x: TxInM| #[trigger] F(x).len() >= 1 by {
            lemma_enc_str_len(x.txid);
        }
        if prem {
            lemma_bytes_at_split(buf@, pos as int, le_bytes(g@.len(), 8), enc_items(g@, F));
            lemma_enc_items_len_lb(g@, F);
            lemma_pow256_values();
        }
    }
    let m_opt = read_le(buf, pos, 8, Ghost(g@.len()));
    let (m, p1) = match m_opt {
        Some(p) => p,
        None => {
            return None;
        },
    };
    if m > (bl - p1) as u128 {
        return None;
    }
    let mlen: usize = m as usize;
    let mut out: Vec<TXInput> = Vec::new();
    let mut i: usize = 0;
    let mut p: usize = p1;
    while i < mlen
        invariant
            i <= mlen,
            out@.len() == i,
            p1 == pos + 8,
            pos + 8 <= bl,
            pos <= p <= bl,
            bl == buf@.len(),
            prem == (txins_ok(g@) && bytes_at(buf@, pos as int, enc_txin_list(g@))),
            F == enc_txin_f(),
            prem ==> (mlen == g@.len() && p as int == pos + 8 + enc_items(
                g@.take(i as int),
                F,
            ).len() && forall|q: int| 0 <= q < i ==> out@[q]@ == g@[q]),
        decreases mlen - i,
    {
        proof {
            if prem {
                lemma_le_bytes_len(g@.len(), 8);
                lemma_bytes_at_split(buf@, pos as int, le_bytes(g@.len(), 8), enc_items(g@, F));
                lemma_enc_items_split(g@, F, i as int);
                lemma_bytes_at_split(
                    buf@,
                    pos + 8,
                    enc_items(g@.take(i as int), F),
                    enc_items(g@.skip(i as int), F),
                );
                lemma_enc_items_skip(g@, F, i as int);
                lemma_bytes_at_split(
                    buf@,
                    p as int,
                    F(g@[i as int]),
                    enc_items(g@.skip(i + 1), F),
                );
            }
        }
        let item_opt = decode_txin(buf, p, Ghost(g@[i as int]));
        let (item, p2) = match item_opt {
            Some(q) => q,
            None => {
                return None;
            },
        };
        proof {
            if prem {
                lemma_enc_items_snoc(g@, F, i as int);
            }
        }
        out.push(item);
        i = i + 1;
        p = p2;
    }
    proof {
        if prem {
            lemma_enc_items_split(g@, F, g@.len() as int);
            assert(g@.take(g@.len() as int) =~= g@);
            assert(g@.skip(g@.len() as int) =~= Seq::<TxInM>::empty());
            assert(enc_items(g@, F) =~= enc_items(g@, F) + Seq::<u8>::empty());
            lemma_le_bytes_len(g@.len(), 8);
            assert(vin_models(out@) =~= g@);
        }
    }
    Some((out, p))
}

/// Reads an encoded output list at `pos`.
pub fn decode_txouts(buf: &Vec<u8>, pos: usize, g: Ghost<Seq<TxOutM>>) -> (r: Option<
    (Vec<TXOutput>, usize),
>)
    ensures
        (txouts_ok(g@) && bytes_at(buf@, pos as int, enc_txout_list(g@))) ==> (r matches Some(p)
            && vout_models(p.0@) == g@ && p.1 as int == pos + enc_txout_list(g@).len()),
        r matches Some(p) ==> pos <= p.1 <= buf@.len(),
{
    let ghost F = enc_txout_f();
    let ghost prem = txouts_ok(g@) && bytes_at(buf@, pos as int, enc_txout_list(g@));
    let bl = buf.len();
    proof {
        lemma_le_bytes_len(g@.len(), 8);
        assert forall|x: TxOutM| #[trigger] F(x).len() >= 1 by {
            lemma_enc_str_len(x.script_pub_key);
            lemma_enc_i32_len(x.value);
        }
        if prem {
            lemma_bytes_at_split(buf@, pos as int, le_bytes(g@.len(), 8), enc_items(g@, F));
            lemma_enc_items_len_lb(g@, F);
            lemma_pow256_values();
        }
    }
    let m_opt = read_le(buf, pos, 8, Ghost(g@.len()));
    let (m, p1) = match m_opt {
        Some(p) => p,
        None => {
            return None;
        },
    };
    if m > (bl - p1) as u128 {
        return None;
    }
    let mlen: usize = m as usize;
    let mut out: Vec<TXOutput> = Vec::new();
    let mut i: usize = 0;
    let mut p: usize = p1;
    while i < mlen
        invariant
            i <= mlen,
            out@.len() == i,
            p1 == pos + 8,
            pos + 8 <= bl,
            pos <= p <= bl,
            bl == buf@.len(),
            prem == (txouts_ok(g@) && bytes_at(buf@, pos as int, enc_txout_list(g@))),
            F == enc_txout_f(),
            prem ==> (mlen == g@.len() && p as int == pos + 8 + enc_items(
                g@.take(i as int),
                F,
            ).len() && forall|q: int| 0 <= q < i ==> out@[q]@ == g@[q]),
        decreases mlen - i,
    {
        proof {
            if prem {
                lemma_le_bytes_len(g@.len(), 8);
                lemma_bytes_at_split(buf@, pos as int, le_bytes(g@.len(), 8), enc_items(g@, F));
                lemma_enc_items_split(g@, F, i as int);
                lemma_bytes_at_split(
                    buf@,
                    pos + 8,
                    enc_items(g@.take(i as int), F),
                    enc_items(g@.skip(i as int), F),
                );
                lemma_enc_items_skip(g@, F, i as int);
                lemma_bytes_at_split(
                    buf@,
                    p as int,
                    F(g@[i as int]),
                    enc_items(g@.skip(i + 1), F),
                );
            }
        }
        let item_opt = decode_txout(buf, p, Ghost(g@[i as int]));
        let (item, p2) = match item_opt {
            Some(q) => q,
            None => {
                return None;
            },
        };
        proof {
            if prem {
                lemma_enc_items_snoc(g@, F, i as int);
            }
        }
        out.push(item);
        i = i + 1;
        p = p2;
    }
    proof {
        if prem {
            lemma_enc_items_split(g@, F, g@.len() as int);
            assert(g@.take(g@.len() as int) =~= g@);
            assert(g@.skip(g@.len() as int) =~= Seq::<TxOutM>::empty());
            assert(enc_items(g@, F) =~= enc_items(g@, F) + Seq::<u8>::empty());
            lemma_le_bytes_len(g@.len(), 8);
            assert(vout_models(out@) =~= g@);
        }
    }
    Some((out, p))
}

/// Reads one encoded transaction at `pos`.
pub fn decode_tx(buf: &Vec<u8>, pos: usize, g: Ghost<TxM>) -> (r: Option<(Transaction, usize)>)
    ensures
        (tx_ok(g@) && bytes_at(buf@, pos as int, enc_tx(g@))) ==> (r matches Some(p) && p.0@ == g@
            && p.1 as int == pos + enc_tx(g@).len()),
        r matches Some(p) ==> pos <= p.1 <= buf@.len(),
{
    let ghost prem = tx_ok(g@) && bytes_at(buf@, pos as int, enc_tx(g@));
    proof {
        if prem {
            assert(enc_tx(g@) =~= enc_str(g@.id) + (enc_txin_list(g@.vin) + enc_txout_list(
                g@.vout,
            )));
            lemma_bytes_at_split(
                buf@,
                pos as int,
                enc_str(g@.id),
                enc_txin_list(g@.vin) + enc_txout_list(g@.vout),
            );
            lemma_bytes_at_split(
                buf@,
                pos + enc_str(g@.id).len(),
                enc_txin_list(g@.vin),
                enc_txout_list(g@.vout),
            );
        }
    }
    let r1 = read_str_enc(buf, pos, Ghost(g@.id));
    let (id_s, pa) = match r1 {
        Some(q) => q,
        None => {
            return None;
        },
    };
    let r2 = decode_txins(buf, pa, Ghost(g@.vin));
    let (vin_v, pb) = match r2 {
        Some(q) => q,
        None => {
            return None;
        },
    };
    let r3 = decode_txouts(buf, pb, Ghost(g@.vout));
    let (vout_v, pc) = match r3 {
        Some(q) => q,
        None => {
            return None;
        },
    };
    let res = Transaction { id: id_s, vin: vin_v, vout: vout_v };
    proof {
        if prem {
            assert(res@ =~= g@);
        }
    }
    Some((res, pc))
}

/// Reads an encoded transaction list at `pos`.
pub fn decode_txs(buf: &Vec<u8>, pos: usize, g: Ghost<Seq<TxM>>) -> (r: Option<
    (Vec<Transaction>, usize),
>)
    ensures
        (txs_ok(g@) && bytes_at(buf@, pos as int, enc_tx_list(g@))) ==> (r matches Some(p)
            && tx_models(p.0@) == g@ && p.1 as int == pos + enc_tx_list(g@).len()),
        r matches Some(p) ==> pos <= p.1 <= buf@.len(),
{
    let ghost F = enc_tx_f();
    let ghost prem = txs_ok(g@) && bytes_at(buf@, pos as int, enc_tx_list(g@));
    let bl = buf.len();
    proof {
        lemma_le_bytes_len(g@.len(), 8);
        assert forall|x: TxM| #[trigger] F(x).len() >= 1 by {
            lemma_enc_str_len(x.id);
        }
        if prem {
            lemma_bytes_at_split(buf@, pos as int, le_bytes(g@.len(), 8), enc_items(g@, F));
            lemma_enc_items_len_lb(g@, F);
            lemma_pow256_values();
        }
    }
    let m_opt = read_le(buf, pos, 8, Ghost(g@.len()));
    let (m, p1) = match m_opt {
        Some(p) => p,
        None => {
            return None;
        },
    };
    if m > (bl - p1) as u128 {
        return None;
    }
    let mlen: usize = m as usize;
    let mut out: Vec<Transaction> = Vec::new();
    let mut i: usize = 0;
    let mut p: usize = p1;
    while i < mlen
        invariant
            i <= mlen,
            out@.len() == i,
            p1 == pos + 8,
            pos + 8 <= bl,
            pos <= p <= bl,
            bl == buf@.len(),
            prem == (txs_ok(g@) && bytes_at(buf@, pos as int, enc_tx_list(g@))),
            F == enc_tx_f(),
            prem ==> (mlen == g@.len() && p as int == pos + 8 + enc_items(
                g@.take(i as int),
                F,
            ).len() && forall|q: int| 0 <= q < i ==> out@[q]@ == g@[q]),
        decreases mlen - i,
    {
        proof {
            if prem {
                lemma_le_bytes_len(g@.len(), 8);
                lemma_bytes_at_split(buf@, pos as int, le_bytes(g@.len(), 8), enc_items(g@, F));
                lemma_enc_items_split(g@, F, i as int);
                lemma_bytes_at_split(
                    buf@,
                    pos + 8,
                    enc_items(g@.take(i as int), F),
                    enc_items(g@.skip(i as int), F),
                );
                lemma_enc_items_skip(g@, F, i as int);
                lemma_bytes_at_split(
                    buf@,
                    p as int,
                    F(g@[i as int]),
                    enc_items(g@.skip(i + 1), F),
                );
            }
        }
        let item_opt = decode_tx(buf, p, Ghost(g@[i as int]));
        let (item, p2) = match item_opt {
            Some(q) => q,
            None => {
                return None;
            },
        };
        proof {
            if prem {
                lemma_enc_items_snoc(g@, F, i as int);
            }
        }
        out.push(item);
        i = i + 1;
        p = p2;
    }
    proof {
        if prem {
            lemma_enc_items_split(g@, F, g@.len() as int);
            assert(g@.take(g@.len() as int) =~= g@);
            assert(g@.skip(g@.len() as int) =~= Seq::<TxM>::empty());
            assert(enc_items(g@, F) =~= enc_items(g@, F) + Seq::<u8>::empty());
            lemma_le_bytes_len(g@.len(), 8);
            assert(tx_models(out@) =~= g@);
        }
    }
    Some((out, p))
}

/// Reads one encoded block at `pos`.
pub fn decode_block(buf: &Vec<u8>, pos: usize, g: Ghost<crate::block::BlockM>) -> (r: Option<
    (crate::block::Block, usize),
>)
    ensures
        (crate::block::block_ok(g@) && bytes_at(buf@, pos as int, enc_block(g@))) ==> (r matches
            Some(p) && p.0@ == g@ && p.1 as int == pos + enc_block(g@).len()),
        r matches Some(p) ==> pos <= p.1 <= buf@.len(),
{
    let ghost prem = crate::block::block_ok(g@) && bytes_at(buf@, pos as int, enc_block(g@));
    proof {
        lemma_pow256_values();
        if prem {
            assert(enc_block(g@) =~= le_bytes(g@.timestamp as nat, 16) + (le_bytes(
                g@.height as nat,
                8,
            ) + (enc_tx_list(g@.transactions) + (enc_str(g@.prev_hash) + (enc_str(g@.hash)
                + enc_i32(g@.nonce))))));
            lemma_le_bytes_len(g@.timestamp as nat, 16);
            lemma_le_bytes_len(g@.height as nat, 8);
            lemma_bytes_at_split(
                buf@,
                pos as int,
                le_bytes(g@.timestamp as nat, 16),
                le_bytes(g@.height as nat, 8) + (enc_tx_list(g@.transactions) + (enc_str(
                    g@.prev_hash,
                ) + (enc_str(g@.hash) + enc_i32(g@.nonce)))),
            );
            lemma_bytes_at_split(
                buf@,
                pos + 16,
                le_bytes(g@.height as nat, 8),
                enc_tx_list(g@.transactions) + (enc_str(g@.prev_hash) + (enc_str(g@.hash)
                    + enc_i32(g@.nonce))),
            );
            lemma_bytes_at_split(
                buf@,
                pos + 24,
                enc_tx_list(g@.transactions),
                enc_str(g@.prev_hash) + (enc_str(g@.hash) + enc_i32(g@.nonce)),
            );
            lemma_bytes_at_split(
                buf@,
                pos + 24 + enc_tx_list(g@.transactions).len(),
                enc_str(g@.prev_hash),
                enc_str(g@.hash) + enc_i32(g@.nonce),
            );
            lemma_bytes_at_split(
                buf@,
                pos + 24 + enc_tx_list(g@.transactions).len() + enc_str(g@.prev_hash).len(),
                enc_str(g@.hash),
                enc_i32(g@.nonce),
            );
        }
    }
    let r1 = read_le(buf, pos, 16, Ghost(g@.timestamp as nat));
    let (ts, pa) = match r1 {
        Some(q) => q,
        None => {
            return None;
        },
    };
    let r2 = read_le(buf, pa, 8, Ghost(g@.height as nat));
    let (hv, pb) = match r2 {
        Some(q) => q,
        None => {
            return None;
        },
    };
    if hv > usize::MAX as u128 {
        return None;
    }
    let height: usize = hv as usize;
    let r3 = decode_txs(buf, pb, Ghost(g@.transactions));
    let (txs, pc) = match r3 {
        Some(q) => q,
        None => {
            return None;
        },
    };
    let r4 = read_str_enc(buf, pc, Ghost(g@.prev_hash));
    let (prev_s, pd) = match r4 {
        Some(q) => q,
        None => {
            return None;
        },
    };
    let r5 = read_str_enc(buf, pd, Ghost(g@.hash));
    let (hash_s, pe) = match r5 {
        Some(q) => q,
        None => {
            return None;
        },
    };
    let r6 = read_i32(buf, pe, Ghost(g@.nonce));
    let (nv, pf) = match r6 {
        Some(q) => q,
        None => {
            return None;
        },
    };
    let res = crate::block::Block {
        timestamp: ts,
        height,
        transactions: txs,
        prev_hash: prev_s,
        hash: hash_s,
        nonce: nv,
    };
    proof {
        if prem {
            lemma_enc_i32_len(g@.nonce);
            lemma_le_bytes_len(g@.timestamp as nat, 16);
            lemma_le_bytes_len(g@.height as nat, 8);
            assert(res@ =~= g@);
        }
    }
    Some((res, pf))
}

/// Reads a block from a byte string that must hold exactly one encoded block.
pub fn decode_block_exact(buf: &Vec<u8>, g: Ghost<crate::block::BlockM>) -> (r: Option<
    crate::block::Block,
>)
    ensures
        (crate::block::block_ok(g@) && buf@ == enc_block(g@)) ==> (r matches Some(b) && b@ == g@),
{
    proof {
        if crate::block::block_ok(g@) && buf@ == enc_block(g@) {
            assert(buf@.subrange(0, enc_block(g@).len() as int) =~= enc_block(g@));
        }
    }
    match decode_block(buf, 0, g) {
        Some((b, p)) => {
            if p == buf.len() {
                Some(b)
            } else {
                None
            }
        },
        None => None,
    }
}

/// The full encoding of a block.
pub fn encode_block(b: &crate::block::Block) -> (r: Vec<u8>)
    ensures
        r@ == enc_block(b@),
{
    let mut out: Vec<u8> = Vec::new();
    push_le(&mut out, b.timestamp, 16);
    push_le(&mut out, b.height as u128, 8);
    push_tx_list(&mut out, &b.transactions);
    push_str_enc(&mut out, b.prev_hash.as_str());
    push_str_enc(&mut out, b.hash.as_str());
    push_i32(&mut out, b.nonce);
    proof {
        assert(out@ =~= enc_block(b@));
    }
    out
}

} // verus!
