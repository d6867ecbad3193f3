//! Store keys: a timestamp in seconds is stored as the 8-byte big-endian
//! encoding of its bits with the sign bit flipped, that is of the timestamp
//! plus 2^63, so that byte order of keys is time order for every timestamp.
use vstd::arithmetic::div_mod::{
    lemma_div_by_multiple, lemma_div_denominator, lemma_mod_breakdown, lemma_small_mod,
};
use vstd::prelude::*;

verus! {

/// Number of bytes in a key.
pub const KEY_LEN: usize = 8;

/// The offset added to a timestamp to give its key's value: 2^63.
pub const SIGN_BIT: u64 = 0x8000_0000_0000_0000;

pub open spec fn pow256(n: nat) -> nat
    decreases n,
{
    if n == 0 {
        1
    } else {
        256 * pow256((n - 1) as nat)
    }
}

/// The unsigned big-endian value of a byte string.
pub open spec fn be_value(s: Seq<u8>) -> nat
    decreases s.len(),
{
    if s.len() == 0 {
        0
    } else {
        be_value(s.drop_last()) * 256 + s.last() as nat
    }
}

/// Byte-wise lexicographic order, as byte slices compare.
pub open spec fn lex_lt(a: Seq<u8>, b: Seq<u8>) -> bool
    decreases a.len(),
{
    if a.len() == 0 {
        b.len() > 0
    } else if b.len() == 0 {
        false
    } else if a[0] != b[0] {
        a[0] < b[0]
    } else {
        lex_lt(a.drop_first(), b.drop_first())
    }
}

pub open spec fn lex_le(a: Seq<u8>, b: Seq<u8>) -> bool {
    lex_lt(a, b) || a == b
}

/// The value of a timestamp's key: the timestamp plus 2^63.
pub open spec fn key_rank(ts: i64) -> nat {
    (ts + SIGN_BIT) as nat
}

/// The last `n` bytes of the big-endian encoding of `x`.
pub open spec fn be_bytes(x: nat, n: nat) -> Seq<u8>
    decreases n,
{
    if n == 0 {
        Seq::empty()
    } else {
        be_bytes(x / 256, (n - 1) as nat).push((x % 256) as u8)
    }
}

/// The eight bytes stored for a timestamp.
pub open spec fn key_bytes(ts: i64) -> Seq<u8> {
    be_bytes(key_rank(ts), KEY_LEN as nat)
}

/// The timestamp whose key is the given byte string, if it has key length.
pub open spec fn key_timestamp(k: Seq<u8>) -> Option<i64> {
    if k.len() == KEY_LEN {
        Some((be_value(k) - SIGN_BIT) as i64)
    } else {
        None
    }
}

pub proof fn lemma_pow256_pos(n: nat)
    ensures
        pow256(n) >= 1,
    decreases n,
{
    if n > 0 {
        lemma_pow256_pos((n - 1) as nat);
    }
}

pub proof fn lemma_be_value_bound(s: Seq<u8>)
    ensures
        be_value(s) < pow256(s.len()),
    decreases s.len(),
{
    if s.len() > 0 {
        let p = s.drop_last();
        lemma_be_value_bound(p);
        let a = be_value(p);
        let b = s.last() as nat;
        let q = pow256(p.len());
        assert(a * 256 + b < q * 256) by (nonlinear_arith)
            requires
                a < q,
                b < 256,
        ;
    }
}

proof fn lemma_be_value_push(s: Seq<u8>, x: u8)
    ensures
        be_value(s.push(x)) == be_value(s) * 256 + x as nat,
{
    assert(s.push(x).drop_last() =~= s);
}

/// The value of a byte string is its first byte's weight plus the value of the rest.
proof fn lemma_be_value_first(s: Seq<u8>)
    requires
        s.len() > 0,
    ensures
        be_value(s) == s[0] as nat * pow256((s.len() - 1) as nat) + be_value(s.drop_first()),
    decreases s.len(),
{
    if s.len() == 1 {
        assert(s.drop_last() =~= Seq::<u8>::empty());
        assert(s.drop_first() =~= Seq::<u8>::empty());
        assert(pow256(0) == 1);
        assert(be_value(Seq::<u8>::empty()) == 0);
        assert(be_value(s) == s[0] as nat);
    } else {
        let p = s.drop_last();
        lemma_be_value_first(p);
        assert(p.drop_first() =~= s.drop_first().drop_last());
        assert(s.drop_first().last() == s.last());
        assert(p[0] == s[0]);
        assert(be_value(s) == be_value(p) * 256 + s.last() as nat);
        assert(be_value(s.drop_first()) == be_value(s.drop_first().drop_last()) * 256
            + s.drop_first().last() as nat);
        let h = s[0] as nat;
        let q = pow256((p.len() - 1) as nat);
        assert(pow256((s.len() - 1) as nat) == 256 * q);
        let r = be_value(p.drop_first());
        assert((h * q + r) * 256 + s.last() as nat == h * (256 * q) + (r * 256 + s.last() as nat))
            by (nonlinear_arith);
        assert(be_value(p) == h * q + r);
        assert(be_value(s.drop_first()) == r * 256 + s.last() as nat);
        assert(be_value(s) == h * (256 * q) + be_value(s.drop_first()));
    }
}

/// Keys of one length compare by bytes as their values compare.
pub proof fn lemma_lex_value(a: Seq<u8>, b: Seq<u8>)
    requires
        a.len() == b.len(),
    ensures
        lex_lt(a, b) <==> be_value(a) < be_value(b),
        a == b <==> be_value(a) == be_value(b),
    decreases a.len(),
{
    if a.len() == 0 {
        assert(a =~= b);
    } else {
        let n = (a.len() - 1) as nat;
        let p = pow256(n);
        lemma_be_value_first(a);
        lemma_be_value_first(b);
        lemma_be_value_bound(a.drop_first());
        lemma_be_value_bound(b.drop_first());
        lemma_lex_value(a.drop_first(), b.drop_first());
        let ha = a[0] as nat;
        let hb = b[0] as nat;
        let ra = be_value(a.drop_first());
        let rb = be_value(b.drop_first());
        if ha < hb {
            assert(ha * p + ra < hb * p + rb) by (nonlinear_arith)
                requires
                    ha < hb,
                    ra < p,
            ;
        } else if hb < ha {
            assert(hb * p + rb < ha * p + ra) by (nonlinear_arith)
                requires
                    hb < ha,
                    rb < p,
            ;
        } else {
            if a == b {
            } else {
                assert(a.drop_first() != b.drop_first()) by {
                    if a.drop_first() == b.drop_first() {
                        assert forall|i: int| 0 <= i < a.len() implies a[i] == b[i] by {
                            if i > 0 {
                                assert(a[i] == a.drop_first()[i - 1]);
                                assert(b[i] == b.drop_first()[i - 1]);
                            }
                        }
                        assert(a =~= b);
                    }
                }
            }
        }
    }
}

/// Different timestamps have different keys, and equal ones equal keys.
pub proof fn lemma_key_injective(a: i64, b: i64)
    ensures
        key_bytes(a) == key_bytes(b) <==> a == b,
{
    lemma_key_bytes(a);
    lemma_key_bytes(b);
    if key_bytes(a) == key_bytes(b) {
        assert(key_rank(a) == key_rank(b));
        assert(a == b);
    }
}

proof fn lemma_be_bytes(x: nat, n: nat)
    ensures
        be_bytes(x, n).len() == n,
        be_value(be_bytes(x, n)) == x % pow256(n),
    decreases n,
{
    if n > 0 {
        let m = (n - 1) as nat;
        lemma_be_bytes(x / 256, m);
        lemma_pow256_pos(m);
        lemma_be_value_push(be_bytes(x / 256, m), (x % 256) as u8);
        lemma_mod_breakdown(x as int, 256, pow256(m) as int);
    }
}

/// The key of a timestamp has key length and decodes back to it.
pub proof fn lemma_key_bytes(ts: i64)
    ensures
        key_bytes(ts).len() == KEY_LEN,
        be_value(key_bytes(ts)) == key_rank(ts),
        key_timestamp(key_bytes(ts)) == Some(ts),
{
    lemma_be_bytes(key_rank(ts), KEY_LEN as nat);
    reveal_with_fuel(pow256, 9);
    lemma_small_mod(key_rank(ts), pow256(KEY_LEN as nat));
}

/// Keys compare byte-wise as their timestamps compare in time.
pub proof fn lemma_key_order(a: i64, b: i64)
    ensures
        lex_lt(key_bytes(a), key_bytes(b)) <==> a < b,
        lex_le(key_bytes(a), key_bytes(b)) <==> a <= b,
{
    lemma_key_bytes(a);
    lemma_key_bytes(b);
    lemma_lex_value(key_bytes(a), key_bytes(b));
}

/// A key-length byte string decodes to the timestamp whose key value it has.
pub proof fn lemma_key_timestamp_rank(k: Seq<u8>)
    requires
        k.len() == KEY_LEN,
    ensures
        key_rank(key_timestamp(k)->0) == be_value(k),
{
    lemma_be_value_bound(k);
    reveal_with_fuel(pow256, 9);
}

/// The key under which a timestamp is stored.
pub fn timestamp_key(ts: i64) -> (r: Vec<u8>)
    ensures
        r@ == key_bytes(ts),
{
    let x: u64 = if ts >= 0 {
        ts as u64 + SIGN_BIT
    } else {
        ((ts + 1) + i64::MAX) as u64
    };
    let mut d: u64 = 0x0100_0000_0000_0000;
    let mut out: Vec<u8> = Vec::new();
    let mut i: usize = 0;
    proof {
        reveal_with_fuel(pow256, 9);
    }
    while i < KEY_LEN
        invariant
            0 <= i <= KEY_LEN,
            x as nat == key_rank(ts),
            i < KEY_LEN ==> d as nat == pow256((KEY_LEN - 1 - i) as nat),
            out@ == be_bytes(x as nat / pow256((KEY_LEN - i) as nat), i as nat),
        decreases KEY_LEN - i,
    {
        let ghost m = (KEY_LEN - 1 - i) as nat;
        proof {
            lemma_pow256_pos(m);
            lemma_div_denominator(x as int, pow256(m) as int, 256);
            assert(pow256((KEY_LEN - i) as nat) == pow256(m) * 256);
        }
        let b: u8 = ((x / d) % 256) as u8;
        out.push(b);
        if i + 1 < KEY_LEN {
            proof {
                let k = pow256((m - 1) as nat);
                assert(pow256(m) == k * 256);
                lemma_div_by_multiple(k as int, 256);
            }
            d = d / 256;
        }
        i = i + 1;
    }
    proof {
        lemma_key_bytes(ts);
        assert(pow256(0) == 1);
        assert(x as nat / 1 == x as nat);
    }
    out
}

/// The timestamp stored under a key, if the key has key length.
pub fn decode_key(k: &[u8]) -> (r: Option<i64>)
    ensures
        r == key_timestamp(k@),
{
    if k.len() != KEY_LEN {
        return None;
    }
    let mut v: u64 = 0;
    let mut i: usize = 0;
    while i < KEY_LEN
        invariant
            k@.len() == KEY_LEN,
            0 <= i <= KEY_LEN,
            v as nat == be_value(k@.subrange(0, i as int)),
        decreases KEY_LEN - i,
    {
        proof {
            lemma_be_value_bound(k@.subrange(0, i as int));
            lemma_be_value_push(k@.subrange(0, i as int), k@[i as int]);
            assert(k@.subrange(0, i as int).push(k@[i as int]) =~= k@.subrange(0, i + 1));
            assert(pow256(i as nat) <= pow256(7)) by {
                lemma_pow256_mono(i as nat, 7);
            }
            reveal_with_fuel(pow256, 8);
        }
        v = v * 256 + k[i] as u64;
        i = i + 1;
    }
    assert(k@.subrange(0, KEY_LEN as int) =~= k@);
    if v >= SIGN_BIT {
        Some((v - SIGN_BIT) as i64)
    } else {
        Some((v as i64) - i64::MAX - 1)
    }
}

proof fn lemma_pow256_mono(a: nat, b: nat)
    requires
        a <= b,
    ensures
        pow256(a) <= pow256(b),
    decreases b,
{
    if a < b {
        lemma_pow256_mono(a, (b - 1) as nat);
        lemma_pow256_pos((b - 1) as nat);
    }
}

} // verus!
