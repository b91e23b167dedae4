//! Little-endian byte strings: the payload form of every frame.

use vstd::prelude::*;

verus! {

/// 256 raised to the power `k`: the number of values a `k`-byte string can hold.
pub open spec fn pow256(k: nat) -> nat
    decreases k,
{
    if k == 0 {
        1
    } else {
        256 * pow256((k - 1) as nat)
    }
}

/// The `k`-byte little-endian encoding of `v` (reduced modulo `pow256(k)`).
pub open spec fn le_bytes(v: nat, k: nat) -> Seq<u8>
    decreases k,
{
    if k == 0 {
        Seq::empty()
    } else {
        seq![(v % 256) as u8] + le_bytes(v / 256, (k - 1) as nat)
    }
}

/// The value a little-endian byte string denotes.
pub open spec fn le_val(b: Seq<u8>) -> nat
    decreases b.len(),
{
    if b.len() == 0 {
        0
    } else {
        (b[0] + 256 * le_val(b.drop_first())) as nat
    }
}

/// The least number of bytes (at least one) whose little-endian form can hold `v`:
/// the length a writer uses once trailing zero bytes are elided.
pub open spec fn min_len(v: nat) -> nat
    decreases v,
{
    if v < 256 {
        1
    } else {
        1 + min_len(v / 256)
    }
}

pub proof fn lemma_pow256_pos(k: nat)
    ensures
        pow256(k) >= 1,
    decreases k,
{
    if k > 0 {
        lemma_pow256_pos((k - 1) as nat);
    }
}

pub proof fn lemma_pow256_mono(j: nat, k: nat)
    requires
        j <= k,
    ensures
        pow256(j) <= pow256(k),
    decreases k,
{
    if j < k {
        lemma_pow256_mono(j, (k - 1) as nat);
        lemma_pow256_pos((k - 1) as nat);
    }
}

pub proof fn lemma_le_bytes_len(v: nat, k: nat)
    ensures
        le_bytes(v, k).len() == k,
    decreases k,
{
    if k > 0 {
        lemma_le_bytes_len(v / 256, (k - 1) as nat);
    }
}

/// Reading back the `k`-byte little-endian form of `v` recovers `v` when it fits.
pub proof fn lemma_le_val_le_bytes(v: nat, k: nat)
    requires
        v < pow256(k),
    ensures
        le_val(le_bytes(v, k)) == v,
    decreases k,
{
    if k == 0 {
    } else {
        let b = le_bytes(v, k);
        lemma_le_bytes_len(v, k);
        assert(b.drop_first() =~= le_bytes(v / 256, (k - 1) as nat));
        assert(v / 256 < pow256((k - 1) as nat)) by {
            lemma_pow256_pos((k - 1) as nat);
            assert(v < 256 * pow256((k - 1) as nat));
        };
        lemma_le_val_le_bytes(v / 256, (k - 1) as nat);
        assert(v == v % 256 + 256 * (v / 256));
    }
}

/// A `k`-byte string can only denote a value below `pow256(k)`.
pub proof fn lemma_le_val_bound(b: Seq<u8>)
    ensures
        le_val(b) < pow256(b.len()),
    decreases b.len(),
{
    if b.len() > 0 {
        lemma_le_val_bound(b.drop_first());
    }
}

/// `min_len` is the least length: `v` fits in `k` bytes exactly when `min_len(v) <= k`.
pub proof fn lemma_min_len_fits(v: nat)
    ensures
        v < pow256(min_len(v)),
        min_len(v) >= 1,
        min_len(v) > 1 ==> v >= pow256((min_len(v) - 1) as nat),
    decreases v,
{
    if v < 256 {
    } else {
        lemma_min_len_fits(v / 256);
        let m = min_len(v / 256);
        assert(v < 256 * pow256(m)) by {
            assert(v / 256 < pow256(m));
            assert(v <= 256 * (v / 256) + 255);
            lemma_pow256_pos(m);
        };
        if m > 1 {
            assert(v >= v / 256) by {
                assert(256 * (v / 256) <= v);
            };
            assert(v / 256 >= pow256((m - 1) as nat));
            assert(pow256(m) == 256 * pow256((m - 1) as nat));
            assert(v >= 256 * pow256((m - 1) as nat)) by {
                assert(v / 256 >= pow256((m - 1) as nat));
                assert(256 * (v / 256) <= v);
                assert(256 * (v / 256) >= 256 * pow256((m - 1) as nat)) by (nonlinear_arith)
                    requires
                        v / 256 >= pow256((m - 1) as nat),
                ;
            };
        } else {
            assert(v >= 256) by {
            };
            assert(pow256(1) == 256 * pow256(0));
        }
    }
}

/// If `v` fits in `k >= 1` bytes then `min_len(v) <= k`.
pub proof fn lemma_min_len_le(v: nat, k: nat)
    requires
        k >= 1,
        v < pow256(k),
    ensures
        min_len(v) <= k,
    decreases v,
{
    if v < 256 {
    } else {
        assert(k >= 2) by {
            if k == 1 {
                assert(pow256(1) == 256 * pow256(0));
            }
        };
        assert(v / 256 < pow256((k - 1) as nat)) by {
            assert(pow256(k) == 256 * pow256((k - 1) as nat));
            assert(256 * (v / 256) <= v);
        };
        lemma_min_len_le(v / 256, (k - 1) as nat);
    }
}

/// A byte string is determined by its value and its length: little-endian
/// reading is injective at each fixed length.
pub proof fn lemma_le_bytes_unique(s: Seq<u8>)
    requires
        le_val(s) < pow256(s.len()),
    ensures
        s == le_bytes(le_val(s), s.len()),
    decreases s.len(),
{
    if s.len() == 0 {
        assert(s =~= le_bytes(le_val(s), 0));
    } else {
        let v = le_val(s);
        let rest = s.drop_first();
        lemma_le_val_bound(rest);
        assert(v == s[0] + 256 * le_val(rest));
        assert(v % 256 == s[0] && v / 256 == le_val(rest)) by (nonlinear_arith)
            requires
                v == s[0] + 256 * le_val(rest),
                0 <= s[0] < 256,
        ;
        lemma_le_bytes_unique(rest);
        assert(s =~= le_bytes(v, s.len()));
    }
}

/// Extending a little-endian string by one byte appends the next base-256 digit.
pub proof fn lemma_le_bytes_snoc(v: nat, i: nat)
    ensures
        le_bytes(v, i + 1) == le_bytes(v, i).push(((v / pow256(i)) % 256) as u8),
    decreases i,
{
    if i == 0 {
        reveal_with_fuel(le_bytes, 3);
        assert(pow256(0) == 1);
        assert(v / pow256(0) == v);
        assert(le_bytes(v, 1) =~= le_bytes(v, 0).push(((v / pow256(0)) % 256) as u8));
    } else {
        lemma_le_bytes_snoc(v / 256, (i - 1) as nat);
        assert((v / 256) / pow256((i - 1) as nat) == v / pow256(i)) by {
            lemma_pow256_pos((i - 1) as nat);
            vstd::arithmetic::div_mod::lemma_div_denominator(
                v as int,
                256,
                pow256((i - 1) as nat) as int,
            );
            assert(256 * pow256((i - 1) as nat) == pow256(i));
        };
        assert(le_bytes(v, i + 1) =~= le_bytes(v, i).push(((v / pow256(i)) % 256) as u8));
    }
}

/// Values below `2^128`, `2^64` and `2^32` need at most 16, 8 and 4 bytes.
pub proof fn lemma_pow256_values()
    ensures
        pow256(1) == 0x100,
        pow256(2) == 0x1_0000,
        pow256(4) == 0x1_0000_0000,
        pow256(8) == 0x1_0000_0000_0000_0000,
        pow256(16) == 0x1_0000_0000_0000_0000_0000_0000_0000_0000,
{
    reveal_with_fuel(pow256, 17);
}

} // verus!
