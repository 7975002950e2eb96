//! Little-endian bytes of unsigned numbers: the spec-level base-256
//! model and the executable conversions the codec uses.

use vstd::prelude::*;
use vstd::arithmetic::power2::{pow2, lemma_pow2_adds, lemma_pow2_pos, lemma2_to64};
use vstd::arithmetic::div_mod::lemma_fundamental_div_mod;

verus! {

/// The `n` little-endian base-256 digits of `v` (`v` truncated to `n`
/// bytes; the least significant byte comes first).
pub open spec fn le_bytes(v: nat, n: nat) -> Seq<u8>
    decreases n,
{
    if n == 0 {
        Seq::empty()
    } else {
        seq![(v % 256) as u8] + le_bytes(v / 256, (n - 1) as nat)
    }
}

/// The number whose little-endian base-256 digits are `s`.
pub open spec fn from_le(s: Seq<u8>) -> nat
    decreases s.len(),
{
    if s.len() == 0 {
        0
    } else {
        (s[0] + 256 * from_le(s.drop_first())) as nat
    }
}

/// `le_bytes` always yields exactly `n` bytes.
pub proof fn lemma_le_bytes_len(v: nat, n: nat)
    ensures
        le_bytes(v, n).len() == n,
    decreases n,
{
    if n > 0 {
        lemma_le_bytes_len(v / 256, (n - 1) as nat);
    }
}

/// A number read back from `s` is bounded by the capacity of `s.len()` bytes.
pub proof fn lemma_from_le_bound(s: Seq<u8>)
    ensures
        from_le(s) < pow2(8 * s.len()),
    decreases s.len(),
{
    if s.len() == 0 {
        lemma_pow2_pos(0);
    } else {
        lemma_from_le_bound(s.drop_first());
        lemma_pow2_adds(8, 8 * (s.len() - 1) as nat);
        lemma2_to64();
        assert(pow2(8 * s.len()) == 256 * pow2(8 * (s.len() - 1) as nat));
        assert(s[0] + 256 * from_le(s.drop_first()) < 256 * (from_le(s.drop_first()) + 1));
        assert(256 * (from_le(s.drop_first()) + 1) <= 256 * pow2(8 * (s.len() - 1) as nat))
            by (nonlinear_arith)
            requires
                from_le(s.drop_first()) + 1 <= pow2(8 * (s.len() - 1) as nat),
        ;
    }
}

/// Writing a bounded number and reading it back is the identity.
pub proof fn lemma_from_le_le(v: nat, n: nat)
    requires
        v < pow2(8 * n),
    ensures
        from_le(le_bytes(v, n)) == v,
    decreases n,
{
    if n == 0 {
        lemma_pow2_pos(0);
        assert(pow2(0) == 1) by {
            lemma2_to64();
        }
    } else {
        let s = le_bytes(v, n);
        lemma_le_bytes_len(v, n);
        assert(s.drop_first() =~= le_bytes(v / 256, (n - 1) as nat));
        lemma_pow2_adds(8, 8 * (n - 1) as nat);
        lemma2_to64();
        assert(v / 256 < pow2(8 * (n - 1) as nat)) by (nonlinear_arith)
            requires
                v < 256 * pow2(8 * (n - 1) as nat),
        ;
        lemma_from_le_le(v / 256, (n - 1) as nat);
        lemma_fundamental_div_mod(v as int, 256);
    }
}

/// Reading `s` and writing the number back over `s.len()` bytes is the
/// identity.
pub proof fn lemma_le_from_le(s: Seq<u8>)
    ensures
        le_bytes(from_le(s), s.len()) =~= s,
    decreases s.len(),
{
    if s.len() > 0 {
        let v = from_le(s) as int;
        let r = from_le(s.drop_first()) as int;
        assert((s[0] + 256 * r) % 256 == s[0] && (s[0] + 256 * r) / 256 == r)
            by (nonlinear_arith)
            requires
                0 <= s[0] < 256,
                0 <= r,
        ;
        lemma_le_from_le(s.drop_first());
    }
}

/// Appends the `width` little-endian bytes of `bits` to `out`.
pub fn write_le(bits: u128, width: usize, out: &mut Vec<u8>)
    ensures
        final(out)@ == old(out)@ + le_bytes(bits as nat, width as nat),
    decreases width,
{
    if width == 0 {
        assert(out@ =~= out@ + le_bytes(bits as nat, 0));
    } else {
        let b: u8 = (bits % 256) as u8;
        out.push(b);
        let ghost mid = out@;
        write_le(bits / 256, width - 1, out);
        assert(out@ =~= old(out)@ + le_bytes(bits as nat, width as nat));
    }
}

/// Reads the number held by the `width` bytes of `input` at `pos`,
/// least significant byte first.
pub fn read_le(input: &[u8], pos: usize, width: usize) -> (r: u128)
    requires
        pos + width <= input@.len(),
        width <= 16,
    ensures
        r as nat == from_le(input@.subrange(pos as int, pos + width)),
    decreases width,
{
    if width == 0 {
        assert(input@.subrange(pos as int, pos as int) =~= Seq::empty());
        0
    } else {
        let n: usize = input.len();
        let rest = read_le(input, pos + 1, width - 1);
        proof {
            let tail = input@.subrange(pos + 1, pos + width);
            lemma_from_le_bound(tail);
            assert(pow2(8 * tail.len()) <= pow2(120)) by {
                if tail.len() < 15 {
                    lemma_pow2_adds(8 * tail.len(), (120 - 8 * tail.len()) as nat);
                    lemma_pow2_pos((120 - 8 * tail.len()) as nat);
                    assert(pow2(8 * tail.len()) * pow2((120 - 8 * tail.len()) as nat)
                        >= pow2(8 * tail.len()) * 1) by (nonlinear_arith)
                        requires
                            pow2((120 - 8 * tail.len()) as nat) >= 1,
                            pow2(8 * tail.len()) >= 0,
                    ;
                }
            }
            assert(pow2(120) * 256 == pow2(128)) by {
                lemma_pow2_adds(120, 8);
                lemma2_to64();
            }
            assert(pow2(128) == 0x100000000000000000000000000000000) by {
                lemma_pow2_adds(64, 64);
                lemma2_to64();
            }
            assert(256 * (rest as nat) + 256 <= pow2(128)) by (nonlinear_arith)
                requires
                    (rest as nat) + 1 <= pow2(120),
                    pow2(120) * 256 == pow2(128),
            ;
            assert(input@.subrange(pos as int, pos + width).drop_first()
                =~= input@.subrange(pos + 1, pos + width));
        }
        input[pos] as u128 + 256 * rest
    }
}

} // verus!
