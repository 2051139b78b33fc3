//! The variable-length integers of CRAM: ITF8 (up to 32 bits) and LTF8 (up to 64 bits).
//!
//! The count of leading one bits of the first byte says how many bytes follow; the
//! remaining bits of the first byte and the following bytes hold the value, most
//! significant first.
use vstd::prelude::*;

verus! {

/// `acc` followed by the bytes of `s` as base-256 digits.
pub open spec fn fold_be(acc: int, s: Seq<u8>) -> int
    decreases s.len(),
{
    if s.len() == 0 {
        acc
    } else {
        fold_be(acc, s.drop_last()) * 256 + s.last()
    }
}

pub open spec fn pow256(e: nat) -> int
    decreases e,
{
    if e == 0 {
        1
    } else {
        256 * pow256((e - 1) as nat)
    }
}

/// How many bytes follow the first byte of an ITF8 integer.
pub open spec fn itf8_extra(b0: u8) -> int {
    if b0 < 0x80 {
        0
    } else if b0 < 0xC0 {
        1
    } else if b0 < 0xE0 {
        2
    } else if b0 < 0xF0 {
        3
    } else {
        4
    }
}

/// The value bits of the first byte of an ITF8 integer.
pub open spec fn itf8_lead(b0: u8) -> int {
    if b0 < 0x80 {
        b0 as int
    } else if b0 < 0xC0 {
        (b0 % 64) as int
    } else if b0 < 0xE0 {
        (b0 % 32) as int
    } else {
        (b0 % 16) as int
    }
}

/// The ITF8 integer at `pos` of `s`, with the position after it.
pub open spec fn itf8_at(s: Seq<u8>, pos: int) -> Option<(i32, int)> {
    if 0 <= pos < s.len() && pos + 1 + itf8_extra(s[pos]) <= s.len() {
        let k = itf8_extra(s[pos]);
        let v = if k < 4 {
            fold_be(itf8_lead(s[pos]), s.subrange(pos + 1, pos + 1 + k))
        } else {
            fold_be(itf8_lead(s[pos]), s.subrange(pos + 1, pos + 4)) * 16 + s[pos + 4] % 16
        };
        Some(((v as u32) as i32, pos + 1 + k))
    } else {
        None
    }
}

/// How many bytes follow the first byte of an LTF8 integer.
pub open spec fn ltf8_extra(b0: u8) -> int {
    if b0 < 0x80 {
        0
    } else if b0 < 0xC0 {
        1
    } else if b0 < 0xE0 {
        2
    } else if b0 < 0xF0 {
        3
    } else if b0 < 0xF8 {
        4
    } else if b0 < 0xFC {
        5
    } else if b0 < 0xFE {
        6
    } else if b0 < 0xFF {
        7
    } else {
        8
    }
}

/// The value bits of the first byte of an LTF8 integer.
pub open spec fn ltf8_lead(b0: u8) -> int {
    if b0 < 0x80 {
        b0 as int
    } else if b0 < 0xC0 {
        (b0 % 64) as int
    } else if b0 < 0xE0 {
        (b0 % 32) as int
    } else if b0 < 0xF0 {
        (b0 % 16) as int
    } else if b0 < 0xF8 {
        (b0 % 8) as int
    } else if b0 < 0xFC {
        (b0 % 4) as int
    } else if b0 < 0xFE {
        (b0 % 2) as int
    } else {
        0
    }
}

/// The LTF8 integer at `pos` of `s`, with the position after it.
pub open spec fn ltf8_at(s: Seq<u8>, pos: int) -> Option<(i64, int)> {
    if 0 <= pos < s.len() && pos + 1 + ltf8_extra(s[pos]) <= s.len() {
        let k = ltf8_extra(s[pos]);
        let v = fold_be(ltf8_lead(s[pos]), s.subrange(pos + 1, pos + 1 + k));
        Some(((v as u64) as i64, pos + 1 + k))
    } else {
        None
    }
}

proof fn lemma_pow256_bound(e: nat)
    requires
        e <= 9,
    ensures
        1 <= pow256(e) <= pow256(9),
    decreases 9 - e,
{
    lemma_pow256_positive(e);
    if e < 9 {
        lemma_pow256_bound(e + 1);
    }
}

proof fn lemma_pow256_positive(e: nat)
    ensures
        pow256(e) >= 1,
    decreases e,
{
    if e > 0 {
        lemma_pow256_positive((e - 1) as nat);
    }
}

/// Folds the bytes `s[start..end]` onto `acc`.
fn fold_bytes(s: &[u8], start: usize, end: usize, acc: u8) -> (r: u128)
    requires
        start <= end <= s@.len(),
        end - start <= 8,
    ensures
        r == fold_be(acc as int, s@.subrange(start as int, end as int)),
{
    let mut r: u128 = acc as u128;
    let mut t: usize = start;
    proof {
        assert(s@.subrange(start as int, start as int) =~= Seq::<u8>::empty());
        assert(pow256(1) == 256) by {
            reveal_with_fuel(pow256, 2);
        }
        assert(pow256(9) == 0x1_0000_0000_0000_0000_00) by {
            reveal_with_fuel(pow256, 10);
        }
    }
    while t < end
        invariant
            start <= t <= end <= s@.len(),
            end - start <= 8,
            r == fold_be(acc as int, s@.subrange(start as int, t as int)),
            r < pow256((t - start + 1) as nat),
            pow256(9) == 0x1_0000_0000_0000_0000_00,
        decreases end - t,
    {
        proof {
            let e = (t - start + 1) as nat;
            lemma_pow256_bound(e + 1);
            assert(pow256(e + 1) == 256 * pow256(e));
            assert(r * 256 + s@[t as int] < pow256(e + 1)) by (nonlinear_arith)
                requires
                    r < pow256(e),
                    s@[t as int] < 256,
                    pow256(e + 1) == 256 * pow256(e),
            ;
            assert(s@.subrange(start as int, t + 1).drop_last() =~= s@.subrange(
                start as int,
                t as int,
            ));
        }
        r = r * 256 + s[t] as u128;
        t = t + 1;
    }
    r
}

/// Reads the ITF8 integer at `pos`, returning it with the position after it.
pub fn read_itf8(s: &[u8], pos: usize) -> (r: Option<(i32, usize)>)
    ensures
        match r {
            Some((v, next)) => itf8_at(s@, pos as int) == Some((v, next as int)),
            None => itf8_at(s@, pos as int) is None,
        },
{
    if pos >= s.len() {
        return None;
    }
    let b0 = s[pos];
    let (k, lead): (usize, u8) = if b0 < 0x80 {
        (0, b0)
    } else if b0 < 0xC0 {
        (1, b0 % 64)
    } else if b0 < 0xE0 {
        (2, b0 % 32)
    } else if b0 < 0xF0 {
        (3, b0 % 16)
    } else {
        (4, b0 % 16)
    };
    if k > s.len() - pos - 1 {
        return None;
    }
    let v: u128 = if k < 4 {
        fold_bytes(s, pos + 1, pos + 1 + k, lead)
    } else {
        let high = fold_bytes(s, pos + 1, pos + 4, lead);
        proof {
            lemma_pow256_bound(4);
            assert(pow256(4) == 0x1_0000_0000) by {
                reveal_with_fuel(pow256, 5);
            }
            assert(fold_be(lead as int, s@.subrange(pos + 1, pos + 4)) < pow256(4)) by {
                lemma_fold_bound(lead as int, s@.subrange(pos + 1, pos + 4));
            }
        }
        high * 16 + (s[pos + 4] % 16) as u128
    };
    Some(((v as u32) as i32, pos + 1 + k))
}

/// Reads the LTF8 integer at `pos`, returning it with the position after it.
pub fn read_ltf8(s: &[u8], pos: usize) -> (r: Option<(i64, usize)>)
    ensures
        match r {
            Some((v, next)) => ltf8_at(s@, pos as int) == Some((v, next as int)),
            None => ltf8_at(s@, pos as int) is None,
        },
{
    if pos >= s.len() {
        return None;
    }
    let b0 = s[pos];
    let (k, lead): (usize, u8) = if b0 < 0x80 {
        (0, b0)
    } else if b0 < 0xC0 {
        (1, b0 % 64)
    } else if b0 < 0xE0 {
        (2, b0 % 32)
    } else if b0 < 0xF0 {
        (3, b0 % 16)
    } else if b0 < 0xF8 {
        (4, b0 % 8)
    } else if b0 < 0xFC {
        (5, b0 % 4)
    } else if b0 < 0xFE {
        (6, b0 % 2)
    } else if b0 < 0xFF {
        (7, 0)
    } else {
        (8, 0)
    };
    if k > s.len() - pos - 1 {
        return None;
    }
    let v = fold_bytes(s, pos + 1, pos + 1 + k, lead);
    Some(((v as u64) as i64, pos + 1 + k))
}

/// A fold of `n` bytes onto a byte stays below `256^(n + 1)`.
proof fn lemma_fold_bound(acc: int, s: Seq<u8>)
    requires
        0 <= acc < 256,
    ensures
        0 <= fold_be(acc, s) < pow256((s.len() + 1) as nat),
    decreases s.len(),
{
    if s.len() == 0 {
        assert(pow256(1) == 256) by {
            reveal_with_fuel(pow256, 2);
        }
    } else {
        lemma_fold_bound(acc, s.drop_last());
        let p = pow256(s.len() as nat);
        let f = fold_be(acc, s.drop_last());
        assert(pow256((s.len() + 1) as nat) == 256 * p);
        assert(f * 256 + s.last() < 256 * p) by (nonlinear_arith)
            requires
                0 <= f < p,
                s.last() < 256,
        ;
    }
}

} // verus!
