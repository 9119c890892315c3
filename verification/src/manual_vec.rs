//! Natural numbers as vectors of bytes, least significant byte first.

use vstd::prelude::*;

verus! {

/// The number that the bytes of `v` spell, least significant first.
pub open spec fn le_value(v: Seq<u8>) -> nat
    decreases v.len(),
{
    if v.len() == 0 {
        0
    } else {
        v[0] as nat + 256 * le_value(v.drop_first())
    }
}

/// 256 to the power of `k`.
pub open spec fn pow256(k: nat) -> nat
    decreases k,
{
    if k == 0 {
        1
    } else {
        256 * pow256((k - 1) as nat)
    }
}

/// A byte appended to `v` counts with the weight of its place.
pub proof fn lemma_value_push(v: Seq<u8>, b: u8)
    ensures
        le_value(v.push(b)) == le_value(v) + b * pow256(v.len()),
    decreases v.len(),
{
    let w = v.push(b);
    if v.len() == 0 {
        assert(w.drop_first() =~= Seq::<u8>::empty());
        assert(le_value(w.drop_first()) == 0);
        assert(le_value(w) == w[0] as nat + 256 * le_value(w.drop_first()));
        assert(pow256(0) == 1);
        assert(b * pow256(0) == b) by (nonlinear_arith)
            requires
                pow256(0) == 1,
        ;
    } else {
        let rest = v.drop_first();
        lemma_value_push(rest, b);
        assert(w.drop_first() =~= rest.push(b));
        assert(le_value(w) == w[0] as nat + 256 * le_value(w.drop_first()));
        assert(le_value(v) == v[0] as nat + 256 * le_value(rest));
        assert(pow256(v.len()) == 256 * pow256((v.len() - 1) as nat));
        assert(256 * (b * pow256(rest.len())) == b * pow256(v.len())) by (nonlinear_arith)
            requires
                pow256(v.len()) == 256 * pow256(rest.len()),
        ;
    }
}

/// The bytes from place `i` on spell no more than all the bytes.
pub proof fn lemma_value_skip(v: Seq<u8>, i: int)
    requires
        0 <= i <= v.len(),
    ensures
        le_value(v.skip(i)) <= le_value(v),
    decreases i,
{
    if i == 0 {
        assert(v.skip(0) =~= v);
    } else {
        lemma_value_skip(v, i - 1);
        assert(v.skip(i - 1).drop_first() =~= v.skip(i));
    }
}

/// The bytes of `v` spell a number below 256 to the power of their count.
pub proof fn lemma_value_bound(v: Seq<u8>)
    ensures
        le_value(v) < pow256(v.len()),
    decreases v.len(),
{
    if v.len() > 0 {
        lemma_value_bound(v.drop_first());
        assert(pow256(v.len()) == 256 * pow256((v.len() - 1) as nat));
    }
}

/// Two vectors of the same length that spell the same number hold the
/// same bytes.
pub proof fn lemma_value_injective(v: Seq<u8>, w: Seq<u8>)
    requires
        v.len() == w.len(),
        le_value(v) == le_value(w),
    ensures
        v == w,
    decreases v.len(),
{
    if v.len() > 0 {
        assert(v[0] == w[0] && le_value(v.drop_first()) == le_value(w.drop_first()));
        lemma_value_injective(v.drop_first(), w.drop_first());
        assert(v =~= w) by {
            assert forall|i: int| 0 <= i < v.len() implies v[i] == w[i] by {
                if i > 0 {
                    assert(v.drop_first()[i - 1] == w.drop_first()[i - 1]);
                }
            }
        }
    } else {
        assert(v =~= w);
    }
}

/// The longer of two lengths.
pub open spec fn longer(a: nat, b: nat) -> nat {
    if a >= b {
        a
    } else {
        b
    }
}

/// `vz` is the sum of `vx` and `vy` as `add_vecu8` writes it: it spells
/// the sum, and it is as long as the longer of the two, or one byte
/// longer where the sum needs that byte.
pub open spec fn is_sum(vx: Seq<u8>, vy: Seq<u8>, vz: Seq<u8>) -> bool {
    &&& le_value(vz) == le_value(vx) + le_value(vy)
    &&& longer(vx.len(), vy.len()) <= vz.len() <= longer(vx.len(), vy.len()) + 1
    &&& vz.len() == longer(vx.len(), vy.len()) + 1 ==> vz[vz.len() - 1] != 0
}

/// The sum is fixed byte by byte, and it does not depend on the order of
/// the two numbers.
pub proof fn lemma_sum_unique(vx: Seq<u8>, vy: Seq<u8>, first: Seq<u8>, second: Seq<u8>)
    requires
        is_sum(vx, vy, first),
        is_sum(vx, vy, second) || is_sum(vy, vx, second),
    ensures
        first == second,
{
    let n = longer(vx.len(), vy.len());
    if first.len() != second.len() {
        let (long, short) = if first.len() > second.len() {
            (first, second)
        } else {
            (second, first)
        };
        lemma_value_bound(short);
        lemma_value_push(long.drop_last(), long.last());
        assert(long.drop_last().push(long.last()) =~= long);
        assert(long.last() * pow256(n) >= pow256(n)) by (nonlinear_arith)
            requires
                long.last() >= 1,
        ;
    }
    lemma_value_injective(first, second);
}

/// The product of two bytes, as two bytes.
pub fn mult_u8(x: u8, y: u8) -> (v: Vec<u8>)
    ensures
        v.len() == 2,
        le_value(v@) == x * y,
{
    assert(x * y <= 255 * 255) by (nonlinear_arith)
        requires
            x <= 255,
            y <= 255,
    ;
    let res: u16 = (x as u16) * (y as u16);
    let mut v: Vec<u8> = Vec::new();
    v.push((res % 256) as u8);
    v.push((res / 256) as u8);
    proof {
        lemma_two_bytes(v@);
    }
    v
}

/// The sum of two bytes, as two bytes.
pub fn add_u8(x: u8, y: u8) -> (v: Vec<u8>)
    ensures
        v.len() == 2,
        le_value(v@) == x + y,
{
    let res: u16 = (x as u16) + (y as u16);
    let mut v: Vec<u8> = Vec::new();
    v.push((res % 256) as u8);
    v.push((res / 256) as u8);
    proof {
        lemma_two_bytes(v@);
    }
    v
}

/// Two bytes spell the first plus 256 times the second.
proof fn lemma_two_bytes(v: Seq<u8>)
    requires
        v.len() == 2,
    ensures
        le_value(v) == v[0] + 256 * v[1],
{
    assert(v.drop_first().drop_first() =~= Seq::<u8>::empty());
    assert(le_value(v.drop_first()) == v[1] + 256 * le_value(v.drop_first().drop_first()));
}

/// The sum of two numbers: as long as the longer of the two, with one
/// more byte where the sum carries into it.
pub fn add_vecu8(vx: &Vec<u8>, vy: &Vec<u8>) -> (vz: Vec<u8>)
    ensures
        le_value(vz@) == le_value(vx@) + le_value(vy@),
        longer(vx@.len(), vy@.len()) <= vz.len() <= longer(vx@.len(), vy@.len()) + 1,
        vz.len() == longer(vx@.len(), vy@.len()) + 1 ==> vz[vz.len() - 1] != 0,
        is_sum(vx@, vy@, vz@),
{
    let longv;
    let shortv;
    if vx.len() < vy.len() {
        longv = vy;
        shortv = vx;
    } else {
        longv = vx;
        shortv = vy;
    }
    let mut vz: Vec<u8> = Vec::new();
    let mut low_bits: u16 = 0;
    let mut i: usize = 0;
    while i < shortv.len()
        invariant
            i <= shortv.len() <= longv.len(),
            vz.len() == i,
            low_bits <= 1,
            le_value(vz@) + low_bits * pow256(i as nat) == le_value(shortv@.take(i as int))
                + le_value(longv@.take(i as int)),
        decreases shortv.len() - i,
    {
        let sum: u16 = (shortv[i] as u16) + (longv[i] as u16) + low_bits;
        proof {
            lemma_value_push(vz@, (sum % 256) as u8);
            lemma_value_push(shortv@.take(i as int), shortv[i as int]);
            lemma_value_push(longv@.take(i as int), longv[i as int]);
            assert(shortv@.take(i + 1) =~= shortv@.take(i as int).push(shortv[i as int]));
            assert(longv@.take(i + 1) =~= longv@.take(i as int).push(longv[i as int]));
            assert(pow256((i + 1) as nat) == 256 * pow256(i as nat));
            lemma_carry(
                shortv[i as int] as nat,
                longv[i as int] as nat,
                low_bits as nat,
                pow256(i as nat),
            );
        }
        vz.push((sum % 256) as u8);
        low_bits = sum / 256;
        i += 1;
    }
    assert(shortv@.take(i as int) =~= shortv@);
    while i < longv.len()
        invariant
            shortv.len() <= i <= longv.len(),
            longv.len() == longer(vx@.len(), vy@.len()),
            vz.len() == i,
            low_bits <= 1,
            le_value(vz@) + low_bits * pow256(i as nat) == le_value(shortv@) + le_value(
                longv@.take(i as int),
            ),
        decreases longv.len() - i,
    {
        let sum: u16 = (longv[i] as u16) + low_bits;
        proof {
            lemma_value_push(vz@, (sum % 256) as u8);
            lemma_value_push(longv@.take(i as int), longv[i as int]);
            assert(longv@.take(i + 1) =~= longv@.take(i as int).push(longv[i as int]));
            assert(pow256((i + 1) as nat) == 256 * pow256(i as nat));
            lemma_carry(0, longv[i as int] as nat, low_bits as nat, pow256(i as nat));
        }
        vz.push((sum % 256) as u8);
        low_bits = sum / 256;
        i += 1;
    }
    assert(longv@.take(i as int) =~= longv@);
    if low_bits != 0 {
        proof {
            lemma_value_push(vz@, low_bits as u8);
        }
        vz.push(low_bits as u8);
    } else {
        assert(low_bits * pow256(i as nat) == 0) by (nonlinear_arith)
            requires
                low_bits == 0,
        ;
    }
    vz
}

/// The sum of three digits at a place splits into the byte that stays
/// there and the carry to the next place.
proof fn lemma_carry(a: nat, b: nat, c: nat, weight: nat)
    ensures
        ((a + b + c) % 256) * weight + ((a + b + c) / 256) * (256 * weight) == a * weight + b
            * weight + c * weight,
{
    let sum = a + b + c;
    assert((sum % 256) * weight + (sum / 256) * (256 * weight) == a * weight + b * weight + c
        * weight) by (nonlinear_arith)
        requires
            sum == 256 * (sum / 256) + sum % 256,
            sum == a + b + c,
    ;
}

/// The number that `v` spells, where it fits in 64 bits.
pub fn vecu8_u64(v: &Vec<u8>) -> (res: u64)
    requires
        le_value(v@) <= u64::MAX,
    ensures
        res == le_value(v@),
{
    let mut res: u64 = 0;
    let mut i: usize = v.len();
    assert(v@.skip(i as int) =~= Seq::<u8>::empty());
    while i > 0
        invariant
            i <= v.len(),
            res == le_value(v@.skip(i as int)),
            le_value(v@) <= u64::MAX,
        decreases i,
    {
        proof {
            lemma_value_skip(v@, i - 1);
            assert(v@.skip(i - 1).drop_first() =~= v@.skip(i as int));
        }
        i -= 1;
        res = res * 256 + (v[i] as u64);
    }
    assert(v@.skip(0) =~= v@);
    res
}

/// The bytes of `n`, without leading zero bytes; zero is one zero byte.
pub fn u64_vecu8(n: u64) -> (v: Vec<u8>)
    ensures
        le_value(v@) == n,
        1 <= v.len(),
        n == 0 ==> v@ == seq![0u8],
        n != 0 ==> v[v.len() - 1] != 0,
{
    let mut v: Vec<u8> = Vec::new();
    let mut m = n;
    if n == 0 {
        proof {
            lemma_value_push(v@, 0);
        }
        v.push(0);
        assert(v@ =~= seq![0u8]);
        return v;
    }
    assert(le_value(v@) + m * pow256(0) == n) by {
        assert(pow256(0) == 1);
        assert(m * pow256(0) == m) by (nonlinear_arith)
            requires
                pow256(0) == 1,
        ;
    }
    while m != 0
        invariant
            le_value(v@) + m * pow256(v.len() as nat) == n,
            m == 0 ==> v.len() >= 1 && v[v.len() - 1] != 0,
        decreases m,
    {
        proof {
            lemma_value_push(v@, (m % 256) as u8);
            assert(pow256((v.len() + 1) as nat) == 256 * pow256(v.len() as nat));
            lemma_carry(0, 0, m as nat, pow256(v.len() as nat));
        }
        v.push((m % 256) as u8);
        m = m / 256;
    }
    assert(m * pow256(v.len() as nat) == 0) by (nonlinear_arith)
        requires
            m == 0,
    ;
    v
}

} // verus!
