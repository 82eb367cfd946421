//! Adler-32-style rolling hash over a sliding byte window.
use vstd::arithmetic::div_mod::{
    lemma_add_mod_noop,
    lemma_fundamental_div_mod,
    lemma_mod_bound,
    lemma_mod_multiples_vanish,
    lemma_mod_twice,
};
use vstd::prelude::*;

verus! {

/// Modulus of both running sums.
pub const MOD_ADLER: u32 = 65521;

/// Above this, the 64-bit accumulators of `init` are reduced before the next byte.
const ACC_LIMIT: u64 = 0x4000_0000_0000_0000;

/// Sum of the bytes of `s`.
pub open spec fn byte_sum(s: Seq<u8>) -> int
    decreases s.len(),
{
    if s.len() == 0 {
        0
    } else {
        byte_sum(s.drop_last()) + s.last()
    }
}

/// `Σ (|s| − i)·s[i]`: the sum of `byte_sum` over all non-empty prefixes of `s`.
pub open spec fn weighted_sum(s: Seq<u8>) -> int
    decreases s.len(),
{
    if s.len() == 0 {
        0
    } else {
        weighted_sum(s.drop_last()) + byte_sum(s)
    }
}

/// The `a` sum of a window: `(1 + Σ s[i]) mod M`.
pub open spec fn adler_a(s: Seq<u8>) -> int {
    (1 + byte_sum(s)) % (MOD_ADLER as int)
}

/// The `b` sum of a window: `(Σ (|s| − i)·s[i] + |s|) mod M`.
pub open spec fn adler_b(s: Seq<u8>) -> int {
    (weighted_sum(s) + s.len()) % (MOD_ADLER as int)
}

/// The 32-bit digest of two sums, each below 2^16: `(b << 16) | a`.
pub open spec fn digest_of(a: int, b: int) -> int {
    b * 65536 + a
}

/// Digest of the window `s`, as `init(s)` leaves it.
pub open spec fn window_digest(s: Seq<u8>) -> int {
    digest_of(adler_a(s), adler_b(s))
}

/// The `a` sum after sliding `old_byte` out and `new_byte` in.
pub open spec fn rotated_a(a: int, old_byte: u8, new_byte: u8) -> int {
    (a + MOD_ADLER - old_byte + new_byte) % (MOD_ADLER as int)
}

/// The `b` sum after a slide over a window of `window_size` bytes, `a2` being the new `a`.
pub open spec fn rotated_b(b: int, window_size: int, old_byte: u8, a2: int) -> int {
    (b + MOD_ADLER - 1 + a2 - (old_byte * window_size) % (MOD_ADLER as int)) % (MOD_ADLER as int)
}

pub struct RollingHash {
    pub a: u32,
    pub b: u32,
    pub window_size: u32,
}

impl RollingHash {
    /// Both sums are reduced.
    pub open spec fn wf(&self) -> bool {
        self.a < MOD_ADLER && self.b < MOD_ADLER
    }

    /// The state that `init(s)` leaves.
    pub open spec fn is_init_of(&self, s: Seq<u8>) -> bool {
        &&& self.a == adler_a(s)
        &&& self.b == adler_b(s)
        &&& self.window_size == s.len()
    }

    pub open spec fn spec_digest(&self) -> int {
        digest_of(self.a as int, self.b as int)
    }

    pub fn new() -> (r: Self)
        ensures
            r.a == 1,
            r.b == 0,
            r.window_size == 0,
            r.is_init_of(Seq::empty()),
    {
        proof {
            reveal_with_fuel(byte_sum, 1);
            reveal_with_fuel(weighted_sum, 1);
        }
        RollingHash { a: 1, b: 0, window_size: 0 }
    }

    /// Sets the window to `data` and computes both sums over it.
    pub fn init(&mut self, data: &[u8])
        requires
            data@.len() <= u32::MAX,
        ensures
            final(self).is_init_of(data@),
            final(self).wf(),
    {
        let m: u64 = MOD_ADLER as u64;
        let mut a: u64 = 1;
        let mut b: u64 = 0;
        let mut i: usize = 0;
        while i < data.len()
            invariant
                i <= data@.len(),
                m == MOD_ADLER,
                a < ACC_LIMIT + 256,
                b < 2 * ACC_LIMIT + 256,
                a as int % (m as int) == (1 + byte_sum(data@.subrange(0, i as int))) % (m as int),
                b as int % (m as int) == (weighted_sum(data@.subrange(0, i as int)) + i) % (
                m as int),
            decreases data@.len() - i,
        {
            if a >= ACC_LIMIT || b >= ACC_LIMIT {
                proof {
                    lemma_mod_twice(a as int, m as int);
                    lemma_mod_twice(b as int, m as int);
                }
                a = a % m;
                b = b % m;
            }
            let byte = data[i];
            let ghost pre = data@.subrange(0, i as int);
            let ghost cur = data@.subrange(0, i as int + 1);
            proof {
                assert(cur.drop_last() =~= pre);
                lemma_add_mod_congruent(a as int, 1 + byte_sum(pre), byte as int, byte as int);
            }
            a = a + byte as u64;
            proof {
                lemma_add_mod_congruent(
                    b as int,
                    weighted_sum(pre) + i,
                    a as int,
                    1 + byte_sum(cur),
                );
            }
            b = b + a;
            i = i + 1;
        }
        proof {
            assert(data@.subrange(0, data@.len() as int) =~= data@);
            lemma_mod_bound(a as int, m as int);
            lemma_mod_bound(b as int, m as int);
        }
        self.window_size = data.len() as u32;
        self.a = (a % m) as u32;
        self.b = (b % m) as u32;
    }

    /// Slides the window by one byte: `old_byte` leaves at the front, `new_byte` enters at
    /// the back.
    pub fn rotate(&mut self, old_byte: u8, new_byte: u8)
        requires
            old(self).wf(),
        ensures
            final(self).wf(),
            final(self).window_size == old(self).window_size,
            final(self).a == rotated_a(old(self).a as int, old_byte, new_byte),
            final(self).b == rotated_b(
                old(self).b as int,
                old(self).window_size as int,
                old_byte,
                final(self).a as int,
            ),
    {
        let old_v = old_byte as u32;
        let new_v = new_byte as u32;
        self.a = (self.a + MOD_ADLER - old_v + new_v) % MOD_ADLER;
        let old_w = old_v as u64;
        let size_w = self.window_size as u64;
        assert(old_w * size_w <= 255 * 0xFFFF_FFFF) by (nonlinear_arith)
            requires
                old_w <= 255,
                size_w <= 0xFFFF_FFFF,
        ;
        let scaled = ((old_w * size_w) % (MOD_ADLER as u64)) as u32;
        self.b = (self.b + MOD_ADLER - 1 + self.a - scaled) % MOD_ADLER;
    }

    /// `(b << 16) | a`.
    pub fn digest(&self) -> (r: u32)
        requires
            self.wf(),
        ensures
            r == self.spec_digest(),
    {
        let a = self.a;
        let b = self.b;
        assert((b << 16u32) | a == b * 65536 + a) by (bit_vector)
            requires
                a < 65536u32,
                b < 65536u32,
        ;
        (b << 16) | a
    }
}

/// `x ≡ y` and `u ≡ v` (mod M) give `x + u ≡ y + v`.
proof fn lemma_add_mod_congruent(x: int, y: int, u: int, v: int)
    requires
        x % (MOD_ADLER as int) == y % (MOD_ADLER as int),
        u % (MOD_ADLER as int) == v % (MOD_ADLER as int),
    ensures
        (x + u) % (MOD_ADLER as int) == (y + v) % (MOD_ADLER as int),
{
    let m = MOD_ADLER as int;
    lemma_add_mod_noop(x, u, m);
    lemma_add_mod_noop(y, v, m);
}

/// `x == M·k + y` gives `x ≡ y` (mod M).
proof fn lemma_mod_shift(x: int, y: int, k: int)
    requires
        x == (MOD_ADLER as int) * k + y,
    ensures
        x % (MOD_ADLER as int) == y % (MOD_ADLER as int),
{
    lemma_mod_multiples_vanish(k, y, MOD_ADLER as int);
}

proof fn lemma_byte_sum_front(s: Seq<u8>)
    requires
        s.len() > 0,
    ensures
        byte_sum(s) == s[0] + byte_sum(s.drop_first()),
    decreases s.len(),
{
    if s.len() > 1 {
        lemma_byte_sum_front(s.drop_last());
        assert(s.drop_last().drop_first() =~= s.drop_first().drop_last());
    } else {
        assert(s.drop_last() =~= Seq::<u8>::empty());
        assert(s.drop_first() =~= Seq::<u8>::empty());
    }
}

proof fn lemma_weighted_sum_front(s: Seq<u8>)
    requires
        s.len() > 0,
    ensures
        weighted_sum(s) == s.len() * s[0] + weighted_sum(s.drop_first()),
    decreases s.len(),
{
    lemma_byte_sum_front(s);
    if s.len() > 1 {
        lemma_weighted_sum_front(s.drop_last());
        assert(s.drop_last().drop_first() =~= s.drop_first().drop_last());
        assert(s.len() * s[0] == (s.len() - 1) * s[0] + s[0]) by (nonlinear_arith);
    } else {
        assert(s.drop_last() =~= Seq::<u8>::empty());
        assert(s.drop_first() =~= Seq::<u8>::empty());
    }
}

/// Sliding a window by one byte with `rotate` leaves the sums, and so the digest, that
/// `init` computes on the shifted window `block[1..] ∥ c`.
pub proof fn lemma_rotate_matches_init(block: Seq<u8>, c: u8)
    requires
        0 < block.len() <= u32::MAX,
    ensures
        rotated_a(adler_a(block), block[0], c) == adler_a(block.drop_first().push(c)),
        rotated_b(adler_b(block), block.len() as int, block[0], adler_a(block.drop_first().push(c)))
            == adler_b(block.drop_first().push(c)),
        digest_of(
            rotated_a(adler_a(block), block[0], c),
            rotated_b(adler_b(block), block.len() as int, block[0], rotated_a(adler_a(block), block[0], c)),
        ) == window_digest(block.drop_first().push(c)),
{
    let m = MOD_ADLER as int;
    let n = block.len() as int;
    let rest = block.drop_first();
    let next = rest.push(c);
    let s0 = block[0] as int;
    assert(next.drop_last() =~= rest);
    lemma_byte_sum_front(block);
    lemma_weighted_sum_front(block);
    let au = 1 + byte_sum(block);
    let au2 = 1 + byte_sum(next);
    let bu = weighted_sum(block) + n;
    let bu2 = weighted_sum(next) + n;
    assert(au2 == au - s0 + c);
    assert(bu2 == bu - n * s0 + au2 - 1);
    // the new a
    lemma_fundamental_div_mod(au, m);
    let a = au % m;
    assert(m * (1 - au / m) == m - m * (au / m)) by (nonlinear_arith);
    lemma_mod_shift(a + m - s0 + c, au2, 1 - au / m);
    let a2 = au2 % m;
    // the new b
    lemma_fundamental_div_mod(bu, m);
    lemma_fundamental_div_mod(au2, m);
    lemma_fundamental_div_mod(s0 * n, m);
    let b = bu % m;
    let k = 1 - bu / m - au2 / m + (s0 * n) / m;
    assert(m * k == m - m * (bu / m) - m * (au2 / m) + m * ((s0 * n) / m)) by (nonlinear_arith)
        requires
            k == 1 - bu / m - au2 / m + (s0 * n) / m,
    ;
    assert(n * s0 == s0 * n) by (nonlinear_arith);
    lemma_mod_shift(b + m - 1 + a2 - (s0 * n) % m, bu2, k);
    assert((block[0] * n) == s0 * n);
}

/// `init` is a function of the window alone: equal windows give equal digests.
pub proof fn lemma_init_deterministic(x: Seq<u8>, y: Seq<u8>, hx: RollingHash, hy: RollingHash)
    requires
        x == y,
        hx.is_init_of(x),
        hy.is_init_of(y),
    ensures
        hx.spec_digest() == hy.spec_digest(),
{
}

} // verus!
