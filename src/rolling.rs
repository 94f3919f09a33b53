//! The Adler-32 rolling checksum used as the weak fingerprint of a window.
use vstd::arithmetic::div_mod::{
    lemma_add_mod_noop,
    lemma_mod_add_multiples_vanish,
    lemma_mul_mod_noop_right,
    lemma_sub_mod_noop_right,
};
use vstd::prelude::*;

verus! {

/// The Adler-32 modulus.
pub const MOD: u32 = 65521;

/// The longest run of bytes that can be absorbed into reduced sums without
/// overflowing 32 bits before the next reduction.
pub const NMAX: usize = 5552;

/// Sum of the bytes of `s`.
pub open spec fn byte_sum(s: Seq<u8>) -> nat
    decreases s.len(),
{
    if s.len() == 0 {
        0
    } else {
        byte_sum(s.drop_last()) + s.last() as nat
    }
}

/// The unreduced second sum after absorbing `s` into the sums `(a, b)`:
/// `b` grows by the running first sum after every byte.
pub open spec fn b_run(a: nat, b: nat, s: Seq<u8>) -> nat
    decreases s.len(),
{
    if s.len() == 0 {
        b
    } else {
        b_run(a, b, s.drop_last()) + a + byte_sum(s)
    }
}

/// The reduced sums after absorbing `s` into the sums `st`.
pub open spec fn absorb(st: (nat, nat), s: Seq<u8>) -> (nat, nat) {
    (((st.0 + byte_sum(s)) % (MOD as nat)) as nat, (b_run(st.0, st.1, s) % (MOD as nat)) as nat)
}

/// The reduced sums of the Adler-32 checksum of `w`.
pub open spec fn state_of(w: Seq<u8>) -> (nat, nat) {
    absorb((1, 0), w)
}

/// The sums `(a, b)` combined into one word as `(b << 16) | a`.
pub open spec fn combine(st: (nat, nat)) -> u32 {
    (st.1 * 65536 + st.0) as u32
}

/// The Adler-32 checksum of `w`.
pub open spec fn adler32(w: Seq<u8>) -> u32 {
    combine(state_of(w))
}

/// The reduced sums after sliding a window of `n` bytes by one: `old`
/// leaves at the front and `new` enters at the back.
pub open spec fn roll_state(st: (nat, nat), old: u8, new: u8, n: nat) -> (nat, nat) {
    let a = (st.0 - old + new) % (MOD as int);
    let b = (st.1 - n * old + a - 1) % (MOD as int);
    (a as nat, b as nat)
}

proof fn lemma_byte_sum_concat(s: Seq<u8>, t: Seq<u8>)
    ensures
        byte_sum(s + t) == byte_sum(s) + byte_sum(t),
    decreases t.len(),
{
    if t.len() == 0 {
        assert(s + t =~= s);
    } else {
        assert((s + t).drop_last() =~= s + t.drop_last());
        lemma_byte_sum_concat(s, t.drop_last());
    }
}

proof fn lemma_byte_sum_front(x: u8, v: Seq<u8>)
    ensures
        byte_sum(seq![x] + v) == x + byte_sum(v),
{
    lemma_byte_sum_concat(seq![x], v);
    reveal_with_fuel(byte_sum, 2);
    assert(seq![x].drop_last() =~= Seq::<u8>::empty());
}

proof fn lemma_b_run_concat(a: nat, b: nat, s: Seq<u8>, t: Seq<u8>)
    ensures
        b_run(a, b, s + t) == b_run(a + byte_sum(s), b_run(a, b, s), t),
    decreases t.len(),
{
    if t.len() == 0 {
        assert(s + t =~= s);
    } else {
        assert((s + t).drop_last() =~= s + t.drop_last());
        lemma_b_run_concat(a, b, s, t.drop_last());
        lemma_byte_sum_concat(s, t);
    }
}

/// `b_run` is linear in the starting sums.
proof fn lemma_b_run_linear(a: nat, b: nat, s: Seq<u8>)
    ensures
        b_run(a, b, s) == b + s.len() * a + b_run(0, 0, s),
    decreases s.len(),
{
    if s.len() > 0 {
        lemma_b_run_linear(a, b, s.drop_last());
        assert(s.len() * a == (s.len() - 1) * a + a) by (nonlinear_arith);
    }
}

proof fn lemma_mod_congruent_add(x: int, y: int, z: int, m: int)
    requires
        m > 0,
        x % m == y % m,
    ensures
        (x + z) % m == (y + z) % m,
{
    lemma_add_mod_noop(x, z, m);
    lemma_add_mod_noop(y, z, m);
}

proof fn lemma_mod_affine(b: int, a: int, n: int, c: int, m: int)
    requires
        m > 0,
    ensures
        (b + n * a + c) % m == (b % m + n * (a % m) + c) % m,
{
    lemma_mul_mod_noop_right(n, a, m);
    vstd::arithmetic::div_mod::lemma_add_mod_noop_right(b + c, n * a, m);
    vstd::arithmetic::div_mod::lemma_add_mod_noop_right(b + c, n * (a % m), m);
    assert((b + c + n * a) % m == (b + c + n * (a % m)) % m);
    vstd::arithmetic::div_mod::lemma_mod_twice(b, m);
    lemma_mod_congruent_add(b % m, b, c + n * (a % m), m);
    assert(b + n * a + c == b + c + n * a);
    assert(b % m + n * (a % m) + c == b % m + (c + n * (a % m)));
}

proof fn lemma_absorb_reduce(a: nat, b: nat, s: Seq<u8>)
    ensures
        absorb((a, b), s) == absorb(((a % (MOD as nat)) as nat, (b % (MOD as nat)) as nat), s),
{
    let m = MOD as int;
    let ra = (a % (MOD as nat)) as nat;
    let rb = (b % (MOD as nat)) as nat;
    vstd::arithmetic::div_mod::lemma_mod_twice(a as int, m);
    lemma_mod_congruent_add(ra as int, a as int, byte_sum(s) as int, m);
    lemma_b_run_linear(a, b, s);
    lemma_b_run_linear(ra, rb, s);
    lemma_mod_affine(b as int, a as int, s.len() as int, b_run(0, 0, s) as int, m);
}

/// Absorbing `s` and then `t` gives the same sums as absorbing `s + t`.
pub proof fn lemma_absorb_concat(st: (nat, nat), s: Seq<u8>, t: Seq<u8>)
    ensures
        absorb(absorb(st, s), t) == absorb(st, s + t),
{
    lemma_byte_sum_concat(s, t);
    lemma_b_run_concat(st.0, st.1, s, t);
    lemma_absorb_reduce((st.0 + byte_sum(s)) as nat, b_run(st.0, st.1, s), t);
}

/// Feeding a window in two parts gives the checksum of the whole window.
pub proof fn lemma_update_extends(w: Seq<u8>, data: Seq<u8>)
    ensures
        absorb(state_of(w), data) == state_of(w + data),
{
    lemma_absorb_concat((1, 0), w, data);
}

proof fn lemma_b_run_front(x: u8, v: Seq<u8>)
    ensures
        b_run(1, 0, seq![x] + v) == b_run(1, 0, v) + (v.len() + 1) * x + 1,
    decreases v.len(),
{
    let s = seq![x] + v;
    if v.len() == 0 {
        assert(s =~= seq![x]);
        reveal_with_fuel(b_run, 2);
        reveal_with_fuel(byte_sum, 2);
        assert(seq![x].drop_last() =~= Seq::<u8>::empty());
    } else {
        assert(s.drop_last() =~= seq![x] + v.drop_last());
        lemma_b_run_front(x, v.drop_last());
        lemma_byte_sum_front(x, v);
        let n = v.len() as int;
        assert((n + 1) * x == n * x + x) by (nonlinear_arith);
    }
}

/// Sliding the window by one byte with `roll_state` gives the sums of the
/// slid window.
pub proof fn lemma_roll_window(w: Seq<u8>, new: u8)
    requires
        w.len() > 0,
    ensures
        roll_state(state_of(w), w[0], new, w.len()) == state_of(w.drop_first().push(new)),
{
    let m = MOD as int;
    let x = w[0];
    let v = w.drop_first();
    let n = w.len() as int;
    assert(w =~= seq![x] + v);
    lemma_byte_sum_front(x, v);
    lemma_b_run_front(x, v);
    let w2 = v.push(new);
    assert(w2.drop_last() =~= v);
    lemma_byte_sum_concat(v, seq![new]);
    assert(v + seq![new] =~= w2);
    reveal_with_fuel(byte_sum, 2);
    assert(seq![new].drop_last() =~= Seq::<u8>::empty());
    let sa = 1 + byte_sum(w) as int;
    let sa2 = 1 + byte_sum(w2) as int;
    assert(sa2 == sa - x + new);
    let a = sa % m;
    let a2 = (a - x + new) % m;
    vstd::arithmetic::div_mod::lemma_mod_twice(sa, m);
    lemma_mod_congruent_add(a, sa, -x + new, m);
    assert(a2 == sa2 % m);
    let bw = b_run(1, 0, w) as int;
    let bw2 = b_run(1, 0, w2) as int;
    let nx = n * x;
    assert(bw2 == bw - nx + sa2 - 1);
    let b = bw % m;
    vstd::arithmetic::div_mod::lemma_mod_twice(bw, m);
    lemma_mod_congruent_add(b, bw, a2 - nx - 1, m);
    vstd::arithmetic::div_mod::lemma_mod_twice(sa2, m);
    lemma_mod_congruent_add(a2, sa2, bw - nx - 1, m);
    assert(roll_state(state_of(w), x, new, w.len()).1 == (b - nx + a2 - 1) % m);
}

/// Absorbs `data` into the unreduced sums `a` and `b` with no reduction in
/// between; `data` is short enough that neither sum overflows.
fn process_chunk(a: &mut u32, b: &mut u32, data: &[u8])
    requires
        *old(a) < MOD,
        *old(b) < MOD,
        data@.len() <= NMAX,
    ensures
        *final(a) as nat == *old(a) + byte_sum(data@),
        *final(b) as nat == b_run(*old(a) as nat, *old(b) as nat, data@),
{
    let ghost a0 = *a as nat;
    let ghost b0 = *b as nat;
    let mut i: usize = 0;
    while i < data.len()
        invariant
            i <= data@.len() <= NMAX,
            a0 < MOD,
            b0 < MOD,
            *a as nat == a0 + byte_sum(data@.subrange(0, i as int)),
            *b as nat == b_run(a0, b0, data@.subrange(0, i as int)),
            *a <= 65520 + 255 * i,
            2 * (*b as int) <= 2 * 65520 + 2 * i * 65520 + 255 * i * (i + 1),
        decreases data@.len() - i,
    {
        let ghost ii = i as int;
        let ghost pre_b = *b as int;
        let x = data[i];
        assert(data@.subrange(0, ii + 1).drop_last() =~= data@.subrange(0, ii));
        assert(*a + x <= 65520 + 255 * (i + 1));
        *a = *a + x as u32;
        assert(2 * (pre_b + *a as int) <= 2 * 65520 + 2 * (ii + 1) * 65520 + 255 * (ii + 1) * (ii + 2))
            by (nonlinear_arith)
            requires
                2 * pre_b <= 2 * 65520 + 2 * ii * 65520 + 255 * ii * (ii + 1),
                *a as int <= 65520 + 255 * (ii + 1),
        ;
        assert(2 * 65520 + 2 * (ii + 1) * 65520 + 255 * (ii + 1) * (ii + 2) <= 2 * 4294967295)
            by (nonlinear_arith)
            requires
                0 <= ii < 5552,
        ;
        *b = *b + *a;
        i = i + 1;
    }
    assert(data@.subrange(0, i as int) =~= data@);
}

/// Adler-32 sums of a window, kept reduced modulo `MOD`.
#[derive(Clone, Copy, Debug, PartialEq, Eq)]
pub struct RollingChecksum {
    a: u32,
    b: u32,
}

impl View for RollingChecksum {
    type V = (nat, nat);

    closed spec fn view(&self) -> (nat, nat) {
        (self.a as nat, self.b as nat)
    }
}

impl RollingChecksum {
    #[verifier::type_invariant]
    spec fn inv(self) -> bool {
        self.a < MOD && self.b < MOD
    }

    /// Whether these are the sums of the window `w`.
    pub open spec fn represents(self, w: Seq<u8>) -> bool {
        self@ == state_of(w)
    }

    /// The sums of the empty window.
    pub fn new() -> (r: Self)
        ensures
            r@ == (1nat, 0nat),
            r.represents(Seq::empty()),
    {
        proof {
            reveal_with_fuel(b_run, 1);
            reveal_with_fuel(byte_sum, 1);
        }
        RollingChecksum { a: 1, b: 0 }
    }

    /// Forgets every byte absorbed so far.
    pub fn reset(&mut self)
        ensures
            final(self)@ == (1nat, 0nat),
            final(self).represents(Seq::empty()),
    {
        *self = RollingChecksum::new();
    }

    /// Absorbs `data` at the end of the window.
    pub fn update(&mut self, data: &[u8])
        ensures
            final(self)@ == absorb(old(self)@, data@),
    {
        proof {
            use_type_invariant(&*self);
            reveal_with_fuel(b_run, 1);
            reveal_with_fuel(byte_sum, 1);
        }
        let mut a = self.a;
        let mut b = self.b;
        let mut i: usize = 0;
        assert(data@.subrange(0, 0) =~= Seq::<u8>::empty());
        while i < data.len()
            invariant
                i <= data@.len(),
                a < MOD,
                b < MOD,
                (a as nat, b as nat) == absorb(old(self)@, data@.subrange(0, i as int)),
            decreases data@.len() - i,
        {
            let end: usize = if data.len() - i > NMAX { i + NMAX } else { data.len() };
            let chunk = &data[i..end];
            let ghost pa = a as nat;
            let ghost pb = b as nat;
            process_chunk(&mut a, &mut b, chunk);
            a = a % MOD;
            b = b % MOD;
            proof {
                assert(absorb((pa, pb), chunk@) == (a as nat, b as nat));
                lemma_absorb_concat(old(self)@, data@.subrange(0, i as int), chunk@);
                assert(data@.subrange(0, i as int) + chunk@ =~= data@.subrange(0, end as int));
            }
            i = end;
        }
        assert(data@.subrange(0, i as int) =~= data@);
        self.a = a;
        self.b = b;
    }

    /// Slides a window of `window_size` bytes by one: `old_byte` leaves at
    /// the front and `new_byte` enters at the back.
    pub fn roll(&mut self, old_byte: u8, new_byte: u8, window_size: usize)
        ensures
            final(self)@ == roll_state(old(self)@, old_byte, new_byte, window_size as nat),
    {
        proof {
            use_type_invariant(&*self);
        }
        let ghost m = MOD as int;
        let old = old_byte as u32;
        let new = new_byte as u32;
        let n = (window_size % (MOD as usize)) as u32;
        let a = (self.a + MOD - old + new) % MOD;
        proof {
            lemma_mod_add_multiples_vanish(self.a - old + new, m);
        }
        assert(n * old <= 65520 * 255) by (nonlinear_arith)
            requires
                n < 65521,
                old <= 255,
        ;
        let dropped = n * old % MOD;
        let b = (self.b + MOD + a - 1 - dropped) % MOD;
        proof {
            let x = self.b + a - 1 - dropped;
            lemma_mod_add_multiples_vanish(x, m);
            vstd::arithmetic::div_mod::lemma_mul_mod_noop_left(window_size as int, old as int, m);
            lemma_sub_mod_noop_right(self.b + a - 1, window_size * old, m);
            assert(self.b + a - 1 - window_size * old == self.b - window_size * old + a - 1);
        }
        self.a = a;
        self.b = b;
    }

    /// The Adler-32 checksum of `data`.
    pub fn compute(data: &[u8]) -> (r: u32)
        ensures
            r == adler32(data@),
    {
        let mut checksum = RollingChecksum::new();
        checksum.update(data);
        checksum.value()
    }

    /// The checksum, `(b << 16) | a`.
    pub fn value(&self) -> (r: u32)
        ensures
            r == combine(self@),
            r as nat == self@.1 * 65536 + self@.0,
            self@.0 < MOD,
            self@.1 < MOD,
    {
        proof {
            use_type_invariant(self);
        }
        let a = self.a;
        let b = self.b;
        let r = (b << 16) | a;
        assert(r == b * 65536 + a) by (bit_vector)
            requires
                a < 65521u32,
                b < 65521u32,
                r == (b << 16) | a,
        ;
        r
    }
}

} // verus!
