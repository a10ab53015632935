//! The prime-field layer: the BLS12-377 scalar field as an opaque outside
//! type, a spec-level model of its canonical integer value, and trusted
//! wrappers for the handful of arithmetic operations the witness
//! generator needs.
use vstd::prelude::*;
use vstd::calc;
use ark_ff::{Field, PrimeField, Zero, One};

verus! {

/// A BLS12-377 scalar field element. It wraps the `ark_bls12_377`
/// implementation, whose type Verus cannot read (its generic bounds name
/// outside traits); the wrappers below are the only operations on it.
#[verifier::external_body]
pub struct Bls12_377Fr(pub ark_bls12_377::Fr);

impl Clone for Bls12_377Fr {
    /// Relies on `ark_ff::Fp` being `Copy`: the clone is the same value.
    #[verifier::external_body]
    fn clone(&self) -> (r: Self)
        ensures
            r == *self,
    {
        Bls12_377Fr(self.0)
    }
}

impl Copy for Bls12_377Fr {}

/// The canonical integer a field element holds, in `[0, fr_order())`.
pub uninterp spec fn fr_val(x: Bls12_377Fr) -> nat;

/// The order of the BLS12-377 scalar field (a prime); written as two
/// 128-bit big-endian halves, `0x12ab...b001` and `0x59aa...0001`.
pub open spec fn fr_order() -> nat {
    0x12ab655e9a2ca55660b44d1e5c37b001 * 0x10000000000000000 * 0x10000000000000000
        + 0x59aa76fed00000010a11800000000001
}

/// Field addition on canonical values.
pub open spec fn fadd(a: nat, b: nat) -> nat {
    (a + b) % fr_order()
}

/// Field multiplication on canonical values.
pub open spec fn fmul(a: nat, b: nat) -> nat {
    (a * b) % fr_order()
}

/// Field negation on canonical values.
pub open spec fn fneg(a: nat) -> nat {
    (((fr_order() - a % fr_order()) as nat) % fr_order()) as nat
}

/// Field subtraction on canonical values.
pub open spec fn fsub(a: nat, b: nat) -> nat {
    fadd(a, fneg(b))
}

/// Relies on `ark_ff::Zero::zero`: the additive identity, canonical value 0.
#[verifier::external_body]
pub(crate) fn fr_zero() -> (r: Bls12_377Fr)
    ensures
        fr_val(r) == 0,
{
    Bls12_377Fr(ark_bls12_377::Fr::zero())
}

/// Relies on `ark_ff::One::one`: the multiplicative identity, canonical value 1.
#[verifier::external_body]
pub(crate) fn fr_one() -> (r: Bls12_377Fr)
    ensures
        fr_val(r) == 1,
{
    Bls12_377Fr(ark_bls12_377::Fr::one())
}

/// Relies on `core::ops::Add` for `ark_ff::Fp`: addition modulo the field order.
#[verifier::external_body]
pub(crate) fn fr_add(a: Bls12_377Fr, b: Bls12_377Fr) -> (r: Bls12_377Fr)
    ensures
        fr_val(r) == fadd(fr_val(a), fr_val(b)),
{
    Bls12_377Fr(a.0 + b.0)
}

/// Relies on `core::ops::Sub` for `ark_ff::Fp`: subtraction modulo the field order.
#[verifier::external_body]
pub(crate) fn fr_sub(a: Bls12_377Fr, b: Bls12_377Fr) -> (r: Bls12_377Fr)
    ensures
        fr_val(r) == fsub(fr_val(a), fr_val(b)),
{
    Bls12_377Fr(a.0 - b.0)
}

/// Relies on `core::ops::Mul` for `ark_ff::Fp`: multiplication modulo the field order.
#[verifier::external_body]
pub(crate) fn fr_mul(a: Bls12_377Fr, b: Bls12_377Fr) -> (r: Bls12_377Fr)
    ensures
        fr_val(r) == fmul(fr_val(a), fr_val(b)),
{
    Bls12_377Fr(a.0 * b.0)
}

/// Relies on `ark_ff::Field::inverse`: for non-zero `a` it returns the
/// multiplicative inverse, so the product with `a` is one.
#[verifier::external_body]
pub(crate) fn fr_inverse(a: Bls12_377Fr) -> (r: Bls12_377Fr)
    requires
        fr_val(a) != 0,
    ensures
        fr_val(r) < fr_order(),
        fmul(fr_val(a), fr_val(r)) == 1,
{
    Bls12_377Fr(a.0.inverse().unwrap())
}

/// Relies on the derived `PartialEq` for `ark_ff::Fp`, which compares the
/// unique internal representations of canonical values.
#[verifier::external_body]
pub(crate) fn fr_eq(a: Bls12_377Fr, b: Bls12_377Fr) -> (r: bool)
    ensures
        r == (fr_val(a) == fr_val(b)),
{
    a.0 == b.0
}

/// Relies on `ark_ff::Zero::is_zero`: true exactly of the canonical value 0.
#[verifier::external_body]
pub(crate) fn fr_is_zero(a: Bls12_377Fr) -> (r: bool)
    ensures
        r == (fr_val(a) == 0),
{
    a.0.is_zero()
}

/// Relies on `ark_ff::One::is_one`: true exactly of the canonical value 1.
#[verifier::external_body]
pub(crate) fn fr_is_one(a: Bls12_377Fr) -> (r: bool)
    ensures
        r == (fr_val(a) == 1),
{
    a.0.is_one()
}

/// Relies on `From<u64>` for `ark_ff::Fp`: the canonical value of the
/// integer, reduced modulo the field order (a no-op below the order).
#[verifier::external_body]
pub(crate) fn fr_from_u64(n: u64) -> (r: Bls12_377Fr)
    ensures
        fr_val(r) == n as nat % fr_order(),
{
    Bls12_377Fr(ark_bls12_377::Fr::from(n))
}

/// The canonical values a column of field elements holds.
pub open spec fn fcol_val(c: Seq<Bls12_377Fr>) -> Seq<nat> {
    c.map_values(|x: Bls12_377Fr| fr_val(x))
}

/// The canonical values a list of columns holds.
pub open spec fn fmat_val(m: Seq<Vec<Bls12_377Fr>>) -> Seq<Seq<nat>> {
    m.map_values(|c: Vec<Bls12_377Fr>| fcol_val(c@))
}

/// The canonical values a list of sides holds.
pub open spec fn fcube_val(b: Seq<Vec<Vec<Bls12_377Fr>>>) -> Seq<Seq<Seq<nat>>> {
    b.map_values(|s: Vec<Vec<Bls12_377Fr>>| fmat_val(s@))
}

/// The multiplicative inverse of `x` on canonical values: the unique
/// `y < fr_order()` with `fmul(x, y) == 1`, when one exists.
pub open spec fn finv(x: nat) -> nat {
    choose|y: nat| y < fr_order() && fmul(x, y) == 1
}

/// Any witness to the inverse property is the inverse: the value
/// `fr_inverse` returns is therefore exactly `finv` of its argument.
pub proof fn lemma_finv_agrees(x: nat, y: nat)
    requires
        y < fr_order(),
        fmul(x, y) == 1,
    ensures
        finv(x) == y,
{
    let p = fr_order() as int;
    assert(finv(x) < fr_order() && fmul(x, finv(x)) == 1) by {
        assert(y < fr_order() && fmul(x, y) == 1);
    }
    let z = finv(x);
    // y == y * (x * z) == (y * x) * z == z, all modulo the order.
    assert forall|u: nat, v: nat| v < fr_order() && fmul(u, v) == 1 && fmul(u, y) == 1
        implies v == y by {
        let ui = u as int;
        let vi = v as int;
        let yi = y as int;
        calc! {
            (==)
            vi % p; {
                assert(fmul(u, y) == 1);
                vstd::arithmetic::div_mod::lemma_mul_mod_noop_left(ui * yi, vi, p);
            }
            ((ui * yi) % p * vi) % p; {
                vstd::arithmetic::div_mod::lemma_mul_mod_noop_left(ui * yi, vi, p);
            }
            ((ui * yi) * vi) % p; {
                vstd::arithmetic::mul::lemma_mul_is_associative(yi, ui, vi);
                vstd::arithmetic::mul::lemma_mul_is_commutative(ui, yi);
            }
            (yi * (ui * vi)) % p; {
                vstd::arithmetic::div_mod::lemma_mul_mod_noop_right(yi, ui * vi, p);
            }
            (yi * ((ui * vi) % p)) % p; {
                assert(fmul(u, v) == 1);
            }
            yi % p;
        }
        vstd::arithmetic::div_mod::lemma_small_mod(v, fr_order());
        vstd::arithmetic::div_mod::lemma_small_mod(y, fr_order());
    }
    assert(fmul(x, z) == 1 && fmul(x, y) == 1 && z < fr_order());
}

/// The integer a big-endian byte string denotes.
pub open spec fn be_val(s: Seq<u8>) -> nat
    decreases s.len(),
{
    if s.len() == 0 {
        0
    } else {
        be_val(s.drop_last()) * 256 + s.last() as nat
    }
}

/// The canonical field value a 32-byte big-endian cell decodes to.
pub open spec fn cell_val(c: [u8; 32]) -> nat {
    be_val(c@) % fr_order()
}

/// Relies on `ark_ff::PrimeField::from_be_bytes_mod_order`: the bytes are
/// read as a big-endian integer and reduced modulo the field order.
#[verifier::external_body]
pub(crate) fn fr_from_be_bytes(c: &[u8; 32]) -> (r: Bls12_377Fr)
    ensures
        fr_val(r) == cell_val(*c),
{
    Bls12_377Fr(ark_bls12_377::Fr::from_be_bytes_mod_order(c.as_slice()))
}

} // verus!

verus! {

/// A byte string of zeros denotes zero.
pub proof fn lemma_be_val_zero(s: Seq<u8>)
    requires
        forall|i: int| 0 <= i < s.len() ==> s[i] == 0,
    ensures
        be_val(s) == 0,
    decreases s.len(),
{
    if s.len() > 0 {
        lemma_be_val_zero(s.drop_last());
    }
}

} // verus!

verus! {

/// Sums and products of canonical values stay below the order.
pub proof fn lemma_f_bounds(a: nat, b: nat)
    ensures
        fadd(a, b) < fr_order(),
        fmul(a, b) < fr_order(),
        fsub(a, b) < fr_order(),
        fneg(a) < fr_order(),
{
}

/// Adding zero only reduces.
pub proof fn lemma_fadd_zero(a: nat)
    ensures
        fadd(a, 0) == a % fr_order(),
        fadd(0, a) == a % fr_order(),
{
}

/// Multiplying by one only reduces; by zero gives zero.
pub proof fn lemma_fmul_units(b: nat)
    ensures
        fmul(1, b) == b % fr_order(),
        fmul(b, 1) == b % fr_order(),
        fmul(0, b) == 0,
        fmul(b, 0) == 0,
{
    let p = fr_order() as int;
    vstd::arithmetic::mul::lemma_mul_basics(b as int);
    assert(0int * b as int == 0) by {
        vstd::arithmetic::mul::lemma_mul_basics(b as int);
    }
    vstd::arithmetic::div_mod::lemma_small_mod(0nat, fr_order());
}

/// Subtracting a value from itself gives zero.
pub proof fn lemma_fsub_self(x: nat)
    ensures
        fsub(x, x) == 0,
{
    let p = fr_order() as int;
    let r = x % fr_order();
    vstd::arithmetic::div_mod::lemma_mod_bound(x as int, p);
    if r == 0 {
        assert(fneg(x) == 0) by {
            vstd::arithmetic::div_mod::lemma_mod_self_0(p);
        }
        assert(fsub(x, x) == (x + 0) % fr_order());
    } else {
        vstd::arithmetic::div_mod::lemma_small_mod((fr_order() - r) as nat, fr_order());
        assert(fneg(x) == fr_order() - r);
        calc! {
            (==)
            ((x + (fr_order() - r)) as int) % p; {
                vstd::arithmetic::div_mod::lemma_add_mod_noop(x as int, p - r as int, p);
                vstd::arithmetic::div_mod::lemma_mod_twice(x as int, p);
                vstd::arithmetic::div_mod::lemma_small_mod((fr_order() - r) as nat, fr_order());
            }
            ((r + (p - r as int)) as int) % p; {
                vstd::arithmetic::div_mod::lemma_mod_self_0(p);
            }
            0int;
        }
    }
}

/// Subtracting zero only reduces.
pub proof fn lemma_fsub_zero(a: nat)
    ensures
        fsub(a, 0) == a % fr_order(),
{
    assert(fneg(0) == 0) by {
        vstd::arithmetic::div_mod::lemma_small_mod(0nat, fr_order());
        vstd::arithmetic::div_mod::lemma_mod_self_0(fr_order() as int);
    }
}

/// Taking away the first summand leaves the second.
pub proof fn lemma_fsub_cancel(a: nat, b: nat)
    ensures
        fsub(fadd(a, b), a) == b % fr_order(),
{
    let p = fr_order() as int;
    calc! {
        (==)
        fsub(fadd(a, b), a) as int; {}
        (((a + b) % fr_order() + fneg(a)) as int) % p; {
            vstd::arithmetic::div_mod::lemma_add_mod_noop_right(
                fneg(a) as int,
                a as int + b as int,
                p,
            );
        }
        ((a + b + fneg(a)) as int) % p; {
            vstd::arithmetic::div_mod::lemma_add_mod_noop_right(
                b as int,
                a as int + fneg(a) as int,
                p,
            );
            lemma_fadd_fneg(a);
        }
        ((b + 0) as int) % p; {}
        b as int % p;
    }
}

/// A value plus its negation vanishes modulo the order.
pub proof fn lemma_fadd_fneg(a: nat)
    ensures
        ((a + fneg(a)) as int) % (fr_order() as int) == 0,
{
    let p = fr_order() as int;
    let r = a % fr_order();
    vstd::arithmetic::div_mod::lemma_mod_bound(a as int, p);
    if r == 0 {
        assert(fneg(a) == 0) by {
            vstd::arithmetic::div_mod::lemma_mod_self_0(p);
        }
        assert(((a + 0) as int) % p == 0) by {
            vstd::arithmetic::div_mod::lemma_mod_twice(a as int, p);
        }
    } else {
        vstd::arithmetic::div_mod::lemma_small_mod((fr_order() - r) as nat, fr_order());
        assert(fneg(a) == fr_order() - r);
        calc! {
            (==)
            ((a + (fr_order() - r)) as int) % p; {
                vstd::arithmetic::div_mod::lemma_add_mod_noop(a as int, p - r as int, p);
                vstd::arithmetic::div_mod::lemma_mod_twice(a as int, p);
                vstd::arithmetic::div_mod::lemma_small_mod((fr_order() - r) as nat, fr_order());
            }
            ((r + (p - r as int)) as int) % p; {
                vstd::arithmetic::div_mod::lemma_mod_self_0(p);
            }
            0int;
        }
    }
}

/// Grouping a subtraction inside an addition.
pub proof fn lemma_fsub_fadd_assoc(a: nat, x: nat, t: nat)
    ensures
        fsub(fadd(a, x), t) == fadd(a, fsub(x, t)),
{
    let p = fr_order() as int;
    calc! {
        (==)
        fsub(fadd(a, x), t) as int; {
            vstd::arithmetic::div_mod::lemma_add_mod_noop_right(
                fneg(t) as int,
                a as int + x as int,
                p,
            );
        }
        ((a + x + fneg(t)) as int) % p; {
            vstd::arithmetic::div_mod::lemma_add_mod_noop_right(
                a as int,
                x as int + fneg(t) as int,
                p,
            );
        }
        ((a + (x + fneg(t)) % fr_order()) as int) % p; {}
        fadd(a, fsub(x, t)) as int;
    }
}

/// Modular multiplication is associative.
pub proof fn lemma_fmul_assoc(x: nat, y: nat, z: nat)
    ensures
        fmul(x, fmul(y, z)) == fmul(fmul(x, y), z),
{
    let p = fr_order() as int;
    calc! {
        (==)
        fmul(x, fmul(y, z)) as int; {
            vstd::arithmetic::div_mod::lemma_mul_mod_noop_right(x as int, y as int * z as int, p);
        }
        (x as int * (y as int * z as int)) % p; {
            vstd::arithmetic::mul::lemma_mul_is_associative(x as int, y as int, z as int);
        }
        ((x as int * y as int) * z as int) % p; {
            vstd::arithmetic::div_mod::lemma_mul_mod_noop_left(x as int * y as int, z as int, p);
        }
        fmul(fmul(x, y), z) as int;
    }
}

} // verus!

verus! {

/// Leading zero bytes do not change the denoted integer.
pub proof fn lemma_be_val_skip_zeros(s: Seq<u8>, k: int)
    requires
        0 <= k <= s.len(),
        forall|i: int| 0 <= i < k ==> s[i] == 0,
    ensures
        be_val(s) == be_val(s.skip(k)),
    decreases s.len(),
{
    if k == s.len() {
        lemma_be_val_zero(s);
        assert(s.skip(k) =~= Seq::<u8>::empty());
    } else {
        lemma_be_val_skip_zeros(s.drop_last(), k);
        assert(s.skip(k).drop_last() =~= s.drop_last().skip(k));
        assert(s.skip(k).last() == s.last());
    }
}

/// The integer eight big-endian bytes denote, written out.
pub proof fn lemma_be_val_unfold8(t: Seq<u8>)
    requires
        t.len() == 8,
    ensures
        be_val(t) == ((((((((t[0] * 256 + t[1]) * 256 + t[2]) * 256 + t[3]) * 256 + t[4]) * 256
            + t[5]) * 256 + t[6]) * 256 + t[7]) as nat),
{
    let t7 = t.drop_last();
    let t6 = t7.drop_last();
    let t5 = t6.drop_last();
    let t4 = t5.drop_last();
    let t3 = t4.drop_last();
    let t2 = t3.drop_last();
    let t1 = t2.drop_last();
    let t0 = t1.drop_last();
    assert(t0.len() == 0);
    assert(t1.last() == t[0] && t2.last() == t[1] && t3.last() == t[2] && t4.last() == t[3]
        && t5.last() == t[4] && t6.last() == t[5] && t7.last() == t[6] && t.last() == t[7]);
    assert(be_val(t0) == 0);
    assert(be_val(t1) == be_val(t0) * 256 + t[0]);
    assert(be_val(t2) == be_val(t1) * 256 + t[1]);
    assert(be_val(t3) == be_val(t2) * 256 + t[2]);
    assert(be_val(t4) == be_val(t3) * 256 + t[3]);
    assert(be_val(t5) == be_val(t4) * 256 + t[4]);
    assert(be_val(t6) == be_val(t5) * 256 + t[5]);
    assert(be_val(t7) == be_val(t6) * 256 + t[6]);
    assert(be_val(t) == be_val(t7) * 256 + t[7]);
}

} // verus!

verus! {

/// Subtraction on canonical values is subtraction modulo the order.
pub proof fn lemma_fsub_is_mod(x: nat, y: nat)
    ensures
        fsub(x, y) as int == (x as int - y as int) % (fr_order() as int),
{
    let p = fr_order() as int;
    let r = y % fr_order();
    vstd::arithmetic::div_mod::lemma_mod_bound(y as int, p);
    if r == 0 {
        assert(fneg(y) == 0) by {
            vstd::arithmetic::div_mod::lemma_mod_self_0(p);
        }
        calc! {
            (==)
            fsub(x, y) as int; {}
            (x as int + 0) % p; {
                vstd::arithmetic::div_mod::lemma_sub_mod_noop_right(x as int, y as int, p);
            }
            (x as int - y as int) % p;
        }
    } else {
        vstd::arithmetic::div_mod::lemma_small_mod((fr_order() - r) as nat, fr_order());
        assert(fneg(y) == fr_order() - r);
        calc! {
            (==)
            fsub(x, y) as int; {}
            (x as int + (p - r as int)) % p; {
                vstd::arithmetic::div_mod::lemma_mod_add_multiples_vanish(
                    x as int - r as int,
                    p,
                );
            }
            (x as int - r as int) % p; {
                vstd::arithmetic::div_mod::lemma_sub_mod_noop_right(x as int, y as int, p);
            }
            (x as int - y as int) % p;
        }
    }
}

/// Addition on canonical values regroups freely.
pub proof fn lemma_fadd_assoc(a: nat, b: nat, c: nat)
    ensures
        fadd(fadd(a, b), c) == fadd(a, fadd(b, c)),
{
    let p = fr_order() as int;
    calc! {
        (==)
        fadd(fadd(a, b), c) as int; {
            vstd::arithmetic::div_mod::lemma_add_mod_noop_right(
                c as int,
                a as int + b as int,
                p,
            );
        }
        (a as int + b as int + c as int) % p; {
            vstd::arithmetic::div_mod::lemma_add_mod_noop_right(
                a as int,
                b as int + c as int,
                p,
            );
        }
        fadd(a, fadd(b, c)) as int;
    }
}

} // verus!

verus! {

/// One more factor of `x` adds one more summand.
pub proof fn lemma_fmul_succ(c: nat, x: nat)
    ensures
        fmul((c + 1) as nat, x) == fadd(fmul(c, x), x),
{
    let p = fr_order() as int;
    calc! {
        (==)
        fadd(fmul(c, x), x) as int; {
            vstd::arithmetic::div_mod::lemma_add_mod_noop_right(
                x as int,
                c as int * x as int,
                p,
            );
        }
        (c as int * x as int + x as int) % p; {
            vstd::arithmetic::mul::lemma_mul_is_distributive_add_other_way(
                x as int,
                c as int,
                1,
            );
            vstd::arithmetic::mul::lemma_mul_basics(x as int);
        }
        ((c + 1) as int * x as int) % p;
    }
}

/// A summand moves freely across a subtraction.
pub proof fn lemma_fadd_fsub_swap(a: nat, c: nat, x: nat)
    ensures
        fadd(fsub(a, c), x) == fsub(fadd(a, x), c),
{
    let p = fr_order() as int;
    lemma_fsub_is_mod(a, c);
    lemma_fsub_is_mod(fadd(a, x), c);
    calc! {
        (==)
        fadd(fsub(a, c), x) as int; {
            vstd::arithmetic::div_mod::lemma_add_mod_noop(
                a as int - c as int,
                x as int,
                p,
            );
            vstd::arithmetic::div_mod::lemma_mod_twice(x as int, p);
            vstd::arithmetic::div_mod::lemma_add_mod_noop_right(
                (a as int - c as int) % p,
                x as int,
                p,
            );
        }
        (a as int - c as int + x as int) % p; {
            vstd::arithmetic::div_mod::lemma_sub_mod_noop(
                a as int + x as int,
                c as int,
                p,
            );
            vstd::arithmetic::div_mod::lemma_mod_twice(c as int, p);
            vstd::arithmetic::div_mod::lemma_sub_mod_noop_right(
                (a as int + x as int) % p,
                c as int,
                p,
            );
        }
        (fadd(a, x) as int - c as int) % p;
    }
}

/// Consuming a term out of the reservoir leaves the balance unchanged.
pub proof fn lemma_facct_step(a: nat, ah: nat, w1: nat, t: nat)
    ensures
        fsub(fsub(a, fsub(ah, fadd(w1, t))), t) == fsub(a, fsub(ah, w1)),
{
    let p = fr_order() as int;
    lemma_fsub_is_mod(ah, fadd(w1, t));
    lemma_fsub_is_mod(a, fsub(ah, fadd(w1, t)));
    lemma_fsub_is_mod(fsub(a, fsub(ah, fadd(w1, t))), t);
    lemma_fsub_is_mod(ah, w1);
    lemma_fsub_is_mod(a, fsub(ah, w1));
    calc! {
        (==)
        fsub(fsub(a, fsub(ah, fadd(w1, t))), t) as int; {
            vstd::arithmetic::div_mod::lemma_sub_mod_noop(
                a as int - (fsub(ah, fadd(w1, t)) as int),
                t as int,
                p,
            );
            vstd::arithmetic::div_mod::lemma_mod_twice(t as int, p);
            vstd::arithmetic::div_mod::lemma_sub_mod_noop_right(
                (a as int - (fsub(ah, fadd(w1, t)) as int)) % p,
                t as int,
                p,
            );
        }
        (a as int - (fsub(ah, fadd(w1, t)) as int) - t as int) % p; {
            vstd::arithmetic::div_mod::lemma_sub_mod_noop_right(
                a as int - t as int,
                ah as int - (fadd(w1, t) as int),
                p,
            );
            assert(fsub(ah, fadd(w1, t)) as int == (ah as int - (fadd(w1, t) as int)) % p);
        }
        (a as int - t as int - (ah as int - (fadd(w1, t) as int))) % p; {
            vstd::arithmetic::div_mod::lemma_add_mod_noop_right(
                a as int - t as int - ah as int,
                w1 as int + t as int,
                p,
            );
        }
        (a as int - t as int - ah as int + w1 as int + t as int) % p; {
            vstd::arithmetic::div_mod::lemma_sub_mod_noop_right(
                a as int,
                ah as int - w1 as int,
                p,
            );
        }
        (a as int - (fsub(ah, w1) as int)) % p;
    }
}

} // verus!
