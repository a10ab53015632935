//! Raw range tables: a lookup of one A column against the counter
//! column `0, 1, ..., bound - 1`, zero-padded past the bound.
use vstd::prelude::*;
use crate::TraceError;
use crate::field::{
    Bls12_377Fr, fr_val, fr_order, cell_val, be_val, lemma_be_val_skip_zeros,
    lemma_be_val_unfold8,
};
use crate::layout::AirLookupConfig;
use crate::lookup::RawLookupTrace;
use crate::columns::pad_col;
use crate::witness::{bcol_val, padv};

verus! {

/// A raw range assertion: every A value must lie in `[0, b)`.
#[derive(Clone, Debug)]
pub struct RawRangeTrace {
    pub a: Vec<[u8; 32]>,
    pub b: u64,
    pub name: String,
}

/// A 32-byte big-endian cell holding the integer `n`.
fn counter_cell(n: u64) -> (r: [u8; 32])
    ensures
        cell_val(r) == n as nat,
        be_val(r@) == n as nat,
{
    let mut c = [0u8; 32];
    let mut m = n;
    c[31] = (m % 256) as u8;
    m = m / 256;
    c[30] = (m % 256) as u8;
    m = m / 256;
    c[29] = (m % 256) as u8;
    m = m / 256;
    c[28] = (m % 256) as u8;
    m = m / 256;
    c[27] = (m % 256) as u8;
    m = m / 256;
    c[26] = (m % 256) as u8;
    m = m / 256;
    c[25] = (m % 256) as u8;
    m = m / 256;
    c[24] = (m % 256) as u8;
    m = m / 256;
    proof {
        assert(m == 0) by {
            vstd::arithmetic::div_mod::lemma_div_denominator(n as int, 256, 256);
            vstd::arithmetic::div_mod::lemma_div_denominator(n as int, 256int * 256, 256);
            vstd::arithmetic::div_mod::lemma_div_denominator(n as int, 256int * 256 * 256, 256);
            vstd::arithmetic::div_mod::lemma_div_denominator(
                n as int,
                256int * 256 * 256int * 256,
                256,
            );
            vstd::arithmetic::div_mod::lemma_div_denominator(
                n as int,
                256int * 256 * 256int * 256 * 256,
                256,
            );
            vstd::arithmetic::div_mod::lemma_div_denominator(
                n as int,
                256int * 256 * 256int * 256 * 256int * 256,
                256,
            );
            vstd::arithmetic::div_mod::lemma_div_denominator(
                n as int,
                256int * 256 * 256int * 256 * 256int * 256 * 256,
                256,
            );
            vstd::arithmetic::div_mod::lemma_basic_div_specific_divisor(256);
            vstd::arithmetic::div_mod::lemma_basic_div(
                n as int,
                0x10000000000000000,
            );
        }
        lemma_be_val_skip_zeros(c@, 24);
        let t = c@.skip(24);
        lemma_be_val_unfold8(t);
        let n7 = n as int / 0x100000000000000;
        let n6 = n as int / 0x1000000000000;
        let n5 = n as int / 0x10000000000;
        let n4 = n as int / 0x100000000;
        let n3 = n as int / 0x1000000;
        let n2 = n as int / 0x10000;
        let n1 = n as int / 0x100;
        assert(n1 == n as int / 256 && n2 == n1 / 256 && n3 == n2 / 256 && n4 == n3 / 256 && n5
            == n4 / 256 && n6 == n5 / 256 && n7 == n6 / 256) by {
            vstd::arithmetic::div_mod::lemma_div_denominator(n as int, 256, 256);
            vstd::arithmetic::div_mod::lemma_div_denominator(n as int, 256int * 256, 256);
            vstd::arithmetic::div_mod::lemma_div_denominator(n as int, 256int * 256 * 256, 256);
            vstd::arithmetic::div_mod::lemma_div_denominator(
                n as int,
                256int * 256 * 256int * 256,
                256,
            );
            vstd::arithmetic::div_mod::lemma_div_denominator(
                n as int,
                256int * 256 * 256int * 256 * 256,
                256,
            );
            vstd::arithmetic::div_mod::lemma_div_denominator(
                n as int,
                256int * 256 * 256int * 256 * 256int * 256,
                256,
            );
        }
        assert(n7 < 256) by {
            vstd::arithmetic::div_mod::lemma_div_is_ordered(
                n as int,
                0xffffffffffffffff,
                0x100000000000000,
            );
        }
        vstd::arithmetic::div_mod::lemma_small_mod(n7 as nat, 256);
        vstd::arithmetic::div_mod::lemma_fundamental_div_mod(n as int, 256);
        vstd::arithmetic::div_mod::lemma_fundamental_div_mod(n1, 256);
        vstd::arithmetic::div_mod::lemma_fundamental_div_mod(n2, 256);
        vstd::arithmetic::div_mod::lemma_fundamental_div_mod(n3, 256);
        vstd::arithmetic::div_mod::lemma_fundamental_div_mod(n4, 256);
        vstd::arithmetic::div_mod::lemma_fundamental_div_mod(n5, 256);
        vstd::arithmetic::div_mod::lemma_fundamental_div_mod(n6, 256);
        assert(be_val(t) == n as nat);
        assert((n as nat) < fr_order());
        vstd::arithmetic::div_mod::lemma_small_mod(n as nat, fr_order());
    }
    c
}

impl RawRangeTrace {
    /// The greater of the A column's length and the bound.
    pub fn get_max_height(&self) -> (r: usize)
        ensures
            r as int == if (self.a@.len() as int) > self.b as usize as int {
                self.a@.len() as int
            } else {
                self.b as usize as int
            },
    {
        let bs = #[verifier::truncate] (self.b as usize);
        if self.a.len() > bs {
            self.a.len()
        } else {
            bs
        }
    }

    /// Cuts or zero-pads the A column to `size`.
    pub fn resize(&mut self, size: usize)
        ensures
            final(self).a@.len() == size,
            bcol_val(final(self).a@) == padv(bcol_val(old(self).a@), size as int),
            final(self).b == old(self).b,
            final(self).name == old(self).name,
    {
        let a2 = pad_col(&self.a, size);
        self.a = a2;
    }

    /// The raw B column the range is looked up against: the counters
    /// `0, 1, ...` up to the bound, and zero cells past it, one cell
    /// per A row.
    pub fn get_raw_b_column(&self) -> (r: Vec<[u8; 32]>)
        ensures
            r@.len() == self.a@.len(),
            forall|i: int|
                0 <= i < r@.len() ==> cell_val(#[trigger] r@[i]) == if i < self.b {
                    i as nat
                } else {
                    0nat
                },
    {
        let mut b: Vec<[u8; 32]> = Vec::new();
        let mut counter: u64 = 0;
        let mut i: usize = 0;
        while i < self.a.len()
            invariant
                0 <= i <= self.a@.len(),
                b@.len() == i,
                counter == if (i as int) < self.b as int {
                    i as int
                } else {
                    self.b as int
                },
                forall|k: int|
                    0 <= k < i ==> cell_val(#[trigger] b@[k]) == if k < self.b {
                        k as nat
                    } else {
                        0nat
                    },
            decreases self.a@.len() - i,
        {
            if counter < self.b {
                b.push(counter_cell(counter));
                counter = counter + 1;
            } else {
                b.push(crate::columns::zero_cell());
            }
            i = i + 1;
        }
        b
    }

    /// The decoded content of the range assertion, seen as a lookup:
    /// one A column, one side holding the counter column, all rows
    /// enabled.
    pub open spec fn range_data(&self, alpha: nat, delta: nat) -> crate::witness::LookupData {
        crate::witness::LookupData {
            am: seq![bcol_val(self.a@)],
            bm: seq![seq![self.counter_vals()]],
            af: Seq::new(self.a@.len(), |i: int| 1nat),
            bf: seq![Seq::new(self.a@.len(), |i: int| 1nat)],
            alpha,
            delta,
        }
    }

    /// The counter column's values: `0, 1, ...` up to the bound, then
    /// zeros.
    pub open spec fn counter_vals(&self) -> Seq<nat> {
        Seq::new(
            self.a@.len(),
            |i: int|
                if i < self.b {
                    i as nat
                } else {
                    0nat
                },
        )
    }

    /// The range assertion as a one-column lookup against the counter
    /// column, at the height of the A column: every constraint of the
    /// lookup witness applies, with the range's decoded data.
    pub fn get_trace(&self, challenges: &Vec<Bls12_377Fr>) -> (r: Result<
        (AirLookupConfig, Vec<Vec<Bls12_377Fr>>),
        TraceError,
    >)
        requires
            challenges@.len() == 2,
        ensures
            ({
                let d = self.range_data(fr_val(challenges@[0]), fr_val(challenges@[1]));
                &&& (r matches Err(TraceError::InconsistentRaw) <==> self.a@.len() == 0)
                &&& (r matches Err(TraceError::InverseOfZero) <==> self.a@.len() > 0
                    && !d.zero_free())
                &&& (r matches Err(TraceError::InvariantViolated) <==> self.a@.len() > 0
                    && d.zero_free() && d.lsum(d.h() - 1) != 0)
                &&& (r matches Ok(p) ==> self.a@.len() > 0 && d.zero_free()
                    && crate::witness::lookup_out(d, crate::field::fmat_val(p.1@))
                    && p.0.is_canonical(0, 1, seq![1int]) && p.1@.len() == d.width())
                &&& (r is Ok <==> self.a@.len() > 0 && d.zero_free() && d.lsum(d.h() - 1) == 0)
            }),
    {
        let ghost av = fr_val(challenges@[0]);
        let ghost dv = fr_val(challenges@[1]);
        let ghost d = self.range_data(av, dv);
        let bcol = self.get_raw_b_column();
        let mut a: Vec<Vec<[u8; 32]>> = Vec::new();
        let mut acopy: Vec<[u8; 32]> = Vec::new();
        let mut i: usize = 0;
        while i < self.a.len()
            invariant
                0 <= i <= self.a@.len(),
                acopy@.len() == i,
                forall|k: int| 0 <= k < i ==> #[trigger] acopy@[k] == self.a@[k],
            decreases self.a@.len() - i,
        {
            acopy.push(self.a[i]);
            i = i + 1;
        }
        proof {
            assert(acopy@ =~= self.a@);
        }
        a.push(acopy);
        let mut side: Vec<Vec<[u8; 32]>> = Vec::new();
        side.push(bcol);
        let mut b: Vec<Vec<Vec<[u8; 32]>>> = Vec::new();
        b.push(side);
        let ones_a = ones_col(self.a.len());
        let ones_b = ones_col(self.a.len());
        let mut b_filter: Vec<Vec<[u8; 32]>> = Vec::new();
        b_filter.push(ones_b);
        let lookup = RawLookupTrace { a, b, name: self.name.clone(), a_filter: ones_a, b_filter };
        proof {
            let ld = lookup.data(av, dv);
            assert(ld.am =~~= d.am);
            assert(ld.bm =~~= d.bm);
            assert(ld.af =~= d.af);
            assert(ld.bf =~~= d.bf);
            assert(ld == d);
            assert(lookup.raw_wf() <==> self.a@.len() > 0);
            assert(d.ka() == 1 && d.sw() =~= seq![1int]);
        }
        lookup.get_trace(challenges)
    }
}

/// A column of one-valued cells.
fn ones_col(n: usize) -> (r: Vec<[u8; 32]>)
    ensures
        r@.len() == n,
        forall|k: int| 0 <= k < n ==> cell_val(#[trigger] r@[k]) == 1,
{
    let mut r: Vec<[u8; 32]> = Vec::new();
    while r.len() < n
        invariant
            r@.len() <= n,
            forall|k: int| 0 <= k < r@.len() ==> cell_val(#[trigger] r@[k]) == 1,
        decreases n - r@.len(),
    {
        r.push(crate::columns::one_cell());
    }
    r
}

} // verus!
