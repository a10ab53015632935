//! Raw permutation tables and the grand-product permutation witness.
use vstd::prelude::*;
use crate::TraceError;
use crate::field::{
    Bls12_377Fr, fr_val, fr_order, fadd, fmul, finv, fr_add, fr_mul, fr_one, fr_is_one,
    fcol_val, fmat_val,
};
use crate::witness::{PermData, bcol_val, bmat_val, padv, perm_out};
use crate::layout::{AirPermutationConfig, ids, idx_range};
use crate::columns::{decode_mat, fold_rows, inv_col, pad_col};

verus! {

/// A raw permutation assertion: the multiset of A rows must equal the
/// multiset of B rows. Cells are 32-byte big-endian integers, reduced
/// modulo the field order on decode.
#[derive(Clone, Debug)]
pub struct RawPermutationTrace {
    pub a: Vec<Vec<[u8; 32]>>,
    pub b: Vec<Vec<[u8; 32]>>,
    pub name: String,
}

impl RawPermutationTrace {
    /// The decoded mathematical content, under challenges
    /// `alpha, delta`.
    pub open spec fn data(&self, alpha: nat, delta: nat) -> PermData {
        PermData { am: bmat_val(self.a@), bm: bmat_val(self.b@), alpha, delta }
    }

    /// Shapes agree: as many B columns as A columns, all of one
    /// positive height.
    pub open spec fn raw_wf(&self) -> bool {
        let h = if self.a@.len() == 0 {
            0int
        } else {
            self.a@[0]@.len() as int
        };
        &&& self.a@.len() > 0
        &&& h > 0
        &&& self.b@.len() == self.a@.len()
        &&& forall|j: int| 0 <= j < self.a@.len() ==> (#[trigger] self.a@[j])@.len() == h
        &&& forall|j: int| 0 <= j < self.b@.len() ==> (#[trigger] self.b@[j])@.len() == h
    }

    /// The width of the permuted tables: the number of A columns.
    pub fn column_width(&self) -> (r: usize)
        ensures
            r == self.a@.len(),
    {
        self.a.len()
    }

    /// Whether the shapes agree, as `raw_wf` says.
    pub fn shape_ok(&self) -> (r: bool)
        ensures
            r == self.raw_wf(),
    {
        if self.a.len() == 0 {
            return false;
        }
        let h = self.a[0].len();
        if h == 0 || self.b.len() != self.a.len() {
            return false;
        }
        let mut j: usize = 0;
        while j < self.a.len()
            invariant
                0 <= j <= self.a@.len(),
                self.a@.len() > 0,
                h == self.a@[0]@.len(),
                forall|k: int| 0 <= k < j ==> (#[trigger] self.a@[k])@.len() == h,
            decreases self.a@.len() - j,
        {
            if self.a[j].len() != h {
                return false;
            }
            j = j + 1;
        }
        let mut j2: usize = 0;
        while j2 < self.b.len()
            invariant
                0 <= j2 <= self.b@.len(),
                self.a@.len() > 0,
                h == self.a@[0]@.len(),
                forall|k: int| 0 <= k < j2 ==> (#[trigger] self.b@[k])@.len() == h,
            decreases self.b@.len() - j2,
        {
            if self.b[j2].len() != h {
                return false;
            }
            j2 = j2 + 1;
        }
        true
    }

    /// Some column of the table has length `n`.
    pub open spec fn has_len(&self, n: int) -> bool {
        ||| exists|j: int| 0 <= j < self.a@.len() && (#[trigger] self.a@[j])@.len() == n
        ||| exists|j: int| 0 <= j < self.b@.len() && (#[trigger] self.b@[j])@.len() == n
    }

    /// The tallest column of the table.
    pub fn get_max_height(&self) -> (r: usize)
        ensures
            forall|j: int| 0 <= j < self.a@.len() ==> (#[trigger] self.a@[j])@.len() <= r,
            forall|j: int| 0 <= j < self.b@.len() ==> (#[trigger] self.b@[j])@.len() <= r,
            r == 0 || self.has_len(r as int),
    {
        let mut m: usize = 0;
        let mut j: usize = 0;
        while j < self.a.len()
            invariant
                0 <= j <= self.a@.len(),
                forall|k: int| 0 <= k < j ==> (#[trigger] self.a@[k])@.len() <= m,
                m == 0 || self.has_len(m as int),
            decreases self.a@.len() - j,
        {
            if self.a[j].len() > m {
                m = self.a[j].len();
            }
            j = j + 1;
        }
        let mut j2: usize = 0;
        while j2 < self.b.len()
            invariant
                0 <= j2 <= self.b@.len(),
                forall|k: int| 0 <= k < self.a@.len() ==> (#[trigger] self.a@[k])@.len() <= m,
                forall|k: int| 0 <= k < j2 ==> (#[trigger] self.b@[k])@.len() <= m,
                m == 0 || self.has_len(m as int),
            decreases self.b@.len() - j2,
        {
            if self.b[j2].len() > m {
                m = self.b[j2].len();
            }
            j2 = j2 + 1;
        }
        m
    }

    /// Pads every column with zero cells up to `size`, or cuts it down
    /// to it.
    pub fn resize(&mut self, size: usize)
        ensures
            final(self).a@.len() == old(self).a@.len(),
            forall|j: int|
                0 <= j < old(self).a@.len() ==> (#[trigger] final(self).a@[j])@.len() == size
                    && bcol_val(final(self).a@[j]@) == padv(
                    bcol_val(old(self).a@[j]@),
                    size as int,
                ),
            final(self).b@.len() == old(self).b@.len(),
            forall|j: int|
                0 <= j < old(self).b@.len() ==> (#[trigger] final(self).b@[j])@.len() == size
                    && bcol_val(final(self).b@[j]@) == padv(
                    bcol_val(old(self).b@[j]@),
                    size as int,
                ),
            final(self).name == old(self).name,
    {
        let mut a2: Vec<Vec<[u8; 32]>> = Vec::new();
        let mut j: usize = 0;
        while j < self.a.len()
            invariant
                0 <= j <= self.a@.len(),
                a2@.len() == j,
                forall|k: int|
                    0 <= k < j ==> (#[trigger] a2@[k])@.len() == size && bcol_val(a2@[k]@) == padv(
                        bcol_val(self.a@[k]@),
                        size as int,
                    ),
            decreases self.a@.len() - j,
        {
            a2.push(pad_col(&self.a[j], size));
            j = j + 1;
        }
        self.a = a2;
        let mut b2: Vec<Vec<[u8; 32]>> = Vec::new();
        let mut j2: usize = 0;
        while j2 < self.b.len()
            invariant
                0 <= j2 <= self.b@.len(),
                b2@.len() == j2,
                forall|k: int|
                    0 <= k < j2 ==> (#[trigger] b2@[k])@.len() == size && bcol_val(b2@[k]@)
                        == padv(bcol_val(self.b@[k]@), size as int),
            decreases self.b@.len() - j2,
        {
            b2.push(pad_col(&self.b[j2], size));
            j2 = j2 + 1;
        }
        self.b = b2;
    }

    /// The decoded A and B columns, as field elements.
    pub fn get_columns(&self) -> (r: (Vec<Vec<Bls12_377Fr>>, Vec<Vec<Bls12_377Fr>>))
        ensures
            fmat_val(r.0@) == bmat_val(self.a@),
            fmat_val(r.1@) == bmat_val(self.b@),
            r.0@.len() == self.a@.len(),
            forall|j: int| 0 <= j < self.a@.len() ==> (#[trigger] r.0@[j])@.len()
                == self.a@[j]@.len(),
            r.1@.len() == self.b@.len(),
            forall|j: int| 0 <= j < self.b@.len() ==> (#[trigger] r.1@[j])@.len()
                == self.b@[j]@.len(),
    {
        (decode_mat(&self.a), decode_mat(&self.b))
    }

    /// Generates the permutation witness under the two challenges
    /// `[alpha, delta]`: decodes the tables, computes the B inverse
    /// and running-product columns, and returns them in canonical
    /// order together with the local index descriptor. Fails with
    /// `InconsistentRaw` when shapes disagree, with `InverseOfZero`
    /// when a shifted B row folds to zero, and with
    /// `InvariantViolated` when the terminal product is not one.
    #[verifier::loop_isolation(false)]
    pub fn get_trace(&self, challenges: &Vec<Bls12_377Fr>) -> (r: Result<
        (AirPermutationConfig, Vec<Vec<Bls12_377Fr>>),
        TraceError,
    >)
        requires
            challenges@.len() == 2,
        ensures
            ({
                let d = self.data(fr_val(challenges@[0]), fr_val(challenges@[1]));
                &&& (r matches Err(TraceError::InconsistentRaw) <==> !self.raw_wf())
                &&& (r matches Err(TraceError::InverseOfZero) <==> self.raw_wf()
                    && !d.zero_free())
                &&& (r matches Err(TraceError::InvariantViolated) <==> self.raw_wf()
                    && d.zero_free() && d.pprod(d.h() - 1) != 1)
                &&& (r matches Ok(p) ==> self.raw_wf() && d.zero_free() && perm_out(
                    d,
                    fmat_val(p.1@),
                ) && p.0.is_canonical(0, d.w()) && p.1@.len() == 2 * d.w() + 2)
                &&& (r is Ok <==> self.raw_wf() && d.zero_free() && d.pprod(d.h() - 1) == 1)
            }),
    {
        let ghost av = fr_val(challenges@[0]);
        let ghost dv = fr_val(challenges@[1]);
        let ghost d = self.data(av, dv);
        if !self.shape_ok() {
            return Err(TraceError::InconsistentRaw);
        }
        let alpha = challenges[0];
        let delta = challenges[1];
        let (a0, b0) = self.get_columns();
        let w = a0.len();
        let h = self.a[0].len();
        proof {
            assert(d.am == fmat_val(a0@));
            assert(d.bm == fmat_val(b0@));
            assert(h == d.h());
            assert(w == d.w());
            assert forall|j: int| 0 <= j < a0@.len() implies (#[trigger] a0@[j])@.len() == h by {
                assert(self.a@[j]@.len() == self.a@[0]@.len());
            }
            assert forall|j: int| 0 <= j < b0@.len() implies (#[trigger] b0@[j])@.len() == h by {
                assert(self.b@[j]@.len() == self.a@[0]@.len());
            }
        }
        let a_rows = fold_rows(&a0, alpha, h);
        let b_rows = fold_rows(&b0, alpha, h);
        let b_inv = match inv_col(&b_rows, delta) {
            Some(v) => v,
            None => {
                proof {
                    let i = choose|i: int|
                        0 <= i < b_rows@.len() && #[trigger] fadd(fr_val(b_rows@[i]), dv) == 0;
                    assert(d.bch(i) == 0);
                }
                return Err(TraceError::InverseOfZero);
            },
        };
        proof {
            assert(d.zero_free()) by {
                assert forall|i: int| 0 <= i < d.h() implies #[trigger] d.bch(i) != 0 by {
                    assert(fadd(fr_val(b_rows@[i]), dv) != 0);
                }
            }
        }
        let mut prod = fr_one();
        let mut check: Vec<Bls12_377Fr> = Vec::new();
        let mut i: usize = 0;
        while i < h
            invariant
                0 <= i <= h,
                check@.len() == i,
                forall|k: int| 0 <= k < i ==> fr_val(#[trigger] check@[k]) == d.pprod(k),
                fr_val(prod) == d.pprod(i as int - 1),
            decreases h - i,
        {
            let factor = fr_mul(fr_add(a_rows[i], delta), b_inv[i]);
            proof {
                assert(fadd(fr_val(a_rows@[i as int]), dv) == d.ach(i as int));
                assert(fr_val(factor) == fmul(d.ach(i as int), finv(d.bch(i as int))));
            }
            prod = fr_mul(prod, factor);
            check.push(prod);
            i = i + 1;
        }
        let last = check[h - 1];
        if !fr_is_one(last) {
            return Err(TraceError::InvariantViolated);
        }
        let ghost a0v = a0@;
        let ghost b0v = b0@;
        let ghost b_inv_v = b_inv@;
        let ghost check_v = check@;
        let mut res: Vec<Vec<Bls12_377Fr>> = Vec::new();
        let mut a_take = a0;
        res.append(&mut a_take);
        let mut b_take = b0;
        res.append(&mut b_take);
        res.push(b_inv);
        res.push(check);
        let total = res.len();
        proof {
            assert(total as int == 2 * (w as int) + 2);
        }
        // the descriptor: local indices in canonical order
        let mut a_ids: Vec<usize> = Vec::new();
        let mut j: usize = 0;
        while j < w
            invariant
                0 <= j <= w,
                a_ids@.len() == j,
                forall|k: int| 0 <= k < j ==> #[trigger] a_ids@[k] == k,
            decreases w - j,
        {
            a_ids.push(j);
            j = j + 1;
        }
        let mut b_ids: Vec<usize> = Vec::new();
        let mut j2: usize = 0;
        while j2 < w
            invariant
                0 <= j2 <= w,
                b_ids@.len() == j2,
                forall|k: int| 0 <= k < j2 ==> #[trigger] b_ids@[k] == w + k,
            decreases w - j2,
        {
            b_ids.push(w + j2);
            j2 = j2 + 1;
        }
        let cfg = AirPermutationConfig {
            a_columns_ids: a_ids,
            b_columns_ids: b_ids,
            b_inverse_id: w + w,
            check_id: w + w + 1,
        };
        proof {
            assert(ids(cfg.a_columns_ids@) =~= idx_range(0, w as int));
            assert(ids(cfg.b_columns_ids@) =~= idx_range(w as int, w as int));
            let cols = fmat_val(res@);
            assert forall|j3: int| 0 <= j3 < w implies #[trigger] cols[j3] == d.am[j3] by {
                assert(res@[j3] == a0v[j3]);
                assert(cols[j3] == fcol_val(a0v[j3]@));
            }
            assert forall|j3: int| 0 <= j3 < w implies #[trigger] cols[w + j3] == d.bm[j3] by {
                assert(res@[w + j3] == b0v[j3]);
                assert(cols[w + j3] == fcol_val(b0v[j3]@));
            }
            assert(res@[2 * w] == b_inv);
            assert forall|i2: int| 0 <= i2 < d.h() implies #[trigger] cols[2 * (w as int)][i2]
                == finv(d.bch(i2)) && fmul(d.bch(i2), cols[2 * (w as int)][i2]) == 1 && cols[2 * (
            w as int)][i2] < fr_order() by {
                assert(cols[2 * (w as int)] == fcol_val(b_inv_v));
                assert(fadd(fr_val(b_rows@[i2]), dv) == d.bch(i2));
            }
            assert forall|i2: int| 0 <= i2 < d.h() implies #[trigger] cols[2 * (w as int)
                + 1][i2] == d.pprod(i2) by {
                assert(cols[2 * (w as int) + 1] == fcol_val(check_v));
            }
            assert(fr_val(check_v[h - 1]) == d.pprod(d.h() - 1));
            assert forall|c: int| 0 <= c < cols.len() implies (#[trigger] cols[c]).len()
                == d.h() by {
                assert(cols[c] == fcol_val(res@[c]@));
                if c < w {
                    assert(res@[c] == a0v[c]);
                } else if c < 2 * (w as int) {
                    assert(res@[c] == b0v[c - w]);
                } else if c == 2 * (w as int) {
                    assert(res@[c]@ == b_inv_v);
                } else {
                    assert(res@[c]@ == check_v);
                }
            }
            assert(perm_out(d, cols));
        }
        Ok((cfg, res))
    }
}

} // verus!

verus! {

impl RawPermutationTrace {
    /// Every column fits under height `n`.
    pub open spec fn fits(&self, n: int) -> bool {
        &&& forall|j: int| 0 <= j < self.a@.len() ==> (#[trigger] self.a@[j])@.len() <= n
        &&& forall|j: int| 0 <= j < self.b@.len() ==> (#[trigger] self.b@[j])@.len() <= n
    }
}

} // verus!
