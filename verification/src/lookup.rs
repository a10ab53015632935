//! Raw lookup tables and the log-derivative lookup witness.
use vstd::prelude::*;
use crate::TraceError;
use crate::field::{
    Bls12_377Fr, fr_val, fr_order, fadd, fmul, finv, fr_add, fr_mul, fr_sub, fr_zero,
    fr_from_u64, fr_is_zero, fcol_val, fmat_val, fcube_val,
};
use crate::witness::{
    LookupData, bcol_val, bmat_val, bcube_val, padv, pad1v, lemma_occ_full_bound,
};
use crate::layout::{AirLookupConfig, ids, idx_range, sw_sum, lemma_sw_sum_bounds, lemma_sw_sum_chain, lemma_sw_sum_chain2, lemma_sw_sum_nonneg, lemma_sw_pos};
use crate::columns::{
    decode_col, decode_mat, decode_cube, fold_rows, inv_col, pad_col, transpose_rows,
};
use crate::occmap::OccMap;

verus! {

/// A raw lookup assertion: every active A row must appear, with
/// matching multiplicity, in the union of the B sides. Cells are
/// 32-byte big-endian integers, reduced modulo the field order on
/// decode; filters are 0/1-valued columns enabling rows.
#[derive(Clone, Debug)]
pub struct RawLookupTrace {
    pub a: Vec<Vec<[u8; 32]>>,
    pub b: Vec<Vec<Vec<[u8; 32]>>>,
    pub name: String,
    pub a_filter: Vec<[u8; 32]>,
    pub b_filter: Vec<Vec<[u8; 32]>>,
}

impl RawLookupTrace {
    /// The decoded mathematical content, under challenges
    /// `alpha, delta`.
    pub open spec fn data(&self, alpha: nat, delta: nat) -> LookupData {
        LookupData {
            am: bmat_val(self.a@),
            bm: bcube_val(self.b@),
            af: bcol_val(self.a_filter@),
            bf: self.b_filter@.map_values(|c: Vec<[u8; 32]>| bcol_val(c@)),
            alpha,
            delta,
        }
    }

    /// Shapes agree: at least one A column, at least one row, every
    /// column and filter of the common height, one filter per side.
    pub open spec fn raw_wf(&self) -> bool {
        let h = self.a_filter@.len();
        &&& self.a@.len() > 0
        &&& h > 0
        &&& forall|j: int| 0 <= j < self.a@.len() ==> (#[trigger] self.a@[j])@.len() == h
        &&& self.b@.len() == self.b_filter@.len()
        &&& forall|s: int| 0 <= s < self.b_filter@.len() ==> (#[trigger] self.b_filter@[s])@.len()
            == h
        &&& forall|s: int, j: int|
            0 <= s < self.b@.len() && 0 <= j < self.b@[s]@.len() ==> (
            #[trigger] self.b@[s]@[j])@.len() == h
    }

    /// Number of A columns.
    pub fn a_width(&self) -> (r: usize)
        ensures
            r == self.a@.len(),
    {
        self.a.len()
    }

    /// Number of B sides.
    pub fn b_width(&self) -> (r: usize)
        ensures
            r == self.b@.len(),
    {
        self.b.len()
    }

    /// Whether the shapes agree, as `raw_wf` says.
    pub fn shape_ok(&self) -> (r: bool)
        ensures
            r == self.raw_wf(),
    {
        let h = self.a_filter.len();
        if self.a.len() == 0 || h == 0 {
            return false;
        }
        let mut j: usize = 0;
        while j < self.a.len()
            invariant
                0 <= j <= self.a@.len(),
                h == self.a_filter@.len(),
                forall|k: int| 0 <= k < j ==> (#[trigger] self.a@[k])@.len() == h,
            decreases self.a@.len() - j,
        {
            if self.a[j].len() != h {
                return false;
            }
            j = j + 1;
        }
        if self.b.len() != self.b_filter.len() {
            return false;
        }
        let mut s: usize = 0;
        while s < self.b.len()
            invariant
                0 <= s <= self.b@.len(),
                h == self.a_filter@.len(),
                self.b@.len() == self.b_filter@.len(),
                forall|k: int| 0 <= k < s ==> (#[trigger] self.b_filter@[k])@.len() == h,
                forall|k: int, j2: int|
                    0 <= k < s && 0 <= j2 < self.b@[k]@.len() ==> (
                    #[trigger] self.b@[k]@[j2])@.len() == h,
            decreases self.b@.len() - s,
        {
            if self.b_filter[s].len() != h {
                return false;
            }
            let mut j2: usize = 0;
            while j2 < self.b[s].len()
                invariant
                    0 <= s < self.b@.len(),
                    0 <= j2 <= self.b@[s as int]@.len(),
                    h == self.a_filter@.len(),
                    forall|k: int|
                        0 <= k < j2 ==> (#[trigger] self.b@[s as int]@[k])@.len() == h,
                decreases self.b@[s as int]@.len() - j2,
            {
                if self.b[s][j2].len() != h {
                    return false;
                }
                j2 = j2 + 1;
            }
            s = s + 1;
        }
        true
    }

    /// Some column or filter of the table has length `n`.
    pub open spec fn has_len(&self, n: int) -> bool {
        ||| exists|j: int| 0 <= j < self.a@.len() && (#[trigger] self.a@[j])@.len() == n
        ||| self.a_filter@.len() == n && n > 0
        ||| exists|s: int, j: int|
            0 <= s < self.b@.len() && 0 <= j < self.b@[s]@.len() && (
            #[trigger] self.b@[s]@[j])@.len() == n
        ||| exists|s: int| 0 <= s < self.b_filter@.len() && (#[trigger] self.b_filter@[s])@.len()
            == n && n > 0
    }

    /// The tallest column or filter of the table.
    pub fn get_max_height(&self) -> (r: usize)
        ensures
            forall|j: int| 0 <= j < self.a@.len() ==> (#[trigger] self.a@[j])@.len() <= r,
            self.a_filter@.len() <= r,
            forall|s: int, j: int|
                0 <= s < self.b@.len() && 0 <= j < self.b@[s]@.len() ==> (
                #[trigger] self.b@[s]@[j])@.len() <= r,
            forall|s: int|
                0 <= s < self.b_filter@.len() ==> (#[trigger] self.b_filter@[s])@.len() <= r,
            r == 0 || self.has_len(r as int),
    {
        let mut m: usize = 0;
        let mut j: usize = 0;
        while j < self.a.len()
            invariant
                0 <= j <= self.a@.len(),
                forall|k: int| 0 <= k < j ==> (#[trigger] self.a@[k])@.len() <= m,
                m == 0 || self.has_len(m as int),
            decreases self.a@.len() - j,
        {
            if self.a[j].len() > m {
                m = self.a[j].len();
            }
            j = j + 1;
        }
        if self.a_filter.len() > m {
            m = self.a_filter.len();
        }
        let mut s: usize = 0;
        while s < self.b.len()
            invariant
                0 <= s <= self.b@.len(),
                forall|k: int| 0 <= k < self.a@.len() ==> (#[trigger] self.a@[k])@.len() <= m,
                self.a_filter@.len() <= m,
                forall|k: int, j2: int|
                    0 <= k < s && 0 <= j2 < self.b@[k]@.len() ==> (
                    #[trigger] self.b@[k]@[j2])@.len() <= m,
                m == 0 || self.has_len(m as int),
            decreases self.b@.len() - s,
        {
            let mut j2: usize = 0;
            while j2 < self.b[s].len()
                invariant
                    0 <= s < self.b@.len(),
                    0 <= j2 <= self.b@[s as int]@.len(),
                    forall|k: int| 0 <= k < self.a@.len() ==> (#[trigger] self.a@[k])@.len() <= m,
                    self.a_filter@.len() <= m,
                    forall|k: int, t: int|
                        0 <= k < s && 0 <= t < self.b@[k]@.len() ==> (
                        #[trigger] self.b@[k]@[t])@.len() <= m,
                    forall|t: int|
                        0 <= t < j2 ==> (#[trigger] self.b@[s as int]@[t])@.len() <= m,
                    m == 0 || self.has_len(m as int),
                decreases self.b@[s as int]@.len() - j2,
            {
                if self.b[s][j2].len() > m {
                    m = self.b[s][j2].len();
                }
                j2 = j2 + 1;
            }
            s = s + 1;
        }
        let mut s2: usize = 0;
        while s2 < self.b_filter.len()
            invariant
                0 <= s2 <= self.b_filter@.len(),
                forall|k: int| 0 <= k < self.a@.len() ==> (#[trigger] self.a@[k])@.len() <= m,
                self.a_filter@.len() <= m,
                forall|k: int, t: int|
                    0 <= k < self.b@.len() && 0 <= t < self.b@[k]@.len() ==> (
                    #[trigger] self.b@[k]@[t])@.len() <= m,
                forall|k: int| 0 <= k < s2 ==> (#[trigger] self.b_filter@[k])@.len() <= m,
                m == 0 || self.has_len(m as int),
            decreases self.b_filter@.len() - s2,
        {
            if self.b_filter[s2].len() > m {
                m = self.b_filter[s2].len();
            }
            s2 = s2 + 1;
        }
        m
    }

    /// Pads every column and filter with zero cells up to `size`, or
    /// cuts them down to it. A zero filter cell disables the padded
    /// row, so padding never disturbs the argument.
    pub fn resize(&mut self, size: usize)
        ensures
            final(self).a@.len() == old(self).a@.len(),
            forall|j: int|
                0 <= j < old(self).a@.len() ==> (#[trigger] final(self).a@[j])@.len() == size
                    && bcol_val(final(self).a@[j]@) == padv(
                    bcol_val(old(self).a@[j]@),
                    size as int,
                ),
            final(self).a_filter@.len() == size,
            bcol_val(final(self).a_filter@) == padv(bcol_val(old(self).a_filter@), size as int),
            final(self).b@.len() == old(self).b@.len(),
            forall|s: int|
                0 <= s < old(self).b@.len() ==> (#[trigger] final(self).b@[s])@.len()
                    == old(self).b@[s]@.len(),
            forall|s: int, j: int|
                0 <= s < old(self).b@.len() && 0 <= j < old(self).b@[s]@.len() ==> (
                #[trigger] final(self).b@[s]@[j])@.len() == size && bcol_val(
                    final(self).b@[s]@[j]@,
                ) == padv(bcol_val(old(self).b@[s]@[j]@), size as int),
            final(self).b_filter@.len() == old(self).b_filter@.len(),
            forall|s: int|
                0 <= s < old(self).b_filter@.len() ==> (#[trigger] final(self).b_filter@[s])@.len()
                    == size && bcol_val(final(self).b_filter@[s]@) == padv(
                    bcol_val(old(self).b_filter@[s]@),
                    size as int,
                ),
            final(self).name == old(self).name,
    {
        let mut a2: Vec<Vec<[u8; 32]>> = Vec::new();
        let mut j: usize = 0;
        while j < self.a.len()
            invariant
                0 <= j <= self.a@.len(),
                a2@.len() == j,
                forall|k: int|
                    0 <= k < j ==> (#[trigger] a2@[k])@.len() == size && bcol_val(a2@[k]@) == padv(
                        bcol_val(self.a@[k]@),
                        size as int,
                    ),
            decreases self.a@.len() - j,
        {
            a2.push(pad_col(&self.a[j], size));
            j = j + 1;
        }
        self.a = a2;
        let af2 = pad_col(&self.a_filter, size);
        self.a_filter = af2;
        let mut b2: Vec<Vec<Vec<[u8; 32]>>> = Vec::new();
        let mut s: usize = 0;
        while s < self.b.len()
            invariant
                0 <= s <= self.b@.len(),
                b2@.len() == s,
                forall|k: int| 0 <= k < s ==> (#[trigger] b2@[k])@.len() == self.b@[k]@.len(),
                forall|k: int, j2: int|
                    0 <= k < s && 0 <= j2 < self.b@[k]@.len() ==> (
                    #[trigger] b2@[k]@[j2])@.len() == size && bcol_val(b2@[k]@[j2]@) == padv(
                        bcol_val(self.b@[k]@[j2]@),
                        size as int,
                    ),
            decreases self.b@.len() - s,
        {
            let mut side2: Vec<Vec<[u8; 32]>> = Vec::new();
            let mut j2: usize = 0;
            while j2 < self.b[s].len()
                invariant
                    0 <= s < self.b@.len(),
                    0 <= j2 <= self.b@[s as int]@.len(),
                    side2@.len() == j2,
                    forall|k: int|
                        0 <= k < j2 ==> (#[trigger] side2@[k])@.len() == size && bcol_val(
                            side2@[k]@,
                        ) == padv(bcol_val(self.b@[s as int]@[k]@), size as int),
                decreases self.b@[s as int]@.len() - j2,
            {
                side2.push(pad_col(&self.b[s][j2], size));
                j2 = j2 + 1;
            }
            b2.push(side2);
            s = s + 1;
        }
        self.b = b2;
        let mut f2: Vec<Vec<[u8; 32]>> = Vec::new();
        let mut s2: usize = 0;
        while s2 < self.b_filter.len()
            invariant
                0 <= s2 <= self.b_filter@.len(),
                f2@.len() == s2,
                forall|k: int|
                    0 <= k < s2 ==> (#[trigger] f2@[k])@.len() == size && bcol_val(f2@[k]@)
                        == padv(bcol_val(self.b_filter@[k]@), size as int),
            decreases self.b_filter@.len() - s2,
        {
            f2.push(pad_col(&self.b_filter[s2], size));
            s2 = s2 + 1;
        }
        self.b_filter = f2;
    }

    /// The decoded columns: A, the B sides, the A filter and the B
    /// filters, as field elements.
    pub fn get_columns(&self) -> (r: (
        Vec<Vec<Bls12_377Fr>>,
        Vec<Vec<Vec<Bls12_377Fr>>>,
        Vec<Bls12_377Fr>,
        Vec<Vec<Bls12_377Fr>>,
    ))
        ensures
            fmat_val(r.0@) == bmat_val(self.a@),
            fcube_val(r.1@) == bcube_val(self.b@),
            fcol_val(r.2@) == bcol_val(self.a_filter@),
            fmat_val(r.3@) == self.b_filter@.map_values(|c: Vec<[u8; 32]>| bcol_val(c@)),
            r.0@.len() == self.a@.len(),
            forall|j: int| 0 <= j < self.a@.len() ==> (#[trigger] r.0@[j])@.len()
                == self.a@[j]@.len(),
            r.1@.len() == self.b@.len(),
            forall|s: int| 0 <= s < self.b@.len() ==> (#[trigger] r.1@[s])@.len()
                == self.b@[s]@.len(),
            forall|s: int, j: int|
                0 <= s < self.b@.len() && 0 <= j < self.b@[s]@.len() ==> (
                #[trigger] r.1@[s]@[j])@.len() == self.b@[s]@[j]@.len(),
            r.2@.len() == self.a_filter@.len(),
            r.3@.len() == self.b_filter@.len(),
            forall|s: int|
                0 <= s < self.b_filter@.len() ==> (#[trigger] r.3@[s])@.len()
                    == self.b_filter@[s]@.len(),
    {
        let a = decode_mat(&self.a);
        let b = decode_cube(&self.b);
        let af = decode_col(&self.a_filter);
        let bf = decode_mat(&self.b_filter);
        proof {
            assert(bmat_val(self.b_filter@) =~= self.b_filter@.map_values(
                |c: Vec<[u8; 32]>| bcol_val(c@),
            ));
        }
        (a, b, af, bf)
    }
}

} // verus!

verus! {

/// Builds the canonical descriptor of a lookup with `ka` A columns and
/// side widths `sw`, starting at local index zero; `total` is the
/// argument's column count.
#[verifier::loop_isolation(false)]
fn build_lookup_cfg(ka: usize, sw: &Vec<usize>, total: usize) -> (cfg: AirLookupConfig)
    requires
        total as int == ka + sw_sum(ids(sw@), sw@.len() as int) + 3 * sw@.len() + 3,
    ensures
        cfg.is_canonical(0, ka as int, ids(sw@)),
{
    let sides = sw.len();
    let ghost swi = ids(sw@);
    proof {
        assert(forall|k: int| 0 <= k < swi.len() ==> #[trigger] swi[k] >= 0);
        lemma_sw_sum_bounds(swi, sides as int);
    }
    let mut a_ids: Vec<usize> = Vec::new();
    let mut j: usize = 0;
    while j < ka
        invariant
            0 <= j <= ka,
            a_ids@.len() == j,
            forall|k: int| 0 <= k < j ==> #[trigger] a_ids@[k] == k,
        decreases ka - j,
    {
        a_ids.push(j);
        j = j + 1;
    }
    let mut b_ids: Vec<Vec<usize>> = Vec::new();
    let mut off: usize = ka;
    let mut s: usize = 0;
    while s < sides
        invariant
            0 <= s <= sides,
            b_ids@.len() == s,
            off as int == ka + sw_sum(swi, s as int),
            forall|t: int|
                0 <= t < s ==> ids(#[trigger] b_ids@[t]@) == idx_range(
                    ka + sw_sum(swi, t),
                    swi[t],
                ),
        decreases sides - s,
    {
        proof {
            lemma_sw_sum_bounds(swi, s as int);
            lemma_sw_sum_chain(swi, s as int, sides as int);
        }
        let w_s = sw[s];
        let ghost start = off as int;
        let mut row: Vec<usize> = Vec::new();
        let mut j2: usize = 0;
        while j2 < w_s
            invariant
                0 <= j2 <= w_s,
                row@.len() == j2,
                off as int == start + j2,
                start + w_s == ka + sw_sum(swi, s as int + 1),
                forall|k: int| 0 <= k < j2 ==> #[trigger] row@[k] == start + k,
            decreases w_s - j2,
        {
            proof {
                lemma_sw_sum_chain(swi, s as int + 1, sides as int);
                lemma_sw_sum_bounds(swi, s as int + 1);
            }
            row.push(off);
            off = off + 1;
            j2 = j2 + 1;
        }
        proof {
            assert(ids(row@) =~= idx_range(ka + sw_sum(swi, s as int), swi[s as int]));
        }
        b_ids.push(row);
        s = s + 1;
    }
    let af_id = off;
    let mut bf_ids: Vec<usize> = Vec::new();
    let mut s2: usize = 0;
    while s2 < sides
        invariant
            0 <= s2 <= sides,
            bf_ids@.len() == s2,
            forall|k: int| 0 <= k < s2 ==> #[trigger] bf_ids@[k] == af_id + 1 + k,
        decreases sides - s2,
    {
        bf_ids.push(af_id + 1 + s2);
        s2 = s2 + 1;
    }
    let ai_id = af_id + 1 + sides;
    let mut bi_ids: Vec<usize> = Vec::new();
    let mut s3: usize = 0;
    while s3 < sides
        invariant
            0 <= s3 <= sides,
            bi_ids@.len() == s3,
            forall|k: int| 0 <= k < s3 ==> #[trigger] bi_ids@[k] == ai_id + 1 + k,
        decreases sides - s3,
    {
        bi_ids.push(ai_id + 1 + s3);
        s3 = s3 + 1;
    }
    let mut occ_ids: Vec<usize> = Vec::new();
    let mut s4: usize = 0;
    while s4 < sides
        invariant
            0 <= s4 <= sides,
            occ_ids@.len() == s4,
            forall|k: int| 0 <= k < s4 ==> #[trigger] occ_ids@[k] == ai_id + 1 + sides + k,
        decreases sides - s4,
    {
        occ_ids.push(ai_id + 1 + sides + s4);
        s4 = s4 + 1;
    }
    let check_id = ai_id + 1 + sides + sides;
    let cfg = AirLookupConfig {
        a_columns_ids: a_ids,
        b_columns_ids: b_ids,
        a_filter_id: af_id,
        b_filter_id: bf_ids,
        a_inverses_id: ai_id,
        b_inverses_id: bi_ids,
        occurrences_id: occ_ids,
        check_id,
    };
    proof {
        assert(ids(cfg.a_columns_ids@) =~= idx_range(0, ka as int));
        assert(ids(cfg.b_filter_id@) =~= idx_range(af_id as int + 1, sides as int));
        assert(ids(cfg.b_inverses_id@) =~= idx_range(
            af_id as int + 2 + sides as int,
            sides as int,
        ));
        assert(ids(cfg.occurrences_id@) =~= idx_range(
            af_id as int + 2 + 2 * (sides as int),
            sides as int,
        ));
    }
    cfg
}

} // verus!

verus! {

impl RawLookupTrace {
    /// Generates the lookup witness under the two challenges
    /// `[alpha, delta]`: decodes the table, computes the inverse,
    /// multiplicity and running-sum columns, and returns them in
    /// canonical order together with the local index descriptor.
    /// Fails with `InconsistentRaw` when shapes disagree, with
    /// `InverseOfZero` when a shifted row folds to zero, and with
    /// `InvariantViolated` when the terminal running sum is not zero.
    #[verifier::loop_isolation(false)]
    #[verifier::rlimit(60)]
    pub fn get_trace(&self, challenges: &Vec<Bls12_377Fr>) -> (r: Result<
        (AirLookupConfig, Vec<Vec<Bls12_377Fr>>),
        TraceError,
    >)
        requires
            challenges@.len() == 2,
        ensures
            ({
                let d = self.data(fr_val(challenges@[0]), fr_val(challenges@[1]));
                &&& (r matches Err(TraceError::InconsistentRaw) <==> !self.raw_wf())
                &&& (r matches Err(TraceError::InverseOfZero) <==> self.raw_wf()
                    && !d.zero_free())
                &&& (r matches Err(TraceError::InvariantViolated) <==> self.raw_wf()
                    && d.zero_free() && d.lsum(d.h() - 1) != 0)
                &&& (r matches Ok(p) ==> self.raw_wf() && d.zero_free()
                    && crate::witness::lookup_out(d, fmat_val(p.1@))
                    && p.0.is_canonical(0, d.ka(), d.sw()) && p.1@.len() == d.width())
                &&& (r is Ok <==> self.raw_wf() && d.zero_free() && d.lsum(d.h() - 1) == 0)
            }),
    {
        let ghost av = fr_val(challenges@[0]);
        let ghost dv = fr_val(challenges@[1]);
        let ghost d = self.data(av, dv);
        if !self.shape_ok() {
            return Err(TraceError::InconsistentRaw);
        }
        let alpha = challenges[0];
        let delta = challenges[1];
        let (a0, b0, af0, bf0) = self.get_columns();
        let h = af0.len();
        let ka = a0.len();
        let sides = b0.len();
        proof {
            assert(d.am == fmat_val(a0@));
            assert(d.bm == fcube_val(b0@));
            assert(d.af == fcol_val(af0@));
            assert(d.bf =~= fmat_val(bf0@));
            assert(h == d.h());
            assert(ka == d.ka());
            assert(sides == d.sides());
            assert forall|s: int| 0 <= s < sides implies #[trigger] d.sw()[s] == b0@[s]@.len() by {
                assert(d.bm[s] == fmat_val(b0@[s]@));
            }
        }
        proof {
            assert forall|j: int| 0 <= j < a0@.len() implies (#[trigger] a0@[j])@.len() == h by {
                assert(self.a@[j]@.len() == self.a_filter@.len());
            }
        }
        let a_rows = fold_rows(&a0, alpha, h);
        proof {
            assert forall|i: int| 0 <= i < h implies fr_val(#[trigger] a_rows@[i]) == d.arow(
                i,
            ) by {}
        }
        let a_inv = match inv_col(&a_rows, delta) {
            Some(v) => v,
            None => {
                proof {
                    let i = choose|i: int|
                        0 <= i < a_rows@.len() && #[trigger] fadd(fr_val(a_rows@[i]), dv) == 0;
                    assert(d.ach(i) == 0);
                }
                return Err(TraceError::InverseOfZero);
            },
        };
        let mut b_rows: Vec<Vec<Bls12_377Fr>> = Vec::new();
        let mut s: usize = 0;
        while s < sides
            invariant
                0 <= s <= sides,
                b_rows@.len() == s,
                forall|t: int| 0 <= t < s ==> (#[trigger] b_rows@[t])@.len() == h,
                forall|t: int, i: int|
                    0 <= t < s && 0 <= i < h ==> fr_val(#[trigger] b_rows@[t]@[i]) == d.brow(t, i),
            decreases sides - s,
        {
            proof {
                assert(d.bm[s as int] == fmat_val(b0@[s as int]@));
                assert forall|j: int| 0 <= j < b0@[s as int]@.len() implies (
                #[trigger] b0@[s as int]@[j])@.len() == h by {
                    assert(self.b@[s as int]@[j]@.len() == self.a_filter@.len());
                }
            }
            let br = fold_rows(&b0[s], alpha, h);
            b_rows.push(br);
            s = s + 1;
        }
        let mut b_inv: Vec<Vec<Bls12_377Fr>> = Vec::new();
        let mut s1: usize = 0;
        while s1 < sides
            invariant
                0 <= s1 <= sides,
                b_inv@.len() == s1,
                forall|t: int| 0 <= t < s1 ==> (#[trigger] b_inv@[t])@.len() == h,
                forall|t: int, i: int|
                    0 <= t < s1 && 0 <= i < h ==> #[trigger] d.bch(t, i) != 0,
                forall|t: int, i: int|
                    0 <= t < s1 && 0 <= i < h ==> fr_val(#[trigger] b_inv@[t]@[i]) == finv(
                        d.bch(t, i),
                    ) && fmul(d.bch(t, i), fr_val(b_inv@[t]@[i])) == 1 && fr_val(b_inv@[t]@[i])
                        < fr_order(),
            decreases sides - s1,
        {
            match inv_col(&b_rows[s1], delta) {
                Some(v) => {
                    proof {
                        assert forall|i: int| 0 <= i < h implies #[trigger] d.bch(s1 as int, i)
                            != 0 && fr_val(v@[i]) == finv(d.bch(s1 as int, i)) && fmul(
                            d.bch(s1 as int, i),
                            fr_val(v@[i]),
                        ) == 1 && fr_val(v@[i]) < fr_order() by {
                            assert(fadd(fr_val(b_rows@[s1 as int]@[i]), dv) == d.bch(s1 as int, i));
                        }
                    }
                    b_inv.push(v);
                },
                None => {
                    proof {
                        let i = choose|i: int|
                            0 <= i < b_rows@[s1 as int]@.len() && #[trigger] fadd(
                                fr_val(b_rows@[s1 as int]@[i]),
                                dv,
                            ) == 0;
                        assert(d.bch(s1 as int, i) == 0);
                    }
                    return Err(TraceError::InverseOfZero);
                },
            }
            s1 = s1 + 1;
        }
        proof {
            assert(d.zero_free()) by {
                assert forall|i: int| 0 <= i < d.h() implies #[trigger] d.ach(i) != 0 by {
                    assert(fadd(fr_val(a_rows@[i]), dv) != 0);
                }
            }
        }
        // occurrence counts of the active A rows
        let mut occ = OccMap::new();
        let mut i0: usize = 0;
        while i0 < h
            invariant
                0 <= i0 <= h,
                occ.wf(),
                occ.view() == d.occ_full(i0 as int),
            decreases h - i0,
        {
            if !fr_is_zero(af0[i0]) {
                proof {
                    if occ.view().dom().contains(fr_val(a_rows@[i0 as int])) {
                        lemma_occ_full_bound(d, i0 as int, fr_val(a_rows@[i0 as int]));
                    }
                    assert(d.af[i0 as int] != 0);
                }
                occ.bump(a_rows[i0]);
                proof {
                    assert(occ.view() =~= d.occ_full(i0 as int + 1));
                }
            } else {
                proof {
                    assert(d.af[i0 as int] == 0);
                    assert(occ.view() =~= d.occ_full(i0 as int + 1));
                }
            }
            i0 = i0 + 1;
        }
        // the forward pass: running sum, multiplicities
        let mut sum = fr_zero();
        let mut check: Vec<Bls12_377Fr> = Vec::new();
        let mut mrows: Vec<Vec<Bls12_377Fr>> = Vec::new();
        let mut i: usize = 0;
        while i < h
            invariant
                0 <= i <= h,
                check@.len() == i,
                mrows@.len() == i,
                forall|k: int| 0 <= k < i ==> fr_val(#[trigger] check@[k]) == d.lsum(k),
                forall|k: int| 0 <= k < i ==> (#[trigger] mrows@[k])@.len() == sides,
                forall|k: int, t: int|
                    0 <= k < i && 0 <= t < sides ==> fr_val(#[trigger] mrows@[k]@[t]) == d.mult_at(
                        t,
                        k,
                    ),
                fr_val(sum) == if i == 0 {
                    0nat
                } else {
                    d.lsum(i - 1)
                },
                occ.wf(),
                occ.view() == d.occ_at(i as int * sides as int),
            decreases h - i,
        {
            if !fr_is_zero(af0[i]) {
                sum = fr_add(sum, a_inv[i]);
            }
            proof {
                assert(fr_val(sum) == d.side_sum(i as int, 0));
            }
            let mut row_m: Vec<Bls12_377Fr> = Vec::new();
            let mut s3: usize = 0;
            while s3 < sides
                invariant
                    0 <= s3 <= sides,
                    0 <= i < h,
                    row_m@.len() == s3,
                    forall|t: int|
                        0 <= t < s3 ==> fr_val(#[trigger] row_m@[t]) == d.mult_at(t, i as int),
                    fr_val(sum) == d.side_sum(i as int, s3 as int),
                    occ.wf(),
                    occ.view() == d.occ_at(i as int * sides as int + s3 as int),
                decreases sides - s3,
            {
                let ghost t = i as int * sides as int + s3 as int;
                proof {
                    vstd::arithmetic::div_mod::lemma_fundamental_div_mod_converse(
                        t,
                        sides as int,
                        i as int,
                        s3 as int,
                    );
                    assert(t / sides as int == i as int && t % sides as int == s3 as int);
                    assert(d.bf[s3 as int] == fcol_val(bf0@[s3 as int]@));
                }
                let v = b_rows[s3][i];
                let mut mval: u64 = 0;
                if !fr_is_zero(bf0[s3][i]) {
                    match occ.consume(v) {
                        Some(c) => {
                            mval = c;
                        },
                        None => {},
                    }
                }
                proof {
                    assert(occ.view() == d.occ_at(t + 1));
                    assert(mval as nat == d.mult_at(s3 as int, i as int));
                    assert(u64::MAX < fr_order());
                }
                let mfr = fr_from_u64(mval);
                proof {
                    vstd::arithmetic::div_mod::lemma_small_mod(mval as nat, fr_order());
                    assert(fr_val(mfr) == d.mult_at(s3 as int, i as int));
                }
                sum = fr_sub(sum, fr_mul(mfr, b_inv[s3][i]));
                proof {
                    assert(fr_val(sum) == d.side_sum(i as int, s3 as int + 1));
                }
                row_m.push(mfr);
                s3 = s3 + 1;
            }
            check.push(sum);
            mrows.push(row_m);
            proof {
                assert(fr_val(sum) == d.lsum(i as int));
                vstd::arithmetic::mul::lemma_mul_is_distributive_add_other_way(
                    sides as int,
                    i as int,
                    1,
                );
                assert((i as int + 1) * sides as int == i as int * sides as int + sides as int);
            }
            i = i + 1;
        }
        // terminal invariant: the running sum ends at zero
        let last = check[h - 1];
        if !fr_is_zero(last) {
            return Err(TraceError::InvariantViolated);
        }
        // assemble the physical columns in canonical order
        let mult_cols = transpose_rows(&mrows, sides);
        let mut sw_exec: Vec<usize> = Vec::new();
        let mut s5: usize = 0;
        while s5 < sides
            invariant
                0 <= s5 <= sides,
                sw_exec@.len() == s5,
                forall|k: int| 0 <= k < s5 ==> #[trigger] sw_exec@[k] == b0@[k]@.len(),
            decreases sides - s5,
        {
            sw_exec.push(b0[s5].len());
            s5 = s5 + 1;
        }
        proof {
            assert(ids(sw_exec@) =~= d.sw());
        }
        let mut res: Vec<Vec<Bls12_377Fr>> = Vec::new();
        let ghost a0v = a0@;
        let mut a_take = a0;
        res.append(&mut a_take);
        let ghost b0v = b0@;
        let mut b_take = b0;
        let mut s6: usize = 0;
        while s6 < sides
            invariant
                0 <= s6 <= sides,
                b_take@ == b0v.subrange(s6 as int, sides as int),
                res@.len() == ka + sw_sum(d.sw(), s6 as int),
                forall|c: int| 0 <= c < ka ==> #[trigger] res@[c] == a0v[c],
                forall|t: int, j: int|
                    0 <= t < s6 && 0 <= j < d.sw()[t] ==> res@[ka + #[trigger] crate::layout::side_pos(
                        d.sw(),
                        t,
                        j,
                    )] == b0v[t]@[j],
            decreases sides - s6,
        {
            let mut side = b_take.remove(0);
            proof {
                assert(side == b0v[s6 as int]);
                assert(b_take@ =~= b0v.subrange(s6 as int + 1, sides as int));
                lemma_sw_sum_bounds(d.sw(), s6 as int);
            }
            let ghost res_pre = res@;
            res.append(&mut side);
            proof {
                assert forall|t: int, j: int|
                    0 <= t < s6 + 1 && 0 <= j < d.sw()[t] implies res@[ka
                    + #[trigger] crate::layout::side_pos(d.sw(), t, j)] == b0v[t]@[j] by {
                    lemma_sw_sum_nonneg(d.sw(), t);
                    if t < s6 {
                        lemma_sw_sum_chain2(d.sw(), t);
                        lemma_sw_sum_chain(d.sw(), t + 1, s6 as int);
                        assert(ka + crate::layout::side_pos(d.sw(), t, j) < res_pre.len());
                        assert(res@[ka + crate::layout::side_pos(d.sw(), t, j)] == res_pre[ka
                            + crate::layout::side_pos(d.sw(), t, j)]);
                    } else {
                        assert(res@[res_pre.len() + j] == b0v[t]@[j]);
                    }
                }
            }
            s6 = s6 + 1;
        }
        proof {
            assert(res@.len() == d.ci_af());
        }
        let ghost af0v = af0@;
        res.push(af0);
        let ghost bf0v = bf0@;
        let ghost mark_bf = res@;
        let mut bf_take = bf0;
        let mut s7: usize = 0;
        while s7 < sides
            invariant
                0 <= s7 <= sides,
                bf_take@ == bf0v.subrange(s7 as int, sides as int),
                res@.len() == d.ci_af() + 1 + s7,
                forall|c: int| 0 <= c < mark_bf.len() ==> #[trigger] res@[c] == mark_bf[c],
                forall|t: int| 0 <= t < s7 ==> #[trigger] res@[d.ci_af() + 1 + t] == bf0v[t],
            decreases sides - s7,
        {
            let f = bf_take.remove(0);
            proof {
                assert(f == bf0v[s7 as int]);
                assert(bf_take@ =~= bf0v.subrange(s7 as int + 1, sides as int));
            }
            res.push(f);
            s7 = s7 + 1;
        }
        let ghost a_inv_v = a_inv@;
        res.push(a_inv);
        let ghost b_inv_v = b_inv@;
        let ghost mark_bi = res@;
        let mut bi_take = b_inv;
        let mut s8: usize = 0;
        while s8 < sides
            invariant
                0 <= s8 <= sides,
                bi_take@ == b_inv_v.subrange(s8 as int, sides as int),
                res@.len() == d.ci_ai() + 1 + s8,
                forall|c: int| 0 <= c < mark_bi.len() ==> #[trigger] res@[c] == mark_bi[c],
                forall|t: int| 0 <= t < s8 ==> #[trigger] res@[d.ci_ai() + 1 + t] == b_inv_v[t],
            decreases sides - s8,
        {
            let f = bi_take.remove(0);
            proof {
                assert(f == b_inv_v[s8 as int]);
                assert(bi_take@ =~= b_inv_v.subrange(s8 as int + 1, sides as int));
            }
            res.push(f);
            s8 = s8 + 1;
        }
        let ghost mc_v = mult_cols@;
        let ghost mark_mc = res@;
        let mut mc_take = mult_cols;
        let mut s9: usize = 0;
        while s9 < sides
            invariant
                0 <= s9 <= sides,
                mc_take@ == mc_v.subrange(s9 as int, sides as int),
                res@.len() == d.ci_ai() + 1 + sides + s9,
                forall|c: int| 0 <= c < mark_mc.len() ==> #[trigger] res@[c] == mark_mc[c],
                forall|t: int| 0 <= t < s9 ==> #[trigger] res@[d.ci_ai() + 1 + sides + t]
                    == mc_v[t],
            decreases sides - s9,
        {
            let f = mc_take.remove(0);
            proof {
                assert(f == mc_v[s9 as int]);
                assert(mc_take@ =~= mc_v.subrange(s9 as int + 1, sides as int));
            }
            res.push(f);
            s9 = s9 + 1;
        }
        let ghost check_v = check@;
        res.push(check);
        let total = res.len();
        proof {
            assert(total as int == d.width());
        }
        let cfg = build_lookup_cfg(ka, &sw_exec, total);
        proof {
            assert(cfg.is_canonical(0, d.ka(), d.sw()));
            lemma_sw_sum_bounds(d.sw(), sides as int);
            // gather the final position of every region
            assert forall|c: int| 0 <= c < ka implies #[trigger] res@[c] == a0v[c] by {
                assert(mark_bf[c] == a0v[c]);
                assert(mark_bi[c] == mark_bf[c]);
                assert(mark_mc[c] == mark_bi[c]);
            }
            assert forall|t: int, j: int|
                0 <= t < sides && 0 <= j < d.sw()[t] implies res@[#[trigger] d.ci_b(t, j)]
                == b0v[t]@[j] by {
                lemma_sw_sum_bounds(d.sw(), t);
                lemma_sw_sum_chain2(d.sw(), t);
                lemma_sw_sum_chain(d.sw(), t + 1, sides as int);
                let c = ka + crate::layout::side_pos(d.sw(), t, j);
                assert(d.ci_b(t, j) == c);
                assert(0 <= c < d.ci_af());
                assert(mark_bf[c] == b0v[t]@[j]);
                assert(mark_bi[c] == mark_bf[c]);
                assert(mark_mc[c] == mark_bi[c]);
            }
            assert(mark_bf[d.ci_af()]@ == af0v);
            assert(res@[d.ci_af()]@ == af0v) by {
                assert(mark_bi[d.ci_af()] == mark_bf[d.ci_af()]);
                assert(mark_mc[d.ci_af()] == mark_bi[d.ci_af()]);
            }
            assert forall|t: int| 0 <= t < sides implies #[trigger] res@[d.ci_bf(t)]
                == bf0v[t] by {
                assert(mark_bi[d.ci_af() + 1 + t] == bf0v[t]);
                assert(mark_mc[d.ci_af() + 1 + t] == mark_bi[d.ci_af() + 1 + t]);
            }
            assert(res@[d.ci_ai()]@ == a_inv_v) by {
                assert(mark_bi[d.ci_ai()]@ == a_inv_v);
                assert(mark_mc[d.ci_ai()] == mark_bi[d.ci_ai()]);
            }
            assert forall|t: int| 0 <= t < sides implies #[trigger] res@[d.ci_bi(t)]
                == b_inv_v[t] by {
                assert(mark_mc[d.ci_ai() + 1 + t] == b_inv_v[t]);
            }
            assert forall|t: int| 0 <= t < sides implies #[trigger] res@[d.ci_m(t)]
                == mc_v[t] by {
                assert(res@[d.ci_ai() + 1 + sides + t] == mc_v[t]);
            }
            assert(res@[d.ci_chk()]@ == check_v);
            // the output predicate, clause by clause
            let cols = fmat_val(res@);
            assert(cols.len() == d.width());
            assert forall|j: int| 0 <= j < d.ka() implies #[trigger] cols[j] == d.am[j] by {
                assert(cols[j] == fcol_val(a0v[j]@));
            }
            assert forall|t: int, j: int|
                0 <= t < d.sides() && 0 <= j < d.sw()[t] implies cols[#[trigger] d.ci_b(t, j)]
                == d.bm[t][j] by {
                lemma_sw_sum_bounds(d.sw(), t);
                lemma_sw_sum_chain2(d.sw(), t);
                lemma_sw_sum_chain(d.sw(), t + 1, sides as int);
                assert(res@[d.ci_b(t, j)] == b0v[t]@[j]);
                assert(cols[d.ci_b(t, j)] == fcol_val(b0v[t]@[j]@));
                assert(d.bm[t] == fmat_val(b0v[t]@));
            }
            assert(cols[d.ci_af()] == fcol_val(af0v));
            assert forall|t: int| 0 <= t < d.sides() implies cols[#[trigger] d.ci_bf(t)]
                == d.bf[t] by {
                assert(cols[d.ci_bf(t)] == fcol_val(bf0v[t]@));
                assert(d.bf[t] == fmat_val(bf0v)[t]);
            }
            assert forall|i2: int| 0 <= i2 < d.h() implies #[trigger] cols[d.ci_ai()][i2]
                == finv(d.ach(i2)) && fmul(d.ach(i2), cols[d.ci_ai()][i2]) == 1
                && cols[d.ci_ai()][i2] < fr_order() by {
                assert(cols[d.ci_ai()] == fcol_val(a_inv_v));
                assert(fadd(fr_val(a_rows@[i2]), dv) == d.ach(i2));
            }
            assert forall|t: int, i2: int|
                0 <= t < d.sides() && 0 <= i2 < d.h() implies #[trigger] cols[d.ci_bi(t)][i2]
                == finv(d.bch(t, i2)) && fmul(d.bch(t, i2), cols[d.ci_bi(t)][i2]) == 1
                && cols[d.ci_bi(t)][i2] < fr_order() by {
                assert(cols[d.ci_bi(t)] == fcol_val(b_inv_v[t]@));
            }
            assert forall|t: int, i2: int|
                0 <= t < d.sides() && 0 <= i2 < d.h() implies #[trigger] cols[d.ci_m(t)][i2]
                == d.mult_at(t, i2) by {
                assert(cols[d.ci_m(t)] == fcol_val(mc_v[t]@));
                assert(mc_v[t]@[i2] == mrows@[i2]@[t]);
            }
            assert forall|i2: int| 0 <= i2 < d.h() implies #[trigger] cols[d.ci_chk()][i2]
                == d.lsum(i2) by {
                assert(cols[d.ci_chk()] == fcol_val(check_v));
            }
            assert(fr_val(check_v[h - 1]) == d.lsum(d.h() - 1));
            assert forall|c: int| 0 <= c < cols.len() implies (#[trigger] cols[c]).len()
                == d.h() by {
                assert(cols[c] == fcol_val(res@[c]@));
                if c < ka {
                    assert(res@[c] == a0v[c]);
                    assert(a0v[c]@.len() == self.a@[c]@.len());
                } else if c < d.ci_af() {
                    lemma_sw_pos(d.sw(), sides as int, c - ka);
                    let (t, j) = choose|t: int, j: int|
                        0 <= t < sides && 0 <= j < d.sw()[t] && c - ka
                            == #[trigger] crate::layout::side_pos(d.sw(), t, j);
                    assert(c == d.ci_b(t, j));
                    assert(res@[c] == b0v[t]@[j]);
                } else if c == d.ci_af() {
                } else if c < d.ci_ai() {
                    let t = c - (d.ci_af() + 1);
                    assert(c == d.ci_bf(t));
                    assert(res@[d.ci_bf(t)] == bf0v[t]);
                    assert(bf0v[t]@.len() == self.b_filter@[t]@.len());
                } else if c == d.ci_ai() {
                } else if c < d.ci_ai() + 1 + sides {
                    let t = c - (d.ci_ai() + 1);
                    assert(c == d.ci_bi(t));
                    assert(res@[d.ci_bi(t)] == b_inv_v[t]);
                } else if c < d.ci_chk() {
                    let t = c - (d.ci_ai() + 1 + sides);
                    assert(c == d.ci_m(t));
                    assert(res@[d.ci_m(t)] == mc_v[t]);
                } else {
                    assert(c == d.ci_chk());
                }
            }
            assert(crate::witness::lookup_out(d, cols));
        }
        Ok((cfg, res))
    }
}

} // verus!

verus! {

impl RawLookupTrace {
    /// Every column and filter fits under height `n`.
    pub open spec fn fits(&self, n: int) -> bool {
        &&& forall|j: int| 0 <= j < self.a@.len() ==> (#[trigger] self.a@[j])@.len() <= n
        &&& self.a_filter@.len() <= n
        &&& forall|s: int, j: int|
            0 <= s < self.b@.len() && 0 <= j < self.b@[s]@.len() ==> (
            #[trigger] self.b@[s]@[j])@.len() <= n
        &&& forall|s: int|
            0 <= s < self.b_filter@.len() ==> (#[trigger] self.b_filter@[s])@.len() <= n
    }
}

} // verus!

verus! {

impl RawLookupTrace {
    /// The height a side's filter defaults to: its first column's
    /// length.
    pub open spec fn side_target(&self, s: int) -> int {
        if 0 <= s < self.b@.len() && self.b@[s]@.len() > 0 {
            self.b@[s]@[0]@.len() as int
        } else {
            0
        }
    }

    /// Fills in the filters a loaded table left short: the A filter is
    /// grown with ones to the first A column's length, missing side
    /// filters are added, and every side filter is grown with ones to
    /// its side's first column's length. Present filter cells are
    /// kept.
    pub fn fill_missing_filters(&mut self)
        ensures
            final(self).a == old(self).a,
            final(self).b == old(self).b,
            final(self).name == old(self).name,
            ({
                let t = if old(self).a@.len() > 0 {
                    old(self).a@[0]@.len() as int
                } else {
                    0int
                };
                let n = if old(self).a_filter@.len() >= t {
                    old(self).a_filter@.len() as int
                } else {
                    t
                };
                final(self).a_filter@.len() == n && bcol_val(final(self).a_filter@) == pad1v(
                    bcol_val(old(self).a_filter@),
                    n,
                )
            }),
            final(self).b_filter@.len() == if old(self).b_filter@.len() >= old(self).b@.len() {
                old(self).b_filter@.len() as int
            } else {
                old(self).b@.len() as int
            },
            forall|s: int|
                0 <= s < final(self).b_filter@.len() ==> ({
                    let prior: Seq<nat> = if s < old(self).b_filter@.len() {
                        bcol_val(old(self).b_filter@[s]@)
                    } else {
                        Seq::empty()
                    };
                    let ts = old(self).side_target(s);
                    let ns = if prior.len() >= ts {
                        prior.len() as int
                    } else {
                        ts
                    };
                    (#[trigger] final(self).b_filter@[s])@.len() == ns && bcol_val(
                        final(self).b_filter@[s]@,
                    ) == pad1v(prior, ns)
                }),
    {
        let t = if self.a.len() > 0 {
            self.a[0].len()
        } else {
            0
        };
        if self.a_filter.len() < t {
            let af2 = crate::columns::grow_ones(&self.a_filter, t);
            self.a_filter = af2;
        } else {
            proof {
                assert(bcol_val(self.a_filter@) =~= pad1v(
                    bcol_val(self.a_filter@),
                    self.a_filter@.len() as int,
                ));
            }
        }
        let mut f2: Vec<Vec<[u8; 32]>> = Vec::new();
        let ghost bf0 = self.b_filter@;
        let mut s: usize = 0;
        let total = if self.b_filter.len() >= self.b.len() {
            self.b_filter.len()
        } else {
            self.b.len()
        };
        while s < total
            invariant
                0 <= s <= total,
                bf0 == self.b_filter@,
                total == if self.b_filter@.len() >= self.b@.len() {
                    self.b_filter@.len() as int
                } else {
                    self.b@.len() as int
                },
                f2@.len() == s,
                forall|s2: int|
                    0 <= s2 < s ==> ({
                        let prior: Seq<nat> = if s2 < bf0.len() {
                            bcol_val(bf0[s2]@)
                        } else {
                            Seq::empty()
                        };
                        let ts = self.side_target(s2);
                        let ns = if prior.len() >= ts {
                            prior.len() as int
                        } else {
                            ts
                        };
                        (#[trigger] f2@[s2])@.len() == ns && bcol_val(f2@[s2]@) == pad1v(prior, ns)
                    }),
            decreases total - s,
        {
            let ts = if s < self.b.len() {
                if self.b[s].len() > 0 {
                    self.b[s][0].len()
                } else {
                    0
                }
            } else {
                0
            };
            let prior_len = if s < self.b_filter.len() {
                self.b_filter[s].len()
            } else {
                0
            };
            let ns = if prior_len >= ts {
                prior_len
            } else {
                ts
            };
            if s < self.b_filter.len() {
                f2.push(crate::columns::grow_ones(&self.b_filter[s], ns));
            } else {
                let empty: Vec<[u8; 32]> = Vec::new();
                let grown = crate::columns::grow_ones(&empty, ns);
                proof {
                    assert(bcol_val(grown@) =~= pad1v(Seq::<nat>::empty(), ns as int));
                }
                f2.push(grown);
            }
            s = s + 1;
        }
        self.b_filter = f2;
    }
}

} // verus!
