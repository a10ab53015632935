//! The constraint set ("AIR"): for every argument descriptor, the
//! algebraic constraints of the log-derivative and grand-product
//! identities, evaluated on a pair of adjacent trace rows.
use vstd::prelude::*;
use crate::TraceError;
use crate::field::{
    Bls12_377Fr, fr_val, fadd, fsub, fmul, fr_add, fr_sub, fr_mul, fr_zero, fr_one, fcol_val,
};
use crate::layout::{AirConfig, AirLookupConfig, AirPermutationConfig, cfgs_offset, ids, idx_range};

verus! {

/// Horner folding of the row entries selected by `sel`, left to
/// right; an empty selection folds to zero.
pub open spec fn hsel(row: Seq<nat>, sel: Seq<usize>, alpha: nat) -> nat
    decreases sel.len(),
{
    if sel.len() == 0 {
        0
    } else {
        fadd(fmul(hsel(row, sel.drop_last(), alpha), alpha), row[sel.last() as int])
    }
}

impl AirLookupConfig {
    /// All component ids address a row of width `w`.
    pub open spec fn in_bounds(&self, w: int) -> bool {
        &&& forall|j: int| 0 <= j < self.a_columns_ids@.len() ==> #[trigger] self.a_columns_ids@[j]
            < w
        &&& forall|s: int, j: int|
            0 <= s < self.b_columns_ids@.len() && 0 <= j < self.b_columns_ids@[s]@.len()
                ==> #[trigger] self.b_columns_ids@[s]@[j] < w
        &&& self.a_filter_id < w
        &&& forall|s: int| 0 <= s < self.b_filter_id@.len() ==> #[trigger] self.b_filter_id@[s]
            < w
        &&& self.a_inverses_id < w
        &&& forall|s: int| 0 <= s < self.b_inverses_id@.len() ==> #[trigger] self.b_inverses_id@[s]
            < w
        &&& forall|s: int| 0 <= s < self.occurrences_id@.len() ==> #[trigger] self.occurrences_id@[s]
            < w
        &&& self.check_id < w
        &&& self.b_columns_ids@.len() == self.b_filter_id@.len()
        &&& self.b_columns_ids@.len() == self.b_inverses_id@.len()
        &&& self.b_columns_ids@.len() == self.occurrences_id@.len()
    }

    /// The row-wise inverse constraint `k`: the A constraint for
    /// `k == 0`, side `k - 1` after it. Each must be zero on every
    /// row.
    pub open spec fn inv_constraint(&self, row: Seq<nat>, alpha: nat, delta: nat, k: int) -> nat {
        if k == 0 {
            fsub(
                fmul(
                    fadd(hsel(row, self.a_columns_ids@, alpha), delta),
                    row[self.a_inverses_id as int],
                ),
                1,
            )
        } else {
            fsub(
                fmul(
                    fadd(hsel(row, self.b_columns_ids@[k - 1]@, alpha), delta),
                    row[self.b_inverses_id@[k - 1] as int],
                ),
                1,
            )
        }
    }

    /// The row's contribution to the running sum, read back from the
    /// row itself: the filtered A inverse minus, over the first `s`
    /// sides, filter times multiplicity times inverse.
    pub open spec fn row_delta(&self, row: Seq<nat>, s: int) -> nat
        decreases s,
    {
        if s <= 0 {
            fmul(row[self.a_filter_id as int], row[self.a_inverses_id as int])
        } else {
            fsub(
                self.row_delta(row, s - 1),
                fmul(
                    fmul(
                        row[self.b_filter_id@[s - 1] as int],
                        row[self.occurrences_id@[s - 1] as int],
                    ),
                    row[self.b_inverses_id@[s - 1] as int],
                ),
            )
        }
    }

    /// The full contribution, over all sides.
    pub open spec fn row_delta_full(&self, row: Seq<nat>) -> nat {
        self.row_delta(row, self.b_columns_ids@.len() as int)
    }

    /// The first-row constraint: the check column starts at the first
    /// row's contribution.
    pub open spec fn first_constraint(&self, row: Seq<nat>, alpha: nat, delta: nat) -> nat {
        fsub(row[self.check_id as int], self.row_delta_full(row))
    }

    /// The transition constraint: the check column moves by the next
    /// row's contribution.
    pub open spec fn transition_constraint(
        &self,
        lrow: Seq<nat>,
        nrow: Seq<nat>,
        alpha: nat,
        delta: nat,
    ) -> nat {
        fsub(
            fsub(nrow[self.check_id as int], lrow[self.check_id as int]),
            self.row_delta_full(nrow),
        )
    }

    /// The last-row constraint: the check column ends at zero.
    pub open spec fn last_constraint(&self, row: Seq<nat>) -> nat {
        row[self.check_id as int]
    }
}

impl AirPermutationConfig {
    /// All component ids address a row of width `w`.
    pub open spec fn in_bounds(&self, w: int) -> bool {
        &&& forall|j: int| 0 <= j < self.a_columns_ids@.len() ==> #[trigger] self.a_columns_ids@[j]
            < w
        &&& forall|j: int| 0 <= j < self.b_columns_ids@.len() ==> #[trigger] self.b_columns_ids@[j]
            < w
        &&& self.b_inverse_id < w
        &&& self.check_id < w
    }

    /// The row-wise inverse constraint: the stored inverse inverts the
    /// shifted B row. Must be zero on every row.
    pub open spec fn inv_constraint(&self, row: Seq<nat>, alpha: nat, delta: nat) -> nat {
        fsub(
            fmul(fadd(hsel(row, self.b_columns_ids@, alpha), delta), row[self.b_inverse_id as int]),
            1,
        )
    }

    /// The first-row constraint: the check column starts at the first
    /// row's factor.
    pub open spec fn first_constraint(&self, row: Seq<nat>, alpha: nat, delta: nat) -> nat {
        fsub(
            row[self.check_id as int],
            fmul(fadd(hsel(row, self.a_columns_ids@, alpha), delta), row[self.b_inverse_id as int]),
        )
    }

    /// The transition constraint: the check column multiplies by the
    /// next row's factor.
    pub open spec fn transition_constraint(
        &self,
        lrow: Seq<nat>,
        nrow: Seq<nat>,
        alpha: nat,
        delta: nat,
    ) -> nat {
        fsub(
            nrow[self.check_id as int],
            fmul(
                fmul(lrow[self.check_id as int], fadd(hsel(nrow, self.a_columns_ids@, alpha), delta)),
                nrow[self.b_inverse_id as int],
            ),
        )
    }

    /// The last-row constraint: the check column ends at one.
    pub open spec fn last_constraint(&self, row: Seq<nat>) -> nat {
        fsub(row[self.check_id as int], 1)
    }
}

/// The constraints one argument emits on a pair of adjacent rows,
/// evaluated to field values. Soundness asks that `everywhere` be all
/// zero on every row pair, `first_row` zero when the pair starts at
/// row zero, `transition` zero whenever a next row exists, and
/// `last_row` zero on the last row.
pub struct ArgConstraints {
    pub everywhere: Vec<Bls12_377Fr>,
    pub first_row: Bls12_377Fr,
    pub transition: Bls12_377Fr,
    pub last_row: Bls12_377Fr,
}

/// `ac` holds exactly the constraint values descriptor `cfg` emits on
/// the row pair.
pub open spec fn arg_constraints_ok(
    cfg: AirConfig,
    ac: ArgConstraints,
    lrow: Seq<nat>,
    nrow: Seq<nat>,
    alpha: nat,
    delta: nat,
) -> bool {
    match cfg {
        AirConfig::Lookup(c) => {
            &&& ac.everywhere@.len() == 1 + c.b_columns_ids@.len()
            &&& forall|k: int|
                0 <= k < ac.everywhere@.len() ==> fr_val(#[trigger] ac.everywhere@[k])
                    == c.inv_constraint(lrow, alpha, delta, k)
            &&& fr_val(ac.first_row) == c.first_constraint(lrow, alpha, delta)
            &&& fr_val(ac.transition) == c.transition_constraint(lrow, nrow, alpha, delta)
            &&& fr_val(ac.last_row) == c.last_constraint(lrow)
        },
        AirConfig::Permutation(c) => {
            &&& ac.everywhere@.len() == 1
            &&& fr_val(ac.everywhere@[0]) == c.inv_constraint(lrow, alpha, delta)
            &&& fr_val(ac.first_row) == c.first_constraint(lrow, alpha, delta)
            &&& fr_val(ac.transition) == c.transition_constraint(lrow, nrow, alpha, delta)
            &&& fr_val(ac.last_row) == c.last_constraint(lrow)
        },
    }
}

/// Horner folding of selected row entries.
#[verifier::loop_isolation(false)]
fn fold_sel(row: &Vec<Bls12_377Fr>, sel: &Vec<usize>, alpha: Bls12_377Fr) -> (r: Bls12_377Fr)
    requires
        forall|j: int| 0 <= j < sel@.len() ==> #[trigger] sel@[j] < row@.len(),
    ensures
        fr_val(r) == hsel(fcol_val(row@), sel@, fr_val(alpha)),
{
    let mut acc = fr_zero();
    let mut j: usize = 0;
    proof {
        assert(sel@.take(0) =~= Seq::<usize>::empty());
    }
    while j < sel.len()
        invariant
            0 <= j <= sel@.len(),
            fr_val(acc) == hsel(fcol_val(row@), sel@.take(j as int), fr_val(alpha)),
        decreases sel@.len() - j,
    {
        proof {
            assert(sel@.take(j as int + 1).drop_last() =~= sel@.take(j as int));
            assert(sel@.take(j as int + 1).last() == sel@[j as int]);
        }
        acc = fr_add(fr_mul(acc, alpha), row[sel[j]]);
        j = j + 1;
    }
    proof {
        assert(sel@.take(sel@.len() as int) =~= sel@);
    }
    acc
}

/// The constraint values of one lookup descriptor on a row pair.
#[verifier::loop_isolation(false)]
fn eval_lookup_cfg(
    cfg: &AirLookupConfig,
    local: &Vec<Bls12_377Fr>,
    next: &Vec<Bls12_377Fr>,
    alpha: Bls12_377Fr,
    delta: Bls12_377Fr,
) -> (r: ArgConstraints)
    requires
        cfg.in_bounds(local@.len() as int),
        next@.len() == local@.len(),
    ensures
        arg_constraints_ok(
            AirConfig::Lookup(*cfg),
            r,
            fcol_val(local@),
            fcol_val(next@),
            fr_val(alpha),
            fr_val(delta),
        ),
{
    let ghost lrow = fcol_val(local@);
    let ghost nrow = fcol_val(next@);
    let ghost av = fr_val(alpha);
    let ghost dv = fr_val(delta);
    let sides = cfg.b_columns_ids.len();
    let mut everywhere: Vec<Bls12_377Fr> = Vec::new();
    let a_comb = fold_sel(local, &cfg.a_columns_ids, alpha);
    everywhere.push(
        fr_sub(fr_mul(fr_add(a_comb, delta), local[cfg.a_inverses_id]), fr_one()),
    );
    let mut s: usize = 0;
    while s < sides
        invariant
            0 <= s <= sides,
            everywhere@.len() == 1 + s,
            forall|k: int|
                0 <= k < 1 + s ==> fr_val(#[trigger] everywhere@[k]) == cfg.inv_constraint(
                    lrow,
                    av,
                    dv,
                    k,
                ),
        decreases sides - s,
    {
        let b_comb = fold_sel(local, &cfg.b_columns_ids[s], alpha);
        everywhere.push(
            fr_sub(fr_mul(fr_add(b_comb, delta), local[cfg.b_inverses_id[s]]), fr_one()),
        );
        s = s + 1;
    }
    let mut local_delta = fr_mul(local[cfg.a_filter_id], local[cfg.a_inverses_id]);
    let mut next_delta = fr_mul(next[cfg.a_filter_id], next[cfg.a_inverses_id]);
    let mut s2: usize = 0;
    while s2 < sides
        invariant
            0 <= s2 <= sides,
            fr_val(local_delta) == cfg.row_delta(lrow, s2 as int),
            fr_val(next_delta) == cfg.row_delta(nrow, s2 as int),
        decreases sides - s2,
    {
        local_delta = fr_sub(
            local_delta,
            fr_mul(
                fr_mul(local[cfg.b_filter_id[s2]], local[cfg.occurrences_id[s2]]),
                local[cfg.b_inverses_id[s2]],
            ),
        );
        next_delta = fr_sub(
            next_delta,
            fr_mul(
                fr_mul(next[cfg.b_filter_id[s2]], next[cfg.occurrences_id[s2]]),
                next[cfg.b_inverses_id[s2]],
            ),
        );
        s2 = s2 + 1;
    }
    let first_row = fr_sub(local[cfg.check_id], local_delta);
    let transition = fr_sub(fr_sub(next[cfg.check_id], local[cfg.check_id]), next_delta);
    let last_row = local[cfg.check_id];
    ArgConstraints { everywhere, first_row, transition, last_row }
}

/// The constraint values of one permutation descriptor on a row pair.
#[verifier::loop_isolation(false)]
fn eval_permutation_cfg(
    cfg: &AirPermutationConfig,
    local: &Vec<Bls12_377Fr>,
    next: &Vec<Bls12_377Fr>,
    alpha: Bls12_377Fr,
    delta: Bls12_377Fr,
) -> (r: ArgConstraints)
    requires
        cfg.in_bounds(local@.len() as int),
        next@.len() == local@.len(),
    ensures
        arg_constraints_ok(
            AirConfig::Permutation(*cfg),
            r,
            fcol_val(local@),
            fcol_val(next@),
            fr_val(alpha),
            fr_val(delta),
        ),
{
    let a_local = fold_sel(local, &cfg.a_columns_ids, alpha);
    let b_local = fold_sel(local, &cfg.b_columns_ids, alpha);
    let a_next = fold_sel(next, &cfg.a_columns_ids, alpha);
    let mut everywhere: Vec<Bls12_377Fr> = Vec::new();
    everywhere.push(
        fr_sub(fr_mul(fr_add(b_local, delta), local[cfg.b_inverse_id]), fr_one()),
    );
    let first_row = fr_sub(
        local[cfg.check_id],
        fr_mul(fr_add(a_local, delta), local[cfg.b_inverse_id]),
    );
    let transition = fr_sub(
        next[cfg.check_id],
        fr_mul(fr_mul(local[cfg.check_id], fr_add(a_next, delta)), next[cfg.b_inverse_id]),
    );
    let last_row = fr_sub(local[cfg.check_id], fr_one());
    ArgConstraints { everywhere, first_row, transition, last_row }
}

/// The constraint set of a whole trace: one descriptor per argument,
/// whose widths partition the trace columns.
pub struct LineaAIR {
    pub configs: Vec<AirConfig>,
    pub width: usize,
}

impl LineaAIR {
    /// The declared width is the sum of the descriptor widths, and
    /// each descriptor is canonical at its offset, so together they
    /// partition the row.
    pub open spec fn wf(&self) -> bool {
        &&& self.width as int == cfgs_offset(self.configs@, self.configs@.len() as int)
        &&& forall|k: int|
            0 <= k < self.configs@.len() ==> (#[trigger] self.configs@[k]).canonical_at(
                cfgs_offset(self.configs@, k),
            )
    }

    /// The declared width.
    pub open spec fn width_spec(&self) -> int {
        self.width as int
    }

    /// The declared trace width.
    pub fn get_width(&self) -> (r: usize)
        ensures
            r as int == self.width_spec(),
    {
        self.width
    }

    /// Builds the constraint set from the descriptors the trace
    /// builder returned; the declared width is the sum of theirs.
    #[verifier::loop_isolation(false)]
    pub fn new(configs: Vec<AirConfig>) -> (r: Self)
        requires
            cfgs_offset(configs@, configs@.len() as int) <= usize::MAX,
            forall|k: int|
                0 <= k < configs@.len() ==> (#[trigger] configs@[k]).canonical_at(
                    cfgs_offset(configs@, k),
                ),
        ensures
            r.wf(),
            r.configs == configs,
            r.width_spec() == cfgs_offset(configs@, configs@.len() as int),
    {
        let mut width: usize = 0;
        let mut k: usize = 0;
        while k < configs.len()
            invariant
                0 <= k <= configs@.len(),
                width as int == cfgs_offset(configs@, k as int),
            decreases configs@.len() - k,
        {
            proof {
                lemma_cfgs_offset_at(configs@, k as int);
                lemma_cfgs_offset_grows_from(configs@, k as int + 1, configs@.len() as int);
            }
            width = width + configs[k].width();
            k = k + 1;
        }
        LineaAIR { configs, width }
    }

    /// Evaluates every argument's constraints on a pair of adjacent
    /// rows. Fails with `WidthMismatch` exactly when a row does not
    /// match the declared width.
    #[verifier::loop_isolation(false)]
    pub fn eval(
        &self,
        local: &Vec<Bls12_377Fr>,
        next: &Vec<Bls12_377Fr>,
        alpha: Bls12_377Fr,
        delta: Bls12_377Fr,
    ) -> (r: Result<Vec<ArgConstraints>, TraceError>)
        requires
            self.wf(),
        ensures
            (r is Err <==> !(local@.len() == self.width_spec() && next@.len()
                == self.width_spec())),
            (r matches Err(e) ==> e == TraceError::WidthMismatch),
            (r matches Ok(v) ==> v@.len() == self.configs@.len() && forall|k: int|
                0 <= k < self.configs@.len() ==> arg_constraints_ok(
                    #[trigger] self.configs@[k],
                    v@[k],
                    fcol_val(local@),
                    fcol_val(next@),
                    fr_val(alpha),
                    fr_val(delta),
                )),
    {
        if local.len() != self.width || next.len() != self.width {
            return Err(TraceError::WidthMismatch);
        }
        let mut out: Vec<ArgConstraints> = Vec::new();
        let mut k: usize = 0;
        while k < self.configs.len()
            invariant
                0 <= k <= self.configs@.len(),
                out@.len() == k,
                forall|t: int|
                    0 <= t < k ==> arg_constraints_ok(
                        #[trigger] self.configs@[t],
                        out@[t],
                        fcol_val(local@),
                        fcol_val(next@),
                        fr_val(alpha),
                        fr_val(delta),
                    ),
            decreases self.configs@.len() - k,
        {
            proof {
                lemma_cfgs_offset_grows_from(self.configs@, 0, k as int);
                lemma_cfgs_offset_at(self.configs@, k as int);
                lemma_cfgs_offset_grows_from(self.configs@, k as int + 1, self.configs@.len() as int);
            }
            let ac = match &self.configs[k] {
                AirConfig::Lookup(c) => {
                    proof {
                        lemma_canonical_lookup_in_bounds(
                            *c,
                            cfgs_offset(self.configs@, k as int),
                            local@.len() as int,
                        );
                    }
                    eval_lookup_cfg(c, local, next, alpha, delta)
                },
                AirConfig::Permutation(c) => {
                    proof {
                        lemma_canonical_perm_in_bounds(
                            *c,
                            cfgs_offset(self.configs@, k as int),
                            local@.len() as int,
                        );
                    }
                    eval_permutation_cfg(c, local, next, alpha, delta)
                },
            };
            out.push(ac);
            k = k + 1;
        }
        Ok(out)
    }
}

/// Every descriptor width is non-negative, so offsets grow.
pub proof fn lemma_cfgs_offset_at(cfgs: Seq<AirConfig>, k: int)
    requires
        0 <= k < cfgs.len(),
        cfgs[k].canonical_at(cfgs_offset(cfgs, k)),
    ensures
        cfgs[k].width_spec() >= 0,
        cfgs_offset(cfgs, k + 1) == cfgs_offset(cfgs, k) + cfgs[k].width_spec(),
{
    match cfgs[k] {
        AirConfig::Lookup(c) => {
            crate::layout::lemma_flat_len_nonneg(c.b_columns_ids@);
        },
        AirConfig::Permutation(c) => {},
    }
}

/// A later offset is at least an earlier one plus the widths between,
/// when the descriptors are canonical.
pub proof fn lemma_cfgs_offset_grows_from(cfgs: Seq<AirConfig>, k: int, m: int)
    requires
        0 <= k <= m <= cfgs.len(),
        forall|t: int|
            0 <= t < cfgs.len() ==> (#[trigger] cfgs[t]).canonical_at(cfgs_offset(cfgs, t)),
    ensures
        cfgs_offset(cfgs, k) <= cfgs_offset(cfgs, m),
    decreases m - k,
{
    if k < m {
        lemma_cfgs_offset_at(cfgs, k);
        lemma_cfgs_offset_grows_from(cfgs, k + 1, m);
    }
}

/// A canonical lookup descriptor addresses only columns before the
/// end of its own range.
pub proof fn lemma_canonical_lookup_in_bounds(cfg: AirLookupConfig, start: int, w: int)
    requires
        cfg.canonical_at(start),
        start >= 0,
        start + cfg.width_spec() <= w,
    ensures
        cfg.in_bounds(w),
{
    let ka = cfg.a_columns_ids@.len() as int;
    let sw = cfg.own_sw();
    let sides = sw.len() as int;
    crate::layout::lemma_lookup_cfg_in_range(cfg, start, ka, sw);
    let tot = crate::layout::sw_sum(sw, sides);
    crate::layout::lemma_sw_sum_nonneg(sw, sides);
    assert forall|j: int| 0 <= j < cfg.a_columns_ids@.len() implies #[trigger] cfg.a_columns_ids@[j]
        < w by {
        assert(ids(cfg.a_columns_ids@)[j] == idx_range(start, ka)[j]);
    }
    assert forall|t: int, j: int|
        0 <= t < cfg.b_columns_ids@.len() && 0 <= j
            < cfg.b_columns_ids@[t]@.len() implies #[trigger] cfg.b_columns_ids@[t]@[j] < w by {
        assert(ids(cfg.b_columns_ids@[t]@)[j] == idx_range(
            start + ka + crate::layout::sw_sum(sw, t),
            sw[t],
        )[j]);
        assert(ids(cfg.b_columns_ids@[t]@).len() == cfg.b_columns_ids@[t]@.len());
        crate::layout::lemma_sw_sum_chain(sw, t + 1, sides);
        crate::layout::lemma_sw_sum_nonneg(sw, t);
    }
    assert forall|t: int| 0 <= t < cfg.b_filter_id@.len() implies #[trigger] cfg.b_filter_id@[t]
        < w by {
        assert(ids(cfg.b_filter_id@)[t] == idx_range(start + ka + tot + 1, sides)[t]);
    }
    assert forall|t: int|
        0 <= t < cfg.b_inverses_id@.len() implies #[trigger] cfg.b_inverses_id@[t] < w by {
        assert(ids(cfg.b_inverses_id@)[t] == idx_range(start + ka + tot + 2 + sides, sides)[t]);
    }
    assert forall|t: int|
        0 <= t < cfg.occurrences_id@.len() implies #[trigger] cfg.occurrences_id@[t] < w by {
        assert(ids(cfg.occurrences_id@)[t] == idx_range(
            start + ka + tot + 2 + 2 * sides,
            sides,
        )[t]);
    }
    assert(cfg.b_columns_ids@.len() == sides);
    assert(cfg.b_filter_id@.len() == sides) by {
        assert(ids(cfg.b_filter_id@).len() == cfg.b_filter_id@.len());
    }
    assert(cfg.b_inverses_id@.len() == sides) by {
        assert(ids(cfg.b_inverses_id@).len() == cfg.b_inverses_id@.len());
    }
    assert(cfg.occurrences_id@.len() == sides) by {
        assert(ids(cfg.occurrences_id@).len() == cfg.occurrences_id@.len());
    }
}

/// A canonical permutation descriptor addresses only columns before
/// the end of its own range.
pub proof fn lemma_canonical_perm_in_bounds(cfg: AirPermutationConfig, start: int, w: int)
    requires
        cfg.canonical_at(start),
        start >= 0,
        start + cfg.width_spec() <= w,
    ensures
        cfg.in_bounds(w),
{
    let wd = cfg.a_columns_ids@.len() as int;
    crate::layout::lemma_perm_cfg_in_range(cfg, start, wd);
    let fi = cfg.full_ids();
    assert forall|j: int| 0 <= j < cfg.a_columns_ids@.len() implies #[trigger] cfg.a_columns_ids@[j]
        < w by {
        assert(fi[j] == cfg.a_columns_ids@[j] as int);
    }
    assert forall|j: int| 0 <= j < cfg.b_columns_ids@.len() implies #[trigger] cfg.b_columns_ids@[j]
        < w by {
        assert(fi[wd + j] == cfg.b_columns_ids@[j] as int);
    }
    assert(fi[2 * wd] == cfg.b_inverse_id as int);
    assert(fi[2 * wd + 1] == cfg.check_id as int);
}

} // verus!

verus! {

/// The standalone permutation constraint set of one two-table
/// argument laid out as `A columns, B columns, check, inverse`; the
/// full `LineaAIR` generalizes it. Kept for callers that prove a
/// single permutation.
pub struct LineaPermutationAIR {
    pub width: usize,
    pub inv_column_index: usize,
    pub check_column_index: usize,
}

impl LineaPermutationAIR {
    /// The trace width the constraint set expects: the two tables and
    /// the two auxiliary columns.
    pub fn width(&self) -> (r: usize)
        requires
            2 * self.width + 2 <= usize::MAX,
        ensures
            r == 2 * self.width + 2,
    {
        self.width * 2 + 2
    }
}

} // verus!
