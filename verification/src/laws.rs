//! The laws the library promises across its functions: descriptors of
//! successive arguments tile the trace, and a generated witness
//! satisfies every emitted constraint under its selector.
use vstd::prelude::*;
use crate::field::{
    fr_order, fadd, fsub, fmul, finv, lemma_f_bounds, lemma_fadd_zero, lemma_fmul_units,
    lemma_fsub_self, lemma_fsub_zero, lemma_fsub_cancel, lemma_fsub_fadd_assoc, lemma_fmul_assoc,
};
use crate::witness::{
    LookupData, PermData, horner_at, lookup_out, perm_out, lemma_side_sum_bound,
    lemma_pprod_bound,
};
use crate::layout::{
    AirConfig, AirLookupConfig, AirPermutationConfig, ids, idx_range, sw_sum,
    lemma_lookup_cfg_in_range, lemma_perm_cfg_in_range, lemma_sw_sum_nonneg, lemma_sw_sum_chain,
    lemma_sw_sum_chain2, lemma_sw_pos,
};
use crate::air::hsel;

verus! {

/// Row `i` of a column-major trace.
pub open spec fn trace_row(cols: Seq<Seq<nat>>, i: int) -> Seq<nat> {
    Seq::new(cols.len(), |c: int| cols[c][i])
}

/// Folding selected row entries equals folding the selected columns,
/// when the selection reads the columns at row `i`.
proof fn lemma_hsel_matches(row: Seq<nat>, sel: Seq<usize>, mat: Seq<Seq<nat>>, i: int, alpha: nat)
    requires
        sel.len() == mat.len(),
        forall|j: int|
            0 <= j < sel.len() ==> (#[trigger] sel[j]) < row.len() && row[sel[j] as int]
                == mat[j][i],
    ensures
        hsel(row, sel, alpha) == horner_at(mat, alpha, i),
    decreases sel.len(),
{
    if sel.len() > 0 {
        assert forall|j: int|
            0 <= j < sel.drop_last().len() implies (#[trigger] sel.drop_last()[j]) < row.len()
            && row[sel.drop_last()[j] as int] == mat.drop_last()[j][i] by {
            assert(sel.drop_last()[j] == sel[j]);
            assert(mat.drop_last()[j] == mat[j]);
        }
        lemma_hsel_matches(row, sel.drop_last(), mat.drop_last(), i, alpha);
        assert(row[sel.last() as int] == mat[mat.len() - 1][i]);
        assert(mat.last() == mat[mat.len() - 1]);
    }
}

/// The delta a row shows through the descriptor equals the step the
/// witness's running sum takes on that row.
proof fn lemma_delta_matches(
    cfg: AirLookupConfig,
    d: LookupData,
    lrow: Seq<nat>,
    i: int,
    s: int,
)
    requires
        0 <= i < d.h(),
        0 <= s <= d.sides(),
        cfg.b_columns_ids@.len() == d.sides(),
        cfg.b_filter_id@.len() == d.sides(),
        cfg.b_inverses_id@.len() == d.sides(),
        cfg.occurrences_id@.len() == d.sides(),
        lrow[cfg.a_filter_id as int] == d.af[i],
        lrow[cfg.a_inverses_id as int] == finv(d.ach(i)),
        lrow[cfg.a_inverses_id as int] < fr_order(),
        forall|t: int|
            0 <= t < d.sides() ==> lrow[#[trigger] cfg.b_filter_id@[t] as int] == d.bf[t][i],
        forall|t: int|
            0 <= t < d.sides() ==> lrow[#[trigger] cfg.occurrences_id@[t] as int] == d.mult_at(
                t,
                i,
            ),
        forall|t: int|
            0 <= t < d.sides() ==> lrow[#[trigger] cfg.b_inverses_id@[t] as int] == finv(
                d.bch(t, i),
            ) && lrow[cfg.b_inverses_id@[t] as int] < fr_order(),
        d.af[i] == 0 || d.af[i] == 1,
        forall|t: int| 0 <= t < d.sides() ==> #[trigger] d.bf[t][i] == 0 || d.bf[t][i] == 1,
        forall|t: int| 0 <= t < d.sides() ==> #[trigger] d.mult_at(t, i) < fr_order(),
    ensures
        d.side_sum(i, s) == fadd(
            if i == 0 {
                0nat
            } else {
                d.lsum(i - 1)
            },
            cfg.row_delta(lrow, s),
        ),
    decreases s,
{
    let prev: nat = if i == 0 {
        0nat
    } else {
        d.lsum(i - 1)
    };
    if i > 0 {
        lemma_side_sum_bound(d, i - 1, d.sides());
    }
    vstd::arithmetic::div_mod::lemma_small_mod(prev, fr_order());
    if s == 0 {
        let ainv = finv(d.ach(i));
        if d.af[i] == 1 {
            lemma_fmul_units(ainv);
            vstd::arithmetic::div_mod::lemma_small_mod(ainv, fr_order());
        } else {
            lemma_fmul_units(ainv);
            lemma_fadd_zero(prev);
        }
    } else {
        lemma_delta_matches(cfg, d, lrow, i, s - 1);
        let bf = d.bf[s - 1][i];
        let occ = d.mult_at(s - 1, i);
        let binv = finv(d.bch(s - 1, i));
        let emitted = fmul(fmul(lrow[cfg.b_filter_id@[s - 1] as int], lrow[cfg.occurrences_id@[s
            - 1] as int]), lrow[cfg.b_inverses_id@[s - 1] as int]);
        assert(emitted == fmul(occ, binv)) by {
            if bf == 1 {
                lemma_fmul_units(occ);
                vstd::arithmetic::div_mod::lemma_small_mod(occ, fr_order());
            } else {
                assert(occ == 0);
                lemma_fmul_units(occ);
                lemma_fmul_units(binv);
                assert(fmul(fmul(0, occ), binv) == fmul(0, binv));
            }
        }
        lemma_fsub_fadd_assoc(prev, cfg.row_delta(lrow, s - 1), emitted);
    }
}

/// Every constraint a lookup descriptor emits evaluates to zero under
/// its selector, on every row of a trace whose columns at the
/// descriptor's range hold a generated witness. The filters must be
/// 0/1-valued and the height below the field order.
pub proof fn lemma_lookup_constraints_hold(
    cols: Seq<Seq<nat>>,
    cfg: AirLookupConfig,
    d: LookupData,
    start: int,
    i: int,
)
    requires
        cfg.is_canonical(start, d.ka(), d.sw()),
        0 <= start,
        start + d.width() <= cols.len(),
        lookup_out(d, cols.subrange(start, start + d.width())),
        forall|c: int| 0 <= c < cols.len() ==> (#[trigger] cols[c]).len() == d.h(),
        d.h() < fr_order(),
        0 <= i < d.h(),
        forall|i2: int| 0 <= i2 < d.h() ==> #[trigger] d.af[i2] == 0 || d.af[i2] == 1,
        forall|t: int, i2: int|
            0 <= t < d.sides() && 0 <= i2 < d.h() ==> #[trigger] d.bf[t][i2] == 0 || d.bf[t][i2]
                == 1,
    ensures
        forall|k: int|
            0 <= k < 1 + d.sides() ==> #[trigger] cfg.inv_constraint(
                trace_row(cols, i),
                d.alpha,
                d.delta,
                k,
            ) == 0,
        i == 0 ==> cfg.first_constraint(trace_row(cols, 0), d.alpha, d.delta) == 0,
        i < d.h() - 1 ==> cfg.transition_constraint(
            trace_row(cols, i),
            trace_row(cols, i + 1),
            d.alpha,
            d.delta,
        ) == 0,
        i == d.h() - 1 ==> cfg.last_constraint(trace_row(cols, i)) == 0,
{
    let w = d.width();
    let sub = cols.subrange(start, start + w);
    let ka = d.ka();
    let sides = d.sides();
    let sw = d.sw();
    lemma_sw_sum_nonneg(sw, sides);
    lemma_lookup_cfg_in_range(cfg, start, ka, sw);
    assert(cfg.b_columns_ids@.len() == sides);
    assert(cfg.b_filter_id@.len() == sides) by {
        assert(ids(cfg.b_filter_id@).len() == cfg.b_filter_id@.len());
    }
    assert(cfg.b_inverses_id@.len() == sides) by {
        assert(ids(cfg.b_inverses_id@).len() == cfg.b_inverses_id@.len());
    }
    assert(cfg.occurrences_id@.len() == sides) by {
        assert(ids(cfg.occurrences_id@).len() == cfg.occurrences_id@.len());
    }
    assert(cfg.a_columns_ids@.len() == ka) by {
        assert(ids(cfg.a_columns_ids@).len() == cfg.a_columns_ids@.len());
    }
    // scalar id positions inside the slice
    assert(cfg.a_filter_id as int == start + d.ci_af());
    assert(cfg.a_inverses_id as int == start + d.ci_ai());
    assert(cfg.check_id as int == start + d.ci_chk());
    assert forall|t: int| 0 <= t < sides implies #[trigger] cfg.b_filter_id@[t] as int == start
        + d.ci_bf(t) by {
        assert(ids(cfg.b_filter_id@)[t] == idx_range(start + ka + sw_sum(sw, sides) + 1, sides)[t]);
    }
    assert forall|t: int| 0 <= t < sides implies #[trigger] cfg.b_inverses_id@[t] as int == start
        + d.ci_bi(t) by {
        assert(ids(cfg.b_inverses_id@)[t] == idx_range(
            start + ka + sw_sum(sw, sides) + 2 + sides,
            sides,
        )[t]);
    }
    assert forall|t: int| 0 <= t < sides implies #[trigger] cfg.occurrences_id@[t] as int == start
        + d.ci_m(t) by {
        assert(ids(cfg.occurrences_id@)[t] == idx_range(
            start + ka + sw_sum(sw, sides) + 2 + 2 * sides,
            sides,
        )[t]);
    }
    // multiplicities are bounded by the height, hence canonical
    assert forall|t: int, i2: int| 0 <= t < sides && 0 <= i2 < d.h() implies #[trigger] d.mult_at(
        t,
        i2,
    ) < fr_order() by {
        let m = d.occ_at(i2 * sides + t);
        let v = d.brow(t, i2);
        if m.dom().contains(v) && d.bf[t][i2] != 0 {
            crate::witness::lemma_occ_at_bound(d, i2 * sides + t, v);
        }
    }
    // the facts of one trace row, for any valid row index
    assert forall|i2: int| 0 <= i2 < d.h() implies row_facts(cols, cfg, d, start, i2) by {
        lemma_row_facts(cols, cfg, d, start, i2);
    }
    let lrow = trace_row(cols, i);
    // row-wise inverse constraints
    assert forall|k: int| 0 <= k < 1 + sides implies #[trigger] cfg.inv_constraint(
        lrow,
        d.alpha,
        d.delta,
        k,
    ) == 0 by {
        assert(row_facts(cols, cfg, d, start, i));
        if k == 0 {
            assert(fmul(d.ach(i), lrow[cfg.a_inverses_id as int]) == 1);
            lemma_fsub_self(1);
        } else {
            let t = k - 1;
            assert(hsel(lrow, cfg.b_columns_ids@[t]@, d.alpha) == d.brow(t, i));
            assert(fmul(d.bch(t, i), lrow[cfg.b_inverses_id@[t] as int]) == 1);
            lemma_fsub_self(1);
        }
    }
    // first row
    if i == 0 {
        assert(row_facts(cols, cfg, d, start, 0));
        lemma_delta_matches(cfg, d, lrow, 0, sides);
        let rd = cfg.row_delta_full(lrow);
        assert(rd < fr_order()) by {
            lemma_row_delta_bound(cfg, lrow, sides);
        }
        lemma_fadd_zero(rd);
        vstd::arithmetic::div_mod::lemma_small_mod(rd, fr_order());
        assert(lrow[cfg.check_id as int] == d.lsum(0));
        lemma_fsub_self(rd);
    }
    // transition
    if i < d.h() - 1 {
        let nrow = trace_row(cols, i + 1);
        assert(row_facts(cols, cfg, d, start, i));
        assert(row_facts(cols, cfg, d, start, i + 1));
        lemma_delta_matches(cfg, d, nrow, i + 1, sides);
        let rd = cfg.row_delta_full(nrow);
        assert(rd < fr_order()) by {
            lemma_row_delta_bound(cfg, nrow, sides);
        }
        assert(d.lsum(i + 1) == fadd(d.lsum(i), rd));
        assert(lrow[cfg.check_id as int] == d.lsum(i));
        assert(nrow[cfg.check_id as int] == d.lsum(i + 1));
        lemma_fsub_cancel(d.lsum(i), rd);
        vstd::arithmetic::div_mod::lemma_small_mod(rd, fr_order());
        lemma_fsub_self(rd);
    }
    // last row
    if i == d.h() - 1 {
        assert(row_facts(cols, cfg, d, start, i));
        assert(lrow[cfg.check_id as int] == d.lsum(d.h() - 1));
    }
}

/// The values one trace row shows through the descriptor agree with
/// the witness data.
spec fn row_facts(
    cols: Seq<Seq<nat>>,
    cfg: AirLookupConfig,
    d: LookupData,
    start: int,
    i: int,
) -> bool {
    let row = trace_row(cols, i);
    &&& hsel(row, cfg.a_columns_ids@, d.alpha) == d.arow(i)
    &&& forall|t: int|
        0 <= t < d.sides() ==> hsel(row, (#[trigger] cfg.b_columns_ids@[t])@, d.alpha) == d.brow(
            t,
            i,
        )
    &&& row[cfg.a_filter_id as int] == d.af[i]
    &&& row[cfg.a_inverses_id as int] == finv(d.ach(i)) && row[cfg.a_inverses_id as int]
        < fr_order() && fmul(d.ach(i), row[cfg.a_inverses_id as int]) == 1
    &&& forall|t: int|
        0 <= t < d.sides() ==> row[#[trigger] cfg.b_filter_id@[t] as int] == d.bf[t][i]
    &&& forall|t: int|
        0 <= t < d.sides() ==> row[#[trigger] cfg.occurrences_id@[t] as int] == d.mult_at(t, i)
    &&& forall|t: int|
        0 <= t < d.sides() ==> row[#[trigger] cfg.b_inverses_id@[t] as int] == finv(d.bch(t, i))
            && row[cfg.b_inverses_id@[t] as int] < fr_order() && fmul(
            d.bch(t, i),
            row[cfg.b_inverses_id@[t] as int],
        ) == 1
    &&& row[cfg.check_id as int] == d.lsum(i)
}

/// Establishes `row_facts` for one row from the canonical descriptor
/// and the witness predicate.
proof fn lemma_row_facts(cols: Seq<Seq<nat>>, cfg: AirLookupConfig, d: LookupData, start: int, i: int)
    requires
        cfg.is_canonical(start, d.ka(), d.sw()),
        0 <= start,
        start + d.width() <= cols.len(),
        lookup_out(d, cols.subrange(start, start + d.width())),
        forall|c: int| 0 <= c < cols.len() ==> (#[trigger] cols[c]).len() == d.h(),
        0 <= i < d.h(),
    ensures
        row_facts(cols, cfg, d, start, i),
{
    let w = d.width();
    let sub = cols.subrange(start, start + w);
    let ka = d.ka();
    let sides = d.sides();
    let sw = d.sw();
    let row = trace_row(cols, i);
    lemma_sw_sum_nonneg(sw, sides);
    assert(cfg.a_columns_ids@.len() == ka) by {
        assert(ids(cfg.a_columns_ids@).len() == cfg.a_columns_ids@.len());
    }
    // the A columns
    assert forall|j: int| 0 <= j < ka implies (#[trigger] cfg.a_columns_ids@[j]) < row.len()
        && row[cfg.a_columns_ids@[j] as int] == d.am[j][i] by {
        assert(ids(cfg.a_columns_ids@)[j] == idx_range(start, ka)[j]);
        assert(sub[j] == cols[start + j]);
        assert(sub[j] == d.am[j]);
    }
    assert(d.am.len() == ka);
    lemma_hsel_matches(row, cfg.a_columns_ids@, d.am, i, d.alpha);
    // the B columns, side by side
    assert forall|t: int| 0 <= t < sides implies hsel(
        row,
        (#[trigger] cfg.b_columns_ids@[t])@,
        d.alpha,
    ) == d.brow(t, i) by {
        lemma_sw_sum_chain2(sw, t);
        lemma_sw_sum_chain(sw, t + 1, sides);
        lemma_sw_sum_nonneg(sw, t);
        assert(cfg.b_columns_ids@[t]@.len() == sw[t]) by {
            assert(ids(cfg.b_columns_ids@[t]@).len() == cfg.b_columns_ids@[t]@.len());
        }
        assert forall|j: int|
            0 <= j < cfg.b_columns_ids@[t]@.len() implies (#[trigger] cfg.b_columns_ids@[t]@[j])
                < row.len() && row[cfg.b_columns_ids@[t]@[j] as int] == d.bm[t][j][i] by {
            assert(ids(cfg.b_columns_ids@[t]@)[j] == idx_range(
                start + ka + sw_sum(sw, t),
                sw[t],
            )[j]);
            assert(d.ci_b(t, j) == ka + sw_sum(sw, t) + j);
            assert(sub[d.ci_b(t, j)] == cols[start + ka + sw_sum(sw, t) + j]);
            assert(sub[d.ci_b(t, j)] == d.bm[t][j]);
        }
        assert(d.bm[t].len() == sw[t]);
        lemma_hsel_matches(row, cfg.b_columns_ids@[t]@, d.bm[t], i, d.alpha);
    }
    // the scalar columns
    assert(sub[d.ci_af()] == cols[start + d.ci_af()]);
    assert(sub[d.ci_ai()] == cols[start + d.ci_ai()]);
    assert(sub[d.ci_chk()] == cols[start + d.ci_chk()]);
    assert forall|t: int| 0 <= t < sides implies row[#[trigger] cfg.b_filter_id@[t] as int]
        == d.bf[t][i] by {
        assert(cfg.b_filter_id@.len() == sides) by {
            assert(ids(cfg.b_filter_id@).len() == cfg.b_filter_id@.len());
        }
        assert(ids(cfg.b_filter_id@)[t] == idx_range(start + ka + sw_sum(sw, sides) + 1, sides)[t]);
        assert(cfg.b_filter_id@[t] as int == start + d.ci_bf(t));
        assert(row[start + d.ci_bf(t)] == cols[start + d.ci_bf(t)][i]);
        assert(sub[d.ci_bf(t)] == cols[start + d.ci_bf(t)]);
        assert(sub[d.ci_bf(t)] == d.bf[t]);
    }
    assert forall|t: int| 0 <= t < sides implies row[#[trigger] cfg.occurrences_id@[t] as int]
        == d.mult_at(t, i) by {
        assert(cfg.occurrences_id@.len() == sides) by {
            assert(ids(cfg.occurrences_id@).len() == cfg.occurrences_id@.len());
        }
        assert(ids(cfg.occurrences_id@)[t] == idx_range(
            start + ka + sw_sum(sw, sides) + 2 + 2 * sides,
            sides,
        )[t]);
        assert(cfg.occurrences_id@[t] as int == start + d.ci_m(t));
        assert(row[start + d.ci_m(t)] == cols[start + d.ci_m(t)][i]);
        assert(sub[d.ci_m(t)] == cols[start + d.ci_m(t)]);
    }
    assert forall|t: int| 0 <= t < sides implies row[#[trigger] cfg.b_inverses_id@[t] as int]
        == finv(d.bch(t, i)) && row[cfg.b_inverses_id@[t] as int] < fr_order() && fmul(
        d.bch(t, i),
        row[cfg.b_inverses_id@[t] as int],
    ) == 1 by {
        assert(cfg.b_inverses_id@.len() == sides) by {
            assert(ids(cfg.b_inverses_id@).len() == cfg.b_inverses_id@.len());
        }
        assert(ids(cfg.b_inverses_id@)[t] == idx_range(
            start + ka + sw_sum(sw, sides) + 2 + sides,
            sides,
        )[t]);
        assert(cfg.b_inverses_id@[t] as int == start + d.ci_bi(t));
        assert(row[start + d.ci_bi(t)] == cols[start + d.ci_bi(t)][i]);
        assert(sub[d.ci_bi(t)] == cols[start + d.ci_bi(t)]);
    }
}

/// The descriptor-read delta is a canonical value.
proof fn lemma_row_delta_bound(cfg: AirLookupConfig, row: Seq<nat>, s: int)
    ensures
        cfg.row_delta(row, s) < fr_order(),
{
    if s <= 0 {
        lemma_f_bounds(row[cfg.a_filter_id as int], row[cfg.a_inverses_id as int]);
    } else {
        lemma_f_bounds(
            cfg.row_delta(row, s - 1),
            fmul(
                fmul(row[cfg.b_filter_id@[s - 1] as int], row[cfg.occurrences_id@[s - 1] as int]),
                row[cfg.b_inverses_id@[s - 1] as int],
            ),
        );
    }
}

/// Every constraint a permutation descriptor emits evaluates to zero
/// under its selector, on every row of a trace whose columns at the
/// descriptor's range hold a generated witness.
pub proof fn lemma_perm_constraints_hold(
    cols: Seq<Seq<nat>>,
    cfg: AirPermutationConfig,
    d: PermData,
    start: int,
    i: int,
)
    requires
        cfg.is_canonical(start, d.w()),
        d.bm.len() == d.am.len(),
        0 <= start,
        start + 2 * d.w() + 2 <= cols.len(),
        perm_out(d, cols.subrange(start, start + 2 * d.w() + 2)),
        forall|c: int| 0 <= c < cols.len() ==> (#[trigger] cols[c]).len() == d.h(),
        0 <= i < d.h(),
    ensures
        cfg.inv_constraint(trace_row(cols, i), d.alpha, d.delta) == 0,
        i == 0 ==> cfg.first_constraint(trace_row(cols, 0), d.alpha, d.delta) == 0,
        i < d.h() - 1 ==> cfg.transition_constraint(
            trace_row(cols, i),
            trace_row(cols, i + 1),
            d.alpha,
            d.delta,
        ) == 0,
        i == d.h() - 1 ==> cfg.last_constraint(trace_row(cols, i)) == 0,
{
    let w = d.w();
    let sub = cols.subrange(start, start + 2 * w + 2);
    lemma_perm_cfg_in_range(cfg, start, w);
    assert forall|i2: int| 0 <= i2 < d.h() implies perm_row_facts(cols, cfg, d, start, i2) by {
        lemma_perm_row_facts(cols, cfg, d, start, i2);
    }
    let lrow = trace_row(cols, i);
    assert(perm_row_facts(cols, cfg, d, start, i));
    // inverse constraint
    assert(fmul(d.bch(i), lrow[cfg.b_inverse_id as int]) == 1);
    lemma_fsub_self(1);
    // first row
    if i == 0 {
        let t = fmul(d.ach(0), finv(d.bch(0)));
        assert(d.pprod(0) == fmul(d.pprod(-1), t));
        lemma_fmul_units(t);
        lemma_f_bounds(d.ach(0), finv(d.bch(0)));
        vstd::arithmetic::div_mod::lemma_small_mod(t, fr_order());
        assert(lrow[cfg.check_id as int] == d.pprod(0));
        lemma_fsub_self(t);
    }
    // transition
    if i < d.h() - 1 {
        let nrow = trace_row(cols, i + 1);
        assert(perm_row_facts(cols, cfg, d, start, i + 1));
        let t = fmul(d.ach(i + 1), finv(d.bch(i + 1)));
        assert(d.pprod(i + 1) == fmul(d.pprod(i), t));
        lemma_fmul_assoc(d.pprod(i), d.ach(i + 1), finv(d.bch(i + 1)));
        assert(nrow[cfg.check_id as int] == d.pprod(i + 1));
        assert(lrow[cfg.check_id as int] == d.pprod(i));
        lemma_fsub_self(d.pprod(i + 1));
    }
    // last row
    if i == d.h() - 1 {
        assert(lrow[cfg.check_id as int] == d.pprod(d.h() - 1));
        lemma_fsub_self(1);
    }
}

/// The values one trace row shows through a permutation descriptor
/// agree with the witness data.
spec fn perm_row_facts(
    cols: Seq<Seq<nat>>,
    cfg: AirPermutationConfig,
    d: PermData,
    start: int,
    i: int,
) -> bool {
    let row = trace_row(cols, i);
    &&& hsel(row, cfg.a_columns_ids@, d.alpha) == horner_at(d.am, d.alpha, i)
    &&& hsel(row, cfg.b_columns_ids@, d.alpha) == horner_at(d.bm, d.alpha, i)
    &&& row[cfg.b_inverse_id as int] == finv(d.bch(i)) && row[cfg.b_inverse_id as int]
        < fr_order() && fmul(d.bch(i), row[cfg.b_inverse_id as int]) == 1
    &&& row[cfg.check_id as int] == d.pprod(i)
}

/// Establishes `perm_row_facts` for one row.
proof fn lemma_perm_row_facts(
    cols: Seq<Seq<nat>>,
    cfg: AirPermutationConfig,
    d: PermData,
    start: int,
    i: int,
)
    requires
        cfg.is_canonical(start, d.w()),
        d.bm.len() == d.am.len(),
        0 <= start,
        start + 2 * d.w() + 2 <= cols.len(),
        perm_out(d, cols.subrange(start, start + 2 * d.w() + 2)),
        forall|c: int| 0 <= c < cols.len() ==> (#[trigger] cols[c]).len() == d.h(),
        0 <= i < d.h(),
    ensures
        perm_row_facts(cols, cfg, d, start, i),
{
    let w = d.w();
    let sub = cols.subrange(start, start + 2 * w + 2);
    let row = trace_row(cols, i);
    assert(cfg.a_columns_ids@.len() == w) by {
        assert(ids(cfg.a_columns_ids@).len() == cfg.a_columns_ids@.len());
    }
    assert(cfg.b_columns_ids@.len() == w) by {
        assert(ids(cfg.b_columns_ids@).len() == cfg.b_columns_ids@.len());
    }
    assert forall|j: int| 0 <= j < w implies (#[trigger] cfg.a_columns_ids@[j]) < row.len()
        && row[cfg.a_columns_ids@[j] as int] == d.am[j][i] by {
        assert(ids(cfg.a_columns_ids@)[j] == idx_range(start, w)[j]);
        assert(sub[j] == cols[start + j]);
        assert(sub[j] == d.am[j]);
    }
    lemma_hsel_matches(row, cfg.a_columns_ids@, d.am, i, d.alpha);
    assert forall|j: int| 0 <= j < w implies (#[trigger] cfg.b_columns_ids@[j]) < row.len()
        && row[cfg.b_columns_ids@[j] as int] == d.bm[j][i] by {
        assert(ids(cfg.b_columns_ids@)[j] == idx_range(start + w, w)[j]);
        assert(sub[w + j] == cols[start + w + j]);
        assert(sub[w + j] == d.bm[j]);
    }
    lemma_hsel_matches(row, cfg.b_columns_ids@, d.bm, i, d.alpha);
    assert(sub[2 * w] == cols[start + 2 * w]);
    assert(sub[2 * w + 1] == cols[start + 2 * w + 1]);
}

/// Two descriptors handed out back to back claim disjoint, contiguous
/// index ranges whose union is the whole prefix of the trace.
pub proof fn lemma_descriptor_ranges(c1: AirConfig, c2: AirConfig)
    requires
        c1.canonical_at(0),
        c2.canonical_at(c1.width_spec()),
    ensures
        c1.full_ids() == idx_range(0, c1.width_spec()),
        c2.full_ids() == idx_range(c1.width_spec(), c2.width_spec()),
        forall|x: int| !(c1.full_ids().contains(x) && c2.full_ids().contains(x)),
        forall|x: int|
            (0 <= x < c1.width_spec() + c2.width_spec()) <==> (c1.full_ids().contains(x)
                || c2.full_ids().contains(x)),
{
    lemma_cfg_range(c1, 0);
    lemma_cfg_range(c2, c1.width_spec());
    let w1 = c1.width_spec();
    let w2 = c2.width_spec();
    assert forall|x: int| !(c1.full_ids().contains(x) && c2.full_ids().contains(x)) by {
        if c1.full_ids().contains(x) {
            let k = choose|k: int| 0 <= k < c1.full_ids().len() && c1.full_ids()[k] == x;
            assert(x < w1);
            if c2.full_ids().contains(x) {
                let k2 = choose|k2: int| 0 <= k2 < c2.full_ids().len() && c2.full_ids()[k2] == x;
                assert(x >= w1);
            }
        }
    }
    assert forall|x: int|
        (0 <= x < w1 + w2) <==> (c1.full_ids().contains(x) || c2.full_ids().contains(x)) by {
        if 0 <= x < w1 {
            assert(c1.full_ids()[x] == x);
            assert(c1.full_ids().contains(x));
        } else if w1 <= x < w1 + w2 {
            assert(c2.full_ids()[x - w1] == x);
            assert(c2.full_ids().contains(x));
        }
        if c1.full_ids().contains(x) {
            let k = choose|k: int| 0 <= k < c1.full_ids().len() && c1.full_ids()[k] == x;
            assert(0 <= x < w1);
        }
        if c2.full_ids().contains(x) {
            let k = choose|k: int| 0 <= k < c2.full_ids().len() && c2.full_ids()[k] == x;
            assert(w1 <= x < w1 + w2);
        }
    }
}

/// A canonical descriptor's ids are exactly its contiguous range.
proof fn lemma_cfg_range(c: AirConfig, start: int)
    requires
        c.canonical_at(start),
    ensures
        c.full_ids() == idx_range(start, c.width_spec()),
        c.full_ids().len() == c.width_spec(),
        c.width_spec() >= 0,
{
    match c {
        AirConfig::Lookup(cfg) => {
            lemma_lookup_cfg_in_range(cfg, start, cfg.a_columns_ids@.len() as int, cfg.own_sw());
            crate::layout::lemma_flat_len_nonneg(cfg.b_columns_ids@);
        },
        AirConfig::Permutation(cfg) => {
            lemma_perm_cfg_in_range(cfg, start, cfg.a_columns_ids@.len() as int);
        },
    }
}

} // verus!

verus! {

/// The product of a sequence of canonical values, folded left to
/// right from one.
pub open spec fn fprod(s: Seq<nat>) -> nat
    decreases s.len(),
{
    if s.len() == 0 {
        1
    } else {
        fmul(fprod(s.drop_last()), s.last())
    }
}

/// Any factor can be taken out of the product.
proof fn lemma_fprod_remove(s: Seq<nat>, j: int)
    requires
        0 <= j < s.len(),
    ensures
        fprod(s) == fmul(fprod(s.remove(j)), s[j]),
    decreases s.len(),
{
    if j == s.len() - 1 {
        assert(s.remove(j) =~= s.drop_last());
    } else {
        let dl = s.drop_last();
        lemma_fprod_remove(dl, j);
        assert(s.remove(j).drop_last() =~= dl.remove(j));
        assert(s.remove(j).last() == s.last());
        // reorder the two extracted factors
        lemma_fmul_assoc(fprod(dl.remove(j)), s[j], s.last());
        lemma_fmul_assoc(fprod(dl.remove(j)), s.last(), s[j]);
        assert(s[j] * s.last() == s.last() * s[j]) by {
            vstd::arithmetic::mul::lemma_mul_is_commutative(s[j] as int, s.last() as int);
        }
    }
}

/// Products only see the multiset of their factors.
proof fn lemma_fprod_multiset(s1: Seq<nat>, s2: Seq<nat>)
    requires
        s1.to_multiset() == s2.to_multiset(),
    ensures
        fprod(s1) == fprod(s2),
    decreases s1.len(),
{
    broadcast use vstd::seq_lib::group_to_multiset_ensures;

    if s1.len() == 0 {
        assert(s1.to_multiset().len() == s1.len());
        assert(s2.to_multiset().len() == s2.len());
        assert(s2.len() == 0);
    } else {
        let x = s1.last();
        assert(s1.contains(x));
        assert(s1.to_multiset().count(x) > 0);
        assert(s2.to_multiset().count(x) > 0);
        assert(s2.contains(x));
        let j = choose|j: int| 0 <= j < s2.len() && s2[j] == x;
        lemma_fprod_remove(s2, j);
        assert(s1.remove(s1.len() - 1) =~= s1.drop_last());
        assert(s1.drop_last().to_multiset() =~= s1.to_multiset().remove(x));
        assert(s2.remove(j).to_multiset() =~= s2.to_multiset().remove(x));
        lemma_fprod_multiset(s1.drop_last(), s2.remove(j));
    }
}

/// Applying one function to two sequences with equal multisets gives
/// equal multisets again.
proof fn lemma_map_multiset(s1: Seq<nat>, s2: Seq<nat>, f: spec_fn(nat) -> nat)
    requires
        s1.to_multiset() == s2.to_multiset(),
    ensures
        s1.map_values(f).to_multiset() == s2.map_values(f).to_multiset(),
    decreases s1.len(),
{
    broadcast use vstd::seq_lib::group_to_multiset_ensures;

    if s1.len() == 0 {
        assert(s1.to_multiset().len() == s1.len());
        assert(s2.to_multiset().len() == s2.len());
        assert(s2.len() == 0);
        assert(s1.map_values(f).to_multiset() =~= s2.map_values(f).to_multiset());
    } else {
        let x = s1.last();
        assert(s1.contains(x));
        assert(s1.to_multiset().count(x) > 0);
        assert(s2.to_multiset().count(x) > 0);
        assert(s2.contains(x));
        let j = choose|j: int| 0 <= j < s2.len() && s2[j] == x;
        assert(s1.remove(s1.len() - 1) =~= s1.drop_last());
        assert(s1.drop_last().to_multiset() =~= s1.to_multiset().remove(x));
        assert(s2.remove(j).to_multiset() =~= s2.to_multiset().remove(x));
        lemma_map_multiset(s1.drop_last(), s2.remove(j), f);
        let m1 = s1.map_values(f);
        let m2 = s2.map_values(f);
        assert(s1.drop_last().map_values(f) =~= m1.drop_last());
        assert(s2.remove(j).map_values(f) =~= m2.remove(j));
        assert(m1.remove(m1.len() - 1) =~= m1.drop_last());
        assert(m1.drop_last().to_multiset() =~= m1.to_multiset().remove(f(x)));
        assert(m2[j] == f(x));
        assert(m2.remove(j).to_multiset() =~= m2.to_multiset().remove(f(x)));
        assert(m1.to_multiset().count(f(x)) > 0) by {
            assert(m1[m1.len() - 1] == f(x));
            assert(m1.contains(f(x)));
        }
        assert(m2.to_multiset().count(f(x)) > 0) by {
            assert(m2.contains(f(x)));
        }
        assert(m1.to_multiset() =~= m1.to_multiset().remove(f(x)).insert(f(x)));
        assert(m2.to_multiset() =~= m2.to_multiset().remove(f(x)).insert(f(x)));
    }
}

/// The shifted A rows of a permutation argument, as a sequence.
pub open spec fn ach_seq(d: PermData, k: int) -> Seq<nat> {
    Seq::new(k as nat, |i: int| d.ach(i))
}

/// The shifted B rows of a permutation argument, as a sequence.
pub open spec fn bch_seq(d: PermData, k: int) -> Seq<nat> {
    Seq::new(k as nat, |i: int| d.bch(i))
}

/// The inverses of the shifted B rows, as a sequence.
pub open spec fn binv_seq(d: PermData, k: int) -> Seq<nat> {
    Seq::new(k as nat, |i: int| finv(d.bch(i)))
}

/// The running product splits into a product of shifted A rows times
/// a product of B inverses.
proof fn lemma_pprod_split(d: PermData, k: int)
    requires
        k >= 0,
    ensures
        d.pprod(k - 1) == fmul(fprod(ach_seq(d, k)), fprod(binv_seq(d, k))),
    decreases k,
{
    if k == 0 {
        assert(ach_seq(d, 0) =~= Seq::<nat>::empty());
        assert(binv_seq(d, 0) =~= Seq::<nat>::empty());
        assert(fmul(1, 1) == 1nat % fr_order());
        vstd::arithmetic::div_mod::lemma_small_mod(1nat, fr_order());
    } else {
        lemma_pprod_split(d, k - 1);
        let pa = fprod(ach_seq(d, k - 1));
        let pb = fprod(binv_seq(d, k - 1));
        let a = d.ach(k - 1);
        let b = finv(d.bch(k - 1));
        assert(ach_seq(d, k).drop_last() =~= ach_seq(d, k - 1));
        assert(binv_seq(d, k).drop_last() =~= binv_seq(d, k - 1));
        assert(ach_seq(d, k).last() == a);
        assert(binv_seq(d, k).last() == b);
        // fmul(fmul(pa, pb), fmul(a, b)) == fmul(fmul(pa, a), fmul(pb, b))
        lemma_fmul_assoc(fmul(pa, pb), a, b);
        lemma_fmul_assoc(pa, pb, a);
        lemma_fmul_assoc(pa, a, pb);
        assert(pb * a == a * pb) by {
            vstd::arithmetic::mul::lemma_mul_is_commutative(pb as int, a as int);
        }
        lemma_fmul_assoc(fmul(pa, a), pb, b);
    }
}

/// Pairing every shifted B row with its inverse collapses the two
/// products to one.
proof fn lemma_pair_cancel(d: PermData, k: int)
    requires
        k >= 0,
        forall|i: int| 0 <= i < k ==> fmul(#[trigger] d.bch(i), finv(d.bch(i))) == 1,
    ensures
        fmul(fprod(bch_seq(d, k)), fprod(binv_seq(d, k))) == 1,
    decreases k,
{
    if k == 0 {
        assert(bch_seq(d, 0) =~= Seq::<nat>::empty());
        assert(binv_seq(d, 0) =~= Seq::<nat>::empty());
        vstd::arithmetic::div_mod::lemma_small_mod(1nat, fr_order());
    } else {
        lemma_pair_cancel(d, k - 1);
        let pb = fprod(bch_seq(d, k - 1));
        let pi = fprod(binv_seq(d, k - 1));
        let x = d.bch(k - 1);
        let y = finv(d.bch(k - 1));
        assert(bch_seq(d, k).drop_last() =~= bch_seq(d, k - 1));
        assert(binv_seq(d, k).drop_last() =~= binv_seq(d, k - 1));
        assert(bch_seq(d, k).last() == x);
        assert(binv_seq(d, k).last() == y);
        lemma_fmul_assoc(fmul(pb, x), pi, y);
        lemma_fmul_assoc(pb, x, pi);
        lemma_fmul_assoc(pb, pi, x);
        assert(x * pi == pi * x) by {
            vstd::arithmetic::mul::lemma_mul_is_commutative(x as int, pi as int);
        }
        lemma_fmul_assoc(fmul(pb, pi), x, y);
        assert(fmul(fmul(pb, pi), fmul(x, y)) == fmul(1nat, 1nat));
        vstd::arithmetic::div_mod::lemma_small_mod(1nat, fr_order());
    }
}

/// A permutation argument whose folded A rows form the same multiset
/// as its folded B rows has an all-defined witness whose running
/// product ends at one. The inverses of the shifted B rows must
/// exist, which any successful generation run witnesses.
pub proof fn lemma_perm_product_is_one(d: PermData)
    requires
        Seq::new(d.h() as nat, |i: int| horner_at(d.am, d.alpha, i)).to_multiset() == Seq::new(
            d.h() as nat,
            |i: int| horner_at(d.bm, d.alpha, i),
        ).to_multiset(),
        forall|i: int|
            0 <= i < d.h() ==> exists|y: nat|
                y < fr_order() && fmul(#[trigger] d.bch(i), y) == 1,
    ensures
        d.zero_free(),
        d.pprod(d.h() - 1) == 1,
{
    let h = d.h();
    // every shifted B row is invertible, so none is zero
    assert forall|i: int| 0 <= i < h implies #[trigger] d.bch(i) != 0 by {
        let y = choose|y: nat| y < fr_order() && fmul(d.bch(i), y) == 1;
        if d.bch(i) == 0 {
            crate::field::lemma_fmul_units(y);
        }
    }
    assert forall|i: int| 0 <= i < h implies fmul(#[trigger] d.bch(i), finv(d.bch(i))) == 1 by {
        let y = choose|y: nat| y < fr_order() && fmul(d.bch(i), y) == 1;
        crate::field::lemma_finv_agrees(d.bch(i), y);
    }
    // the shifted rows keep equal multisets
    let fshift = |x: nat| fadd(x, d.delta);
    let ra = Seq::new(h as nat, |i: int| horner_at(d.am, d.alpha, i));
    let rb = Seq::new(h as nat, |i: int| horner_at(d.bm, d.alpha, i));
    lemma_map_multiset(ra, rb, fshift);
    assert(ra.map_values(fshift) =~= ach_seq(d, h));
    assert(rb.map_values(fshift) =~= bch_seq(d, h));
    // split, exchange, and cancel
    lemma_pprod_split(d, h);
    lemma_fprod_multiset(ach_seq(d, h), bch_seq(d, h));
    lemma_pair_cancel(d, h);
}

} // verus!

verus! {

/// Folding reads each column only at row `i`.
proof fn lemma_horner_eq(c1: Seq<Seq<nat>>, c2: Seq<Seq<nat>>, alpha: nat, i: int)
    requires
        c1.len() == c2.len(),
        forall|j: int| 0 <= j < c1.len() ==> #[trigger] c1[j][i] == c2[j][i],
    ensures
        horner_at(c1, alpha, i) == horner_at(c2, alpha, i),
    decreases c1.len(),
{
    if c1.len() > 0 {
        assert forall|j: int| 0 <= j < c1.drop_last().len() implies #[trigger] c1.drop_last()[j][i]
            == c2.drop_last()[j][i] by {
            assert(c1.drop_last()[j] == c1[j]);
            assert(c2.drop_last()[j] == c2[j]);
        }
        lemma_horner_eq(c1.drop_last(), c2.drop_last(), alpha, i);
        assert(c1.last()[i] == c2.last()[i]) by {
            assert(c1[c1.len() - 1][i] == c2[c1.len() - 1][i]);
        }
    }
}

/// A row of zeros folds to zero.
proof fn lemma_horner_zero(cols: Seq<Seq<nat>>, alpha: nat, i: int)
    requires
        forall|j: int| 0 <= j < cols.len() ==> #[trigger] cols[j][i] == 0,
    ensures
        horner_at(cols, alpha, i) == 0,
    decreases cols.len(),
{
    if cols.len() > 0 {
        assert forall|j: int| 0 <= j < cols.drop_last().len() implies #[trigger] cols.drop_last(
        )[j][i] == 0 by {
            assert(cols.drop_last()[j] == cols[j]);
        }
        lemma_horner_zero(cols.drop_last(), alpha, i);
        lemma_fmul_units(alpha);
        assert(cols.last()[i] == 0) by {
            assert(cols[cols.len() - 1][i] == 0);
        }
        vstd::arithmetic::div_mod::lemma_small_mod(0nat, fr_order());
    }
}

/// The padded lookup data agrees with the original on the original
/// rows and is filter-disabled on the padding rows.
proof fn lemma_pad_lookup_rows(d: LookupData, n: int)
    requires
        d.wf(),
        n >= d.h(),
    ensures
        ({
            let dp = crate::witness::pad_lookup(d, n);
            &&& dp.h() == n
            &&& dp.ka() == d.ka()
            &&& dp.sides() == d.sides()
            &&& dp.sw() == d.sw()
            &&& forall|i: int| 0 <= i < d.h() ==> #[trigger] dp.arow(i) == d.arow(i)
            &&& forall|s: int, i: int|
                0 <= s < d.sides() && 0 <= i < d.h() ==> #[trigger] dp.brow(s, i) == d.brow(s, i)
            &&& forall|i: int| 0 <= i < d.h() ==> #[trigger] dp.af[i] == d.af[i]
            &&& forall|i: int| d.h() <= i < n ==> #[trigger] dp.af[i] == 0
            &&& forall|s: int, i: int|
                0 <= s < d.sides() && 0 <= i < d.h() ==> #[trigger] dp.bf[s][i] == d.bf[s][i]
            &&& forall|s: int, i: int|
                0 <= s < d.sides() && d.h() <= i < n ==> #[trigger] dp.bf[s][i] == 0
        }),
{
    let dp = crate::witness::pad_lookup(d, n);
    let h = d.h();
    assert(dp.sw() =~= d.sw()) by {
        assert forall|s: int| 0 <= s < d.sides() implies #[trigger] dp.bm[s].len()
            == d.bm[s].len() by {}
    }
    assert forall|i: int| 0 <= i < h implies #[trigger] dp.arow(i) == d.arow(i) by {
        assert forall|j: int| 0 <= j < dp.am.len() implies #[trigger] dp.am[j][i]
            == d.am[j][i] by {
            assert(dp.am[j] == crate::witness::padv(d.am[j], n));
        }
        lemma_horner_eq(dp.am, d.am, d.alpha, i);
    }
    assert forall|s: int, i: int|
        0 <= s < d.sides() && 0 <= i < h implies #[trigger] dp.brow(s, i) == d.brow(s, i) by {
        assert(dp.bm[s] == d.bm[s].map_values(|c: Seq<nat>| crate::witness::padv(c, n)));
        assert forall|j: int| 0 <= j < dp.bm[s].len() implies #[trigger] dp.bm[s][j][i]
            == d.bm[s][j][i] by {
            assert(dp.bm[s][j] == crate::witness::padv(d.bm[s][j], n));
        }
        lemma_horner_eq(dp.bm[s], d.bm[s], d.alpha, i);
    }
    assert forall|s: int, i: int|
        0 <= s < d.sides() && 0 <= i < h implies #[trigger] dp.bf[s][i] == d.bf[s][i] by {
        assert(dp.bf[s] == crate::witness::padv(d.bf[s], n));
    }
    assert forall|s: int, i: int|
        0 <= s < d.sides() && h <= i < n implies #[trigger] dp.bf[s][i] == 0 by {
        assert(dp.bf[s] == crate::witness::padv(d.bf[s], n));
    }
}

/// Occurrence counting ignores the filter-disabled padding rows.
proof fn lemma_pad_occ_full(d: LookupData, n: int, i: int)
    requires
        d.wf(),
        n >= d.h(),
        0 <= i <= n,
    ensures
        crate::witness::pad_lookup(d, n).occ_full(i) == d.occ_full(
            if i <= d.h() {
                i
            } else {
                d.h()
            },
        ),
    decreases i,
{
    lemma_pad_lookup_rows(d, n);
    if i > 0 {
        lemma_pad_occ_full(d, n, i - 1);
    }
}

/// Cell consumption agrees on the original rows.
proof fn lemma_pad_occ_at(d: LookupData, n: int, t: int)
    requires
        d.wf(),
        n >= d.h(),
        0 <= t <= d.h() * d.sides(),
    ensures
        crate::witness::pad_lookup(d, n).occ_at(t) == d.occ_at(t),
    decreases t,
{
    let dp = crate::witness::pad_lookup(d, n);
    let ss = d.sides();
    lemma_pad_lookup_rows(d, n);
    if t <= 0 || ss <= 0 {
        lemma_pad_occ_full(d, n, n);
    } else {
        lemma_pad_occ_at(d, n, t - 1);
        let i = (t - 1) / ss;
        let s = (t - 1) % ss;
        vstd::arithmetic::mul::lemma_mul_is_commutative(d.h(), ss);
        assert(t - 1 < ss * d.h());
        vstd::arithmetic::div_mod::lemma_multiply_divide_lt(t - 1, ss, d.h());
        vstd::arithmetic::div_mod::lemma_div_pos_is_pos(t - 1, ss);
        vstd::arithmetic::div_mod::lemma_mod_bound(t - 1, ss);
        vstd::arithmetic::div_mod::lemma_fundamental_div_mod(t - 1, ss);
        assert(0 <= i < d.h() && 0 <= s < ss);
    }
}

/// Consumption stops on the padding rows: their filters are zero.
proof fn lemma_pad_occ_at_hi(d: LookupData, n: int, t: int)
    requires
        d.wf(),
        n >= d.h(),
        d.h() * d.sides() <= t <= n * d.sides(),
    ensures
        crate::witness::pad_lookup(d, n).occ_at(t) == d.occ_at(d.h() * d.sides()),
    decreases t,
{
    let dp = crate::witness::pad_lookup(d, n);
    let ss = d.sides();
    lemma_pad_lookup_rows(d, n);
    if t == d.h() * ss {
        vstd::arithmetic::mul::lemma_mul_nonnegative(d.h(), ss);
        lemma_pad_occ_at(d, n, t);
    } else {
        lemma_pad_occ_at_hi(d, n, t - 1);
        if ss > 0 {
            let i = (t - 1) / ss;
            let s = (t - 1) % ss;
            vstd::arithmetic::mul::lemma_mul_is_commutative(n, ss);
            assert(t - 1 < ss * n);
            vstd::arithmetic::div_mod::lemma_multiply_divide_lt(t - 1, ss, n);
            vstd::arithmetic::div_mod::lemma_div_pos_is_pos(t - 1, ss);
            vstd::arithmetic::div_mod::lemma_mod_bound(t - 1, ss);
            assert(i < n);
            assert(i >= d.h()) by {
                vstd::arithmetic::div_mod::lemma_div_is_ordered(d.h() * ss, t - 1, ss);
                vstd::arithmetic::div_mod::lemma_div_multiples_vanish(d.h(), ss);
                vstd::arithmetic::mul::lemma_mul_is_commutative(ss, d.h());
            }
            assert(dp.bf[s][i] == 0);
        }
    }
}

/// Multiplicities agree on the original rows and vanish on the
/// padding rows.
proof fn lemma_pad_mult(d: LookupData, n: int)
    requires
        d.wf(),
        n >= d.h(),
    ensures
        forall|s: int, i: int|
            0 <= s < d.sides() && 0 <= i < d.h() ==> #[trigger] crate::witness::pad_lookup(
                d,
                n,
            ).mult_at(s, i) == d.mult_at(s, i),
        forall|s: int, i: int|
            0 <= s < d.sides() && d.h() <= i < n ==> #[trigger] crate::witness::pad_lookup(
                d,
                n,
            ).mult_at(s, i) == 0,
{
    let dp = crate::witness::pad_lookup(d, n);
    let ss = d.sides();
    lemma_pad_lookup_rows(d, n);
    assert forall|s: int, i: int|
        0 <= s < ss && 0 <= i < d.h() implies #[trigger] dp.mult_at(s, i) == d.mult_at(s, i) by {
        vstd::arithmetic::mul::lemma_mul_inequality(i + 1, d.h(), ss);
        vstd::arithmetic::mul::lemma_mul_is_distributive_add_other_way(ss, i, 1);
        lemma_pad_occ_at(d, n, i * ss + s);
    }
    assert forall|s: int, i: int|
        0 <= s < ss && d.h() <= i < n implies #[trigger] dp.mult_at(s, i) == 0 by {
        assert(dp.bf[s][i] == 0);
    }
}

/// The running sum agrees on the original rows.
proof fn lemma_pad_side_sum(d: LookupData, n: int, i: int, s: int)
    requires
        d.wf(),
        n >= d.h(),
        0 <= i < d.h(),
        0 <= s <= d.sides(),
    ensures
        crate::witness::pad_lookup(d, n).side_sum(i, s) == d.side_sum(i, s),
    decreases i, s,
{
    let dp = crate::witness::pad_lookup(d, n);
    lemma_pad_lookup_rows(d, n);
    lemma_pad_mult(d, n);
    if s == 0 {
        if i > 0 {
            lemma_pad_side_sum(d, n, i - 1, d.sides());
        }
    } else {
        lemma_pad_side_sum(d, n, i, s - 1);
    }
}

/// Past the last original row the running sum stands still.
proof fn lemma_pad_row_flat(d: LookupData, n: int, i: int, s: int)
    requires
        d.wf(),
        n >= d.h(),
        d.h() <= i < n,
        0 <= s <= d.sides(),
    ensures
        crate::witness::pad_lookup(d, n).side_sum(i, s) == crate::witness::pad_lookup(
            d,
            n,
        ).side_sum(i, 0),
    decreases s,
{
    let dp = crate::witness::pad_lookup(d, n);
    lemma_pad_lookup_rows(d, n);
    lemma_pad_mult(d, n);
    if s > 0 {
        lemma_pad_row_flat(d, n, i, s - 1);
        let t = fmul(dp.mult_at(s - 1, i), finv(dp.bch(s - 1, i)));
        assert(dp.mult_at(s - 1, i) == 0);
        lemma_fmul_units(finv(dp.bch(s - 1, i)));
        lemma_side_sum_bound(dp, i, s - 1);
        crate::field::lemma_fsub_zero(dp.side_sum(i, s - 1));
        vstd::arithmetic::div_mod::lemma_small_mod(dp.side_sum(i, s - 1), fr_order());
    }
}

/// The terminal running sum of the padded argument is the original
/// terminal sum.
proof fn lemma_pad_lsum_hi(d: LookupData, n: int, i: int)
    requires
        d.wf(),
        n >= d.h(),
        d.h() - 1 <= i < n,
    ensures
        crate::witness::pad_lookup(d, n).lsum(i) == d.lsum(d.h() - 1),
    decreases i,
{
    let dp = crate::witness::pad_lookup(d, n);
    lemma_pad_lookup_rows(d, n);
    if i == d.h() - 1 {
        lemma_pad_side_sum(d, n, i, d.sides());
    } else {
        lemma_pad_lsum_hi(d, n, i - 1);
        lemma_pad_row_flat(d, n, i, d.sides());
        assert(dp.af[i] == 0);
        assert(dp.side_sum(i, 0) == dp.side_sum(i - 1, dp.sides()));
    }
}

/// Growing a lookup argument to a larger height keeps its witness:
/// the multiplicities and running sums of the original rows are
/// untouched, the padding rows are filter-disabled and leave the sum
/// standing, and the terminal sum is the original terminal sum.
pub proof fn lemma_lookup_padding_preserves_witness(d: LookupData, n: int)
    requires
        d.wf(),
        n >= d.h(),
    ensures
        crate::witness::pad_lookup(d, n).h() == n,
        forall|i: int|
            0 <= i < d.h() ==> #[trigger] crate::witness::pad_lookup(d, n).lsum(i) == d.lsum(i),
        forall|s: int, i: int|
            0 <= s < d.sides() && 0 <= i < d.h() ==> #[trigger] crate::witness::pad_lookup(
                d,
                n,
            ).mult_at(s, i) == d.mult_at(s, i),
        forall|i: int|
            d.h() - 1 <= i < n ==> #[trigger] crate::witness::pad_lookup(d, n).lsum(i) == d.lsum(
                d.h() - 1,
            ),
        crate::witness::pad_lookup(d, n).lsum(n - 1) == d.lsum(d.h() - 1),
{
    lemma_pad_mult(d, n);
    assert forall|i: int| 0 <= i < d.h() implies #[trigger] crate::witness::pad_lookup(
        d,
        n,
    ).lsum(i) == d.lsum(i) by {
        lemma_pad_side_sum(d, n, i, d.sides());
        lemma_pad_lookup_rows(d, n);
    }
    assert forall|i: int| d.h() - 1 <= i < n implies #[trigger] crate::witness::pad_lookup(
        d,
        n,
    ).lsum(i) == d.lsum(d.h() - 1) by {
        lemma_pad_lsum_hi(d, n, i);
    }
}

/// Growing a permutation argument to a larger height keeps its
/// witness: the padded rows fold to zero on both sides, so each
/// contributes the factor one, and the running product stands still.
/// The shifted zero row must be invertible, which any successful
/// generation run on the padded argument witnesses.
pub proof fn lemma_perm_padding_preserves_witness(d: PermData, n: int)
    requires
        d.wf(),
        n >= d.h(),
        exists|y: nat| y < fr_order() && fmul(#[trigger] fadd(0, d.delta), y) == 1,
    ensures
        crate::witness::pad_perm(d, n).h() == n,
        forall|i: int|
            0 <= i < d.h() ==> #[trigger] crate::witness::pad_perm(d, n).pprod(i) == d.pprod(i),
        forall|i: int|
            d.h() - 1 <= i < n ==> #[trigger] crate::witness::pad_perm(d, n).pprod(i) == d.pprod(
                d.h() - 1,
            ),
{
    let dp = crate::witness::pad_perm(d, n);
    let h = d.h();
    assert(dp.h() == n) by {
        assert(dp.am[0] == crate::witness::padv(d.am[0], n));
    }
    assert forall|i: int| 0 <= i < h implies dp.ach(i) == d.ach(i) && dp.bch(i) == d.bch(i) by {
        assert forall|j: int| 0 <= j < dp.am.len() implies #[trigger] dp.am[j][i]
            == d.am[j][i] by {
            assert(dp.am[j] == crate::witness::padv(d.am[j], n));
        }
        assert forall|j: int| 0 <= j < dp.bm.len() implies #[trigger] dp.bm[j][i]
            == d.bm[j][i] by {
            assert(dp.bm[j] == crate::witness::padv(d.bm[j], n));
        }
        lemma_horner_eq(dp.am, d.am, d.alpha, i);
        lemma_horner_eq(dp.bm, d.bm, d.alpha, i);
    }
    assert forall|i: int| 0 <= i < h implies #[trigger] dp.pprod(i) == d.pprod(i) by {
        lemma_pad_pprod_low(d, n, i);
    }
    assert forall|i: int| h - 1 <= i < n implies #[trigger] dp.pprod(i) == d.pprod(h - 1) by {
        lemma_pad_pprod_hi(d, n, i);
    }
}

/// The running products agree on the original rows.
proof fn lemma_pad_pprod_low(d: PermData, n: int, i: int)
    requires
        d.wf(),
        n >= d.h(),
        0 <= i < d.h(),
    ensures
        crate::witness::pad_perm(d, n).pprod(i) == d.pprod(i),
    decreases i + 1,
{
    let dp = crate::witness::pad_perm(d, n);
    if i > 0 {
        lemma_pad_pprod_low(d, n, i - 1);
    }
    assert forall|j: int| 0 <= j < dp.am.len() implies #[trigger] dp.am[j][i] == d.am[j][i] by {
        assert(dp.am[j] == crate::witness::padv(d.am[j], n));
    }
    assert forall|j: int| 0 <= j < dp.bm.len() implies #[trigger] dp.bm[j][i] == d.bm[j][i] by {
        assert(dp.bm[j] == crate::witness::padv(d.bm[j], n));
    }
    lemma_horner_eq(dp.am, d.am, d.alpha, i);
    lemma_horner_eq(dp.bm, d.bm, d.alpha, i);
    assert(dp.ach(i) == d.ach(i) && dp.bch(i) == d.bch(i));
    assert(dp.pprod(i) == fmul(dp.pprod(i - 1), fmul(dp.ach(i), finv(dp.bch(i)))));
    assert(d.pprod(i) == fmul(d.pprod(i - 1), fmul(d.ach(i), finv(d.bch(i)))));
}

/// Past the last original row, each padded row multiplies the product
/// by one.
proof fn lemma_pad_pprod_hi(d: PermData, n: int, i: int)
    requires
        d.wf(),
        n >= d.h(),
        d.h() - 1 <= i < n,
        exists|y: nat| y < fr_order() && fmul(#[trigger] fadd(0, d.delta), y) == 1,
    ensures
        crate::witness::pad_perm(d, n).pprod(i) == d.pprod(d.h() - 1),
    decreases i,
{
    let dp = crate::witness::pad_perm(d, n);
    let h = d.h();
    if i == h - 1 {
        lemma_pad_pprod_low(d, n, i);
    } else {
        lemma_pad_pprod_hi(d, n, i - 1);
        // the padded row folds to zero on both sides
        assert forall|j: int| 0 <= j < dp.am.len() implies #[trigger] dp.am[j][i] == 0 by {
            assert(dp.am[j] == crate::witness::padv(d.am[j], n));
        }
        assert forall|j: int| 0 <= j < dp.bm.len() implies #[trigger] dp.bm[j][i] == 0 by {
            assert(dp.bm[j] == crate::witness::padv(d.bm[j], n));
        }
        lemma_horner_zero(dp.am, d.alpha, i);
        lemma_horner_zero(dp.bm, d.alpha, i);
        let x = fadd(0, d.delta);
        assert(dp.ach(i) == x && dp.bch(i) == x);
        let y = choose|y: nat| y < fr_order() && fmul(x, y) == 1;
        crate::field::lemma_finv_agrees(x, y);
        assert(fmul(x, finv(x)) == 1);
        lemma_pprod_bound(dp, i - 1);
        crate::field::lemma_fmul_units(dp.pprod(i - 1));
        vstd::arithmetic::div_mod::lemma_small_mod(dp.pprod(i - 1), fr_order());
    }
}

} // verus!

verus! {

/// Pushing the same lookup at a larger height produces witness
/// columns that agree with the original ones on every original row:
/// the raw columns by construction, the inverse columns because the
/// folded rows agree, and the multiplicity and check columns because
/// padding rows are filter-disabled.
pub proof fn lemma_lookup_roundtrip(
    d: LookupData,
    n: int,
    cols1: Seq<Seq<nat>>,
    cols2: Seq<Seq<nat>>,
)
    requires
        d.wf(),
        n >= d.h(),
        lookup_out(d, cols1),
        lookup_out(crate::witness::pad_lookup(d, n), cols2),
    ensures
        cols2.len() == cols1.len(),
        forall|c: int, i: int|
            0 <= c < cols1.len() && 0 <= i < d.h() ==> #[trigger] cols2[c][i] == cols1[c][i],
{
    let dp = crate::witness::pad_lookup(d, n);
    let ka = d.ka();
    let sides = d.sides();
    let sw = d.sw();
    lemma_pad_lookup_rows(d, n);
    lemma_pad_mult(d, n);
    lemma_lookup_padding_preserves_witness(d, n);
    lemma_sw_sum_nonneg(sw, sides);
    assert(dp.ci_af() == d.ci_af());
    assert(dp.ci_ai() == d.ci_ai());
    assert(dp.ci_chk() == d.ci_chk());
    assert(dp.width() == d.width());
    assert(cols2.len() == cols1.len());
    assert forall|c: int, i: int|
        0 <= c < cols1.len() && 0 <= i < d.h() implies #[trigger] cols2[c][i] == cols1[c][i] by {
        if c < ka {
            assert(cols1[c] == d.am[c]);
            assert(cols2[c] == dp.am[c]);
            assert(dp.am[c] == crate::witness::padv(d.am[c], n));
        } else if c < d.ci_af() {
            lemma_sw_pos(sw, sides, c - ka);
            let (t, j) = choose|t: int, j: int|
                0 <= t < sides && 0 <= j < sw[t] && c - ka == #[trigger] crate::layout::side_pos(
                    sw,
                    t,
                    j,
                );
            assert(c == d.ci_b(t, j) && c == dp.ci_b(t, j));
            assert(cols1[d.ci_b(t, j)] == d.bm[t][j]);
            assert(cols2[dp.ci_b(t, j)] == dp.bm[t][j]);
            assert(dp.bm[t] == d.bm[t].map_values(|cc: Seq<nat>| crate::witness::padv(cc, n)));
            assert(dp.bm[t][j] == crate::witness::padv(d.bm[t][j], n));
        } else if c == d.ci_af() {
            assert(cols1[c] == d.af);
            assert(cols2[c] == dp.af);
        } else if c < d.ci_ai() {
            let t = c - (d.ci_af() + 1);
            assert(c == d.ci_bf(t) && c == dp.ci_bf(t));
            assert(cols1[d.ci_bf(t)] == d.bf[t]);
            assert(cols2[dp.ci_bf(t)] == dp.bf[t]);
            assert(dp.bf[t] == crate::witness::padv(d.bf[t], n));
        } else if c == d.ci_ai() {
            assert(cols1[d.ci_ai()][i] == finv(d.ach(i)));
            assert(cols2[dp.ci_ai()][i] == finv(dp.ach(i)));
        } else if c < d.ci_ai() + 1 + sides {
            let t = c - (d.ci_ai() + 1);
            assert(c == d.ci_bi(t) && c == dp.ci_bi(t));
            assert(cols1[d.ci_bi(t)][i] == finv(d.bch(t, i)));
            assert(cols2[dp.ci_bi(t)][i] == finv(dp.bch(t, i)));
        } else if c < d.ci_chk() {
            let t = c - (d.ci_ai() + 1 + sides);
            assert(c == d.ci_m(t) && c == dp.ci_m(t));
            assert(cols1[d.ci_m(t)][i] == d.mult_at(t, i));
            assert(cols2[dp.ci_m(t)][i] == dp.mult_at(t, i));
        } else {
            assert(c == d.ci_chk());
            assert(cols1[d.ci_chk()][i] == d.lsum(i));
            assert(cols2[dp.ci_chk()][i] == dp.lsum(i));
        }
    }
}

} // verus!

verus! {

/// The occurrence map of a lookup with no enabled A row stays empty.
proof fn lemma_zero_active_occ_full(d: LookupData, i: int)
    requires
        forall|k: int| 0 <= k < d.h() ==> #[trigger] d.af[k] == 0,
        i <= d.h(),
    ensures
        d.occ_full(i) == Map::<nat, nat>::empty(),
    decreases i,
{
    if i > 0 {
        lemma_zero_active_occ_full(d, i - 1);
    }
}

/// Nothing is ever consumed from an empty occurrence map.
proof fn lemma_zero_active_occ_at(d: LookupData, t: int)
    requires
        forall|k: int| 0 <= k < d.h() ==> #[trigger] d.af[k] == 0,
    ensures
        d.occ_at(t) == Map::<nat, nat>::empty(),
    decreases t,
{
    if t <= 0 || d.sides() <= 0 {
        lemma_zero_active_occ_full(d, d.h());
    } else {
        lemma_zero_active_occ_at(d, t - 1);
    }
}

/// A lookup whose A filter disables every row carries a trivial
/// witness: every multiplicity is zero and the running sum stays at
/// zero, so generation always meets the terminal invariant.
pub proof fn lemma_zero_active_lookup(d: LookupData)
    requires
        forall|k: int| 0 <= k < d.h() ==> #[trigger] d.af[k] == 0,
    ensures
        forall|s: int, i: int|
            0 <= s < d.sides() && 0 <= i < d.h() ==> #[trigger] d.mult_at(s, i) == 0,
        forall|i: int| 0 <= i < d.h() ==> #[trigger] d.lsum(i) == 0,
        d.lsum(d.h() - 1) == 0,
{
    assert forall|s: int, i: int|
        0 <= s < d.sides() && 0 <= i < d.h() implies #[trigger] d.mult_at(s, i) == 0 by {
        lemma_zero_active_occ_at(d, i * d.sides() + s);
    }
    assert forall|i: int| 0 <= i < d.h() implies #[trigger] d.side_sum(i, d.sides()) == 0 by {
        lemma_zero_active_sum(d, i, d.sides());
    }
    if d.h() > 0 {
        lemma_zero_active_sum(d, d.h() - 1, d.sides());
    }
}

/// The running sum of a zero-active lookup never moves.
proof fn lemma_zero_active_sum(d: LookupData, i: int, s: int)
    requires
        forall|k: int| 0 <= k < d.h() ==> #[trigger] d.af[k] == 0,
        0 <= i < d.h(),
        0 <= s <= d.sides(),
    ensures
        d.side_sum(i, s) == 0,
    decreases i, s,
{
    if s == 0 {
        if i > 0 {
            lemma_zero_active_sum(d, i - 1, d.sides());
        }
    } else {
        lemma_zero_active_sum(d, i, s - 1);
        lemma_zero_active_occ_at(d, i * d.sides() + (s - 1));
        assert(d.mult_at(s - 1, i) == 0);
        lemma_fmul_units(finv(d.bch(s - 1, i)));
        crate::field::lemma_fsub_zero(0);
        vstd::arithmetic::div_mod::lemma_small_mod(0nat, fr_order());
    }
}

} // verus!

verus! {

/// The sum of the inverted shifted A rows over the first `k` rows,
/// counting enabled rows only.
pub open spec fn arows_sum(d: LookupData, k: int) -> nat
    decreases k,
{
    if k <= 0 {
        0
    } else {
        let prev = arows_sum(d, k - 1);
        if d.af[k - 1] != 0 {
            fadd(prev, finv(d.ach(k - 1)))
        } else {
            prev
        }
    }
}

/// The same sum restricted to the rows whose folded value still
/// stands in the map `m`: the value yet to be consumed.
pub open spec fn wsum(d: LookupData, m: Map<nat, nat>, k: int) -> nat
    decreases k,
{
    if k <= 0 {
        0
    } else {
        let prev = wsum(d, m, k - 1);
        if d.af[k - 1] != 0 && m.dom().contains(d.arow(k - 1)) {
            fadd(prev, finv(d.ach(k - 1)))
        } else {
            prev
        }
    }
}

/// Both sums are canonical values.
proof fn lemma_sums_bound(d: LookupData, m: Map<nat, nat>, k: int)
    ensures
        arows_sum(d, k) < fr_order(),
        wsum(d, m, k) < fr_order(),
    decreases k,
{
    lemma_f_bounds(0, 0);
    if k > 0 {
        lemma_sums_bound(d, m, k - 1);
        lemma_f_bounds(arows_sum(d, k - 1), finv(d.ach(k - 1)));
        lemma_f_bounds(wsum(d, m, k - 1), finv(d.ach(k - 1)));
    }
}

/// Counts only grow with the scanned prefix.
proof fn lemma_cnt_mono(d: LookupData, v: nat, k1: int, k2: int)
    requires
        k1 <= k2,
    ensures
        d.cnt(v, k1) <= d.cnt(v, k2),
    decreases k2 - k1,
{
    if k1 < k2 {
        lemma_cnt_mono(d, v, k1, k2 - 1);
    }
}

/// Over the full occurrence map, the restricted sum is the whole sum.
proof fn lemma_wsum_full(d: LookupData, k: int)
    requires
        0 <= k <= d.h(),
    ensures
        wsum(d, d.occ_full(d.h()), k) == arows_sum(d, k),
    decreases k,
{
    if k > 0 {
        lemma_wsum_full(d, k - 1);
        if d.af[k - 1] != 0 {
            let v = d.arow(k - 1);
            assert(d.cnt(v, k) > 0);
            lemma_cnt_mono(d, v, k, d.h());
            crate::witness::lemma_occ_full_is_cnt(d, v, d.h());
        }
    }
}

/// Over an empty map the restricted sum vanishes.
proof fn lemma_wsum_empty(d: LookupData, m: Map<nat, nat>, k: int)
    requires
        forall|v: nat| !(#[trigger] m.dom().contains(v)),
    ensures
        wsum(d, m, k) == 0,
    decreases k,
{
    if k > 0 {
        lemma_wsum_empty(d, m, k - 1);
    }
}

/// Taking one key out of the map takes its whole weighted term out of
/// the restricted sum.
proof fn lemma_wsum_remove(d: LookupData, m: Map<nat, nat>, v: nat, k: int)
    requires
        0 <= k,
        m.dom().contains(v),
    ensures
        wsum(d, m, k) == fadd(
            wsum(d, m.remove(v), k),
            fmul(d.cnt(v, k), finv(fadd(v, d.delta))),
        ),
    decreases k,
{
    let x = finv(fadd(v, d.delta));
    if k == 0 {
        crate::field::lemma_fmul_units(x);
        vstd::arithmetic::div_mod::lemma_small_mod(0nat, fr_order());
    } else {
        lemma_wsum_remove(d, m, v, k - 1);
        let wp = wsum(d, m.remove(v), k - 1);
        let c = d.cnt(v, k - 1);
        if d.af[k - 1] != 0 && d.arow(k - 1) == v {
            // this row's term joins the weighted count
            assert(d.ach(k - 1) == fadd(v, d.delta));
            crate::field::lemma_fmul_succ(c, x);
            crate::field::lemma_fadd_assoc(wp, fmul(c, x), x);
        } else if d.af[k - 1] != 0 && m.dom().contains(d.arow(k - 1)) {
            // another key's term, on both sides
            let y = finv(d.ach(k - 1));
            crate::field::lemma_fadd_assoc(wp, fmul(c, x), y);
            crate::field::lemma_fadd_assoc(wp, y, fmul(c, x));
        }
    }
}

/// The accounting invariant of the forward pass: the running sum is
/// the enabled A-row sum so far, less what the fired cells have
/// consumed out of the full sum.
proof fn lemma_pass_accounting(d: LookupData, i: int, s: int)
    requires
        0 <= i < d.h(),
        0 <= s <= d.sides(),
    ensures
        d.side_sum(i, s) == fsub(
            arows_sum(d, i + 1),
            fsub(
                arows_sum(d, d.h()),
                wsum(d, d.occ_at(i * d.sides() + s), d.h()),
            ),
        ),
    decreases i, s,
{
    let h = d.h();
    let ss = d.sides();
    let ah = arows_sum(d, h);
    let ghost goal = fsub(ah, wsum(d, d.occ_at(i * ss + s), h));
    lemma_sums_bound(d, d.occ_at(i * ss + s), h);
    if s == 0 {
        if i == 0 {
            // at the start nothing is consumed
            vstd::arithmetic::mul::lemma_mul_basics(ss);
            assert(i * ss + s == 0);
            lemma_wsum_full(d, h);
            lemma_fsub_self(ah);
            lemma_sums_bound(d, d.occ_full(h), 1);
            crate::field::lemma_fsub_zero(arows_sum(d, 1));
            vstd::arithmetic::div_mod::lemma_small_mod(arows_sum(d, 1), fr_order());
            assert(arows_sum(d, 0) == 0);
            assert(goal == 0);
            if d.af[0] != 0 {
                lemma_fadd_zero(finv(d.ach(0)));
            }
        } else {
            lemma_pass_accounting(d, i - 1, ss);
            vstd::arithmetic::mul::lemma_mul_is_distributive_add_other_way(ss, i - 1, 1);
            assert((i - 1) * ss + ss == i * ss);
            let c = fsub(ah, wsum(d, d.occ_at(i * ss), h));
            if d.af[i] != 0 {
                crate::field::lemma_fadd_fsub_swap(arows_sum(d, i), c, finv(d.ach(i)));
            }
        }
    } else {
        lemma_pass_accounting(d, i, s - 1);
        let t = i * ss + (s - 1);
        vstd::arithmetic::div_mod::lemma_fundamental_div_mod_converse(t, ss, i, s - 1);
        let v = d.brow(s - 1, i);
        let wt = wsum(d, d.occ_at(t), h);
        let ap = arows_sum(d, i + 1);
        if d.occ_at(t).dom().contains(v) && d.bf[s - 1][i] != 0 {
            // the cell fires: it consumes the key's whole weighted term
            crate::witness::lemma_occ_at_is_cnt(d, t, v);
            assert(d.mult_at(s - 1, i) == d.cnt(v, h));
            assert(d.bch(s - 1, i) == fadd(v, d.delta));
            let tv = fmul(d.cnt(v, h), finv(fadd(v, d.delta)));
            lemma_wsum_remove(d, d.occ_at(t), v, h);
            assert(d.occ_at(t + 1) == d.occ_at(t).remove(v));
            let w1 = wsum(d, d.occ_at(t + 1), h);
            assert(wt == fadd(w1, tv));
            crate::field::lemma_facct_step(ap, ah, w1, tv);
        } else {
            // the cell is silent: it subtracts zero
            assert(d.mult_at(s - 1, i) == 0);
            crate::field::lemma_fmul_units(finv(d.bch(s - 1, i)));
            lemma_side_sum_bound(d, i, s - 1);
            crate::field::lemma_fsub_zero(d.side_sum(i, s - 1));
            vstd::arithmetic::div_mod::lemma_small_mod(d.side_sum(i, s - 1), fr_order());
            assert(d.occ_at(t + 1) == d.occ_at(t));
        }
    }
}

/// A positive count has a witnessing enabled row.
proof fn lemma_cnt_witness(d: LookupData, v: nat, k: int)
    requires
        d.cnt(v, k) > 0,
    ensures
        exists|i: int| 0 <= i < k && #[trigger] d.af[i] != 0 && d.arow(i) == v,
    decreases k,
{
    if k > 0 {
        if d.af[k - 1] != 0 && d.arow(k - 1) == v {
            assert(0 <= k - 1 < k && d.af[k - 1] != 0 && d.arow(k - 1) == v);
        } else {
            lemma_cnt_witness(d, v, k - 1);
        }
    }
}

/// A lookup whose enabled A rows all fold to a value that some
/// enabled B cell also folds to has a witness whose running sum ends
/// at zero: every occurrence is consumed, so the A-side and B-side
/// terms cancel exactly.
pub proof fn lemma_lookup_sum_is_zero(d: LookupData)
    requires
        d.h() > 0,
        forall|i: int|
            0 <= i < d.h() && #[trigger] d.af[i] != 0 ==> exists|s: int, i2: int|
                0 <= s < d.sides() && 0 <= i2 < d.h() && #[trigger] d.bf[s][i2] != 0 && d.brow(
                    s,
                    i2,
                ) == d.arow(i),
    ensures
        d.lsum(d.h() - 1) == 0,
{
    let h = d.h();
    assert forall|v: nat| d.occ_full(h).dom().contains(v) implies exists|s: int, i: int|
        0 <= s < d.sides() && 0 <= i < d.h() && #[trigger] d.bf[s][i] != 0 && d.brow(s, i)
        == v by {
        crate::witness::lemma_occ_full_is_cnt(d, v, h);
        lemma_cnt_witness(d, v, h);
        let i0 = choose|i: int| 0 <= i < h && #[trigger] d.af[i] != 0 && d.arow(i) == v;
        let (s, i2) = choose|s: int, i2: int|
            0 <= s < d.sides() && 0 <= i2 < d.h() && #[trigger] d.bf[s][i2] != 0 && d.brow(
                s,
                i2,
            ) == d.arow(i0);
        assert(0 <= s < d.sides() && 0 <= i2 < d.h() && d.bf[s][i2] != 0 && d.brow(s, i2) == v);
    }
    let ss = d.sides();
    let tend = h * ss;
    vstd::arithmetic::mul::lemma_mul_nonnegative(h, ss);
    // every key is consumed by the time the pass ends
    assert forall|v: nat| !(#[trigger] d.occ_at(tend).dom().contains(v)) by {
        if d.occ_at(tend).dom().contains(v) {
            crate::witness::lemma_occ_at_shrinks(d, 0, tend);
            assert(d.occ_at(0).dom().contains(v));
            assert(d.occ_full(h).dom().contains(v));
            let (s, i) = choose|s: int, i: int|
                0 <= s < ss && 0 <= i < h && #[trigger] d.bf[s][i] != 0 && d.brow(s, i) == v;
            assert(0 <= s < ss && 0 <= i < h && d.bf[s][i] != 0 && d.brow(s, i) == v);
            let t0 = i * ss + s;
            assert(0 <= t0 && t0 + 1 <= tend) by {
                vstd::arithmetic::mul::lemma_mul_nonnegative(i, ss);
                vstd::arithmetic::mul::lemma_mul_inequality(i + 1, h, ss);
                vstd::arithmetic::mul::lemma_mul_is_distributive_add_other_way(ss, i, 1);
            }
            crate::witness::lemma_occ_at_shrinks(d, t0, tend);
            assert(d.occ_at(t0).dom().contains(v));
            vstd::arithmetic::div_mod::lemma_fundamental_div_mod_converse(t0, ss, i, s);
            assert(d.occ_at(t0 + 1) == d.occ_at(t0).remove(v));
            crate::witness::lemma_occ_at_shrinks(d, t0 + 1, tend);
            assert(!d.occ_at(t0 + 1).dom().contains(v));
        }
    }
    lemma_wsum_empty(d, d.occ_at(tend), h);
    vstd::arithmetic::mul::lemma_mul_is_distributive_add_other_way(ss, h - 1, 1);
    assert((h - 1) * ss + ss == h * ss);
    lemma_pass_accounting(d, h - 1, ss);
    let ah = arows_sum(d, h);
    lemma_sums_bound(d, d.occ_at(tend), h);
    crate::field::lemma_fsub_zero(ah);
    vstd::arithmetic::div_mod::lemma_small_mod(ah, fr_order());
    lemma_fsub_self(ah);
}

} // verus!
