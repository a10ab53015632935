//! The composite trace builder: appends lookup and permutation
//! arguments onto one shared column-major buffer, growing the common
//! height as needed, and hands out absolute index descriptors.
use vstd::prelude::*;
use crate::TraceError;
use crate::field::{Bls12_377Fr, fr_val, fcol_val, fmat_val};
use crate::witness::{pad_lookup, pad_perm, padv, lookup_out, perm_out};
use crate::layout::{
    AirConfig, lemma_lookup_cfg_in_range, lemma_perm_cfg_in_range, lemma_shift_canonical_lookup,
    lemma_shift_canonical_perm,
};
use crate::lookup::RawLookupTrace;
use crate::permutation::RawPermutationTrace;
use crate::columns::pad_fr_col;

verus! {

/// The composite execution trace: column-major buffer, common height,
/// and the two public challenges.
pub struct RawTrace {
    pub columns: Vec<Vec<Bls12_377Fr>>,
    pub height: usize,
    pub challenges: Vec<Bls12_377Fr>,
}

/// The error, if any, that pushing this lookup at height `n` under
/// challenges `(av, dv)` runs into: inconsistent shapes, a shifted row
/// folding to zero, or a terminal sum that is not zero.
pub open spec fn lookup_status(lk: RawLookupTrace, n: int, av: nat, dv: nat) -> Option<
    TraceError,
> {
    let d = pad_lookup(lk.data(av, dv), n);
    if !(lk.a@.len() > 0 && n > 0 && lk.b@.len() == lk.b_filter@.len()) {
        Some(TraceError::InconsistentRaw)
    } else if !d.zero_free() {
        Some(TraceError::InverseOfZero)
    } else if d.lsum(d.h() - 1) != 0 {
        Some(TraceError::InvariantViolated)
    } else {
        None
    }
}

/// The error, if any, that pushing this permutation at height `n`
/// under challenges `(av, dv)` runs into.
pub open spec fn perm_status(pm: RawPermutationTrace, n: int, av: nat, dv: nat) -> Option<
    TraceError,
> {
    let d = pad_perm(pm.data(av, dv), n);
    if !(pm.a@.len() > 0 && n > 0 && pm.b@.len() == pm.a@.len()) {
        Some(TraceError::InconsistentRaw)
    } else if !d.zero_free() {
        Some(TraceError::InverseOfZero)
    } else if d.pprod(d.h() - 1) != 1 {
        Some(TraceError::InvariantViolated)
    } else {
        None
    }
}

impl RawTrace {
    /// Two challenges, and every column filled to the common height.
    pub open spec fn wf(&self) -> bool {
        &&& self.challenges@.len() == 2
        &&& forall|c: int|
            0 <= c < self.columns@.len() ==> (#[trigger] self.columns@[c])@.len() == self.height
    }

    /// The first challenge, for row folding.
    pub open spec fn alpha_v(&self) -> nat {
        fr_val(self.challenges@[0])
    }

    /// The second challenge, shifting rows before inversion.
    pub open spec fn delta_v(&self) -> nat {
        fr_val(self.challenges@[1])
    }

    /// An empty trace under the given challenge pair.
    pub fn new(challenges: Vec<Bls12_377Fr>) -> (r: Self)
        requires
            challenges@.len() == 2,
        ensures
            r.wf(),
            r.columns@.len() == 0,
            r.height == 0,
            r.challenges == challenges,
    {
        RawTrace { columns: Vec::new(), height: 0, challenges }
    }

    /// Cuts or zero-pads every column to `new_size`. The height field
    /// is not touched; callers grow it alongside.
    pub fn resize(&mut self, new_size: usize)
        ensures
            final(self).columns@.len() == old(self).columns@.len(),
            forall|c: int|
                0 <= c < old(self).columns@.len() ==> (#[trigger] final(self).columns@[c])@.len()
                    == new_size && fcol_val(final(self).columns@[c]@) == padv(
                    fcol_val(old(self).columns@[c]@),
                    new_size as int,
                ),
            final(self).height == old(self).height,
            final(self).challenges == old(self).challenges,
    {
        let mut cols2: Vec<Vec<Bls12_377Fr>> = Vec::new();
        let mut c: usize = 0;
        while c < self.columns.len()
            invariant
                0 <= c <= self.columns@.len(),
                cols2@.len() == c,
                forall|k: int|
                    0 <= k < c ==> (#[trigger] cols2@[k])@.len() == new_size && fcol_val(
                        cols2@[k]@,
                    ) == padv(fcol_val(self.columns@[k]@), new_size as int),
            decreases self.columns@.len() - c,
        {
            cols2.push(pad_fr_col(&self.columns[c], new_size));
            c = c + 1;
        }
        self.columns = cols2;
    }

    /// Appends one lookup argument: grows the trace to the common
    /// height (also when the argument later fails), pads the argument,
    /// generates its witness columns, appends them, and returns the
    /// shifted descriptor.
    #[verifier::loop_isolation(false)]
    pub fn push_lookup(&mut self, lookup: RawLookupTrace) -> (r: Result<AirConfig, TraceError>)
        requires
            old(self).wf(),
        ensures
            final(self).wf(),
            final(self).challenges == old(self).challenges,
            final(self).height >= old(self).height,
            forall|j: int|
                0 <= j < lookup.a@.len() ==> (#[trigger] lookup.a@[j])@.len()
                    <= final(self).height,
            lookup.a_filter@.len() <= final(self).height,
            forall|s: int, j: int|
                0 <= s < lookup.b@.len() && 0 <= j < lookup.b@[s]@.len() ==> (
                #[trigger] lookup.b@[s]@[j])@.len() <= final(self).height,
            forall|s: int|
                0 <= s < lookup.b_filter@.len() ==> (#[trigger] lookup.b_filter@[s])@.len()
                    <= final(self).height,
            final(self).height == old(self).height || lookup.has_len(final(self).height as int),
            forall|c: int|
                0 <= c < old(self).columns@.len() ==> fcol_val(
                    (#[trigger] final(self).columns@[c])@,
                ) == padv(fcol_val(old(self).columns@[c]@), final(self).height as int),
            ({
                let n = final(self).height as int;
                let st = lookup_status(lookup, n, old(self).alpha_v(), old(self).delta_v());
                &&& (r is Err <==> st is Some)
                &&& (r matches Err(e) ==> st == Some(e))
                &&& (r is Err ==> final(self).columns@.len() == old(self).columns@.len())
            }),
            (r matches Ok(c) ==> ({
                let n = final(self).height as int;
                let d1 = pad_lookup(
                    lookup.data(old(self).alpha_v(), old(self).delta_v()),
                    n,
                );
                let start = old(self).columns@.len() as int;
                &&& c matches AirConfig::Lookup(cfg) && cfg.is_canonical(start, d1.ka(), d1.sw())
                &&& final(self).columns@.len() == start + d1.width()
                &&& lookup_out(
                    d1,
                    fmat_val(
                        final(self).columns@.subrange(start, final(self).columns@.len() as int),
                    ),
                )
            })),
    {
        let ghost av = self.alpha_v();
        let ghost dv = self.delta_v();
        let mh = lookup.get_max_height();
        let new_h = if mh > self.height {
            mh
        } else {
            self.height
        };
        self.resize(new_h);
        self.height = new_h;
        proof {
            assert forall|c: int| 0 <= c < self.columns@.len() implies (
            #[trigger] self.columns@[c])@.len() == self.height by {}
        }
        let mut l = lookup;
        l.resize(new_h);
        let ghost d0 = lookup.data(av, dv);
        let ghost d1 = pad_lookup(d0, new_h as int);
        proof {
            // the padded table decodes to the padded data
            assert(l.data(av, dv).am =~~= d1.am);
            assert(l.data(av, dv).bm =~~= d1.bm);
            assert(l.data(av, dv).af =~= d1.af);
            assert(l.data(av, dv).bf =~~= d1.bf);
            assert(l.data(av, dv) == d1);
            // the padded table is consistent exactly when the head
            // counts agree and the height is positive
            assert(l.raw_wf() <==> (lookup.a@.len() > 0 && new_h > 0 && lookup.b@.len()
                == lookup.b_filter@.len()));
        }
        match l.get_trace(&self.challenges) {
            Ok((cfg0, mut cols)) => {
                let ghost cfg_pre = cfg0;
                let ghost cols_v = cols@;
                let mut cfg = cfg0;
                let start = self.columns.len();
                self.columns.append(&mut cols);
                let total_cols = self.columns.len();
                proof {
                    lemma_lookup_cfg_in_range(cfg_pre, 0, d1.ka(), d1.sw());
                    assert(forall|k: int| 0 <= k < d1.sw().len() ==> #[trigger] d1.sw()[k] >= 0);
                    assert(cfg_pre.width_spec() == d1.width()) by {
                        assert(d1.ci_af() == d1.ka() + crate::layout::sw_sum(
                            d1.sw(),
                            d1.sw().len() as int,
                        ));
                    }
                    assert(start + d1.width() == total_cols);
                    assert forall|k: int|
                        0 <= k < cfg_pre.full_ids().len() implies #[trigger] cfg_pre.full_ids()[k]
                        + start <= usize::MAX by {
                        assert(cfg_pre.full_ids()[k] < cfg_pre.width_spec());
                        assert(cfg_pre.full_ids()[k] + start < total_cols);
                    }
                }
                cfg.shift(start);
                proof {
                    lemma_shift_canonical_lookup(
                        cfg,
                        cfg_pre,
                        start as int,
                        0,
                        d1.ka(),
                        d1.sw(),
                    );
                    assert(self.columns@.subrange(start as int, self.columns@.len() as int)
                        =~= cols_v);
                    assert forall|c: int| 0 <= c < self.columns@.len() implies (
                    #[trigger] self.columns@[c])@.len() == self.height by {
                        if c >= start {
                            let cv = fmat_val(cols_v);
                            assert(self.columns@[c] == cols_v[c - start]);
                            assert(cv[c - start].len() == d1.h());
                            assert(cv[c - start] == fcol_val(cols_v[c - start]@));
                        }
                    }
                }
                Ok(AirConfig::Lookup(cfg))
            },
            Err(e) => {
                proof {
                    assert(lookup_status(lookup, new_h as int, av, dv) == Some(e));
                }
                Err(e)
            },
        }
    }

    /// Appends one permutation argument; the exact counterpart of
    /// `push_lookup`.
    #[verifier::loop_isolation(false)]
    pub fn push_permutation(&mut self, permutation: RawPermutationTrace) -> (r: Result<
        AirConfig,
        TraceError,
    >)
        requires
            old(self).wf(),
        ensures
            final(self).wf(),
            final(self).challenges == old(self).challenges,
            final(self).height >= old(self).height,
            forall|j: int|
                0 <= j < permutation.a@.len() ==> (#[trigger] permutation.a@[j])@.len()
                    <= final(self).height,
            forall|j: int|
                0 <= j < permutation.b@.len() ==> (#[trigger] permutation.b@[j])@.len()
                    <= final(self).height,
            final(self).height == old(self).height || permutation.has_len(
                final(self).height as int,
            ),
            forall|c: int|
                0 <= c < old(self).columns@.len() ==> fcol_val(
                    (#[trigger] final(self).columns@[c])@,
                ) == padv(fcol_val(old(self).columns@[c]@), final(self).height as int),
            ({
                let n = final(self).height as int;
                let st = perm_status(permutation, n, old(self).alpha_v(), old(self).delta_v());
                &&& (r is Err <==> st is Some)
                &&& (r matches Err(e) ==> st == Some(e))
                &&& (r is Err ==> final(self).columns@.len() == old(self).columns@.len())
            }),
            (r matches Ok(c) ==> ({
                let n = final(self).height as int;
                let d1 = pad_perm(
                    permutation.data(old(self).alpha_v(), old(self).delta_v()),
                    n,
                );
                let start = old(self).columns@.len() as int;
                &&& c matches AirConfig::Permutation(cfg) && cfg.is_canonical(start, d1.w())
                &&& final(self).columns@.len() == start + 2 * d1.w() + 2
                &&& perm_out(
                    d1,
                    fmat_val(
                        final(self).columns@.subrange(start, final(self).columns@.len() as int),
                    ),
                )
            })),
    {
        let ghost av = self.alpha_v();
        let ghost dv = self.delta_v();
        let mh = permutation.get_max_height();
        let new_h = if mh > self.height {
            mh
        } else {
            self.height
        };
        self.resize(new_h);
        self.height = new_h;
        proof {
            assert forall|c: int| 0 <= c < self.columns@.len() implies (
            #[trigger] self.columns@[c])@.len() == self.height by {}
        }
        let mut p = permutation;
        p.resize(new_h);
        let ghost d0 = permutation.data(av, dv);
        let ghost d1 = pad_perm(d0, new_h as int);
        proof {
            assert(p.data(av, dv).am =~~= d1.am);
            assert(p.data(av, dv).bm =~~= d1.bm);
            assert(p.data(av, dv) == d1);
            assert(p.raw_wf() <==> (permutation.a@.len() > 0 && new_h > 0 && permutation.b@.len()
                == permutation.a@.len()));
        }
        match p.get_trace(&self.challenges) {
            Ok((cfg0, mut cols)) => {
                let ghost cfg_pre = cfg0;
                let ghost cols_v = cols@;
                let mut cfg = cfg0;
                let start = self.columns.len();
                self.columns.append(&mut cols);
                let total_cols = self.columns.len();
                proof {
                    lemma_perm_cfg_in_range(cfg_pre, 0, d1.w());
                    assert(start + 2 * d1.w() + 2 == total_cols);
                    assert forall|k: int|
                        0 <= k < cfg_pre.full_ids().len() implies #[trigger] cfg_pre.full_ids()[k]
                        + start <= usize::MAX by {
                        assert(cfg_pre.full_ids()[k] < cfg_pre.width_spec());
                        assert(cfg_pre.full_ids()[k] + start < total_cols);
                    }
                }
                cfg.shift(start);
                proof {
                    lemma_shift_canonical_perm(cfg, cfg_pre, start as int, 0, d1.w());
                    assert(self.columns@.subrange(start as int, self.columns@.len() as int)
                        =~= cols_v);
                    assert forall|c: int| 0 <= c < self.columns@.len() implies (
                    #[trigger] self.columns@[c])@.len() == self.height by {
                        if c >= start {
                            let cv = fmat_val(cols_v);
                            assert(self.columns@[c] == cols_v[c - start]);
                            assert(cv[c - start].len() == d1.h());
                            assert(cv[c - start] == fcol_val(cols_v[c - start]@));
                        }
                    }
                }
                Ok(AirConfig::Permutation(cfg))
            },
            Err(e) => {
                proof {
                    assert(perm_status(permutation, new_h as int, av, dv) == Some(e));
                }
                Err(e)
            },
        }
    }

    /// The finished trace as one row-major buffer: entry
    /// `row * width + col` is row `row` of column `col`. Returns the
    /// values and the width.
    pub fn get_trace(&self) -> (r: (Vec<Bls12_377Fr>, usize))
        requires
            self.wf(),
        ensures
            r.1 == self.columns@.len(),
            r.0@.len() == self.columns@.len() * self.height,
            forall|row: int, col: int|
                0 <= row < self.height && 0 <= col < self.columns@.len()
                    ==> #[trigger] r.0@[row * self.columns@.len() + col]
                    == self.columns@[col]@[row],
    {
        let width = self.columns.len();
        let mut values: Vec<Bls12_377Fr> = Vec::new();
        let mut row: usize = 0;
        while row < self.height
            invariant
                0 <= row <= self.height,
                self.wf(),
                width == self.columns@.len(),
                values@.len() == row * width,
                forall|k: int|
                    0 <= k < values@.len() ==> #[trigger] values@[k] == self.columns@[k
                        % width as int]@[k / width as int],
            decreases self.height - row,
        {
            let mut col: usize = 0;
            while col < width
                invariant
                    0 <= col <= width,
                    0 <= row < self.height,
                    self.wf(),
                    width == self.columns@.len(),
                    values@.len() == row * width + col,
                    forall|k: int|
                        0 <= k < values@.len() ==> #[trigger] values@[k] == self.columns@[k
                            % width as int]@[k / width as int],
                decreases width - col,
            {
                values.push(self.columns[col][row]);
                proof {
                    vstd::arithmetic::div_mod::lemma_fundamental_div_mod_converse(
                        row as int * width as int + col as int,
                        width as int,
                        row as int,
                        col as int,
                    );
                }
                col = col + 1;
            }
            proof {
                vstd::arithmetic::mul::lemma_mul_is_distributive_add_other_way(
                    width as int,
                    row as int,
                    1,
                );
            }
            row = row + 1;
        }
        proof {
            vstd::arithmetic::mul::lemma_mul_is_commutative(width as int, self.height as int);
            assert forall|row: int, col: int|
                0 <= row < self.height && 0 <= col < self.columns@.len() implies #[trigger] values@[
            row * self.columns@.len() + col] == self.columns@[col]@[row] by {
                vstd::arithmetic::div_mod::lemma_fundamental_div_mod_converse(
                    row * width as int + col,
                    width as int,
                    row,
                    col,
                );
                vstd::arithmetic::mul::lemma_mul_inequality(row + 1, self.height as int,
                    width as int);
                vstd::arithmetic::mul::lemma_mul_is_distributive_add_other_way(
                    width as int,
                    row,
                    1,
                );
            }
        }
        (values, width)
    }
}

} // verus!

verus! {

/// The status of batch argument `k` at height `n`: the lookups come
/// first, then the permutations.
pub open spec fn batch_status(
    lks: Seq<RawLookupTrace>,
    pms: Seq<RawPermutationTrace>,
    n: int,
    av: nat,
    dv: nat,
    k: int,
) -> Option<TraceError> {
    if k < lks.len() {
        lookup_status(lks[k], n, av, dv)
    } else {
        perm_status(pms[k - lks.len()], n, av, dv)
    }
}

/// The first error among the first `k` batch arguments, if any.
pub open spec fn first_fail(
    lks: Seq<RawLookupTrace>,
    pms: Seq<RawPermutationTrace>,
    n: int,
    av: nat,
    dv: nat,
    k: int,
) -> Option<TraceError>
    decreases k,
{
    if k <= 0 {
        None
    } else {
        match first_fail(lks, pms, n, av, dv, k - 1) {
            Some(e) => Some(e),
            None => batch_status(lks, pms, n, av, dv, k - 1),
        }
    }
}

/// Once an error has appeared it stays the first one.
pub proof fn lemma_first_fail_stays(
    lks: Seq<RawLookupTrace>,
    pms: Seq<RawPermutationTrace>,
    n: int,
    av: nat,
    dv: nat,
    k: int,
    m: int,
)
    requires
        first_fail(lks, pms, n, av, dv, k) is Some,
        k <= m,
    ensures
        first_fail(lks, pms, n, av, dv, m) == first_fail(lks, pms, n, av, dv, k),
    decreases m - k,
{
    if k < m {
        lemma_first_fail_stays(lks, pms, n, av, dv, k, m - 1);
    }
}

impl RawTrace {
    /// Appends a batch: first the lookups in order, then the
    /// permutations in order, all at the common height, which is the
    /// maximum of the current height and every argument's tallest
    /// column. Stops at the first failing argument.
    #[verifier::loop_isolation(false)]
    #[verifier::rlimit(60)]
    pub fn push_traces(
        &mut self,
        permutation_traces: Vec<RawPermutationTrace>,
        lookup_traces: Vec<RawLookupTrace>,
    ) -> (r: Result<Vec<AirConfig>, TraceError>)
        requires
            old(self).wf(),
        ensures
            final(self).wf(),
            final(self).challenges == old(self).challenges,
            final(self).height >= old(self).height,
            forall|k: int|
                0 <= k < lookup_traces@.len() ==> (#[trigger] lookup_traces@[k]).fits(
                    final(self).height as int,
                ),
            forall|k: int|
                0 <= k < permutation_traces@.len() ==> (#[trigger] permutation_traces@[k]).fits(
                    final(self).height as int,
                ),
            final(self).height == old(self).height || (exists|k: int|
                0 <= k < lookup_traces@.len() && (#[trigger] lookup_traces@[k]).has_len(
                    final(self).height as int,
                )) || (exists|k: int|
                0 <= k < permutation_traces@.len() && (#[trigger] permutation_traces@[k]).has_len(
                    final(self).height as int,
                )),
            ({
                let total = lookup_traces@.len() + permutation_traces@.len();
                let st = first_fail(
                    lookup_traces@,
                    permutation_traces@,
                    final(self).height as int,
                    old(self).alpha_v(),
                    old(self).delta_v(),
                    total as int,
                );
                &&& (r is Err <==> st is Some)
                &&& (r matches Err(e) ==> st == Some(e))
            }),
            (r matches Ok(cfgs) ==> ({
                let start0 = old(self).columns@.len() as int;
                let lcount = lookup_traces@.len() as int;
                let total = lcount + permutation_traces@.len();
                &&& cfgs@.len() == total
                &&& forall|k: int| 0 <= k < lcount ==> #[trigger] cfgs@[k] is Lookup
                &&& forall|k: int| lcount <= k < total ==> #[trigger] cfgs@[k] is Permutation
                &&& forall|k: int|
                    0 <= k < total ==> (#[trigger] cfgs@[k]).canonical_at(
                        start0 + crate::layout::cfgs_offset(cfgs@, k),
                    )
                &&& final(self).columns@.len() == start0 + crate::layout::cfgs_offset(
                    cfgs@,
                    total,
                )
            })),
    {
        let ghost av = self.alpha_v();
        let ghost dv = self.delta_v();
        let ghost lks0 = lookup_traces@;
        let ghost pms0 = permutation_traces@;
        let ghost start0 = self.columns@.len() as int;
        let lcount = lookup_traces.len();
        let pcount = permutation_traces.len();
        // the common height
        let mut hmax = self.height;
        let mut k0: usize = 0;
        while k0 < lcount
            invariant
                0 <= k0 <= lcount,
                hmax >= old(self).height,
                forall|t: int| 0 <= t < k0 ==> (#[trigger] lks0[t]).fits(hmax as int),
                hmax == old(self).height || (exists|t: int|
                    0 <= t < lks0.len() && (#[trigger] lks0[t]).has_len(hmax as int)),
            decreases lcount - k0,
        {
            let m = lookup_traces[k0].get_max_height();
            if m > hmax {
                hmax = m;
            }
            k0 = k0 + 1;
        }
        let mut k1: usize = 0;
        while k1 < pcount
            invariant
                0 <= k1 <= pcount,
                hmax >= old(self).height,
                forall|t: int| 0 <= t < lks0.len() ==> (#[trigger] lks0[t]).fits(hmax as int),
                forall|t: int| 0 <= t < k1 ==> (#[trigger] pms0[t]).fits(hmax as int),
                hmax == old(self).height || (exists|t: int|
                    0 <= t < lks0.len() && (#[trigger] lks0[t]).has_len(hmax as int)) || (exists|
                t: int,
                |
                    0 <= t < pms0.len() && (#[trigger] pms0[t]).has_len(hmax as int)),
            decreases pcount - k1,
        {
            let m = permutation_traces[k1].get_max_height();
            if m > hmax {
                hmax = m;
            }
            k1 = k1 + 1;
        }
        self.resize(hmax);
        self.height = hmax;
        let ghost hh = hmax as int;
        let mut cfgs: Vec<AirConfig> = Vec::new();
        let mut lks = lookup_traces;
        while lks.len() > 0
            invariant
                self.wf(),
                self.challenges == old(self).challenges,
                self.height == hmax,
                cfgs@.len() == lks0.len() - lks@.len(),
                cfgs@.len() <= lks0.len(),
                lks@ == lks0.subrange(cfgs@.len() as int, lks0.len() as int),
                forall|t: int| 0 <= t < cfgs@.len() ==> #[trigger] cfgs@[t] is Lookup,
                forall|t: int|
                    0 <= t < cfgs@.len() ==> (#[trigger] cfgs@[t]).canonical_at(
                        start0 + crate::layout::cfgs_offset(cfgs@, t),
                    ),
                self.columns@.len() == start0 + crate::layout::cfgs_offset(
                    cfgs@,
                    cfgs@.len() as int,
                ),
                first_fail(lks0, pms0, hh, av, dv, cfgs@.len() as int) is None,
            decreases lks@.len(),
        {
            let ghost k = cfgs@.len() as int;
            let lk = lks.remove(0);
            proof {
                assert(lk == lks0[k]);
                assert(lks@ =~= lks0.subrange(k + 1, lks0.len() as int));
            }
            let ghost cols_before = self.columns@.len() as int;
            match self.push_lookup(lk) {
                Ok(c) => {
                    proof {
                        // the height cannot have grown past the common one
                        assert(self.height == hmax) by {
                            if self.height > hmax {
                                assert(lk.has_len(self.height as int));
                                assert(lk.fits(hh));
                                assert(false);
                            }
                        }
                        let d1 = pad_lookup(lk.data(av, dv), hh);
                        let cfg = c->Lookup_0;
                        crate::layout::lemma_canonical_own_lookup(
                            cfg,
                            cols_before,
                            d1.ka(),
                            d1.sw(),
                        );
                        lemma_lookup_cfg_in_range(cfg, cols_before, d1.ka(), d1.sw());
                        assert(cfg.width_spec() == d1.width()) by {
                            assert(d1.ci_af() == d1.ka() + crate::layout::sw_sum(
                                d1.sw(),
                                d1.sw().len() as int,
                            ));
                        }
                        crate::layout::lemma_cfgs_offset_push(cfgs@, c, k);
                        assert forall|t: int| 0 <= t < k implies crate::layout::cfgs_offset(
                            cfgs@.push(c),
                            t,
                        ) == crate::layout::cfgs_offset(cfgs@, t) by {
                            crate::layout::lemma_cfgs_offset_push(cfgs@, c, t);
                        }
                        assert(batch_status(lks0, pms0, hh, av, dv, k) is None);
                    }
                    cfgs.push(c);
                },
                Err(e) => {
                    proof {
                        assert(self.height == hmax) by {
                            if self.height > hmax {
                                assert(lk.has_len(self.height as int));
                                assert(false);
                            }
                        }
                        assert(batch_status(lks0, pms0, hh, av, dv, k) == Some(e));
                        assert(first_fail(lks0, pms0, hh, av, dv, k + 1) == Some(e));
                        lemma_first_fail_stays(
                            lks0,
                            pms0,
                            hh,
                            av,
                            dv,
                            k + 1,
                            lks0.len() + pms0.len() as int,
                        );
                    }
                    return Err(e);
                },
            }
        }
        let mut pms = permutation_traces;
        while pms.len() > 0
            invariant
                self.wf(),
                self.challenges == old(self).challenges,
                self.height == hmax,
                cfgs@.len() == lks0.len() + pms0.len() - pms@.len(),
                cfgs@.len() >= lks0.len(),
                pms@ == pms0.subrange(
                    cfgs@.len() - lks0.len(),
                    pms0.len() as int,
                ),
                forall|t: int| 0 <= t < lks0.len() ==> #[trigger] cfgs@[t] is Lookup,
                forall|t: int|
                    lks0.len() <= t < cfgs@.len() ==> #[trigger] cfgs@[t] is Permutation,
                forall|t: int|
                    0 <= t < cfgs@.len() ==> (#[trigger] cfgs@[t]).canonical_at(
                        start0 + crate::layout::cfgs_offset(cfgs@, t),
                    ),
                self.columns@.len() == start0 + crate::layout::cfgs_offset(
                    cfgs@,
                    cfgs@.len() as int,
                ),
                first_fail(lks0, pms0, hh, av, dv, cfgs@.len() as int) is None,
            decreases pms@.len(),
        {
            let ghost k = cfgs@.len() as int;
            let pm = pms.remove(0);
            proof {
                assert(pm == pms0[k - lks0.len()]);
                assert(pms@ =~= pms0.subrange(k - lks0.len() + 1, pms0.len() as int));
            }
            let ghost cols_before = self.columns@.len() as int;
            match self.push_permutation(pm) {
                Ok(c) => {
                    proof {
                        assert(self.height == hmax) by {
                            if self.height > hmax {
                                assert(pm.has_len(self.height as int));
                                assert(pm.fits(hh));
                                assert(false);
                            }
                        }
                        let d1 = pad_perm(pm.data(av, dv), hh);
                        let cfg = c->Permutation_0;
                        crate::layout::lemma_canonical_own_perm(cfg, cols_before, d1.w());
                        lemma_perm_cfg_in_range(cfg, cols_before, d1.w());
                        crate::layout::lemma_cfgs_offset_push(cfgs@, c, k);
                        assert forall|t: int| 0 <= t < k implies crate::layout::cfgs_offset(
                            cfgs@.push(c),
                            t,
                        ) == crate::layout::cfgs_offset(cfgs@, t) by {
                            crate::layout::lemma_cfgs_offset_push(cfgs@, c, t);
                        }
                        assert(batch_status(lks0, pms0, hh, av, dv, k) is None);
                    }
                    cfgs.push(c);
                },
                Err(e) => {
                    proof {
                        assert(self.height == hmax) by {
                            if self.height > hmax {
                                assert(pm.has_len(self.height as int));
                                assert(false);
                            }
                        }
                        assert(batch_status(lks0, pms0, hh, av, dv, k) == Some(e));
                        assert(first_fail(lks0, pms0, hh, av, dv, k + 1) == Some(e));
                        lemma_first_fail_stays(
                            lks0,
                            pms0,
                            hh,
                            av,
                            dv,
                            k + 1,
                            lks0.len() + pms0.len() as int,
                        );
                    }
                    return Err(e);
                },
            }
        }
        Ok(cfgs)
    }
}

} // verus!
