//! The mathematical model of witness generation: row folding, the
//! occurrence map, the running log-derivative sum of a lookup argument
//! and the running product of a permutation argument.
use vstd::prelude::*;
use crate::field::{fadd, fsub, fmul, finv, fr_order, cell_val};

verus! {

/// Horner folding of one row: the columns' entries at row `i`
/// combined left to right with the challenge `alpha`. An empty column
/// list folds to zero.
pub open spec fn horner_at(cols: Seq<Seq<nat>>, alpha: nat, i: int) -> nat
    decreases cols.len(),
{
    if cols.len() == 0 {
        0
    } else {
        fadd(fmul(horner_at(cols.drop_last(), alpha, i), alpha), cols.last()[i])
    }
}

/// The decoded field values of a column of 32-byte cells.
pub open spec fn bcol_val(c: Seq<[u8; 32]>) -> Seq<nat> {
    c.map_values(|x: [u8; 32]| cell_val(x))
}

/// The decoded field values of a list of byte columns.
pub open spec fn bmat_val(m: Seq<Vec<[u8; 32]>>) -> Seq<Seq<nat>> {
    m.map_values(|c: Vec<[u8; 32]>| bcol_val(c@))
}

/// The decoded field values of a list of sides, each a list of byte
/// columns.
pub open spec fn bcube_val(b: Seq<Vec<Vec<[u8; 32]>>>) -> Seq<Seq<Seq<nat>>> {
    b.map_values(|s: Vec<Vec<[u8; 32]>>| bmat_val(s@))
}

/// One lookup argument, decoded: A columns, B sides, both filters, and
/// the two challenges.
pub struct LookupData {
    pub am: Seq<Seq<nat>>,
    pub bm: Seq<Seq<Seq<nat>>>,
    pub af: Seq<nat>,
    pub bf: Seq<Seq<nat>>,
    pub alpha: nat,
    pub delta: nat,
}

impl LookupData {
    /// The argument's height: the common length of its columns.
    pub open spec fn h(&self) -> int {
        self.af.len() as int
    }

    /// Number of A columns.
    pub open spec fn ka(&self) -> int {
        self.am.len() as int
    }

    /// Number of B sides.
    pub open spec fn sides(&self) -> int {
        self.bm.len() as int
    }

    /// Per-side column counts.
    pub open spec fn sw(&self) -> Seq<int> {
        Seq::new(self.bm.len(), |s: int| self.bm[s].len() as int)
    }

    /// Shapes agree: every column and filter has the common height and
    /// there is at least one A column and one row.
    pub open spec fn wf(&self) -> bool {
        &&& self.ka() > 0
        &&& self.h() > 0
        &&& forall|j: int| 0 <= j < self.ka() ==> (#[trigger] self.am[j]).len() == self.h()
        &&& self.bf.len() == self.bm.len()
        &&& forall|s: int| 0 <= s < self.sides() ==> (#[trigger] self.bf[s]).len() == self.h()
        &&& forall|s: int, j: int|
            0 <= s < self.sides() && 0 <= j < self.bm[s].len() ==> (
            #[trigger] self.bm[s][j]).len() == self.h()
    }

    /// The folded A row at `i`.
    pub open spec fn arow(&self, i: int) -> nat {
        horner_at(self.am, self.alpha, i)
    }

    /// The folded row of side `s` at `i`.
    pub open spec fn brow(&self, s: int, i: int) -> nat {
        horner_at(self.bm[s], self.alpha, i)
    }

    /// The folded A row at `i`, shifted by the challenge.
    pub open spec fn ach(&self, i: int) -> nat {
        fadd(self.arow(i), self.delta)
    }

    /// The folded row of side `s` at `i`, shifted by the challenge.
    pub open spec fn bch(&self, s: int, i: int) -> nat {
        fadd(self.brow(s, i), self.delta)
    }

    /// No shifted row folds to zero, so every inverse exists.
    pub open spec fn zero_free(&self) -> bool {
        &&& forall|i: int| 0 <= i < self.h() ==> #[trigger] self.ach(i) != 0
        &&& forall|s: int, i: int|
            0 <= s < self.sides() && 0 <= i < self.h() ==> #[trigger] self.bch(s, i) != 0
    }

    /// Occurrence counts of the folded A rows over the first `i` rows,
    /// counting only rows the A filter enables.
    pub open spec fn occ_full(&self, i: int) -> Map<nat, nat>
        decreases i,
    {
        if i <= 0 {
            Map::empty()
        } else {
            let m = self.occ_full(i - 1);
            if self.af[i - 1] != 0 {
                let v = self.arow(i - 1);
                m.insert(v, if m.dom().contains(v) { (m[v] + 1) as nat } else { 1nat })
            } else {
                m
            }
        }
    }

    /// The occurrence map just before B cell `t` is processed. Cells
    /// are ordered row by row and, inside a row, side by side:
    /// cell `t` is side `t % sides()` of row `t / sides()`. A processed
    /// cell consumes its key when the key is present and the side's
    /// filter enables the row.
    pub open spec fn occ_at(&self, t: int) -> Map<nat, nat>
        decreases t,
    {
        if t <= 0 || self.sides() <= 0 {
            self.occ_full(self.h())
        } else {
            let prev = self.occ_at(t - 1);
            let i = (t - 1) / self.sides();
            let s = (t - 1) % self.sides();
            let v = self.brow(s, i);
            if prev.dom().contains(v) && self.bf[s][i] != 0 {
                prev.remove(v)
            } else {
                prev
            }
        }
    }

    /// The multiplicity emitted on side `s`, row `i`: the occurrence
    /// count of the folded B row, on the first enabled cell holding the
    /// key, and zero everywhere else.
    pub open spec fn mult_at(&self, s: int, i: int) -> nat {
        let m = self.occ_at(i * self.sides() + s);
        let v = self.brow(s, i);
        if m.dom().contains(v) && self.bf[s][i] != 0 {
            m[v]
        } else {
            0
        }
    }

    /// The running sum after row `i` has been processed through side
    /// `s`: each enabled A row adds its shifted inverse, and each side
    /// subtracts its multiplicity times the side's shifted inverse.
    pub open spec fn side_sum(&self, i: int, s: int) -> nat
        decreases i, s,
    {
        if i < 0 {
            0
        } else if s <= 0 {
            let prev: nat = if i == 0 {
                0
            } else {
                self.side_sum(i - 1, self.sides())
            };
            if self.af[i] != 0 {
                fadd(prev, finv(self.ach(i)))
            } else {
                prev
            }
        } else {
            fsub(self.side_sum(i, s - 1), fmul(self.mult_at(s - 1, i), finv(self.bch(s - 1, i))))
        }
    }

    /// The running sum at the end of row `i`: the value of the check
    /// column there.
    pub open spec fn lsum(&self, i: int) -> nat {
        self.side_sum(i, self.sides())
    }
}

/// One permutation argument, decoded: A columns, B columns and the two
/// challenges.
pub struct PermData {
    pub am: Seq<Seq<nat>>,
    pub bm: Seq<Seq<nat>>,
    pub alpha: nat,
    pub delta: nat,
}

impl PermData {
    /// The argument's height.
    pub open spec fn h(&self) -> int {
        if self.am.len() == 0 {
            0
        } else {
            self.am[0].len() as int
        }
    }

    /// The table width: the common number of A and B columns.
    pub open spec fn w(&self) -> int {
        self.am.len() as int
    }

    /// Shapes agree: as many B columns as A columns, all of the common
    /// height, at least one column and one row.
    pub open spec fn wf(&self) -> bool {
        &&& self.w() > 0
        &&& self.h() > 0
        &&& self.bm.len() == self.am.len()
        &&& forall|j: int| 0 <= j < self.w() ==> (#[trigger] self.am[j]).len() == self.h()
        &&& forall|j: int| 0 <= j < self.w() ==> (#[trigger] self.bm[j]).len() == self.h()
    }

    /// The folded A row at `i`, shifted by the challenge.
    pub open spec fn ach(&self, i: int) -> nat {
        fadd(horner_at(self.am, self.alpha, i), self.delta)
    }

    /// The folded B row at `i`, shifted by the challenge.
    pub open spec fn bch(&self, i: int) -> nat {
        fadd(horner_at(self.bm, self.alpha, i), self.delta)
    }

    /// No shifted B row folds to zero, so every inverse the product
    /// needs exists; A rows are never inverted.
    pub open spec fn zero_free(&self) -> bool {
        forall|i: int| 0 <= i < self.h() ==> #[trigger] self.bch(i) != 0
    }

    /// The running product through row `i`: the value of the check
    /// column there.
    pub open spec fn pprod(&self, i: int) -> nat
        decreases i + 1,
    {
        if i < 0 {
            1
        } else {
            fmul(self.pprod(i - 1), fmul(self.ach(i), finv(self.bch(i))))
        }
    }
}

/// Occurrence counts never exceed the number of rows scanned.
pub proof fn lemma_occ_full_bound(d: LookupData, i: int, v: nat)
    requires
        0 <= i,
        d.occ_full(i).dom().contains(v),
    ensures
        1 <= d.occ_full(i)[v] <= i,
    decreases i,
{
    if i > 0 {
        if d.occ_full(i - 1).dom().contains(v) {
            lemma_occ_full_bound(d, i - 1, v);
        }
    }
}

/// Every count in a consumption state stems from the full map.
pub proof fn lemma_occ_at_bound(d: LookupData, t: int, v: nat)
    requires
        d.h() >= 0,
        d.occ_at(t).dom().contains(v),
    ensures
        1 <= d.occ_at(t)[v] <= d.h(),
    decreases t,
{
    if t <= 0 || d.sides() <= 0 {
        lemma_occ_full_bound(d, d.h(), v);
    } else {
        lemma_occ_at_bound(d, t - 1, v);
    }
}

} // verus!

verus! {

/// `s` cut or zero-padded to length `n`.
pub open spec fn padv(s: Seq<nat>, n: int) -> Seq<nat> {
    Seq::new(n as nat, |i: int| if i < s.len() { s[i] } else { 0nat })
}

/// `s` cut or one-padded to length `n`.
pub open spec fn pad1v(s: Seq<nat>, n: int) -> Seq<nat> {
    Seq::new(n as nat, |i: int| if i < s.len() { s[i] } else { 1nat })
}

} // verus!

verus! {

impl LookupData {
    /// Absolute position (inside the argument) of B column `j` of side
    /// `s`.
    pub open spec fn ci_b(&self, s: int, j: int) -> int {
        self.ka() + crate::layout::sw_sum(self.sw(), s) + j
    }

    /// Position of the A filter column.
    pub open spec fn ci_af(&self) -> int {
        self.ka() + crate::layout::sw_sum(self.sw(), self.sides())
    }

    /// Position of the filter column of side `s`.
    pub open spec fn ci_bf(&self, s: int) -> int {
        self.ci_af() + 1 + s
    }

    /// Position of the A inverses column.
    pub open spec fn ci_ai(&self) -> int {
        self.ci_af() + 1 + self.sides()
    }

    /// Position of the inverses column of side `s`.
    pub open spec fn ci_bi(&self, s: int) -> int {
        self.ci_ai() + 1 + s
    }

    /// Position of the multiplicity column of side `s`.
    pub open spec fn ci_m(&self, s: int) -> int {
        self.ci_ai() + 1 + self.sides() + s
    }

    /// Position of the running-sum check column.
    pub open spec fn ci_chk(&self) -> int {
        self.ci_ai() + 1 + 2 * self.sides()
    }

    /// Number of physical columns of the argument.
    pub open spec fn width(&self) -> int {
        self.ci_chk() + 1
    }
}

/// The witness columns of one lookup argument, in canonical order:
/// the raw data in front, then for every row the inverse equations,
/// the multiplicities of the occurrence pass, and the running sum,
/// which starts at the first row's contribution, moves by each row's
/// contribution, and ends at zero.
pub open spec fn lookup_out(d: LookupData, cols: Seq<Seq<nat>>) -> bool {
    &&& cols.len() == d.width()
    &&& forall|c: int| 0 <= c < cols.len() ==> (#[trigger] cols[c]).len() == d.h()
    &&& forall|j: int| 0 <= j < d.ka() ==> #[trigger] cols[j] == d.am[j]
    &&& forall|s: int, j: int|
        0 <= s < d.sides() && 0 <= j < d.sw()[s] ==> cols[#[trigger] d.ci_b(s, j)] == d.bm[s][j]
    &&& cols[d.ci_af()] == d.af
    &&& forall|s: int| 0 <= s < d.sides() ==> cols[#[trigger] d.ci_bf(s)] == d.bf[s]
    &&& forall|i: int|
        0 <= i < d.h() ==> #[trigger] cols[d.ci_ai()][i] == finv(d.ach(i)) && fmul(
            d.ach(i),
            cols[d.ci_ai()][i],
        ) == 1 && cols[d.ci_ai()][i] < fr_order()
    &&& forall|s: int, i: int|
        0 <= s < d.sides() && 0 <= i < d.h() ==> #[trigger] cols[d.ci_bi(s)][i] == finv(
            d.bch(s, i),
        ) && fmul(d.bch(s, i), cols[d.ci_bi(s)][i]) == 1 && cols[d.ci_bi(s)][i] < fr_order()
    &&& forall|s: int, i: int|
        0 <= s < d.sides() && 0 <= i < d.h() ==> #[trigger] cols[d.ci_m(s)][i] == d.mult_at(s, i)
    &&& forall|i: int| 0 <= i < d.h() ==> #[trigger] cols[d.ci_chk()][i] == d.lsum(i)
    &&& d.lsum(d.h() - 1) == 0
}

} // verus!

verus! {

/// The witness columns of one permutation argument, in canonical
/// order: the A and B columns, the B inverse column, and the running
/// product, which starts at the first row's factor, multiplies by each
/// row's factor, and ends at one.
pub open spec fn perm_out(d: PermData, cols: Seq<Seq<nat>>) -> bool {
    let w = d.w();
    &&& cols.len() == 2 * w + 2
    &&& forall|c: int| 0 <= c < cols.len() ==> (#[trigger] cols[c]).len() == d.h()
    &&& forall|j: int| 0 <= j < w ==> #[trigger] cols[j] == d.am[j]
    &&& forall|j: int| 0 <= j < w ==> #[trigger] cols[w + j] == d.bm[j]
    &&& forall|i: int|
        0 <= i < d.h() ==> #[trigger] cols[2 * w][i] == finv(d.bch(i)) && fmul(
            d.bch(i),
            cols[2 * w][i],
        ) == 1 && cols[2 * w][i] < fr_order()
    &&& forall|i: int| 0 <= i < d.h() ==> #[trigger] cols[2 * w + 1][i] == d.pprod(i)
    &&& d.pprod(d.h() - 1) == 1
}

} // verus!

verus! {

/// The lookup data with every column and filter cut or zero-padded to
/// height `n`.
pub open spec fn pad_lookup(d: LookupData, n: int) -> LookupData {
    LookupData {
        am: d.am.map_values(|c: Seq<nat>| padv(c, n)),
        bm: d.bm.map_values(|s: Seq<Seq<nat>>| s.map_values(|c: Seq<nat>| padv(c, n))),
        af: padv(d.af, n),
        bf: d.bf.map_values(|c: Seq<nat>| padv(c, n)),
        alpha: d.alpha,
        delta: d.delta,
    }
}

/// The permutation data with every column cut or zero-padded to
/// height `n`.
pub open spec fn pad_perm(d: PermData, n: int) -> PermData {
    PermData {
        am: d.am.map_values(|c: Seq<nat>| padv(c, n)),
        bm: d.bm.map_values(|c: Seq<nat>| padv(c, n)),
        alpha: d.alpha,
        delta: d.delta,
    }
}

} // verus!

verus! {

/// Running sums are always canonical values.
pub proof fn lemma_side_sum_bound(d: LookupData, i: int, s: int)
    ensures
        d.side_sum(i, s) < fr_order(),
    decreases i, s,
{
    crate::field::lemma_f_bounds(0, 0);
    if i < 0 {
    } else if s <= 0 {
        if i > 0 {
            lemma_side_sum_bound(d, i - 1, d.sides());
        }
        if d.af[i] != 0 {
            crate::field::lemma_f_bounds(
                if i == 0 {
                    0nat
                } else {
                    d.side_sum(i - 1, d.sides())
                },
                finv(d.ach(i)),
            );
        }
    } else {
        crate::field::lemma_f_bounds(
            d.side_sum(i, s - 1),
            fmul(d.mult_at(s - 1, i), finv(d.bch(s - 1, i))),
        );
    }
}

/// Running products are always canonical values.
pub proof fn lemma_pprod_bound(d: PermData, i: int)
    ensures
        i >= 0 ==> d.pprod(i) < fr_order(),
    decreases i + 1,
{
    if i >= 0 {
        crate::field::lemma_f_bounds(d.pprod(i - 1), fmul(d.ach(i), finv(d.bch(i))));
    }
}

} // verus!

verus! {

impl LookupData {
    /// How many enabled A rows among the first `k` fold to `v`.
    pub open spec fn cnt(&self, v: nat, k: int) -> nat
        decreases k,
    {
        if k <= 0 {
            0
        } else {
            (self.cnt(v, k - 1) + if self.af[k - 1] != 0 && self.arow(k - 1) == v {
                1nat
            } else {
                0nat
            }) as nat
        }
    }
}

/// The occurrence map holds exactly the enabled A row counts.
pub proof fn lemma_occ_full_is_cnt(d: LookupData, v: nat, k: int)
    requires
        0 <= k,
    ensures
        d.occ_full(k).dom().contains(v) <==> d.cnt(v, k) > 0,
        d.occ_full(k).dom().contains(v) ==> d.occ_full(k)[v] == d.cnt(v, k),
    decreases k,
{
    if k > 0 {
        lemma_occ_full_is_cnt(d, v, k - 1);
    }
}

/// Consumption never grows the map, and keeps the counts it leaves.
pub proof fn lemma_occ_at_shrinks(d: LookupData, t1: int, t2: int)
    requires
        0 <= t1 <= t2,
    ensures
        forall|v: nat|
            d.occ_at(t2).dom().contains(v) ==> #[trigger] d.occ_at(t1).dom().contains(v)
                && d.occ_at(t1)[v] == d.occ_at(t2)[v],
    decreases t2 - t1,
{
    if t1 < t2 {
        lemma_occ_at_shrinks(d, t1, t2 - 1);
    }
}

/// Counts in a consumption state are the full counts.
pub proof fn lemma_occ_at_is_cnt(d: LookupData, t: int, v: nat)
    requires
        0 <= t,
        d.h() >= 0,
        d.occ_at(t).dom().contains(v),
    ensures
        d.cnt(v, d.h()) > 0,
        d.occ_at(t)[v] == d.cnt(v, d.h()),
    decreases t,
{
    if t <= 0 || d.sides() <= 0 {
        lemma_occ_full_is_cnt(d, v, d.h());
    } else {
        lemma_occ_at_is_cnt(d, t - 1, v);
    }
}

} // verus!
