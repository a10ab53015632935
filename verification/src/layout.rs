//! Column-index descriptors. Every argument appended to the composite
//! trace receives a descriptor holding the absolute indices of its
//! physical columns; the constraint evaluator reads rows through them.
use vstd::prelude::*;

verus! {

/// The entries of a column-id vector, as mathematical integers.
pub open spec fn ids(v: Seq<usize>) -> Seq<int> {
    v.map_values(|x: usize| x as int)
}

/// The contiguous index range `start, start + 1, ..., start + n - 1`.
pub open spec fn idx_range(start: int, n: int) -> Seq<int> {
    Seq::new(n as nat, |j: int| start + j)
}

/// Sum of the first `s` side widths.
pub open spec fn sw_sum(sw: Seq<int>, s: int) -> int
    decreases s,
{
    if s <= 0 {
        0
    } else {
        sw_sum(sw, s - 1) + sw[s - 1]
    }
}

/// Total number of ids in a list of per-side id vectors.
pub open spec fn flat_len(bs: Seq<Vec<usize>>) -> int
    decreases bs.len(),
{
    if bs.len() == 0 {
        0
    } else {
        flat_len(bs.drop_last()) + bs.last()@.len()
    }
}

/// All ids of a list of per-side id vectors, side after side.
pub open spec fn flat_ids(bs: Seq<Vec<usize>>) -> Seq<int>
    decreases bs.len(),
{
    if bs.len() == 0 {
        Seq::empty()
    } else {
        flat_ids(bs.drop_last()) + ids(bs.last()@)
    }
}

/// Index descriptor of one lookup argument. The columns stand in the
/// canonical order: A values, B values side after side, the A filter,
/// the B filters, the A inverses, the B inverses, the per-side
/// multiplicities, and the running-sum check column.
#[derive(Clone, Debug)]
pub struct AirLookupConfig {
    pub a_columns_ids: Vec<usize>,
    pub b_columns_ids: Vec<Vec<usize>>,
    pub a_filter_id: usize,
    pub b_filter_id: Vec<usize>,
    pub a_inverses_id: usize,
    pub b_inverses_id: Vec<usize>,
    pub occurrences_id: Vec<usize>,
    pub check_id: usize,
}

/// Index descriptor of one permutation argument: A values, B values,
/// the B inverse column, and the running-product check column.
#[derive(Clone, Debug)]
pub struct AirPermutationConfig {
    pub a_columns_ids: Vec<usize>,
    pub b_columns_ids: Vec<usize>,
    pub b_inverse_id: usize,
    pub check_id: usize,
}

impl AirLookupConfig {
    /// Number of physical columns the descriptor claims.
    pub open spec fn width_spec(&self) -> int {
        self.a_columns_ids@.len() + flat_len(self.b_columns_ids@) + 1
            + self.b_filter_id@.len() + 1 + self.b_inverses_id@.len()
            + self.occurrences_id@.len() + 1
    }

    /// All ids of the descriptor, in canonical column order.
    pub open spec fn full_ids(&self) -> Seq<int> {
        ids(self.a_columns_ids@) + flat_ids(self.b_columns_ids@)
            + seq![self.a_filter_id as int] + ids(self.b_filter_id@)
            + seq![self.a_inverses_id as int] + ids(self.b_inverses_id@)
            + ids(self.occurrences_id@) + seq![self.check_id as int]
    }

    /// The descriptor of a lookup with `ka` A-columns and side widths
    /// `sw` whose columns start at absolute index `start`.
    pub open spec fn is_canonical(&self, start: int, ka: int, sw: Seq<int>) -> bool {
        let sides = sw.len() as int;
        let bbase = start + ka;
        let af = bbase + sw_sum(sw, sides);
        &&& ids(self.a_columns_ids@) == idx_range(start, ka)
        &&& self.b_columns_ids@.len() == sides
        &&& forall|s: int|
            0 <= s < sides ==> ids(#[trigger] self.b_columns_ids@[s]@) == idx_range(
                bbase + sw_sum(sw, s),
                sw[s],
            )
        &&& self.a_filter_id as int == af
        &&& ids(self.b_filter_id@) == idx_range(af + 1, sides)
        &&& self.a_inverses_id as int == af + 1 + sides
        &&& ids(self.b_inverses_id@) == idx_range(af + 2 + sides, sides)
        &&& ids(self.occurrences_id@) == idx_range(af + 2 + 2 * sides, sides)
        &&& self.check_id as int == af + 2 + 3 * sides
    }

    /// `post` is `pre` with `sh` added to every column index.
    pub open spec fn shifted_by(post: Self, pre: Self, sh: int) -> bool {
        &&& ids(post.a_columns_ids@) == ids(pre.a_columns_ids@).map_values(|i: int| i + sh)
        &&& post.b_columns_ids@.len() == pre.b_columns_ids@.len()
        &&& forall|s: int|
            0 <= s < pre.b_columns_ids@.len() ==> ids(#[trigger] post.b_columns_ids@[s]@)
                == ids(pre.b_columns_ids@[s]@).map_values(|i: int| i + sh)
        &&& post.a_filter_id == pre.a_filter_id + sh
        &&& ids(post.b_filter_id@) == ids(pre.b_filter_id@).map_values(|i: int| i + sh)
        &&& post.a_inverses_id == pre.a_inverses_id + sh
        &&& ids(post.b_inverses_id@) == ids(pre.b_inverses_id@).map_values(|i: int| i + sh)
        &&& ids(post.occurrences_id@) == ids(pre.occurrences_id@).map_values(|i: int| i + sh)
        &&& post.check_id == pre.check_id + sh
    }

    /// Adds `shift` to every column index of the descriptor.
    pub fn shift(&mut self, shift: usize)
        requires
            forall|k: int|
                0 <= k < old(self).full_ids().len() ==> #[trigger] old(self).full_ids()[k] + shift
                    <= usize::MAX,
        ensures
            Self::shifted_by(*final(self), *old(self), shift as int),
    {
        proof {
            lemma_full_ids_bounds(*old(self), shift as int);
        }
        let a2 = shift_vec(&self.a_columns_ids, shift);
        self.a_columns_ids = a2;
        let mut b2: Vec<Vec<usize>> = Vec::new();
        let mut s: usize = 0;
        while s < self.b_columns_ids.len()
            invariant
                0 <= s <= self.b_columns_ids@.len(),
                b2@.len() == s,
                forall|t: int|
                    0 <= t < s ==> ids(#[trigger] b2@[t]@) == ids(
                        self.b_columns_ids@[t]@,
                    ).map_values(|i: int| i + shift),
                forall|t: int, k: int|
                    0 <= t < self.b_columns_ids@.len() && 0 <= k
                        < self.b_columns_ids@[t]@.len()
                        ==> #[trigger] self.b_columns_ids@[t]@[k] + shift <= usize::MAX,
            decreases self.b_columns_ids@.len() - s,
        {
            let row = shift_vec(&self.b_columns_ids[s], shift);
            b2.push(row);
            s = s + 1;
        }
        self.b_columns_ids = b2;
        self.a_filter_id = self.a_filter_id + shift;
        let f2 = shift_vec(&self.b_filter_id, shift);
        self.b_filter_id = f2;
        self.a_inverses_id = self.a_inverses_id + shift;
        let i2 = shift_vec(&self.b_inverses_id, shift);
        self.b_inverses_id = i2;
        let o2 = shift_vec(&self.occurrences_id, shift);
        self.occurrences_id = o2;
        self.check_id = self.check_id + shift;
    }

    /// Number of physical columns the descriptor claims.
    pub fn width(&self) -> (r: usize)
        requires
            self.width_spec() <= usize::MAX,
        ensures
            r as int == self.width_spec(),
    {
        let fl = flat_len_exec(&self.b_columns_ids);
        proof {
            lemma_flat_len_nonneg(self.b_columns_ids@);
        }
        self.a_columns_ids.len() + fl + 1 + self.b_filter_id.len() + 1
            + self.b_inverses_id.len() + self.occurrences_id.len() + 1
    }
}

impl AirPermutationConfig {
    /// Number of physical columns the descriptor claims.
    pub open spec fn width_spec(&self) -> int {
        self.a_columns_ids@.len() + self.b_columns_ids@.len() + 2int
    }

    /// All ids of the descriptor, in canonical column order.
    pub open spec fn full_ids(&self) -> Seq<int> {
        ids(self.a_columns_ids@) + ids(self.b_columns_ids@)
            + seq![self.b_inverse_id as int] + seq![self.check_id as int]
    }

    /// The descriptor of a permutation of width `w` whose columns start
    /// at absolute index `start`.
    pub open spec fn is_canonical(&self, start: int, w: int) -> bool {
        &&& ids(self.a_columns_ids@) == idx_range(start, w)
        &&& ids(self.b_columns_ids@) == idx_range(start + w, w)
        &&& self.b_inverse_id as int == start + 2 * w
        &&& self.check_id as int == start + 2 * w + 1
    }

    /// `post` is `pre` with `sh` added to every column index.
    pub open spec fn shifted_by(post: Self, pre: Self, sh: int) -> bool {
        &&& ids(post.a_columns_ids@) == ids(pre.a_columns_ids@).map_values(|i: int| i + sh)
        &&& ids(post.b_columns_ids@) == ids(pre.b_columns_ids@).map_values(|i: int| i + sh)
        &&& post.b_inverse_id == pre.b_inverse_id + sh
        &&& post.check_id == pre.check_id + sh
    }

    /// Adds `shift` to every column index of the descriptor.
    pub fn shift(&mut self, shift: usize)
        requires
            forall|k: int|
                0 <= k < old(self).full_ids().len() ==> #[trigger] old(self).full_ids()[k] + shift
                    <= usize::MAX,
        ensures
            Self::shifted_by(*final(self), *old(self), shift as int),
    {
        proof {
            let pre = *old(self);
            let n = pre.a_columns_ids@.len() as int;
            let m = pre.b_columns_ids@.len() as int;
            assert forall|k: int| 0 <= k < n implies pre.a_columns_ids@[k] + shift
                <= usize::MAX by {
                assert(pre.full_ids()[k] == pre.a_columns_ids@[k] as int);
            }
            assert forall|k: int| 0 <= k < m implies pre.b_columns_ids@[k] + shift
                <= usize::MAX by {
                assert(pre.full_ids()[n + k] == pre.b_columns_ids@[k] as int);
            }
            assert(pre.full_ids()[n + m] == pre.b_inverse_id as int);
            assert(pre.full_ids()[n + m + 1] == pre.check_id as int);
        }
        let a2 = shift_vec(&self.a_columns_ids, shift);
        self.a_columns_ids = a2;
        let b2 = shift_vec(&self.b_columns_ids, shift);
        self.b_columns_ids = b2;
        self.b_inverse_id = self.b_inverse_id + shift;
        self.check_id = self.check_id + shift;
    }

    /// Number of physical columns the descriptor claims.
    pub fn width(&self) -> (r: usize)
        requires
            self.width_spec() <= usize::MAX,
        ensures
            r as int == self.width_spec(),
    {
        self.a_columns_ids.len() + self.b_columns_ids.len() + 2
    }
}

/// A new vector whose entries are those of `v` plus `shift`.
fn shift_vec(v: &Vec<usize>, shift: usize) -> (r: Vec<usize>)
    requires
        forall|k: int| 0 <= k < v@.len() ==> #[trigger] v@[k] + shift <= usize::MAX,
    ensures
        ids(r@) == ids(v@).map_values(|i: int| i + shift),
{
    let mut r: Vec<usize> = Vec::new();
    let mut j: usize = 0;
    while j < v.len()
        invariant
            0 <= j <= v@.len(),
            r@.len() == j,
            forall|k: int| 0 <= k < j ==> #[trigger] r@[k] == v@[k] + shift,
            forall|k: int| 0 <= k < v@.len() ==> #[trigger] v@[k] + shift <= usize::MAX,
        decreases v@.len() - j,
    {
        r.push(v[j] + shift);
        j = j + 1;
    }
    proof {
        assert(ids(r@) =~= ids(v@).map_values(|i: int| i + shift));
    }
    r
}

/// Per-side totals are never negative.
pub proof fn lemma_flat_len_nonneg(bs: Seq<Vec<usize>>)
    ensures
        flat_len(bs) >= 0,
        flat_ids(bs).len() == flat_len(bs),
    decreases bs.len(),
{
    if bs.len() > 0 {
        lemma_flat_len_nonneg(bs.drop_last());
    }
}

/// Dropping the last side drops its ids from the end.
pub proof fn lemma_flat_len_take(bs: Seq<Vec<usize>>, s: int)
    requires
        0 <= s < bs.len(),
    ensures
        flat_len(bs.take(s + 1)) == flat_len(bs.take(s)) + bs[s]@.len(),
        flat_ids(bs.take(s + 1)) == flat_ids(bs.take(s)) + ids(bs[s]@),
{
    assert(bs.take(s + 1).drop_last() =~= bs.take(s));
    assert(bs.take(s + 1).last() == bs[s]);
}

/// Exec computation of the total number of ids over all sides.
fn flat_len_exec(bs: &Vec<Vec<usize>>) -> (r: usize)
    requires
        flat_len(bs@) <= usize::MAX,
    ensures
        r as int == flat_len(bs@),
{
    proof {
        assert(bs@.take(0) =~= Seq::<Vec<usize>>::empty());
    }
    let mut r: usize = 0;
    let mut s: usize = 0;
    while s < bs.len()
        invariant
            0 <= s <= bs@.len(),
            r as int == flat_len(bs@.take(s as int)),
            flat_len(bs@) <= usize::MAX,
        decreases bs@.len() - s,
    {
        proof {
            lemma_flat_len_take(bs@, s as int);
            lemma_flat_len_prefix_bound(bs@, s as int + 1);
            lemma_flat_len_nonneg(bs@.take(s as int));
        }
        r = r + bs[s].len();
        s = s + 1;
    }
    proof {
        assert(bs@.take(bs@.len() as int) =~= bs@);
    }
    r
}

/// A prefix of the sides never holds more ids than all of them.
pub proof fn lemma_flat_len_prefix_bound(bs: Seq<Vec<usize>>, s: int)
    requires
        0 <= s <= bs.len(),
    ensures
        flat_len(bs.take(s)) <= flat_len(bs),
    decreases bs.len() - s,
{
    if s == bs.len() {
        assert(bs.take(s) =~= bs);
    } else {
        lemma_flat_len_take(bs, s);
        lemma_flat_len_prefix_bound(bs, s + 1);
    }
}

/// Every component id stands somewhere in `full_ids`, so the shift
/// bound carries to each component.
proof fn lemma_full_ids_bounds(pre: AirLookupConfig, sh: int)
    requires
        forall|k: int|
            0 <= k < pre.full_ids().len() ==> #[trigger] pre.full_ids()[k] + sh <= usize::MAX,
    ensures
        forall|k: int|
            0 <= k < pre.a_columns_ids@.len() ==> #[trigger] pre.a_columns_ids@[k] + sh
                <= usize::MAX,
        forall|t: int, k: int|
            0 <= t < pre.b_columns_ids@.len() && 0 <= k < pre.b_columns_ids@[t]@.len()
                ==> #[trigger] pre.b_columns_ids@[t]@[k] + sh <= usize::MAX,
        pre.a_filter_id + sh <= usize::MAX,
        forall|k: int|
            0 <= k < pre.b_filter_id@.len() ==> #[trigger] pre.b_filter_id@[k] + sh <= usize::MAX,
        pre.a_inverses_id + sh <= usize::MAX,
        forall|k: int|
            0 <= k < pre.b_inverses_id@.len() ==> #[trigger] pre.b_inverses_id@[k] + sh
                <= usize::MAX,
        forall|k: int|
            0 <= k < pre.occurrences_id@.len() ==> #[trigger] pre.occurrences_id@[k] + sh
                <= usize::MAX,
        pre.check_id + sh <= usize::MAX,
{
    lemma_flat_len_nonneg(pre.b_columns_ids@);
    let na = pre.a_columns_ids@.len() as int;
    let nb = flat_len(pre.b_columns_ids@);
    let nf = pre.b_filter_id@.len() as int;
    let ni = pre.b_inverses_id@.len() as int;
    let no = pre.occurrences_id@.len() as int;
    assert forall|k: int| 0 <= k < na implies #[trigger] pre.a_columns_ids@[k] + sh
        <= usize::MAX by {
        assert(pre.full_ids()[k] == pre.a_columns_ids@[k] as int);
    }
    assert forall|t: int, k: int|
        0 <= t < pre.b_columns_ids@.len() && 0 <= k
            < pre.b_columns_ids@[t]@.len() implies #[trigger] pre.b_columns_ids@[t]@[k] + sh
        <= usize::MAX by {
        lemma_flat_ids_contains(pre.b_columns_ids@, t, k);
        let pos = flat_pos(pre.b_columns_ids@, t, k);
        assert(pre.full_ids()[na + pos] == pre.b_columns_ids@[t]@[k] as int);
    }
    assert(pre.full_ids()[na + nb] == pre.a_filter_id as int);
    assert forall|k: int| 0 <= k < nf implies #[trigger] pre.b_filter_id@[k] + sh
        <= usize::MAX by {
        assert(pre.full_ids()[na + nb + 1 + k] == pre.b_filter_id@[k] as int);
    }
    assert(pre.full_ids()[na + nb + 1 + nf] == pre.a_inverses_id as int);
    assert forall|k: int| 0 <= k < ni implies #[trigger] pre.b_inverses_id@[k] + sh
        <= usize::MAX by {
        assert(pre.full_ids()[na + nb + 2 + nf + k] == pre.b_inverses_id@[k] as int);
    }
    assert forall|k: int| 0 <= k < no implies #[trigger] pre.occurrences_id@[k] + sh
        <= usize::MAX by {
        assert(pre.full_ids()[na + nb + 2 + nf + ni + k] == pre.occurrences_id@[k] as int);
    }
    assert(pre.full_ids()[na + nb + 2 + nf + ni + no] == pre.check_id as int);
}

/// Where the id of side `t`, position `k`, stands inside the flattened
/// side ids.
pub open spec fn flat_pos(bs: Seq<Vec<usize>>, t: int, k: int) -> int {
    flat_len(bs.take(t)) + k
}

/// The flattened side ids hold every per-side id at its position.
pub proof fn lemma_flat_ids_contains(bs: Seq<Vec<usize>>, t: int, k: int)
    requires
        0 <= t < bs.len(),
        0 <= k < bs[t]@.len(),
    ensures
        0 <= flat_pos(bs, t, k) < flat_len(bs),
        flat_ids(bs)[flat_pos(bs, t, k)] == bs[t]@[k] as int,
    decreases bs.len(),
{
    lemma_flat_len_nonneg(bs.take(t));
    lemma_flat_len_nonneg(bs);
    if t == bs.len() - 1 {
        assert(bs.take(t) =~= bs.drop_last());
        lemma_flat_len_nonneg(bs.drop_last());
        assert(flat_ids(bs) == flat_ids(bs.drop_last()) + ids(bs.last()@));
        assert(bs.last() == bs[t]);
    } else {
        lemma_flat_ids_contains(bs.drop_last(), t, k);
        assert(bs.drop_last().take(t) =~= bs.take(t));
        assert(bs.drop_last()[t] == bs[t]);
        lemma_flat_len_nonneg(bs.drop_last());
        assert(flat_ids(bs) == flat_ids(bs.drop_last()) + ids(bs.last()@));
        lemma_flat_len_prefix_bound(bs.drop_last(), t);
        assert(bs.drop_last().take(bs.len() - 1) =~= bs.drop_last());
    }
}

} // verus!

verus! {

/// Prefix sums of non-negative side widths stay between zero and the
/// total.
pub proof fn lemma_sw_sum_bounds(sw: Seq<int>, s: int)
    requires
        forall|k: int| 0 <= k < sw.len() ==> #[trigger] sw[k] >= 0,
        0 <= s <= sw.len(),
    ensures
        0 <= sw_sum(sw, s),
        sw_sum(sw, s) <= sw_sum(sw, sw.len() as int),
    decreases sw.len() - s, s,
{
    lemma_sw_sum_nonneg(sw, s);
    let mut t = s;
    assert forall|t2: int| s <= t2 <= sw.len() implies sw_sum(sw, s) <= sw_sum(sw, t2) by {
        lemma_sw_sum_chain(sw, s, t2);
    }
}

/// Prefix sums of non-negative entries are non-negative.
pub proof fn lemma_sw_sum_nonneg(sw: Seq<int>, s: int)
    requires
        forall|k: int| 0 <= k < sw.len() ==> #[trigger] sw[k] >= 0,
        0 <= s <= sw.len(),
    ensures
        0 <= sw_sum(sw, s),
    decreases s,
{
    if s > 0 {
        lemma_sw_sum_nonneg(sw, s - 1);
    }
}

/// Prefix sums of non-negative entries grow with the prefix.
pub proof fn lemma_sw_sum_chain(sw: Seq<int>, s: int, t: int)
    requires
        forall|k: int| 0 <= k < sw.len() ==> #[trigger] sw[k] >= 0,
        0 <= s <= t <= sw.len(),
    ensures
        sw_sum(sw, s) <= sw_sum(sw, t),
    decreases t - s,
{
    if s < t {
        lemma_sw_sum_chain(sw, s + 1, t);
        lemma_sw_sum_chain2(sw, s);
    }
}

/// One step of the prefix sum.
pub proof fn lemma_sw_sum_chain2(sw: Seq<int>, s: int)
    requires
        forall|k: int| 0 <= k < sw.len() ==> #[trigger] sw[k] >= 0,
        0 <= s < sw.len(),
    ensures
        sw_sum(sw, s) <= sw_sum(sw, s + 1),
{
}

} // verus!

verus! {

/// Position `j` of side `t` inside the flattened sides.
pub open spec fn side_pos(sw: Seq<int>, t: int, j: int) -> int {
    sw_sum(sw, t) + j
}

/// Any position inside the flattened sides falls in exactly one side.
pub proof fn lemma_sw_pos(sw: Seq<int>, n: int, c: int)
    requires
        forall|k: int| 0 <= k < sw.len() ==> #[trigger] sw[k] >= 0,
        0 <= n <= sw.len(),
        0 <= c < sw_sum(sw, n),
    ensures
        exists|t: int, j: int|
            0 <= t < n && 0 <= j < sw[t] && c == #[trigger] side_pos(sw, t, j),
    decreases n,
{
    lemma_sw_sum_nonneg(sw, if n > 0 { n - 1 } else { 0 });
    if n > 0 {
        if c >= sw_sum(sw, n - 1) {
            let t = n - 1;
            let j = c - sw_sum(sw, t);
            assert(0 <= t < n && 0 <= j < sw[t] && c == side_pos(sw, t, j));
        } else {
            lemma_sw_pos(sw, n - 1, c);
        }
    }
}

} // verus!

verus! {

impl AirLookupConfig {
    /// Side widths as the descriptor itself declares them.
    pub open spec fn own_sw(&self) -> Seq<int> {
        Seq::new(self.b_columns_ids@.len(), |s: int| self.b_columns_ids@[s]@.len() as int)
    }

    /// The descriptor is in canonical form for its own shape, starting
    /// at absolute index `start`.
    pub open spec fn canonical_at(&self, start: int) -> bool {
        self.is_canonical(start, self.a_columns_ids@.len() as int, self.own_sw())
    }
}

impl AirPermutationConfig {
    /// The descriptor is in canonical form for its own width, starting
    /// at absolute index `start`.
    pub open spec fn canonical_at(&self, start: int) -> bool {
        self.is_canonical(start, self.a_columns_ids@.len() as int)
    }
}

/// An argument's descriptor: a lookup or a permutation.
#[derive(Clone, Debug)]
pub enum AirConfig {
    Lookup(AirLookupConfig),
    Permutation(AirPermutationConfig),
}

impl AirConfig {
    /// Number of physical columns the descriptor claims.
    pub open spec fn width_spec(&self) -> int {
        match self {
            AirConfig::Lookup(l) => l.width_spec(),
            AirConfig::Permutation(p) => p.width_spec(),
        }
    }

    /// The descriptor is in canonical form starting at absolute index
    /// `start`.
    pub open spec fn canonical_at(&self, start: int) -> bool {
        match self {
            AirConfig::Lookup(l) => l.canonical_at(start),
            AirConfig::Permutation(p) => p.canonical_at(start),
        }
    }

    /// Number of physical columns the descriptor claims.
    pub fn width(&self) -> (r: usize)
        requires
            self.width_spec() <= usize::MAX,
        ensures
            r as int == self.width_spec(),
    {
        match self {
            AirConfig::Lookup(l) => l.width(),
            AirConfig::Permutation(p) => p.width(),
        }
    }
}

/// A canonical lookup descriptor claims exactly the contiguous range
/// of its width.
pub proof fn lemma_lookup_cfg_in_range(cfg: AirLookupConfig, start: int, ka: int, sw: Seq<int>)
    requires
        cfg.is_canonical(start, ka, sw),
        forall|k: int| 0 <= k < sw.len() ==> #[trigger] sw[k] >= 0,
        ka >= 0,
    ensures
        cfg.width_spec() == ka + sw_sum(sw, sw.len() as int) + 3 * sw.len() + 3,
        forall|k: int|
            0 <= k < cfg.full_ids().len() ==> start <= #[trigger] cfg.full_ids()[k] < start
                + cfg.width_spec(),
        cfg.full_ids().len() == cfg.width_spec(),
        cfg.full_ids() == idx_range(start, cfg.width_spec()),
{
    let sides = sw.len() as int;
    let total = sw_sum(sw, sides);
    assert(cfg.a_columns_ids@.len() == ka) by {
        assert(ids(cfg.a_columns_ids@).len() == cfg.a_columns_ids@.len());
        assert(idx_range(start, ka).len() == ka);
    }
    assert(cfg.b_filter_id@.len() == sides) by {
        assert(ids(cfg.b_filter_id@).len() == cfg.b_filter_id@.len());
    }
    assert(cfg.b_inverses_id@.len() == sides) by {
        assert(ids(cfg.b_inverses_id@).len() == cfg.b_inverses_id@.len());
    }
    assert(cfg.occurrences_id@.len() == sides) by {
        assert(ids(cfg.occurrences_id@).len() == cfg.occurrences_id@.len());
    }
    assert(flat_len(cfg.b_columns_ids@) == total && flat_ids(cfg.b_columns_ids@).len() == total
        && forall|k: int|
        0 <= k < total ==> #[trigger] flat_ids(cfg.b_columns_ids@)[k] == start + ka + k) by {
        lemma_canonical_flat(cfg.b_columns_ids@, start + ka, sw, sw.len() as int);
        assert(cfg.b_columns_ids@.take(sw.len() as int) =~= cfg.b_columns_ids@);
    }
    lemma_flat_len_nonneg(cfg.b_columns_ids@);
    assert forall|k: int|
        0 <= k < cfg.full_ids().len() implies #[trigger] cfg.full_ids()[k] == start + k by {
        let na = ka;
        let nb = total;
        let fi = cfg.full_ids();
        lemma_sw_sum_nonneg(sw, sides);
        if k < na {
            assert(fi[k] == cfg.a_columns_ids@[k] as int);
            assert(ids(cfg.a_columns_ids@)[k] == idx_range(start, ka)[k]);
        } else if k < na + nb {
            assert(fi[k] == flat_ids(cfg.b_columns_ids@)[k - na]);
        } else if k == na + nb {
            assert(fi[k] == cfg.a_filter_id as int);
        } else if k < na + nb + 1 + sides {
            let t = k - (na + nb + 1);
            assert(fi[k] == cfg.b_filter_id@[t] as int);
            assert(ids(cfg.b_filter_id@)[t] == idx_range(start + ka + total + 1, sides)[t]);
        } else if k == na + nb + 1 + sides {
            assert(fi[k] == cfg.a_inverses_id as int);
        } else if k < na + nb + 2 + 2 * sides {
            let t = k - (na + nb + 2 + sides);
            assert(fi[k] == cfg.b_inverses_id@[t] as int);
            assert(ids(cfg.b_inverses_id@)[t] == idx_range(
                start + ka + total + 2 + sides,
                sides,
            )[t]);
        } else if k < na + nb + 2 + 3 * sides {
            let t = k - (na + nb + 2 + 2 * sides);
            assert(fi[k] == cfg.occurrences_id@[t] as int);
            assert(ids(cfg.occurrences_id@)[t] == idx_range(
                start + ka + total + 2 + 2 * sides,
                sides,
            )[t]);
        } else {
            assert(fi[k] == cfg.check_id as int);
        }
    }
    assert(cfg.full_ids() =~= idx_range(start, cfg.width_spec()));
}

/// Canonical per-side id vectors flatten to the contiguous range of
/// their total width.
proof fn lemma_canonical_flat(bs: Seq<Vec<usize>>, base: int, sw: Seq<int>, n: int)
    requires
        0 <= n <= sw.len(),
        bs.len() == sw.len(),
        forall|s: int|
            0 <= s < sw.len() ==> ids(#[trigger] bs[s]@) == idx_range(base + sw_sum(sw, s), sw[s]),
        forall|k: int| 0 <= k < sw.len() ==> #[trigger] sw[k] >= 0,
    ensures
        flat_len(bs.take(n)) == sw_sum(sw, n),
        flat_ids(bs.take(n)).len() == sw_sum(sw, n),
        forall|k: int|
            0 <= k < sw_sum(sw, n) ==> #[trigger] flat_ids(bs.take(n))[k] == base + k,
    decreases n,
{
    lemma_flat_len_nonneg(bs.take(n));
    if n == 0 {
        assert(bs.take(0) =~= Seq::<Vec<usize>>::empty());
    } else {
        lemma_canonical_flat(bs, base, sw, n - 1);
        lemma_flat_len_take(bs, n - 1);
        lemma_sw_sum_nonneg(sw, n - 1);
        assert(ids(bs[n - 1]@) == idx_range(base + sw_sum(sw, n - 1), sw[n - 1]));
        assert(ids(bs[n - 1]@).len() == sw[n - 1]);
        assert forall|k: int|
            0 <= k < sw_sum(sw, n) implies #[trigger] flat_ids(bs.take(n))[k] == base + k by {
            if k < sw_sum(sw, n - 1) {
                assert(flat_ids(bs.take(n))[k] == flat_ids(bs.take(n - 1))[k]);
            } else {
                let j = k - sw_sum(sw, n - 1);
                assert(flat_ids(bs.take(n))[k] == ids(bs[n - 1]@)[j]);
                assert(ids(bs[n - 1]@)[j] == base + sw_sum(sw, n - 1) + j);
            }
        }
    }
}

} // verus!

verus! {

/// Shifting a canonical lookup descriptor moves its start.
pub proof fn lemma_shift_canonical_lookup(
    post: AirLookupConfig,
    pre: AirLookupConfig,
    sh: int,
    start: int,
    ka: int,
    sw: Seq<int>,
)
    requires
        AirLookupConfig::shifted_by(post, pre, sh),
        pre.is_canonical(start, ka, sw),
    ensures
        post.is_canonical(start + sh, ka, sw),
{
    let sides = sw.len() as int;
    assert(ids(post.a_columns_ids@) =~= idx_range(start + sh, ka));
    assert forall|s: int| 0 <= s < sides implies ids(#[trigger] post.b_columns_ids@[s]@)
        == idx_range(start + sh + ka + sw_sum(sw, s), sw[s]) by {
        assert(ids(post.b_columns_ids@[s]@) == ids(pre.b_columns_ids@[s]@).map_values(
            |i: int| i + sh,
        ));
        assert(ids(post.b_columns_ids@[s]@) =~= idx_range(start + sh + ka + sw_sum(sw, s), sw[s]));
    }
    assert(ids(post.b_filter_id@) =~= idx_range(start + sh + ka + sw_sum(sw, sides) + 1, sides));
    assert(ids(post.b_inverses_id@) =~= idx_range(
        start + sh + ka + sw_sum(sw, sides) + 2 + sides,
        sides,
    ));
    assert(ids(post.occurrences_id@) =~= idx_range(
        start + sh + ka + sw_sum(sw, sides) + 2 + 2 * sides,
        sides,
    ));
}

/// Shifting a canonical permutation descriptor moves its start.
pub proof fn lemma_shift_canonical_perm(
    post: AirPermutationConfig,
    pre: AirPermutationConfig,
    sh: int,
    start: int,
    w: int,
)
    requires
        AirPermutationConfig::shifted_by(post, pre, sh),
        pre.is_canonical(start, w),
    ensures
        post.is_canonical(start + sh, w),
{
    assert(ids(post.a_columns_ids@) =~= idx_range(start + sh, w));
    assert(ids(post.b_columns_ids@) =~= idx_range(start + sh + w, w));
}

/// A canonical permutation descriptor claims exactly the contiguous
/// range of its width.
pub proof fn lemma_perm_cfg_in_range(cfg: AirPermutationConfig, start: int, w: int)
    requires
        cfg.is_canonical(start, w),
        w >= 0,
    ensures
        cfg.width_spec() == 2 * w + 2,
        forall|k: int|
            0 <= k < cfg.full_ids().len() ==> start <= #[trigger] cfg.full_ids()[k] < start
                + cfg.width_spec(),
        cfg.full_ids().len() == cfg.width_spec(),
        cfg.full_ids() == idx_range(start, cfg.width_spec()),
{
    assert(cfg.a_columns_ids@.len() == w) by {
        assert(ids(cfg.a_columns_ids@).len() == cfg.a_columns_ids@.len());
        assert(idx_range(start, w).len() == w);
    }
    assert(cfg.b_columns_ids@.len() == w) by {
        assert(ids(cfg.b_columns_ids@).len() == cfg.b_columns_ids@.len());
    }
    assert forall|k: int|
        0 <= k < cfg.full_ids().len() implies #[trigger] cfg.full_ids()[k] == start + k by {
        let fi = cfg.full_ids();
        if k < w {
            assert(fi[k] == cfg.a_columns_ids@[k] as int);
            assert(ids(cfg.a_columns_ids@)[k] == idx_range(start, w)[k]);
        } else if k < 2 * w {
            assert(fi[k] == cfg.b_columns_ids@[k - w] as int);
            assert(ids(cfg.b_columns_ids@)[k - w] == idx_range(start + w, w)[k - w]);
        } else if k == 2 * w {
            assert(fi[k] == cfg.b_inverse_id as int);
        } else {
            assert(fi[k] == cfg.check_id as int);
        }
    }
    assert(cfg.full_ids() =~= idx_range(start, cfg.width_spec()));
}

} // verus!

verus! {

/// Where descriptor `k` of a list starts: the sum of the widths before
/// it.
pub open spec fn cfgs_offset(cfgs: Seq<AirConfig>, k: int) -> int
    decreases k,
{
    if k <= 0 {
        0
    } else {
        cfgs_offset(cfgs, k - 1) + cfgs[k - 1].width_spec()
    }
}

/// Offsets of the first `k` descriptors ignore what comes after them.
pub proof fn lemma_cfgs_offset_push(cfgs: Seq<AirConfig>, x: AirConfig, k: int)
    requires
        0 <= k <= cfgs.len(),
    ensures
        cfgs_offset(cfgs.push(x), k) == cfgs_offset(cfgs, k),
    decreases k,
{
    if k > 0 {
        lemma_cfgs_offset_push(cfgs, x, k - 1);
    }
}

/// A canonical descriptor is canonical for its own declared shape.
pub proof fn lemma_canonical_own_lookup(cfg: AirLookupConfig, start: int, ka: int, sw: Seq<int>)
    requires
        cfg.is_canonical(start, ka, sw),
        ka >= 0,
        forall|k: int| 0 <= k < sw.len() ==> #[trigger] sw[k] >= 0,
    ensures
        cfg.canonical_at(start),
{
    assert(cfg.a_columns_ids@.len() == ka) by {
        assert(ids(cfg.a_columns_ids@).len() == cfg.a_columns_ids@.len());
        assert(idx_range(start, ka).len() == ka);
    }
    assert(cfg.own_sw() =~= sw) by {
        assert forall|s: int| 0 <= s < sw.len() implies #[trigger] cfg.own_sw()[s] == sw[s] by {
            assert(ids(cfg.b_columns_ids@[s]@).len() == cfg.b_columns_ids@[s]@.len());
            assert(idx_range(start + ka + sw_sum(sw, s), sw[s]).len() == sw[s]);
        }
    }
}

/// A canonical permutation descriptor is canonical for its own width.
pub proof fn lemma_canonical_own_perm(cfg: AirPermutationConfig, start: int, w: int)
    requires
        cfg.is_canonical(start, w),
        w >= 0,
    ensures
        cfg.canonical_at(start),
{
    assert(cfg.a_columns_ids@.len() == w) by {
        assert(ids(cfg.a_columns_ids@).len() == cfg.a_columns_ids@.len());
        assert(idx_range(start, w).len() == w);
    }
}

} // verus!

verus! {

impl AirConfig {
    /// All ids of the descriptor, in canonical column order.
    pub open spec fn full_ids(&self) -> Seq<int> {
        match self {
            AirConfig::Lookup(c) => c.full_ids(),
            AirConfig::Permutation(c) => c.full_ids(),
        }
    }
}

} // verus!
