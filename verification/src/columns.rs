//! Exec helpers on columns of field elements: decoding 32-byte cells,
//! Horner row folding, and columns of shifted inverses.
use vstd::prelude::*;
use crate::field::{
    Bls12_377Fr, fr_val, fr_order, fadd, fmul, finv, fr_add, fr_mul, fr_zero, fr_inverse,
    fr_is_zero, fr_from_be_bytes, lemma_finv_agrees, fcol_val, fmat_val, fcube_val,
};
use crate::witness::{horner_at, bcol_val, bmat_val, bcube_val};

verus! {

/// Decodes one column of 32-byte big-endian cells.
pub(crate) fn decode_col(v: &Vec<[u8; 32]>) -> (r: Vec<Bls12_377Fr>)
    ensures
        r@.len() == v@.len(),
        fcol_val(r@) == bcol_val(v@),
{
    let mut r: Vec<Bls12_377Fr> = Vec::new();
    let mut j: usize = 0;
    while j < v.len()
        invariant
            0 <= j <= v@.len(),
            r@.len() == j,
            forall|k: int| 0 <= k < j ==> fr_val(#[trigger] r@[k]) == bcol_val(v@)[k],
        decreases v@.len() - j,
    {
        let c = v[j];
        r.push(fr_from_be_bytes(&c));
        j = j + 1;
    }
    proof {
        assert(fcol_val(r@) =~= bcol_val(v@));
    }
    r
}

/// Decodes a list of byte columns.
pub(crate) fn decode_mat(m: &Vec<Vec<[u8; 32]>>) -> (r: Vec<Vec<Bls12_377Fr>>)
    ensures
        r@.len() == m@.len(),
        forall|j: int| 0 <= j < m@.len() ==> (#[trigger] r@[j])@.len() == m@[j]@.len(),
        fmat_val(r@) == bmat_val(m@),
{
    let mut r: Vec<Vec<Bls12_377Fr>> = Vec::new();
    let mut j: usize = 0;
    while j < m.len()
        invariant
            0 <= j <= m@.len(),
            r@.len() == j,
            forall|k: int| 0 <= k < j ==> (#[trigger] r@[k])@.len() == m@[k]@.len(),
            forall|k: int| 0 <= k < j ==> fcol_val((#[trigger] r@[k])@) == bcol_val(m@[k]@),
        decreases m@.len() - j,
    {
        r.push(decode_col(&m[j]));
        j = j + 1;
    }
    proof {
        assert(fmat_val(r@) =~= bmat_val(m@));
    }
    r
}

/// Decodes a list of sides, each a list of byte columns.
pub(crate) fn decode_cube(b: &Vec<Vec<Vec<[u8; 32]>>>) -> (r: Vec<Vec<Vec<Bls12_377Fr>>>)
    ensures
        r@.len() == b@.len(),
        forall|s: int| 0 <= s < b@.len() ==> (#[trigger] r@[s])@.len() == b@[s]@.len(),
        forall|s: int, j: int|
            0 <= s < b@.len() && 0 <= j < b@[s]@.len() ==> (#[trigger] r@[s]@[j])@.len()
                == b@[s]@[j]@.len(),
        fcube_val(r@) == bcube_val(b@),
{
    let mut r: Vec<Vec<Vec<Bls12_377Fr>>> = Vec::new();
    let mut s: usize = 0;
    while s < b.len()
        invariant
            0 <= s <= b@.len(),
            r@.len() == s,
            forall|k: int| 0 <= k < s ==> (#[trigger] r@[k])@.len() == b@[k]@.len(),
            forall|k: int, j: int|
                0 <= k < s && 0 <= j < b@[k]@.len() ==> (#[trigger] r@[k]@[j])@.len()
                    == b@[k]@[j]@.len(),
            forall|k: int| 0 <= k < s ==> fmat_val((#[trigger] r@[k])@) == bmat_val(b@[k]@),
        decreases b@.len() - s,
    {
        r.push(decode_mat(&b[s]));
        s = s + 1;
    }
    proof {
        assert(fcube_val(r@) =~= bcube_val(b@));
    }
    r
}

/// Folds every row of the given columns with the challenge `alpha`.
pub(crate) fn fold_rows(cols: &Vec<Vec<Bls12_377Fr>>, alpha: Bls12_377Fr, h: usize) -> (r: Vec<
    Bls12_377Fr,
>)
    requires
        forall|j: int| 0 <= j < cols@.len() ==> (#[trigger] cols@[j])@.len() == h,
    ensures
        r@.len() == h,
        forall|i: int|
            0 <= i < h ==> fr_val(#[trigger] r@[i]) == horner_at(
                fmat_val(cols@),
                fr_val(alpha),
                i,
            ),
{
    let ghost hseq = fmat_val(cols@);
    let ghost av = fr_val(alpha);
    let mut r: Vec<Bls12_377Fr> = Vec::new();
    let mut i: usize = 0;
    while i < h
        invariant
            0 <= i <= h,
            r@.len() == i,
            hseq == fmat_val(cols@),
            av == fr_val(alpha),
            forall|j: int| 0 <= j < cols@.len() ==> (#[trigger] cols@[j])@.len() == h,
            forall|k: int| 0 <= k < i ==> fr_val(#[trigger] r@[k]) == horner_at(hseq, av, k),
        decreases h - i,
    {
        let mut acc = fr_zero();
        let mut j: usize = 0;
        proof {
            assert(hseq.take(0) =~= Seq::<Seq<nat>>::empty());
        }
        while j < cols.len()
            invariant
                0 <= j <= cols@.len(),
                0 <= i < h,
                hseq == fmat_val(cols@),
                av == fr_val(alpha),
                forall|jj: int| 0 <= jj < cols@.len() ==> (#[trigger] cols@[jj])@.len() == h,
                fr_val(acc) == horner_at(hseq.take(j as int), av, i as int),
            decreases cols@.len() - j,
        {
            let ghost prefix = hseq.take(j as int + 1);
            proof {
                assert(prefix.drop_last() =~= hseq.take(j as int));
                assert(prefix.last() == hseq[j as int]);
                assert(hseq[j as int] == fcol_val(cols@[j as int]@));
            }
            acc = fr_add(fr_mul(acc, alpha), cols[j][i]);
            j = j + 1;
        }
        proof {
            assert(hseq.take(cols@.len() as int) =~= hseq);
        }
        r.push(acc);
        i = i + 1;
    }
    r
}

/// For each entry `x` of `rows`, the inverse of `x + delta`; `None`
/// exactly when some `x + delta` is zero and has none.
pub(crate) fn inv_col(rows: &Vec<Bls12_377Fr>, delta: Bls12_377Fr) -> (r: Option<
    Vec<Bls12_377Fr>,
>)
    ensures
        match r {
            Some(v) => {
                &&& v@.len() == rows@.len()
                &&& forall|i: int|
                    0 <= i < rows@.len() ==> #[trigger] fadd(fr_val(rows@[i]), fr_val(delta)) != 0
                &&& forall|i: int|
                    0 <= i < rows@.len() ==> fr_val(#[trigger] v@[i]) == finv(
                        fadd(fr_val(rows@[i]), fr_val(delta)),
                    )
                &&& forall|i: int|
                    0 <= i < rows@.len() ==> fmul(
                        fadd(fr_val(rows@[i]), fr_val(delta)),
                        fr_val(#[trigger] v@[i]),
                    ) == 1 && fr_val(v@[i]) < fr_order()
            },
            None => exists|i: int|
                0 <= i < rows@.len() && #[trigger] fadd(fr_val(rows@[i]), fr_val(delta)) == 0,
        },
{
    let mut v: Vec<Bls12_377Fr> = Vec::new();
    let mut i: usize = 0;
    while i < rows.len()
        invariant
            0 <= i <= rows@.len(),
            v@.len() == i,
            forall|k: int|
                0 <= k < i ==> #[trigger] fadd(fr_val(rows@[k]), fr_val(delta)) != 0,
            forall|k: int|
                0 <= k < i ==> fr_val(#[trigger] v@[k]) == finv(
                    fadd(fr_val(rows@[k]), fr_val(delta)),
                ),
            forall|k: int|
                0 <= k < i ==> fmul(fadd(fr_val(rows@[k]), fr_val(delta)), fr_val(#[trigger] v@[k]))
                    == 1 && fr_val(v@[k]) < fr_order(),
        decreases rows@.len() - i,
    {
        let t = fr_add(rows[i], delta);
        if fr_is_zero(t) {
            return None;
        }
        let inv = fr_inverse(t);
        proof {
            lemma_finv_agrees(fr_val(t), fr_val(inv));
        }
        v.push(inv);
        i = i + 1;
    }
    Some(v)
}

} // verus!
verus! {

/// The all-zero cell: decodes to field zero.
pub(crate) fn zero_cell() -> (r: [u8; 32])
    ensures
        crate::field::cell_val(r) == 0,
{
    let r = [0u8; 32];
    proof {
        crate::field::lemma_be_val_zero(r@);
    }
    r
}

/// The cell with last byte one: decodes to field one.
pub(crate) fn one_cell() -> (r: [u8; 32])
    ensures
        crate::field::cell_val(r) == 1,
{
    let mut r = [0u8; 32];
    r[31] = 1;
    proof {
        crate::field::lemma_be_val_zero(r@.drop_last());
        assert(crate::field::be_val(r@) == 1);
        vstd::arithmetic::div_mod::lemma_small_mod(1nat, crate::field::fr_order());
    }
    r
}

} // verus!

verus! {

/// `col` cut or zero-padded to length `size`.
pub(crate) fn pad_col(col: &Vec<[u8; 32]>, size: usize) -> (r: Vec<[u8; 32]>)
    ensures
        r@.len() == size,
        bcol_val(r@) == crate::witness::padv(bcol_val(col@), size as int),
{
    let mut r: Vec<[u8; 32]> = Vec::new();
    let n = if size < col.len() {
        size
    } else {
        col.len()
    };
    let mut i: usize = 0;
    while i < n
        invariant
            0 <= i <= n,
            n <= size,
            n <= col@.len(),
            r@.len() == i,
            forall|k: int|
                0 <= k < i ==> crate::field::cell_val(#[trigger] r@[k]) == crate::field::cell_val(
                    col@[k],
                ),
        decreases n - i,
    {
        r.push(col[i]);
        i = i + 1;
    }
    while r.len() < size
        invariant
            n <= r@.len() <= size,
            n <= size,
            n <= col@.len(),
            n == if size < col@.len() {
                size as int
            } else {
                col@.len() as int
            },
            forall|k: int|
                0 <= k < n ==> crate::field::cell_val(#[trigger] r@[k]) == crate::field::cell_val(
                    col@[k],
                ),
            forall|k: int| n <= k < r@.len() ==> crate::field::cell_val(#[trigger] r@[k]) == 0,
        decreases size - r@.len(),
    {
        r.push(zero_cell());
    }
    proof {
        assert(bcol_val(r@) =~= crate::witness::padv(bcol_val(col@), size as int));
    }
    r
}

} // verus!

verus! {

/// The columns of a row-major table: entry `s` of each row becomes
/// row `s` of the result.
pub(crate) fn transpose_rows(rows: &Vec<Vec<Bls12_377Fr>>, w: usize) -> (r: Vec<
    Vec<Bls12_377Fr>,
>)
    requires
        forall|i: int| 0 <= i < rows@.len() ==> (#[trigger] rows@[i])@.len() == w,
    ensures
        r@.len() == w,
        forall|s: int| 0 <= s < w ==> (#[trigger] r@[s])@.len() == rows@.len(),
        forall|s: int, i: int|
            0 <= s < w && 0 <= i < rows@.len() ==> (#[trigger] r@[s]@[i]) == rows@[i]@[s],
{
    let mut r: Vec<Vec<Bls12_377Fr>> = Vec::new();
    let mut s: usize = 0;
    while s < w
        invariant
            0 <= s <= w,
            r@.len() == s,
            forall|i: int| 0 <= i < rows@.len() ==> (#[trigger] rows@[i])@.len() == w,
            forall|t: int| 0 <= t < s ==> (#[trigger] r@[t])@.len() == rows@.len(),
            forall|t: int, i: int|
                0 <= t < s && 0 <= i < rows@.len() ==> (#[trigger] r@[t]@[i]) == rows@[i]@[t],
        decreases w - s,
    {
        let mut col: Vec<Bls12_377Fr> = Vec::new();
        let mut i: usize = 0;
        while i < rows.len()
            invariant
                0 <= i <= rows@.len(),
                0 <= s < w,
                col@.len() == i,
                forall|k: int| 0 <= k < rows@.len() ==> (#[trigger] rows@[k])@.len() == w,
                forall|k: int| 0 <= k < i ==> (#[trigger] col@[k]) == rows@[k]@[s as int],
            decreases rows@.len() - i,
        {
            col.push(rows[i][s]);
            i = i + 1;
        }
        r.push(col);
        s = s + 1;
    }
    r
}

} // verus!

verus! {

/// `col` cut or padded with field zeros to length `size`.
pub(crate) fn pad_fr_col(col: &Vec<Bls12_377Fr>, size: usize) -> (r: Vec<Bls12_377Fr>)
    ensures
        r@.len() == size,
        fcol_val(r@) == crate::witness::padv(fcol_val(col@), size as int),
{
    let mut r: Vec<Bls12_377Fr> = Vec::new();
    let n = if size < col.len() {
        size
    } else {
        col.len()
    };
    let mut i: usize = 0;
    while i < n
        invariant
            0 <= i <= n,
            n <= size,
            n <= col@.len(),
            r@.len() == i,
            forall|k: int| 0 <= k < i ==> fr_val(#[trigger] r@[k]) == fr_val(col@[k]),
        decreases n - i,
    {
        r.push(col[i]);
        i = i + 1;
    }
    while r.len() < size
        invariant
            n <= r@.len() <= size,
            n <= size,
            n <= col@.len(),
            n == if size < col@.len() {
                size as int
            } else {
                col@.len() as int
            },
            forall|k: int| 0 <= k < n ==> fr_val(#[trigger] r@[k]) == fr_val(col@[k]),
            forall|k: int| n <= k < r@.len() ==> fr_val(#[trigger] r@[k]) == 0,
        decreases size - r@.len(),
    {
        r.push(fr_zero());
    }
    proof {
        assert(fcol_val(r@) =~= crate::witness::padv(fcol_val(col@), size as int));
    }
    r
}

} // verus!

verus! {

/// `col` grown with one-valued cells to length `size`; never cut.
pub(crate) fn grow_ones(col: &Vec<[u8; 32]>, size: usize) -> (r: Vec<[u8; 32]>)
    requires
        col@.len() <= size,
    ensures
        r@.len() == size,
        bcol_val(r@) == crate::witness::pad1v(bcol_val(col@), size as int),
{
    let mut r: Vec<[u8; 32]> = Vec::new();
    let mut i: usize = 0;
    while i < col.len()
        invariant
            0 <= i <= col@.len(),
            r@.len() == i,
            forall|k: int|
                0 <= k < i ==> crate::field::cell_val(#[trigger] r@[k]) == crate::field::cell_val(
                    col@[k],
                ),
        decreases col@.len() - i,
    {
        r.push(col[i]);
        i = i + 1;
    }
    while r.len() < size
        invariant
            col@.len() <= r@.len() <= size,
            forall|k: int|
                0 <= k < col@.len() ==> crate::field::cell_val(#[trigger] r@[k])
                    == crate::field::cell_val(col@[k]),
            forall|k: int|
                col@.len() <= k < r@.len() ==> crate::field::cell_val(#[trigger] r@[k]) == 1,
        decreases size - r@.len(),
    {
        r.push(one_cell());
    }
    proof {
        assert(bcol_val(r@) =~= crate::witness::pad1v(bcol_val(col@), size as int));
    }
    r
}

} // verus!
