use ark_ff::{One, Zero};
use linea_air::field::Bls12_377Fr;
use linea_air::lookup::RawLookupTrace;
use linea_air::permutation::RawPermutationTrace;
use linea_air::trace::RawTrace;
use linea_air::TraceError;

fn cell(n: u64) -> [u8; 32] {
    let mut c = [0u8; 32];
    c[24..].copy_from_slice(&n.to_be_bytes());
    c
}

fn col(vals: &[u64]) -> Vec<[u8; 32]> {
    vals.iter().map(|&v| cell(v)).collect()
}

fn fr(n: u64) -> Bls12_377Fr {
    Bls12_377Fr(ark_bls12_377::Fr::from(n))
}

fn challenges() -> Vec<Bls12_377Fr> {
    vec![fr(5), fr(7)]
}

fn assert_fr_eq(a: Bls12_377Fr, n: u64) {
    assert_eq!(a.0, fr(n).0);
}

fn lookup(a: Vec<Vec<[u8; 32]>>, b: Vec<Vec<Vec<[u8; 32]>>>, af: Vec<[u8; 32]>, bf: Vec<Vec<[u8; 32]>>) -> RawLookupTrace {
    RawLookupTrace { a, b, name: String::new(), a_filter: af, b_filter: bf }
}

#[test]
fn permutation_width_one() {
    // scenario: B is a reordering of A, so the running product ends at one
    let p = RawPermutationTrace {
        a: vec![col(&[1, 2, 3, 4])],
        b: vec![col(&[3, 1, 4, 2])],
        name: String::new(),
    };
    let (cfg, cols) = p.get_trace(&challenges()).unwrap();
    assert_eq!(cfg.a_columns_ids, vec![0]);
    assert_eq!(cfg.b_columns_ids, vec![1]);
    assert_eq!(cfg.b_inverse_id, 2);
    assert_eq!(cfg.check_id, 3);
    assert_eq!(cols.len(), 4);
    assert!(cols[3][3].0.is_one());
    // every stored inverse inverts its shifted B row
    let delta = fr(7);
    for i in 0..4 {
        let shifted = cols[1][i].0 + delta.0;
        assert!((shifted * cols[2][i].0).is_one());
    }
}

#[test]
fn permutation_falsified_is_rejected() {
    // scenario: one flipped A entry breaks the terminal product
    let p = RawPermutationTrace {
        a: vec![col(&[1, 2, 3, 5])],
        b: vec![col(&[3, 1, 4, 2])],
        name: String::new(),
    };
    assert!(matches!(p.get_trace(&challenges()), Err(TraceError::InvariantViolated)));
}

#[test]
fn permutation_single_row() {
    let p = RawPermutationTrace {
        a: vec![col(&[7])],
        b: vec![col(&[7])],
        name: String::new(),
    };
    let (_, cols) = p.get_trace(&challenges()).unwrap();
    assert!(cols[3][0].0.is_one());
}

#[test]
fn permutation_inverse_of_zero() {
    // with a zero challenge, a zero B row has no inverse
    let p = RawPermutationTrace {
        a: vec![col(&[0])],
        b: vec![col(&[0])],
        name: String::new(),
    };
    let zero_challenges = vec![fr(5), fr(0)];
    assert!(matches!(p.get_trace(&zero_challenges), Err(TraceError::InverseOfZero)));
}

#[test]
fn lookup_single_side_multiplicities() {
    // scenario: occurrences are emitted on the first enabled B row of
    // each value; the filtered-out zero row stays at zero
    let l = lookup(
        vec![col(&[1, 1, 2, 3])],
        vec![vec![col(&[1, 2, 3, 0])]],
        col(&[1, 1, 1, 1]),
        vec![col(&[1, 1, 1, 0])],
    );
    let (cfg, cols) = l.get_trace(&challenges()).unwrap();
    // layout: a, b, a_filter, b_filter, a_inv, b_inv, mult, check
    assert_eq!(cfg.a_columns_ids, vec![0]);
    assert_eq!(cfg.b_columns_ids, vec![vec![1]]);
    assert_eq!(cfg.a_filter_id, 2);
    assert_eq!(cfg.b_filter_id, vec![3]);
    assert_eq!(cfg.a_inverses_id, 4);
    assert_eq!(cfg.b_inverses_id, vec![5]);
    assert_eq!(cfg.occurrences_id, vec![6]);
    assert_eq!(cfg.check_id, 7);
    assert_eq!(cols.len(), 8);
    assert_fr_eq(cols[6][0], 2);
    assert_fr_eq(cols[6][1], 1);
    assert_fr_eq(cols[6][2], 1);
    assert_fr_eq(cols[6][3], 0);
    assert!(cols[7][3].0.is_zero());
}

#[test]
fn lookup_disabled_a_rows() {
    // scenario: the inactive 5-row contributes nothing; occ[9] is 2
    let l = lookup(
        vec![col(&[5, 9, 9])],
        vec![vec![col(&[9, 0, 0])]],
        col(&[0, 1, 1]),
        vec![col(&[1, 0, 0])],
    );
    let (_, cols) = l.get_trace(&challenges()).unwrap();
    assert_fr_eq(cols[6][0], 2);
    assert_fr_eq(cols[6][1], 0);
    assert_fr_eq(cols[6][2], 0);
    assert!(cols[7][2].0.is_zero());
}

#[test]
fn lookup_two_sides() {
    // scenario: the A values split across two sides
    let l = lookup(
        vec![col(&[1, 2, 3, 4])],
        vec![vec![col(&[1, 3, 0, 0])], vec![col(&[2, 4, 0, 0])]],
        col(&[1, 1, 1, 1]),
        vec![col(&[1, 1, 0, 0]), col(&[1, 1, 0, 0])],
    );
    let (cfg, cols) = l.get_trace(&challenges()).unwrap();
    assert_eq!(cfg.b_columns_ids.len(), 2);
    assert_eq!(cfg.b_inverses_id.len(), 2);
    assert_eq!(cfg.occurrences_id.len(), 2);
    // width: 1 + 2 + 1 + 2 + 1 + 2 + 2 + 1
    assert_eq!(cols.len(), 12);
    assert!(cols[11][3].0.is_zero());
}

#[test]
fn lookup_unmatched_value_is_rejected() {
    let l = lookup(
        vec![col(&[1, 6])],
        vec![vec![col(&[1, 2])]],
        col(&[1, 1]),
        vec![col(&[1, 1])],
    );
    assert!(matches!(l.get_trace(&challenges()), Err(TraceError::InvariantViolated)));
}

#[test]
fn lookup_inconsistent_shapes_are_rejected() {
    let l = lookup(vec![], vec![], col(&[1]), vec![]);
    assert!(matches!(l.get_trace(&challenges()), Err(TraceError::InconsistentRaw)));
    let l2 = lookup(vec![col(&[1, 2])], vec![], col(&[1]), vec![]);
    assert!(matches!(l2.get_trace(&challenges()), Err(TraceError::InconsistentRaw)));
}

#[test]
fn lookup_all_rows_disabled() {
    // an all-zero A filter never touches the occurrence map, so the
    // sum stays zero and every multiplicity is zero
    let l = lookup(
        vec![col(&[5, 6])],
        vec![vec![col(&[1, 2])]],
        col(&[0, 0]),
        vec![col(&[1, 1])],
    );
    let (_, cols) = l.get_trace(&challenges()).unwrap();
    assert!(cols[6][0].0.is_zero());
    assert!(cols[6][1].0.is_zero());
    assert!(cols[7][0].0.is_zero());
    assert!(cols[7][1].0.is_zero());
}

#[test]
fn trace_grows_and_partitions() {
    // scenario: a short permutation, a tall lookup, a short
    // permutation; all columns end at the common height and the
    // descriptors tile the trace
    let mut t = RawTrace::new(challenges());
    let p1 = RawPermutationTrace {
        a: vec![col(&[1, 2, 3, 4])],
        b: vec![col(&[4, 3, 2, 1])],
        name: String::new(),
    };
    let c1 = t.push_permutation(p1).unwrap();
    assert_eq!(t.height, 4);
    let l1 = lookup(
        vec![col(&[1, 2, 3, 4, 5, 6, 7, 8])],
        vec![vec![col(&[8, 7, 6, 5, 4, 3, 2, 1])]],
        col(&[1, 1, 1, 1, 1, 1, 1, 1]),
        vec![col(&[1, 1, 1, 1, 1, 1, 1, 1])],
    );
    let c2 = t.push_lookup(l1).unwrap();
    assert_eq!(t.height, 8);
    let p2 = RawPermutationTrace {
        a: vec![col(&[9, 9])],
        b: vec![col(&[9, 9])],
        name: String::new(),
    };
    let c3 = t.push_permutation(p2).unwrap();
    assert_eq!(t.height, 8);
    // widths: permutation 4, lookup 8, permutation 4
    assert_eq!(c1.width(), 4);
    assert_eq!(c2.width(), 8);
    assert_eq!(c3.width(), 4);
    assert_eq!(t.columns.len(), 16);
    for c in &t.columns {
        assert_eq!(c.len(), 8);
    }
    let (values, width) = t.get_trace();
    assert_eq!(width, 16);
    assert_eq!(values.len(), 16 * 8);
    // the row-major buffer transposes the columns
    for row in 0..8 {
        for c in 0..16 {
            assert_eq!(values[row * 16 + c].0, t.columns[c][row].0);
        }
    }
}

#[test]
fn batch_driver_common_height() {
    let p1 = RawPermutationTrace {
        a: vec![col(&[1, 2, 3, 4])],
        b: vec![col(&[4, 3, 2, 1])],
        name: String::new(),
    };
    let l1 = lookup(
        vec![col(&[1, 2])],
        vec![vec![col(&[2, 1])]],
        col(&[1, 1]),
        vec![col(&[1, 1])],
    );
    let mut t = RawTrace::new(challenges());
    let cfgs = t.push_traces(vec![p1], vec![l1]).unwrap();
    assert_eq!(t.height, 4);
    assert_eq!(cfgs.len(), 2);
    assert!(matches!(cfgs[0], linea_air::layout::AirConfig::Lookup(_)));
    assert!(matches!(cfgs[1], linea_air::layout::AirConfig::Permutation(_)));
    // the lookup was padded to height 4 with disabled rows, so its
    // terminal sum still ends at zero: check column of the lookup is
    // its last column
    if let linea_air::layout::AirConfig::Lookup(c) = &cfgs[0] {
        assert!(t.columns[c.check_id][3].0.is_zero());
    }
}

#[test]
fn batch_driver_reports_first_error() {
    let bad = lookup(
        vec![col(&[1, 6])],
        vec![vec![col(&[1, 2])]],
        col(&[1, 1]),
        vec![col(&[1, 1])],
    );
    let good = RawPermutationTrace {
        a: vec![col(&[1])],
        b: vec![col(&[1])],
        name: String::new(),
    };
    let mut t = RawTrace::new(challenges());
    assert!(matches!(t.push_traces(vec![good], vec![bad]), Err(TraceError::InvariantViolated)));
}

#[test]
fn resize_pads_and_preserves_witness() {
    // pushing the same lookup at two heights agrees on the original
    // rows of the raw columns, and both witnesses end at zero
    let mk = || lookup(
        vec![col(&[1, 2, 2, 1])],
        vec![vec![col(&[2, 1, 0, 0])]],
        col(&[1, 1, 1, 1]),
        vec![col(&[1, 1, 0, 0])],
    );
    let mut t1 = RawTrace::new(challenges());
    let c1 = t1.push_lookup(mk()).unwrap();
    let mut t2 = RawTrace::new(challenges());
    let tall = RawPermutationTrace {
        a: vec![col(&[1, 2, 3, 4, 5, 6, 7, 8])],
        b: vec![col(&[8, 7, 6, 5, 4, 3, 2, 1])],
        name: String::new(),
    };
    t2.push_permutation(tall).unwrap();
    let c2 = t2.push_lookup(mk()).unwrap();
    let (linea_air::layout::AirConfig::Lookup(c1), linea_air::layout::AirConfig::Lookup(c2)) =
        (c1, c2)
    else {
        panic!("lookup descriptors expected");
    };
    assert_eq!(t1.height, 4);
    assert_eq!(t2.height, 8);
    // the shared columns agree over the original rows
    for k in 0..8 {
        let col1 = &t1.columns[k];
        let col2 = &t2.columns[c2.a_columns_ids[0] + k];
        for i in 0..4 {
            assert_eq!(col1[i].0, col2[i].0);
        }
    }
    assert!(t1.columns[c1.check_id][3].0.is_zero());
    assert!(t2.columns[c2.check_id][7].0.is_zero());
}

#[test]
fn fill_missing_filters_defaults_to_ones() {
    let mut l = lookup(
        vec![col(&[1, 2, 3])],
        vec![vec![col(&[3, 2, 1])]],
        Vec::new(),
        Vec::new(),
    );
    l.fill_missing_filters();
    assert_eq!(l.a_filter.len(), 3);
    assert_eq!(l.b_filter.len(), 1);
    assert_eq!(l.b_filter[0].len(), 3);
    let one = cell(1);
    assert!(l.a_filter.iter().all(|c| *c == one));
    assert!(l.b_filter[0].iter().all(|c| *c == one));
    // and the completed table now holds
    let (_, cols) = l.get_trace(&challenges()).unwrap();
    assert!(cols[7][2].0.is_zero());
}
