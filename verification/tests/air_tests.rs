use ark_ff::Zero;
use linea_air::field::Bls12_377Fr;
use linea_air::lookup::RawLookupTrace;
use linea_air::permutation::RawPermutationTrace;
use linea_air::trace::RawTrace;
use linea_air::air::LineaAIR;
use linea_air::range::RawRangeTrace;
use linea_air::TraceError;

fn cell2(n: u64) -> [u8; 32] {
    let mut c = [0u8; 32];
    c[24..].copy_from_slice(&n.to_be_bytes());
    c
}

fn col2(vals: &[u64]) -> Vec<[u8; 32]> {
    vals.iter().map(|&v| cell2(v)).collect()
}

fn fr2(n: u64) -> Bls12_377Fr {
    Bls12_377Fr(ark_bls12_377::Fr::from(n))
}

fn challenges2() -> Vec<Bls12_377Fr> {
    vec![fr2(5), fr2(7)]
}

fn row_of(t: &RawTrace, i: usize) -> Vec<Bls12_377Fr> {
    (0..t.columns.len()).map(|c| t.columns[c][i]).collect()
}

#[test]
fn constraints_hold_on_generated_witness() {
    // a lookup and a permutation in one trace: every emitted
    // constraint value is zero under its selector on every row
    let mut t = RawTrace::new(challenges2());
    let l = RawLookupTrace {
        a: vec![col2(&[1, 1, 2, 3])],
        b: vec![vec![col2(&[1, 2, 3, 0])]],
        name: String::new(),
        a_filter: col2(&[1, 1, 1, 1]),
        b_filter: vec![col2(&[1, 1, 1, 0])],
    };
    let p = RawPermutationTrace {
        a: vec![col2(&[1, 2, 3, 4])],
        b: vec![col2(&[4, 3, 2, 1])],
        name: String::new(),
    };
    let c1 = t.push_lookup(l).unwrap();
    let c2 = t.push_permutation(p).unwrap();
    let air = LineaAIR::new(vec![c1, c2]);
    assert_eq!(air.width, t.columns.len());
    let h = t.height;
    for i in 0..h {
        let local = row_of(&t, i);
        let next = row_of(&t, if i + 1 < h { i + 1 } else { 0 });
        let out = air
            .eval(&local, &next, fr2(5), fr2(7))
            .unwrap();
        assert_eq!(out.len(), 2);
        for ac in &out {
            for v in &ac.everywhere {
                assert!(v.0.is_zero());
            }
            if i == 0 {
                assert!(ac.first_row.0.is_zero());
            }
            if i + 1 < h {
                assert!(ac.transition.0.is_zero());
            }
            if i == h - 1 {
                assert!(ac.last_row.0.is_zero());
            }
        }
    }
}

#[test]
fn eval_rejects_wrong_width() {
    let mut t = RawTrace::new(challenges2());
    let p = RawPermutationTrace {
        a: vec![col2(&[1])],
        b: vec![col2(&[1])],
        name: String::new(),
    };
    let c = t.push_permutation(p).unwrap();
    let air = LineaAIR::new(vec![c]);
    let short = vec![fr2(0); 3];
    let ok_row = row_of(&t, 0);
    assert!(matches!(air.eval(&short, &ok_row, fr2(5), fr2(7)), Err(TraceError::WidthMismatch)));
    assert!(air.eval(&ok_row, &ok_row, fr2(5), fr2(7)).is_ok());
}

#[test]
fn shift_moves_every_index() {
    let l = RawLookupTrace {
        a: vec![col2(&[1])],
        b: vec![vec![col2(&[1])]],
        name: String::new(),
        a_filter: col2(&[1]),
        b_filter: vec![col2(&[1])],
    };
    let (mut cfg, _) = l.get_trace(&challenges2()).unwrap();
    cfg.shift(10);
    assert_eq!(cfg.a_columns_ids, vec![10]);
    assert_eq!(cfg.b_columns_ids, vec![vec![11]]);
    assert_eq!(cfg.a_filter_id, 12);
    assert_eq!(cfg.b_filter_id, vec![13]);
    assert_eq!(cfg.a_inverses_id, 14);
    assert_eq!(cfg.b_inverses_id, vec![15]);
    assert_eq!(cfg.occurrences_id, vec![16]);
    assert_eq!(cfg.check_id, 17);
    assert_eq!(cfg.width(), 8);
}

#[test]
fn descriptor_widths() {
    let l = RawLookupTrace {
        a: vec![col2(&[1]), col2(&[2])],
        b: vec![
            vec![col2(&[1]), col2(&[2]), col2(&[3])],
            vec![col2(&[0])],
        ],
        name: String::new(),
        a_filter: col2(&[0]),
        b_filter: vec![col2(&[0]), col2(&[0])],
    };
    // the argument never fires, so generation succeeds trivially
    let (cfg, cols) = l.get_trace(&challenges2()).unwrap();
    // 2 A + 4 B + 1 + 2 + 1 + 2 + 2 + 1
    assert_eq!(cfg.width(), 15);
    assert_eq!(cols.len(), 15);
    assert_eq!(l.a_width(), 2);
    assert_eq!(l.b_width(), 2);
}

#[test]
fn range_trace_counter_column() {
    let r = RawRangeTrace {
        a: col2(&[0, 2, 1, 2]),
        b: 3,
        name: String::new(),
    };
    assert_eq!(r.get_max_height(), 4);
    let bcol = r.get_raw_b_column();
    assert_eq!(bcol.len(), 4);
    assert_eq!(bcol[0], cell2(0));
    assert_eq!(bcol[1], cell2(1));
    assert_eq!(bcol[2], cell2(2));
    assert_eq!(bcol[3], cell2(0));
    let (cfg, cols) = r.get_trace(&challenges2()).unwrap();
    assert_eq!(cfg.check_id, 7);
    assert!(cols[7][3].0.is_zero());
}

#[test]
fn range_trace_out_of_range_value() {
    let r = RawRangeTrace {
        a: col2(&[0, 9]),
        b: 2,
        name: String::new(),
    };
    assert!(matches!(r.get_trace(&challenges2()), Err(TraceError::InvariantViolated)));
}

#[test]
fn range_resize_pads_with_zero_cells() {
    let mut r = RawRangeTrace {
        a: col2(&[1, 2]),
        b: 4,
        name: String::new(),
    };
    r.resize(4);
    assert_eq!(r.a.len(), 4);
    assert_eq!(r.a[2], [0u8; 32]);
    assert_eq!(r.get_max_height(), 4);
}

#[test]
fn byte_decoding_matches_small_integers() {
    // decode a known cell through the public column decoder
    let l = RawLookupTrace {
        a: vec![vec![cell2(42)]],
        b: vec![vec![vec![cell2(42)]]],
        name: String::new(),
        a_filter: vec![cell2(1)],
        b_filter: vec![vec![cell2(1)]],
    };
    let (a, _, af, _) = l.get_columns();
    assert_eq!(a[0][0].0, fr2(42).0);
    assert_eq!(af[0].0, fr2(1).0);
}

#[test]
fn permutation_config_width() {
    let air = linea_air::air::LineaPermutationAIR {
        width: 3,
        inv_column_index: 7,
        check_column_index: 6,
    };
    assert_eq!(air.width(), 8);
}

#[test]
fn permutation_column_width() {
    let p = RawPermutationTrace {
        a: vec![col2(&[1]), col2(&[2])],
        b: vec![col2(&[2]), col2(&[1])],
        name: String::new(),
    };
    assert_eq!(p.column_width(), 2);
    assert_eq!(p.get_max_height(), 1);
}
