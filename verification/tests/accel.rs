use spgemm::coo::COO;
use spgemm::csr::CSR;
use spgemm::estimator::size_prediction;
use spgemm::gpu::{BufferIO, GPUCSR, GPUSparseMultiplyer, GlobDataEntry, ResultBuffer};
use spgemm::MatMulError;

fn matrix_a001() -> COO {
    COO {
        data: vec![(0, 0, 25), (1, 0, 15), (1, 1, 18), (2, 0, 5), (2, 2, 11)],
        shape: (3, 3),
    }
}

fn identity3() -> COO {
    COO {
        data: vec![(0, 0, 1), (1, 1, 1), (2, 2, 1)],
        shape: (3, 3),
    }
}

#[test]
fn test_size_prediction_concrete() {
    let a = CSR::from_coo(&matrix_a001());
    let b = CSR::from_coo(&identity3());
    // row 0 selects one row of B, rows 1 and 2 select two each: 1 + 2 + 2
    assert_eq!(size_prediction(&a, &b), 5);
}

#[test]
fn test_size_prediction_clamps_to_dense_size() {
    // one output row, but two contributions: the bound clamps to rows * cols
    let a = CSR::from_coo(&COO {
        data: vec![(0, 0, 1), (0, 1, 1)],
        shape: (1, 2),
    });
    let b = CSR::from_coo(&COO {
        data: vec![(0, 0, 1), (1, 0, 1)],
        shape: (2, 1),
    });
    assert_eq!(size_prediction(&a, &b), 1);
}

#[test]
fn test_size_prediction_sound_on_product() {
    let a = CSR::from_coo(&matrix_a001());
    let b = CSR::from_coo(&matrix_a001());
    let pred = size_prediction(&a, &b);
    let c = a.product_sparse(&b).unwrap();
    assert!(pred >= c.values.len());
}

#[test]
fn test_gpucsr_transcode() {
    let a = CSR::from_coo(&COO {
        data: vec![(0, 0, (1u64 << 32) + 7), (1, 1, 3)],
        shape: (2, 2),
    });
    let g = GPUCSR::new(&a);
    // indices carried exactly, values reduced to the low 32-bit word
    assert_eq!(g.row_pos, vec![0, 1, 2]);
    assert_eq!(g.col_pos, vec![0, 1]);
    assert_eq!(g.values, vec![7, 3]);
    assert_eq!(g.shape, (2, 2));
    let w = g.widen();
    assert_eq!(w.row_pos, a.row_pos);
    assert_eq!(w.col_pos, a.col_pos);
    assert_eq!(w.values, vec![7, 3]);
}

#[test]
fn test_result_buffer_bump_and_clamp() {
    let mut buf = ResultBuffer::new(2);
    assert_eq!(buf.idx, 0);
    assert_eq!(buf.glob_data.len(), 2);
    buf.append(GlobDataEntry { i: 0, j: 0, x: 10 });
    buf.append(GlobDataEntry { i: 0, j: 1, x: 11 });
    // a third append beyond the capacity advances the counter but writes nothing
    buf.append(GlobDataEntry { i: 1, j: 0, x: 12 });
    assert_eq!(buf.idx, 3);
    assert_eq!(buf.glob_data[0], GlobDataEntry { i: 0, j: 0, x: 10 });
    assert_eq!(buf.glob_data[1], GlobDataEntry { i: 0, j: 1, x: 11 });
}

#[test]
fn test_accelerator_identity_product() {
    let a = CSR::from_coo(&matrix_a001());
    let b = CSR::from_coo(&identity3());
    let mut gpusm = match GPUSparseMultiplyer::new(&a, &b, 2) {
        Ok(g) => g,
        Err(_) => panic!("unexpected error"),
    };
    assert_eq!(gpusm.nnz_pred, 5);
    assert_eq!(gpusm.n_disps, 2);
    gpusm.doit();
    let res = gpusm.cast_result().expect("casting result failed");
    assert_eq!(res.shape, (3, 3));
    assert_eq!(res.data.len(), 5);
    let expected = a.to_dense();
    let got = res.to_dense();
    assert_eq!(got.data, expected.data);
}

#[test]
fn test_accelerator_mismatch_fails_before_dispatch() {
    let a = CSR::from_coo(&COO {
        data: vec![(0, 0, 1)],
        shape: (2, 3),
    });
    let b = CSR::from_coo(&COO {
        data: vec![(0, 0, 1)],
        shape: (2, 2),
    });
    match GPUSparseMultiplyer::new(&a, &b, 4) {
        Err(e) => assert_eq!(e, MatMulError::DimensionMismatch),
        Ok(_) => panic!("expected a dimension mismatch"),
    }
}

#[test]
fn test_accelerator_zero_prediction_skips() {
    // empty operands predict zero output: dispatch is skipped, no result
    let a = CSR::from_coo(&COO { data: vec![], shape: (3, 3) });
    let b = CSR::from_coo(&COO { data: vec![], shape: (3, 3) });
    let mut gpusm = match GPUSparseMultiplyer::new(&a, &b, 4) {
        Ok(g) => g,
        Err(_) => panic!("unexpected error"),
    };
    assert_eq!(gpusm.nnz_pred, 0);
    gpusm.doit();
    assert!(gpusm.cast_result().is_none());
}

#[test]
fn test_cross_backend_device_precision() {
    // a value beyond 32 bits: the accelerator's entry is the sequential
    // entry reduced modulo 2^32
    let big = (1u64 << 32) + 123;
    let a = CSR::from_coo(&COO {
        data: vec![(0, 0, big), (1, 1, 6)],
        shape: (2, 2),
    });
    let b = CSR::from_coo(&COO {
        data: vec![(0, 0, 1), (1, 1, 1)],
        shape: (2, 2),
    });
    let cpu = a.product_sparse(&b).unwrap();
    let mut gpusm = match GPUSparseMultiplyer::new(&a, &b, 4) {
        Ok(g) => g,
        Err(_) => panic!("unexpected error"),
    };
    gpusm.doit();
    let accel = gpusm.cast_result().unwrap();
    let cpu_dense = cpu.to_dense();
    let accel_dense = accel.to_dense();
    assert_eq!(cpu_dense.get(0, 0), big);
    assert_eq!(accel_dense.get(0, 0), big % (1u64 << 32));
    for i in 0..2 {
        for j in 0..2 {
            assert_eq!(accel_dense.get(i, j), cpu_dense.get(i, j) % (1u64 << 32));
        }
    }
}

#[test]
fn test_cross_backend_equal_in_range() {
    // with every value below 2^32 both executors agree exactly
    let a = CSR::from_coo(&matrix_a001());
    let b = CSR::from_coo(&matrix_a001());
    let cpu = a.product_sparse(&b).unwrap().to_dense();
    let mut gpusm = match GPUSparseMultiplyer::new(&a, &b, 1) {
        Ok(g) => g,
        Err(_) => panic!("unexpected error"),
    };
    gpusm.doit();
    let accel = gpusm.cast_result().unwrap().to_dense();
    assert_eq!(cpu.shape, accel.shape);
    assert_eq!(cpu.data, accel.data);
}

#[test]
fn test_buffer_io_modes() {
    let input = BufferIO::Input;
    let output = BufferIO::Output;
    assert_ne!(input, output);
    assert!(matches!(input, BufferIO::Input));
}

#[test]
fn test_size_prediction_overestimates_on_collisions() {
    // both entries of A's row select rows of B that land in column 0:
    // the slot count is 2, the true output has one entry
    let a = CSR::from_coo(&COO {
        data: vec![(0, 0, 1), (0, 1, 1)],
        shape: (2, 2),
    });
    let b = CSR::from_coo(&COO {
        data: vec![(0, 0, 1), (1, 0, 1)],
        shape: (2, 2),
    });
    let pred = size_prediction(&a, &b);
    let c = a.product_sparse(&b).unwrap();
    assert_eq!(pred, 2);
    assert_eq!(c.values.len(), 1);
    assert!(pred >= c.values.len());
}

#[test]
fn test_size_prediction_zero_only_for_empty_product() {
    // a non-empty product never predicts zero
    let a = CSR::from_coo(&COO {
        data: vec![(0, 0, 3)],
        shape: (1, 1),
    });
    let b = CSR::from_coo(&COO {
        data: vec![(0, 0, 5)],
        shape: (1, 1),
    });
    let c = a.product_sparse(&b).unwrap();
    assert_eq!(c.values.len(), 1);
    assert!(size_prediction(&a, &b) > 0);
}
