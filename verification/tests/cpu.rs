use spgemm::coo::COO;
use spgemm::csr::CSR;
use spgemm::MatMulError;

fn matrix_a001() -> COO {
    COO {
        data: vec![(0, 0, 25), (1, 0, 15), (1, 1, 18), (2, 0, 5), (2, 2, 11)],
        shape: (3, 3),
    }
}

fn identity3() -> COO {
    COO {
        data: vec![(0, 0, 1), (1, 1, 1), (2, 2, 1)],
        shape: (3, 3),
    }
}

#[test]
fn test_read_csr() {
    let _eps = 1e-10;
}

#[test]
fn test_product_csr() {
    let a = CSR::from_coo(&matrix_a001());
    let b = CSR::from_coo(&identity3());
    let c = a.product(&b).unwrap();
    let a_dense = a.to_dense();
    assert_eq!(c.shape, (3, 3));
    assert_eq!(c.data, a_dense.data);
    assert_eq!(c.get(0, 0), 25);
    assert_eq!(c.get(1, 0), 15);
    assert_eq!(c.get(1, 1), 18);
    assert_eq!(c.get(2, 0), 5);
    assert_eq!(c.get(2, 2), 11);
    assert_eq!(c.get(0, 1), 0);
}

#[test]
fn test_product_csr_sparse() {
    // multiplying by the identity returns the left operand exactly
    let a = CSR::from_coo(&matrix_a001());
    let b = CSR::from_coo(&identity3());
    let c = a.product_sparse(&b).unwrap();
    assert_eq!(c.shape, (3, 3));
    assert_eq!(c.values.len(), 5);
    assert_eq!(c.row_pos, a.row_pos);
    assert_eq!(c.col_pos, a.col_pos);
    assert_eq!(c.values, a.values);
}

#[test]
fn test_product_csr_sparse_par() {
    let a = CSR::from_coo(&matrix_a001());
    let b = CSR::from_coo(&identity3());
    let c_seq = a.product_sparse(&b).unwrap();
    let c_par = a.product_sparse_par(&b).unwrap();
    assert_eq!(c_par.shape, c_seq.shape);
    assert_eq!(c_par.row_pos, c_seq.row_pos);
    assert_eq!(c_par.col_pos, c_seq.col_pos);
    assert_eq!(c_par.values, c_seq.values);
    // and the parallel path really multiplied: identity leaves A unchanged
    assert_eq!(c_par.values, vec![25, 15, 18, 5, 11]);
}

#[test]
fn test_empty_row_product() {
    // a matrix whose middle row is empty keeps the repeated offset in the result
    let a = CSR::from_coo(&COO {
        data: vec![(0, 0, 2), (0, 2, 3), (2, 1, 4)],
        shape: (3, 3),
    });
    let b = CSR::from_coo(&identity3());
    let c = a.product_sparse(&b).unwrap();
    assert_eq!(c.row_pos, vec![0, 2, 2, 3]);
    assert_eq!(c.values.len(), 3);
}

#[test]
fn test_dimension_mismatch() {
    // inner dimensions 3 and 2 disagree: every executor refuses up front
    let a = CSR::from_coo(&COO {
        data: vec![(0, 0, 1), (1, 2, 2)],
        shape: (2, 3),
    });
    let b = CSR::from_coo(&COO {
        data: vec![(0, 0, 1), (1, 1, 1)],
        shape: (2, 2),
    });
    match a.product_sparse(&b) {
        Err(e) => assert_eq!(e, MatMulError::DimensionMismatch),
        Ok(_) => panic!("expected a dimension mismatch"),
    }
    match a.product_sparse_par(&b) {
        Err(e) => assert_eq!(e, MatMulError::DimensionMismatch),
        Ok(_) => panic!("expected a dimension mismatch"),
    }
    match a.product(&b) {
        Err(e) => assert_eq!(e, MatMulError::DimensionMismatch),
        Ok(_) => panic!("expected a dimension mismatch"),
    }
}

#[test]
fn test_product_wrapping() {
    // the scalar ring wraps at 2^64: (2^63) * 2 == 0, (2^63 + 1) * 2 == 2
    let a = CSR::from_coo(&COO {
        data: vec![(0, 0, 1u64 << 63), (1, 1, (1u64 << 63) + 1)],
        shape: (2, 2),
    });
    let b = CSR::from_coo(&COO {
        data: vec![(0, 0, 2), (1, 1, 2)],
        shape: (2, 2),
    });
    let c = a.product_sparse(&b).unwrap();
    assert_eq!(c.values, vec![0, 2]);
    // the explicit-zero entry is still materialized: its coordinate was touched
    assert_eq!(c.col_pos, vec![0, 1]);
    assert_eq!(c.row_pos, vec![0, 1, 2]);
}

#[test]
fn test_row_invariant_of_products() {
    let a = CSR::from_coo(&matrix_a001());
    let b = CSR::from_coo(&identity3());
    for c in [a.product_sparse(&b).unwrap(), a.product_sparse_par(&b).unwrap()] {
        assert_eq!(c.row_pos[0], 0);
        assert_eq!(*c.row_pos.last().unwrap(), c.values.len());
        assert_eq!(c.col_pos.len(), c.values.len());
        assert_eq!(c.row_pos.len(), c.shape.0 + 1);
        for w in c.row_pos.windows(2) {
            assert!(w[0] <= w[1]);
        }
    }
}
