use spgemm::coo::COO;
use spgemm::csr::CSR;
use spgemm::dense::Dense;
use spgemm::TimingResult;

#[test]
fn test_round_trip_csr_coo_dense() {
    // to_dense(to_coo(C)) equals to_dense(C) element-wise
    let c = CSR::from_coo(&COO {
        data: vec![(0, 1, 7), (2, 0, 3), (2, 2, 9)],
        shape: (4, 3),
    });
    let direct = c.to_dense();
    let via_coo = c.to_coo().to_dense();
    assert_eq!(direct.shape, via_coo.shape);
    assert_eq!(direct.data, via_coo.data);
}

#[test]
fn test_to_coo_lists_triplets_in_row_order() {
    let c = CSR::from_coo(&COO {
        data: vec![(0, 2, 1), (1, 0, 2), (1, 1, 3)],
        shape: (2, 3),
    });
    let coo = c.to_coo();
    assert_eq!(coo.shape, (2, 3));
    assert_eq!(coo.data, vec![(0, 2, 1), (1, 0, 2), (1, 1, 3)]);
}

#[test]
fn test_from_coo_trailing_empty_rows() {
    // absent rows, including trailing ones, repeat the closing offset
    let coo = COO {
        data: vec![(1, 0, 5)],
        shape: (4, 2),
    };
    let csr = CSR::from_coo(&coo);
    assert_eq!(csr.row_pos, vec![0, 0, 1, 1, 1]);
    assert_eq!(csr.col_pos, vec![0]);
    assert_eq!(csr.values, vec![5]);
}

#[test]
fn test_from_coo_empty_matrix() {
    let coo = COO { data: vec![], shape: (3, 3) };
    let csr = CSR::from_coo(&coo);
    assert_eq!(csr.row_pos, vec![0, 0, 0, 0]);
    assert!(csr.col_pos.is_empty());
    assert!(csr.values.is_empty());
}

#[test]
fn test_coo_duplicate_accumulates_on_expansion() {
    // duplicates are not merged in the list; dense expansion accumulates them
    let coo = COO {
        data: vec![(0, 0, 4), (0, 0, 9)],
        shape: (1, 1),
    };
    assert_eq!(coo.data.len(), 2);
    let d = coo.to_dense();
    assert_eq!(d.get(0, 0), 13);
}

#[test]
fn test_dense_get_set() {
    let mut d = Dense::new_zeros((2, 3));
    assert_eq!(d.data.len(), 6);
    d.set(1, 2, 42);
    d.set(0, 0, 7);
    assert_eq!(d.get(1, 2), 42);
    assert_eq!(d.get(0, 0), 7);
    assert_eq!(d.get(0, 2), 0);
}

#[test]
fn test_dense_layout_round_trip() {
    let mut d = Dense::new_zeros((2, 3));
    let mut v: u64 = 1;
    for i in 0..2 {
        for j in 0..3 {
            d.set(i, j, v);
            v += 1;
        }
    }
    let col_major = d.as_column_major();
    // entry (i, j) moves to position j * rows + i
    assert_eq!(col_major.data, vec![1, 4, 2, 5, 3, 6]);
    let back = col_major.as_row_major();
    assert_eq!(back.data, d.data);
}

#[test]
fn test_timing_result_constructors() {
    let z = TimingResult::zero();
    assert_eq!(z.initialization_us, 0);
    assert_eq!(z.total_us, 0);
    let m = TimingResult::max_values();
    assert_eq!(m.raw_multiply_us, u128::MAX);
    assert_eq!(m.total_us, u128::MAX);
}

#[test]
fn test_get_row_nnz() {
    let c = CSR::from_coo(&COO {
        data: vec![(0, 0, 1), (0, 1, 2), (2, 2, 3)],
        shape: (3, 3),
    });
    assert_eq!(c.get_row_nnz(0), 2);
    assert_eq!(c.get_row_nnz(1), 0);
    assert_eq!(c.get_row_nnz(2), 1);
}

#[test]
fn test_duplicate_column_accumulates_in_product() {
    // a repeated column within a row: the product and dense expansion both
    // accumulate the entries, so the dense oracle agrees even here
    let a = CSR::from_coo(&COO {
        data: vec![(0, 0, 2)],
        shape: (1, 1),
    });
    let b = CSR::from_coo(&COO {
        data: vec![(0, 0, 3), (0, 0, 4)],
        shape: (1, 1),
    });
    assert_eq!(b.to_dense().get(0, 0), 7);
    let c = a.product_sparse(&b).unwrap();
    assert_eq!(c.values, vec![14]);
    let oracle = a.to_dense().product_dense_par(&b.to_dense());
    assert_eq!(c.to_dense().data, oracle.data);
}
