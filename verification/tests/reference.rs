use spgemm::coo::COO;
use spgemm::csr::CSR;

fn small_a() -> CSR {
    CSR::from_coo(&COO {
        data: vec![(0, 0, 2), (0, 2, 3), (1, 1, 4), (2, 0, 5), (2, 2, 6)],
        shape: (3, 3),
    })
}

fn small_b() -> CSR {
    CSR::from_coo(&COO {
        data: vec![(0, 1, 7), (1, 0, 8), (1, 2, 9), (2, 2, 10)],
        shape: (3, 3),
    })
}

#[test]
fn test_reference_equivalence_small() {
    // dense(cpu_spgemm(A, B)) equals dense(A) * dense(B) by the naive oracle
    let a = small_a();
    let b = small_b();
    let sparse = a.product_sparse(&b).unwrap().to_dense();
    let oracle = a.to_dense().product_dense_par(&b.to_dense());
    assert_eq!(sparse.shape, oracle.shape);
    assert_eq!(sparse.data, oracle.data);
}

#[test]
fn test_reference_equivalence_rectangular() {
    let a = CSR::from_coo(&COO {
        data: vec![(0, 0, 1), (0, 3, 2), (1, 1, 3)],
        shape: (2, 4),
    });
    let b = CSR::from_coo(&COO {
        data: vec![(0, 0, 4), (1, 2, 5), (3, 1, 6)],
        shape: (4, 3),
    });
    let sparse = a.product_sparse(&b).unwrap().to_dense();
    let dense = a.product(&b).unwrap();
    let oracle = a.to_dense().product_dense_par(&b.to_dense());
    assert_eq!(sparse.data, oracle.data);
    assert_eq!(dense.data, oracle.data);
}

#[test]
fn test_product_exact_values() {
    // C[0][1] = 2*7 = 14, C[0][2] = 3*10 = 30, C[1][0] = 4*8 = 32,
    // C[1][2] = 4*9 = 36, C[2][1] = 5*7 = 35, C[2][2] = 6*10 = 60
    let c = small_a().product_sparse(&small_b()).unwrap();
    let d = c.to_dense();
    assert_eq!(d.get(0, 1), 14);
    assert_eq!(d.get(0, 2), 30);
    assert_eq!(d.get(1, 0), 32);
    assert_eq!(d.get(1, 2), 36);
    assert_eq!(d.get(2, 1), 35);
    assert_eq!(d.get(2, 2), 60);
    assert_eq!(d.get(0, 0), 0);
    assert_eq!(c.values.len(), 6);
}

#[test]
fn test_dense_oracle_parallel_runs() {
    // the parallel dense oracle really multiplies: 2x2 concrete check
    let a = CSR::from_coo(&COO {
        data: vec![(0, 0, 1), (0, 1, 2), (1, 0, 3), (1, 1, 4)],
        shape: (2, 2),
    })
    .to_dense();
    let b = CSR::from_coo(&COO {
        data: vec![(0, 0, 5), (0, 1, 6), (1, 0, 7), (1, 1, 8)],
        shape: (2, 2),
    })
    .to_dense();
    let c = a.product_dense_par(&b);
    assert_eq!(c.data, vec![19, 22, 43, 50]);
}
