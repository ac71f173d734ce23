use spgemm::coo::COO;
use spgemm::csr::CSR;

#[test]
fn cpu_test_read_csr() {
    let _eps = 1e-10;
}

#[test]
fn cpu_test_product_csr() {}

#[test]
fn test_read_csr_from_coo() {
    // the triplets of a001 in compressed-row form
    let coo = COO {
        data: vec![(0, 0, 25), (1, 0, 15), (1, 1, 18), (2, 0, 5), (2, 2, 11)],
        shape: (3, 3),
    };
    let csr = CSR::from_coo(&coo);
    assert_eq!(csr.shape, (3, 3));
    assert_eq!(csr.row_pos, vec![0, 1, 3, 5]);
    assert_eq!(csr.col_pos, vec![0, 0, 1, 0, 2]);
    assert_eq!(csr.values, vec![25, 15, 18, 5, 11]);
}
