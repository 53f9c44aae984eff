use dusk_plonk::prelude::PublicParameters;
use kate::kate::com::{build_proof, BlockDimensions, Cell};
use kate::rpc::{Error, Kate, ProofQueryBlock};
use rand::SeedableRng;

fn params() -> Vec<u8> {
    let mut rng = rand::rngs::StdRng::seed_from_u64(11);
    PublicParameters::setup(8, &mut rng).unwrap().to_bytes()
}

fn block(hash: u8, dims: BlockDimensions) -> ProofQueryBlock {
    ProofQueryBlock {
        hash: [hash; 32],
        parent_hash: [hash.wrapping_add(1); 32],
        extrinsics: vec![vec![hash; 40], vec![7, 7, 7]],
        dims,
    }
}

fn dims4() -> BlockDimensions {
    BlockDimensions { rows: 4, cols: 4, chunk_size: 64 }
}

#[test]
fn query_without_block_is_runtime_error() {
    let mut kate = Kate::new();
    let res = kate.query_proof(None, &params(), vec![Cell { row: 0, col: 0 }]);
    assert_eq!(res, Err(Error::RuntimeError));
    assert!(!kate.is_cached(&[0u8; 32]));
}

#[test]
fn query_caches_block_and_answers_like_build_proof() {
    let p = params();
    let mut kate = Kate::new();
    let b = block(5, dims4());
    let cells = vec![Cell { row: 3, col: 2 }, Cell { row: 9, col: 0 }];
    let expected = build_proof(&p, b.dims, &b.extrinsics, cells.clone(), &b.parent_hash).unwrap();
    assert!(!kate.is_cached(&b.hash));
    let first = kate.query_proof(Some(block(5, dims4())), &p, cells.clone()).unwrap();
    assert_eq!(first, expected);
    assert!(kate.is_cached(&b.hash));
    // a second query answers from the cache, even when the runtime now
    // asks for other dimensions
    let other_dims = BlockDimensions { rows: 2, cols: 2, chunk_size: 64 };
    let second = kate.query_proof(Some(block(5, other_dims)), &p, cells).unwrap();
    assert_eq!(second, first);
}

#[test]
fn checked_query_refuses_unusable_params_without_caching() {
    let mut kate = Kate::new();
    let bad = vec![0u8; 240];
    assert_eq!(kate.query_proof_checked(Some(block(1, dims4())), &bad, vec![]), None);
    assert!(!kate.is_cached(&[1u8; 32]));
    assert_eq!(kate.query_proof_checked(None, &bad, vec![]), Some(Err(Error::RuntimeError)));
    let p = params();
    let res = kate.query_proof_checked(Some(block(1, dims4())), &p, vec![Cell { row: 0, col: 1 }]);
    assert!(matches!(res, Some(Ok(ref v)) if v.len() == 80));
    assert!(kate.is_cached(&[1u8; 32]));
}

#[test]
fn query_of_unprovable_cells_is_runtime_error_but_caches() {
    let p = params();
    let mut kate = Kate::new();
    let zero_block = ProofQueryBlock {
        hash: [9u8; 32],
        parent_hash: [1u8; 32],
        extrinsics: vec![vec![0u8; 4 * 4 * 64]],
        dims: dims4(),
    };
    let res = kate.query_proof(Some(zero_block), &p, vec![Cell { row: 2, col: 3 }]);
    assert_eq!(res, Err(Error::RuntimeError));
    assert!(kate.is_cached(&[9u8; 32]));
    let zero_again = ProofQueryBlock { hash: [9u8; 32], parent_hash: [1u8; 32], extrinsics: vec![], dims: dims4() };
    let outside = kate.query_proof(Some(zero_again), &p, vec![Cell { row: 8, col: 0 }]);
    assert_eq!(outside, Ok(vec![0u8; 80]));
}
