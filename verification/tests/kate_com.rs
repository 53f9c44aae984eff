use dusk_plonk::commitment_scheme::kzg10::{Commitment, Proof};
use dusk_plonk::fft::EvaluationDomain;
use dusk_plonk::prelude::{BlsScalar, PublicParameters};
use kate::kate::com::{
    bit_reverse_permutation, bitreverse, build_commitments, build_commitments_checked, build_proof,
    build_proof_checked, extend_data_matrix, flatten_and_pad_block, group_fft, group_fft_checked, serial_fft,
    serial_fft_checked, BlockDimensions, BuildError, Cell,
};
use kate::kate::crypto::KateDomain;
use kate::kate::config::{PROOF_SIZE, PROVER_KEY_SIZE, SCALAR_SIZE};
use rand::SeedableRng;

fn dims() -> BlockDimensions {
    BlockDimensions { rows: 4, cols: 4, chunk_size: 64 }
}

fn extrinsics() -> Vec<Vec<u8>> {
    vec![vec![1, 2, 3], vec![], (0u8..200).collect(), vec![9; 70]]
}

fn public_params() -> PublicParameters {
    let mut rng = rand::rngs::StdRng::seed_from_u64(7);
    PublicParameters::setup(8, &mut rng).unwrap()
}

#[test]
fn bitreverse_values() {
    assert_eq!(bitreverse(1, 3), 4);
    assert_eq!(bitreverse(6, 3), 3);
    assert_eq!(bitreverse(0b1011, 4), 0b1101);
    assert_eq!(bitreverse(5, 0), 0);
    assert_eq!(bitreverse(1, 32), 1 << 31);
    for l in 0..6u32 {
        for k in 0..(1u32 << l) {
            let r = bitreverse(k, l);
            assert!(r < (1 << l));
            assert_eq!(bitreverse(r, l), k);
        }
    }
}

#[test]
fn bit_reverse_permutation_reorders_and_undoes() {
    let orig: Vec<u32> = (10..18).collect();
    let mut a = orig.clone();
    bit_reverse_permutation(&mut a, 3);
    assert_eq!(a, vec![10, 14, 12, 16, 11, 15, 13, 17]);
    bit_reverse_permutation(&mut a, 3);
    assert_eq!(a, orig);
}

#[test]
fn flatten_and_pad_keeps_data_first() {
    let xts = extrinsics();
    let hash = [3u8; 32];
    let block = flatten_and_pad_block(dims(), &xts, &hash);
    assert_eq!(block.len(), 4 * 4 * 64);
    let data: Vec<u8> = xts.concat();
    assert_eq!(&block[..data.len()], &data[..]);
    assert_eq!(flatten_and_pad_block(dims(), &xts, &hash), block);
    let other = flatten_and_pad_block(dims(), &xts, &[4u8; 32]);
    assert_eq!(&other[..data.len()], &data[..]);
    assert_ne!(other, block);
}

#[test]
fn flatten_and_pad_full_block_has_no_padding() {
    let xts = vec![vec![5u8; 1024]];
    let block = flatten_and_pad_block(dims(), &xts, &[0u8; 32]);
    assert_eq!(block, vec![5u8; 1024]);
}

fn cell_scalar(block: &[u8], col: usize, row: usize) -> [u8; 32] {
    let off = col * 4 * 64 + row * 64;
    let mut wide = [0u8; 64];
    wide.copy_from_slice(&block[off..off + 64]);
    BlsScalar::from_bytes_wide(&wide).to_bytes()
}

#[test]
fn extended_matrix_keeps_data_at_even_rows() {
    let block = flatten_and_pad_block(dims(), &extrinsics(), &[1u8; 32]);
    let ext = extend_data_matrix(dims(), &block);
    assert_eq!(ext.len(), 8 * 4);
    for col in 0..4 {
        for row in 0..4 {
            assert_eq!(ext[col * 8 + 2 * row], cell_scalar(&block, col, row));
        }
    }
}

#[test]
fn proofs_open_against_row_commitments() {
    let pp = public_params();
    let params = pp.to_bytes();
    let (_, opening_key) = pp.trim(4).unwrap();
    let xts = extrinsics();
    let hash = [8u8; 32];
    let commitments = build_commitments(&params, dims(), &xts, &hash).unwrap();
    assert_eq!(commitments.len(), PROVER_KEY_SIZE * 8);
    let cells = vec![Cell { row: 0, col: 0 }, Cell { row: 5, col: 3 }, Cell { row: 8, col: 0 }, Cell { row: 2, col: 1 }, Cell { row: 0, col: 4 }];
    let proof = build_proof(&params, dims(), &xts, cells.clone(), &hash).unwrap();
    assert_eq!(proof.len(), (SCALAR_SIZE + PROOF_SIZE) * cells.len());
    let domain = EvaluationDomain::new(4).unwrap();
    let points: Vec<BlsScalar> = domain.elements().collect();
    let block = flatten_and_pad_block(dims(), &xts, &hash);
    let ext = extend_data_matrix(dims(), &block);
    for (k, cell) in cells.iter().enumerate() {
        let part = &proof[k * 80..(k + 1) * 80];
        let (row, col) = (cell.row as usize, cell.col as usize);
        if row < 8 && col < 4 {
            let mut w = [0u8; 48];
            w.copy_from_slice(&part[..48]);
            let mut v = [0u8; 32];
            v.copy_from_slice(&part[48..]);
            assert_eq!(v, ext[row + col * 8]);
            let mut c = [0u8; 48];
            c.copy_from_slice(&commitments[row * 48..(row + 1) * 48]);
            let witness = dusk_bls12_381::G1Affine::from_compressed(&w).unwrap();
            let row_commitment = dusk_bls12_381::G1Affine::from_compressed(&c).unwrap();
            let kzg_proof = Proof {
                commitment_to_witness: Commitment::from_affine(witness),
                evaluated_point: BlsScalar::from_bytes(&v).unwrap(),
                commitment_to_polynomial: Commitment::from_affine(row_commitment),
            };
            assert!(opening_key.check(points[col], kzg_proof));
        } else {
            assert_eq!(part, &[0u8; 80][..]);
        }
    }
}

#[test]
fn checked_builds_refuse_unusable_params() {
    let xts = extrinsics();
    let hash = [2u8; 32];
    let bad = vec![0u8; 240];
    assert_eq!(build_commitments_checked(&bad, dims(), &xts, &hash), Err(BuildError::NoCommitKey));
    assert_eq!(build_proof_checked(&bad, dims(), &xts, vec![Cell { row: 0, col: 0 }], &hash), Err(BuildError::NoCommitKey));
    // a key of degree 2 cannot be trimmed to 4 columns
    let mut rng = rand::rngs::StdRng::seed_from_u64(1);
    let small = PublicParameters::setup(2, &mut rng).unwrap().to_bytes();
    assert_eq!(build_commitments_checked(&small, dims(), &xts, &hash), Err(BuildError::NoCommitKey));

    let params = public_params().to_bytes();
    assert_eq!(
        build_commitments_checked(&params, dims(), &xts, &hash).ok(),
        build_commitments(&params, dims(), &xts, &hash)
    );
    let cells = vec![Cell { row: 1, col: 2 }];
    assert_eq!(
        build_proof_checked(&params, dims(), &xts, cells.clone(), &hash).ok(),
        build_proof(&params, dims(), &xts, cells, &hash)
    );
}

#[test]
fn zero_block_has_no_commitments_or_proofs() {
    // the data fills the block, so no padding is made and the hash is not read
    let xts = vec![vec![0u8; 4 * 4 * 64]];
    let params = public_params().to_bytes();
    let no_hash: [u8; 0] = [];
    assert_eq!(flatten_and_pad_block(dims(), &xts, &no_hash), vec![0u8; 1024]);
    assert_eq!(build_commitments(&params, dims(), &xts, &no_hash), None);
    assert_eq!(build_commitments_checked(&params, dims(), &xts, &no_hash), Err(BuildError::PolynomialDegree));
    assert_eq!(build_proof(&params, dims(), &xts, vec![Cell { row: 1, col: 1 }], &no_hash), None);
    assert_eq!(
        build_proof_checked(&params, dims(), &xts, vec![Cell { row: 1, col: 1 }], &no_hash),
        Err(BuildError::PolynomialDegree)
    );
    // cells outside the matrix need no witness
    assert_eq!(build_proof(&params, dims(), &xts, vec![Cell { row: 9, col: 0 }], &no_hash), Some(vec![0u8; 80]));
    assert_eq!(build_proof(&params, dims(), &xts, vec![], &no_hash), Some(vec![]));
}

#[test]
fn two_columns_give_constant_witnesses() {
    let d = BlockDimensions { rows: 4, cols: 2, chunk_size: 64 };
    let params = public_params().to_bytes();
    let xts = extrinsics();
    let hash = [6u8; 32];
    assert!(build_commitments(&params, d, &xts, &hash).is_some());
    assert_eq!(build_proof(&params, d, &xts, vec![Cell { row: 0, col: 1 }], &hash), None);
}

#[test]
fn three_columns_use_the_four_point_domain() {
    let d = BlockDimensions { rows: 4, cols: 3, chunk_size: 64 };
    let pp = public_params();
    let params = pp.to_bytes();
    let (_, opening_key) = pp.trim(3).unwrap();
    let xts = extrinsics();
    let hash = [5u8; 32];
    let block = flatten_and_pad_block(d, &xts, &hash);
    assert_eq!(block.len(), 4 * 3 * 64);
    let ext = extend_data_matrix(d, &block);
    assert_eq!(ext.len(), 8 * 3);
    let commitments = build_commitments(&params, d, &xts, &hash).unwrap();
    assert_eq!(commitments.len(), PROVER_KEY_SIZE * 8);
    let cells = vec![Cell { row: 7, col: 2 }, Cell { row: 3, col: 0 }, Cell { row: 0, col: 3 }];
    let proof = build_proof(&params, d, &xts, cells.clone(), &hash).unwrap();
    assert_eq!(proof.len(), 80 * 3);
    let points: Vec<BlsScalar> = EvaluationDomain::new(3).unwrap().elements().collect();
    assert_eq!(points.len(), 4);
    for (k, cell) in cells.iter().enumerate().take(2) {
        let part = &proof[k * 80..(k + 1) * 80];
        let (row, col) = (cell.row as usize, cell.col as usize);
        let mut w = [0u8; 48];
        w.copy_from_slice(&part[..48]);
        let mut v = [0u8; 32];
        v.copy_from_slice(&part[48..]);
        assert_eq!(v, ext[row + col * 8]);
        let mut c = [0u8; 48];
        c.copy_from_slice(&commitments[row * 48..(row + 1) * 48]);
        let kzg_proof = Proof {
            commitment_to_witness: Commitment::from_affine(dusk_bls12_381::G1Affine::from_compressed(&w).unwrap()),
            evaluated_point: BlsScalar::from_bytes(&v).unwrap(),
            commitment_to_polynomial: Commitment::from_affine(dusk_bls12_381::G1Affine::from_compressed(&c).unwrap()),
        };
        assert!(opening_key.check(points[col], kzg_proof));
    }
    assert_eq!(&proof[160..240], &[0u8; 80][..]);
}

fn zk(s: &BlsScalar) -> bls12_381::Scalar {
    bls12_381::Scalar::from_bytes(&s.to_bytes()).unwrap()
}

#[test]
fn serial_fft_is_the_dft_and_inverts() {
    let n = 8usize;
    let domain = EvaluationDomain::new(n).unwrap();
    let omega = zk(&domain.group_gen);
    let g = bls12_381::G1Projective::generator();
    let input: Vec<bls12_381::G1Projective> = (1..=n as u64).map(|i| g * bls12_381::Scalar::from(i * i + 3)).collect();
    let encode = |p: &bls12_381::G1Projective| bls12_381::G1Affine::from(p).to_uncompressed();
    let mut a: Vec<[u8; 96]> = input.iter().map(encode).collect();
    serial_fft(&mut a, &domain.group_gen.to_bytes(), 3);
    for k in 0..n {
        let mut expected = bls12_381::G1Projective::identity();
        for j in 0..n {
            expected += input[j] * omega.pow(&[(j * k) as u64, 0, 0, 0]);
        }
        assert_eq!(a[k], encode(&expected));
    }
    serial_fft(&mut a, &domain.group_gen_inv.to_bytes(), 3);
    let size_inv = zk(&domain.size_inv);
    let back: Vec<[u8; 96]> = a
        .iter()
        .map(|p| encode(&(bls12_381::G1Projective::from(bls12_381::G1Affine::from_uncompressed(p).unwrap()) * size_inv)))
        .collect();
    let expected_back: Vec<[u8; 96]> = input.iter().map(encode).collect();
    assert_eq!(back, expected_back);
}

#[test]
fn serial_fft_of_one_point_is_the_point() {
    let g = bls12_381::G1Affine::generator().to_uncompressed();
    let mut a = vec![g];
    serial_fft(&mut a, &bls12_381::Scalar::one().to_bytes(), 0);
    assert_eq!(a, vec![g]);
}


fn commitment(i: u64) -> [u8; 48] {
    bls12_381::G1Affine::from(bls12_381::G1Projective::generator() * bls12_381::Scalar::from(i * 5 + 1)).to_compressed()
}

fn point(c: &[u8; 48]) -> bls12_381::G1Projective {
    bls12_381::G1Projective::from(bls12_381::G1Affine::from_compressed(c).unwrap())
}

#[test]
fn group_fft_transforms_commitments_and_inverts() {
    let domain = KateDomain::new(3).unwrap();
    assert_eq!(domain.size(), 4);
    assert_eq!(domain.log_size(), 2);
    let input: Vec<[u8; 48]> = (0..3).map(commitment).collect();
    let forward = group_fft(input.clone(), &domain, false);
    assert_eq!(forward.len(), 4);
    // the DFT of the commitments padded with the identity
    let dusk = EvaluationDomain::new(4).unwrap();
    let omega = zk(&dusk.group_gen);
    for k in 0..4 {
        let mut expected = bls12_381::G1Projective::identity();
        for j in 0..3 {
            expected += point(&input[j]) * omega.pow(&[(j * k) as u64, 0, 0, 0]);
        }
        assert_eq!(forward[k], bls12_381::G1Affine::from(expected).to_compressed());
    }
    let back = group_fft(forward, &domain, true);
    let mut padded = input.clone();
    padded.push(bls12_381::G1Affine::identity().to_compressed());
    assert_eq!(back, padded);
}

#[test]
fn group_fft_checked_refuses_bad_commitments() {
    let domain = KateDomain::new(2).unwrap();
    let good = vec![commitment(1), commitment(2)];
    assert_eq!(group_fft_checked(good.clone(), &domain, false), Some(group_fft(good, &domain, false)));
    let bad = vec![commitment(1), [0xffu8; 48]];
    assert_eq!(group_fft_checked(bad, &domain, true), None);
    // more commitments than the domain has points are cut
    let many: Vec<[u8; 48]> = (0..5).map(commitment).collect();
    assert_eq!(group_fft(many.clone(), &domain, false), group_fft(many[..2].to_vec(), &domain, false));
}

#[test]
fn domains_follow_next_power_of_two() {
    assert_eq!(KateDomain::new(0).unwrap().size(), 1);
    assert_eq!(KateDomain::new(5).unwrap().size(), 8);
    assert_eq!(KateDomain::new(1 << 31).unwrap().log_size(), 31);
    assert!(KateDomain::new((1 << 31) + 1).is_none());
}

#[test]
fn serial_fft_checked_leaves_invalid_points() {
    let g = bls12_381::G1Affine::generator().to_uncompressed();
    let mut bad = vec![g, [0x11u8; 96]];
    let omega = EvaluationDomain::new(2).unwrap().group_gen.to_bytes();
    assert!(!serial_fft_checked(&mut bad, &omega, 1));
    assert_eq!(bad, vec![g, [0x11u8; 96]]);
    let mut good = vec![g, bls12_381::G1Affine::identity().to_uncompressed()];
    let mut plain = good.clone();
    assert!(serial_fft_checked(&mut good, &omega, 1));
    serial_fft(&mut plain, &omega, 1);
    assert_eq!(good, plain);
    // [g, 0] transforms to [g, g]
    assert_eq!(good, vec![g, g]);
}
