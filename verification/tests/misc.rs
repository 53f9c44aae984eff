use kate::pallet::{
    check_application_key_is_new, check_block_length_proposal, submit_data_weight, submit_data_writes, Error as PalletError,
};
use kate::rpc::{decode_block_number, Error};
use kate::weights::WeightInfo;

#[test]
fn rpc_error_codes() {
    assert_eq!(i64::from(Error::RuntimeError), 1);
    assert_eq!(i64::from(Error::DecodeError), 2);
}

#[test]
fn equivocation_weight() {
    assert_eq!(WeightInfo::<()>::check_equivocation_proof(0), 147_333_000);
    assert_eq!(WeightInfo::<()>::check_equivocation_proof(1), 160_666_000);
    assert_eq!(
        WeightInfo::<()>::check_equivocation_proof(u32::MAX),
        147_333_000 + 13_333_000 * u32::MAX as u64
    );
}

#[test]
fn block_length_proposal_bounds() {
    assert_eq!(check_block_length_proposal(32, 32), Ok(()));
    assert_eq!(check_block_length_proposal(1024, 256), Ok(()));
    assert_eq!(check_block_length_proposal(1025, 64), Err(PalletError::BlockDimensionsOutOfBounds));
    assert_eq!(check_block_length_proposal(31, 64), Err(PalletError::BlockDimensionsTooSmall));
    assert_eq!(check_block_length_proposal(64, 257), Err(PalletError::BlockDimensionsOutOfBounds));
    assert_eq!(check_block_length_proposal(64, 31), Err(PalletError::BlockDimensionsTooSmall));
    // rows are checked before columns
    assert_eq!(check_block_length_proposal(2000, 1), Err(PalletError::BlockDimensionsOutOfBounds));
    assert_eq!(check_block_length_proposal(1, 1000), Err(PalletError::BlockDimensionsTooSmall));
}

#[test]
fn application_key_must_be_new() {
    assert_eq!(check_application_key_is_new(0), Ok(()));
    assert_eq!(check_application_key_is_new(3), Err(PalletError::ApplicationKeyExists));
}


#[test]
fn block_numbers_must_fit_in_32_bits() {
    assert_eq!(decode_block_number(&[]), Ok(0));
    assert_eq!(decode_block_number(&42u64.to_be_bytes()), Ok(42));
    assert_eq!(decode_block_number(&[0x01, 0x02]), Ok(0x0102));
    assert_eq!(decode_block_number(&(u32::MAX as u64).to_be_bytes()), Ok(u32::MAX));
    assert_eq!(decode_block_number(&(u32::MAX as u64 + 1).to_be_bytes()), Err(Error::DecodeError));
    let mut wide = [0u8; 32];
    wide[31] = 7;
    assert_eq!(decode_block_number(&wide), Ok(7));
    wide[0] = 1;
    assert_eq!(decode_block_number(&wide), Err(Error::DecodeError));
}

#[test]
fn submit_data_writes_round_up() {
    assert_eq!(submit_data_writes(0), 0);
    assert_eq!(submit_data_writes(1), 1);
    assert_eq!(submit_data_writes(200_000), 1);
    assert_eq!(submit_data_writes(200_001), 2);
    assert_eq!(submit_data_writes(1_000_000), 5);
}

#[test]
fn submit_data_weight_is_one_read_and_writes() {
    // 25_000_000 and 100_000_000 are the read and write costs of RocksDB in
    // the node template's runtime.
    assert_eq!(submit_data_weight(0, 25_000_000, 100_000_000), 25_000_000);
    assert_eq!(submit_data_weight(300_000, 25_000_000, 100_000_000), 225_000_000);
    assert_eq!(submit_data_weight(200_001, u64::MAX, 1), u64::MAX);
    assert_eq!(submit_data_weight(400_000, 1, u64::MAX), u64::MAX);
}
