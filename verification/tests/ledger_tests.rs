use pixel_vault::ledger::{check_pixel_number, Vault, VaultError};
use pixel_vault::merkle::PixelData;

fn key(b: u8) -> Vec<u8> {
    vec![b; 32]
}

fn small_vault() -> Vault {
    // a 4x4 grid committed in a 16-leaf tree
    Vault::initialize(key(1), key(2), 4, 4)
}

#[test]
fn initialize_starts_empty() {
    let v = small_vault();
    assert_eq!(v.total_balance, 0);
    assert_eq!(v.width, 4);
    assert_eq!(v.accounts.len(), 16);
    for a in &v.accounts {
        assert_eq!(a.matrix_counter, 0);
        assert_eq!(a.total_count, 0);
    }
    // all-zero leaves: the root of two equal subtrees, twice reproducible
    assert_eq!(v.root(), v.root());
}

#[test]
fn deposit_single_cell_increments_exactly_one() {
    let mut v = small_vault();
    assert_eq!(v.deposit(900_000, 1, 1), Ok(()));
    assert_eq!(v.total_balance, 900_000);
    let mut touched = 0;
    for (i, a) in v.accounts.iter().enumerate() {
        if a.matrix_counter != 0 || a.total_count != 0 {
            touched += 1;
            assert_eq!(i, 0);
            assert_eq!(a.matrix_counter, 1);
            assert_eq!(a.total_count, 1);
        }
    }
    assert_eq!(touched, 1);
}

#[test]
fn deposit_region_increments_exactly_area() {
    let mut v = small_vault();
    // cells 2 (coordinates (2,1)) through 7 (coordinates (3,2)): a 2x2
    // rectangle spanning columns 2..3 and rows 1..2
    assert_eq!(v.deposit(4 * 900_000, 2, 7), Ok(()));
    let mut touched = Vec::new();
    for (i, a) in v.accounts.iter().enumerate() {
        if a.matrix_counter != 0 {
            assert_eq!(a.matrix_counter, 1);
            assert_eq!(a.total_count, 1);
            touched.push(i);
        }
    }
    // indexes of (2,1), (3,1), (2,2), (3,2) on a width-4 grid
    assert_eq!(touched, vec![1, 2, 5, 6]);
}

#[test]
fn deposit_rejects_invalid_region_and_low_amount() {
    let mut v = small_vault();
    let root_before = v.root();
    assert_eq!(v.deposit(900_000, 0, 1), Err(VaultError::InvalidRegion));
    assert_eq!(v.deposit(900_000, 1, 17), Err(VaultError::InvalidRegion));
    // end left of begin
    assert_eq!(v.deposit(9_000_000, 2, 1), Err(VaultError::InvalidRegion));
    assert_eq!(
        v.deposit(4 * 900_000 - 1, 2, 7),
        Err(VaultError::DepositAmountTooLow)
    );
    assert_eq!(v.total_balance, 0);
    assert_eq!(v.root(), root_before);
}

#[test]
fn withdraw_pays_and_resets() {
    let mut v = small_vault();
    assert_eq!(v.deposit(900_000, 1, 1), Ok(()));
    let pf = v.tree.generate_proof(0);
    let claimed = PixelData {
        matrix_counter: 1,
        total_count: 1,
    };
    let r = v.withdraw(&vec![1], &vec![pf], &vec![claimed], 1);
    assert_eq!(r, Ok(450_000));
    assert_eq!(v.total_balance, 450_000);
    assert_eq!(v.accounts[0].matrix_counter, 0);
    assert_eq!(v.accounts[0].total_count, 1);
}

#[test]
fn withdraw_requires_entitlement() {
    let mut v = small_vault();
    assert_eq!(v.deposit(900_000, 1, 1), Ok(()));
    let root_before = v.root();
    let pf = v.tree.generate_proof(0);
    let claimed = PixelData {
        matrix_counter: 1,
        total_count: 1,
    };
    let r = v.withdraw(&vec![1], &vec![pf], &vec![claimed], 0);
    assert_eq!(r, Err(VaultError::InsufficientNFTs));
    assert_eq!(v.total_balance, 900_000);
    assert_eq!(v.root(), root_before);
    assert_eq!(v.accounts[0].matrix_counter, 1);
}

#[test]
fn withdraw_rejects_bad_proof_and_bad_id() {
    let mut v = small_vault();
    assert_eq!(v.deposit(900_000, 1, 1), Ok(()));
    let root_before = v.root();
    let claimed = PixelData {
        matrix_counter: 1,
        total_count: 1,
    };
    let r = v.withdraw(&vec![1], &vec![Vec::new()], &vec![claimed], 1);
    assert_eq!(r, Err(VaultError::InvalidMerkleProof));
    let pf = v.tree.generate_proof(0);
    let r2 = v.withdraw(&vec![0], &vec![pf.clone()], &vec![claimed], 1);
    assert_eq!(r2, Err(VaultError::OutOfRange));
    let r3 = v.withdraw(&vec![17], &vec![pf], &vec![claimed], 1);
    assert_eq!(r3, Err(VaultError::OutOfRange));
    assert_eq!(v.root(), root_before);
    assert_eq!(v.total_balance, 900_000);
}

#[test]
fn empty_withdraw_has_nothing_to_pay() {
    let mut v = small_vault();
    assert_eq!(v.deposit(900_000, 1, 1), Ok(()));
    let r = v.withdraw(&Vec::new(), &Vec::new(), &Vec::new(), 5);
    assert_eq!(r, Err(VaultError::NoWithdrawAvailable));
}

#[test]
fn untouched_cell_proof_verifies_but_pays_nothing() {
    let mut v = small_vault();
    assert_eq!(v.deposit(900_000, 1, 1), Ok(()));
    // cell 16 was never deposited into: its leaf is the all-zero digest,
    // and an honest proof for the zero account verifies but pays nothing
    let pf = v.tree.generate_proof(15);
    let claimed = PixelData {
        matrix_counter: 0,
        total_count: 0,
    };
    let r = v.withdraw(&vec![16], &vec![pf], &vec![claimed], 1);
    assert_eq!(r, Err(VaultError::NoWithdrawAvailable));
}

#[test]
fn balance_conserves_over_operations() {
    // balance always equals accepted deposits minus completed payouts
    let mut v = small_vault();
    let mut deposited: u64 = 0;
    let mut withdrawn: u64 = 0;
    assert_eq!(v.deposit(2 * 900_000, 1, 2), Ok(()));
    deposited += 2 * 900_000;
    assert_eq!(v.deposit(1_000_000, 1, 1), Ok(()));
    deposited += 1_000_000;
    // a rejected deposit contributes nothing
    assert_eq!(v.deposit(1, 1, 4), Err(VaultError::DepositAmountTooLow));
    let pf = v.tree.generate_proof(0);
    let claimed = PixelData {
        matrix_counter: 2,
        total_count: 2,
    };
    let r = v.withdraw(&vec![1], &vec![pf], &vec![claimed], 3);
    assert_eq!(r, Ok(900_000));
    withdrawn += 900_000;
    assert_eq!(v.total_balance, deposited - withdrawn);
}

#[test]
fn full_protocol_example() {
    // the worked example: a 1000-wide grid in a million-leaf tree
    let mut v = Vault::initialize(key(7), key(8), 1000, 20);
    assert_eq!(v.deposit(900_000, 1, 1), Ok(()));
    assert_eq!(v.total_balance, 900_000);
    assert_eq!(v.accounts[0].matrix_counter, 1);
    let pf = v.tree.generate_proof(0);
    let claimed = PixelData {
        matrix_counter: 1,
        total_count: 1,
    };
    let r = v.withdraw(&vec![1], &vec![pf.clone()], &vec![claimed], 1);
    assert_eq!(r, Ok(450_000));
    assert_eq!(v.total_balance, 450_000);
    assert_eq!(v.accounts[0].matrix_counter, 0);
    // replaying the same proof and content fails: the root has moved
    let r2 = v.withdraw(&vec![1], &vec![pf], &vec![claimed], 1);
    assert_eq!(r2, Err(VaultError::InvalidMerkleProof));
    assert_eq!(v.total_balance, 450_000);
}

#[test]
fn batch_withdraw_advances_root_between_items() {
    let mut v = small_vault();
    assert_eq!(v.deposit(2 * 900_000, 1, 2), Ok(()));
    // proofs for both cells must be built against the roots the batch will
    // actually see: cell 1 against the current root, cell 2 against the
    // root after cell 1 is zeroed
    let pf1 = v.tree.generate_proof(0);
    let mut preview = small_vault();
    assert_eq!(preview.deposit(2 * 900_000, 1, 2), Ok(()));
    let one = PixelData {
        matrix_counter: 1,
        total_count: 1,
    };
    let r0 = preview.withdraw(&vec![1], &vec![preview.tree.generate_proof(0)], &vec![one], 2);
    assert_eq!(r0, Ok(450_000));
    let pf2 = preview.tree.generate_proof(1);
    let r = v.withdraw(&vec![1, 2], &vec![pf1, pf2.clone()], &vec![one, one], 2);
    assert_eq!(r, Ok(900_000));
    assert_eq!(v.total_balance, 900_000);
    assert_eq!(v.accounts[0].matrix_counter, 0);
    assert_eq!(v.accounts[1].matrix_counter, 0);
    // after the preview withdraws cell 2 as well, both ledgers commit the
    // same root: the batch verified cell 2 against the advanced root
    let r1 = preview.withdraw(&vec![2], &vec![pf2], &vec![one], 2);
    assert_eq!(r1, Ok(450_000));
    assert_eq!(v.root(), preview.root());
}

#[test]
fn persisted_record_lays_out_fields() {
    let mut v = small_vault();
    assert_eq!(v.deposit(900_000, 1, 1), Ok(()));
    let rec = v.persisted_record();
    assert_eq!(rec.len(), 104);
    assert_eq!(&rec[0..32], &key(1)[..]);
    assert_eq!(&rec[32..64], &key(2)[..]);
    let mut bal = [0u8; 8];
    bal.copy_from_slice(&rec[64..72]);
    assert_eq!(u64::from_le_bytes(bal), 900_000);
    assert_eq!(&rec[72..104], &v.root()[..]);
}

#[test]
fn check_pixel_number_gates_on_owner_and_mint() {
    let owner = key(3);
    let mint = key(4);
    assert_eq!(check_pixel_number(&owner, &mint, 7, &owner, &mint), Ok(7));
    assert_eq!(
        check_pixel_number(&owner, &mint, 7, &key(5), &mint),
        Err(VaultError::InvalidAccountData)
    );
    assert_eq!(
        check_pixel_number(&owner, &mint, 7, &owner, &key(6)),
        Err(VaultError::InvalidAccountData)
    );
}
