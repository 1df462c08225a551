use pixel_vault::board::{initialize_board, is_minted_pixel, is_minted_pixel_v2, update_board};
use pixel_vault::dictionary::{
    initialize, read, read_by_batch, update, update_by_batch, withdraw_and_reset,
    withdraw_and_reset_by_batch, CustomError, Dictionary, Entry,
};
use pixel_vault::vote::{cast_vote, create_proposal, VoteError, Voter};

#[test]
fn dictionary_update_and_read() {
    let (mut d, mut v) = initialize();
    assert_eq!(read(&d, 7), Ok(0));
    assert_eq!(update(&mut d, &mut v, 7, 1_000), Ok(()));
    assert_eq!(read(&d, 7), Ok(1));
    assert_eq!(v.total_balance, 1_000);
    assert_eq!(read(&d, 100), Err(CustomError::InvalidId));
    assert_eq!(update(&mut d, &mut v, 100, 5), Err(CustomError::InvalidId));
    assert_eq!(
        update(&mut d, &mut v, 7, 0),
        Err(CustomError::InvalidDepositAmount)
    );
    assert_eq!(v.total_balance, 1_000);
}

#[test]
fn dictionary_update_overflow() {
    let (_, mut v) = initialize();
    let mut entries = Vec::new();
    for i in 0..100u8 {
        entries.push(Entry {
            id: i,
            value: if i == 3 { u32::MAX } else { 0 },
        });
    }
    let mut d = Dictionary { entries };
    assert_eq!(update(&mut d, &mut v, 3, 10), Err(CustomError::Overflow));
    assert_eq!(d.entries[3].value, u32::MAX);
}

#[test]
fn dictionary_withdraw_and_reset() {
    let (mut d, mut v) = initialize();
    assert_eq!(update(&mut d, &mut v, 2, 20_000_000), Ok(()));
    assert_eq!(update(&mut d, &mut v, 2, 20_000_000), Ok(()));
    // two accrued units pay out at the fixed rate
    assert_eq!(withdraw_and_reset(&mut d, &mut v, 2), Ok(10_000_000));
    assert_eq!(read(&d, 2), Ok(0));
    assert_eq!(v.total_balance, 30_000_000);
    assert_eq!(
        withdraw_and_reset(&mut d, &mut v, 100),
        Err(CustomError::InvalidId)
    );
}

#[test]
fn dictionary_withdraw_insufficient_funds() {
    let (mut d, mut v) = initialize();
    // one unit accrued but only one unit in the vault
    assert_eq!(update(&mut d, &mut v, 9, 1), Ok(()));
    assert_eq!(
        withdraw_and_reset(&mut d, &mut v, 9),
        Err(CustomError::InsufficientFunds)
    );
    assert_eq!(read(&d, 9), Ok(1));
    assert_eq!(v.total_balance, 1);
}

#[test]
fn dictionary_batches_are_all_or_nothing() {
    let (mut d, mut v) = initialize();
    assert_eq!(
        update_by_batch(&mut d, &mut v, &vec![1, 2, 1], 30_000_000),
        Ok(())
    );
    assert_eq!(read(&d, 1), Ok(2));
    assert_eq!(read(&d, 2), Ok(1));
    assert_eq!(v.total_balance, 30_000_000);
    // one bad id aborts the whole batch
    assert_eq!(
        update_by_batch(&mut d, &mut v, &vec![3, 200], 1_000),
        Err(CustomError::InvalidId)
    );
    assert_eq!(read(&d, 3), Ok(0));
    assert_eq!(v.total_balance, 30_000_000);
    // batch payout: entries 1 and 2, the repeated id contributes once
    assert_eq!(
        withdraw_and_reset_by_batch(&mut d, &mut v, &vec![1, 2, 1]),
        Ok(15_000_000)
    );
    assert_eq!(read(&d, 1), Ok(0));
    assert_eq!(read(&d, 2), Ok(0));
    assert_eq!(v.total_balance, 15_000_000);
}

#[test]
fn dictionary_batch_withdraw_insufficient_funds() {
    let (mut d, mut v) = initialize();
    assert_eq!(update(&mut d, &mut v, 4, 1), Ok(()));
    assert_eq!(update(&mut d, &mut v, 6, 1), Ok(()));
    // two accrued units would pay out ten million; the vault holds two
    assert_eq!(
        withdraw_and_reset_by_batch(&mut d, &mut v, &vec![4, 6]),
        Err(CustomError::InsufficientFunds)
    );
    assert_eq!(read(&d, 4), Ok(1));
    assert_eq!(read(&d, 6), Ok(1));
    assert_eq!(v.total_balance, 2);
}

#[test]
fn dictionary_read_by_batch() {
    let (mut d, mut v) = initialize();
    assert_eq!(update(&mut d, &mut v, 5, 10), Ok(()));
    assert_eq!(read_by_batch(&d, &vec![5, 0, 5]), Ok(vec![1, 0, 1]));
    assert_eq!(
        read_by_batch(&d, &vec![5, 100]),
        Err(CustomError::InvalidId)
    );
}

#[test]
fn board_mints_each_position_once() {
    let mut b = initialize_board();
    assert!(!is_minted_pixel(&b, 3, 4));
    assert!(update_board(&mut b, 3, 4));
    assert!(is_minted_pixel(&b, 3, 4));
    // a second mint of the same position is refused
    assert!(!update_board(&mut b, 3, 4));
    assert_eq!(b.minted_pixels.len(), 1);
    let r = is_minted_pixel_v2(&b, 3, 4);
    assert_eq!((r.x, r.y, r.is_minted), (3, 4, true));
    let r2 = is_minted_pixel_v2(&b, 4, 3);
    assert_eq!((r2.x, r2.y, r2.is_minted), (4, 3, false));
}

#[test]
fn proposal_creation_bounds_choices() {
    let labels: Vec<String> = (0..11).map(|i| format!("c{}", i)).collect();
    let r = create_proposal(String::from("t"), String::from("d"), labels, 100);
    assert!(matches!(r, Err(VoteError::MaxChoicesReach)));
    let labels2 = vec![String::from("yes"), String::from("no")];
    let p = create_proposal(String::from("t"), String::from("d"), labels2, 100).unwrap_or_else(
        |_| panic!("proposal rejected"),
    );
    assert_eq!(p.choices.len(), 2);
    assert_eq!(p.choices[0].label, "yes");
    assert_eq!(p.choices[1].label, "no");
    assert_eq!(p.choices[0].count, 0);
}

#[test]
fn proposal_allows_exactly_ten_choices() {
    let labels: Vec<String> = (0..10).map(|i| format!("c{}", i)).collect();
    let p = create_proposal(String::from("t"), String::from("d"), labels, 1)
        .unwrap_or_else(|_| panic!("proposal rejected"));
    assert_eq!(p.choices.len(), 10);
    assert_eq!(p.choices[9].label, "c9");
}

#[test]
fn cast_vote_counts_and_guards() {
    let labels = vec![String::from("yes"), String::from("no")];
    let mut p = create_proposal(String::from("t"), String::from("d"), labels, 100)
        .unwrap_or_else(|_| panic!("proposal rejected"));
    let mut voter = Voter {
        proposal: Vec::new(),
        user: Vec::new(),
        choice_option: 0,
    };
    // past the deadline
    assert_eq!(
        cast_vote(&mut p, &mut voter, vec![1; 32], vec![2; 32], 0, 100),
        Err(VoteError::VotingIsOver)
    );
    // no such choice
    assert_eq!(
        cast_vote(&mut p, &mut voter, vec![1; 32], vec![2; 32], 2, 50),
        Err(VoteError::InvalidOption)
    );
    assert_eq!(
        cast_vote(&mut p, &mut voter, vec![1; 32], vec![2; 32], 1, 50),
        Ok(())
    );
    assert_eq!(p.choices[1].count, 1);
    assert_eq!(p.choices[0].count, 0);
    assert_eq!(voter.choice_option, 1);
    assert_eq!(voter.user, vec![2; 32]);
}
