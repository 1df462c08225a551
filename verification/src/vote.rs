//! The proposal and vote tally: a proposal with up to ten choices and a
//! deadline, and one vote record per voter.

use vstd::prelude::*;

verus! {

/// Most choices a proposal may offer.
pub const MAX_COUNT_OF_CHOICES: usize = 10;

/// One selectable option and its running tally.
pub struct Choice {
    pub label: String,
    pub count: u64,
}

/// A proposal under vote.
pub struct Proposal {
    pub title: String,
    pub description: String,
    pub choices: Vec<Choice>,
    pub deadline: u64,
}

/// One voter's recorded ballot.
pub struct Voter {
    pub proposal: Vec<u8>,
    pub user: Vec<u8>,
    pub choice_option: u8,
}

/// Everything a vote operation can fail with.
#[derive(Clone, Copy, PartialEq, Eq, Structural, Debug)]
pub enum VoteError {
    /// More choices than a proposal may offer.
    MaxChoicesReach,
    /// The ballot names no choice of the proposal.
    InvalidOption,
    /// The deadline has passed.
    VotingIsOver,
}

/// Creates a proposal: at most ten choices, every tally starting at zero,
/// labels kept in order.
pub fn create_proposal(title: String, description: String, choices: Vec<String>, deadline: u64) -> (r:
    Result<Proposal, VoteError>)
    ensures
        choices@.len() > MAX_COUNT_OF_CHOICES ==> r == Result::<Proposal, VoteError>::Err(
            VoteError::MaxChoicesReach,
        ),
        choices@.len() <= MAX_COUNT_OF_CHOICES ==> ({
            match r {
                Result::Ok(p) => {
                    &&& p.title@ == title@
                    &&& p.description@ == description@
                    &&& p.deadline == deadline
                    &&& p.choices@.len() == choices@.len()
                    &&& forall|i: int|
                        0 <= i < choices@.len() ==> (#[trigger] p.choices@[i]).label@
                            == choices@[i]@ && p.choices@[i].count == 0
                },
                Result::Err(_) => false,
            }
        }),
{
    if choices.len() > MAX_COUNT_OF_CHOICES {
        return Result::Err(VoteError::MaxChoicesReach);
    }
    let ghost labels = choices@;
    let mut remaining = choices;
    let mut reversed: Vec<Choice> = Vec::new();
    while remaining.len() > 0
        invariant
            remaining@.len() + reversed@.len() == labels.len(),
            remaining@ == labels.subrange(0, remaining@.len() as int),
            forall|i: int|
                0 <= i < reversed@.len() ==> (#[trigger] reversed@[i]).label@ == labels[labels.len()
                    - 1 - i]@ && reversed@[i].count == 0,
        decreases remaining@.len(),
    {
        let ghost before = remaining@;
        let label = match remaining.pop() {
            Some(l) => l,
            None => {
                proof {
                    assert(false);
                }
                return Result::Err(VoteError::MaxChoicesReach);
            },
        };
        proof {
            assert(label == before[before.len() - 1]);
            assert(remaining@ =~= labels.subrange(0, remaining@.len() as int));
        }
        reversed.push(Choice { label, count: 0 });
    }
    let mut vec_choices: Vec<Choice> = Vec::new();
    while reversed.len() > 0
        invariant
            reversed@.len() + vec_choices@.len() == labels.len(),
            forall|i: int|
                0 <= i < reversed@.len() ==> (#[trigger] reversed@[i]).label@ == labels[labels.len()
                    - 1 - i]@ && reversed@[i].count == 0,
            forall|i: int|
                0 <= i < vec_choices@.len() ==> (#[trigger] vec_choices@[i]).label@ == labels[i]@
                    && vec_choices@[i].count == 0,
        decreases reversed@.len(),
    {
        let ghost before = reversed@;
        let choice = match reversed.pop() {
            Some(c) => c,
            None => {
                proof {
                    assert(false);
                }
                return Result::Err(VoteError::MaxChoicesReach);
            },
        };
        proof {
            assert(choice == before[before.len() - 1]);
        }
        vec_choices.push(choice);
    }
    Result::Ok(Proposal { title, description, choices: vec_choices, deadline })
}

/// Casts a vote: before the deadline, for an existing choice. Records the
/// ballot and increments the chosen tally by one.
pub fn cast_vote(
    proposal_account: &mut Proposal,
    voter_account: &mut Voter,
    proposal_key: Vec<u8>,
    user_key: Vec<u8>,
    choice: u8,
    now: i64,
) -> (r: Result<(), VoteError>)
    requires
        // machine limit: each tally is a 64-bit counter
        forall|i: int|
            0 <= i < old(proposal_account).choices@.len() ==> (#[trigger] old(
                proposal_account,
            ).choices@[i]).count < u64::MAX,
    ensures
        now >= old(proposal_account).deadline as i64 ==> ({
            &&& r == Result::<(), VoteError>::Err(VoteError::VotingIsOver)
            &&& *final(proposal_account) == *old(proposal_account)
            &&& *final(voter_account) == *old(voter_account)
        }),
        now < old(proposal_account).deadline as i64 && choice as int >= old(
            proposal_account,
        ).choices@.len() ==> ({
            &&& r == Result::<(), VoteError>::Err(VoteError::InvalidOption)
            &&& *final(proposal_account) == *old(proposal_account)
            &&& *final(voter_account) == *old(voter_account)
        }),
        now < old(proposal_account).deadline as i64 && (choice as int) < old(
            proposal_account,
        ).choices@.len() ==> ({
            &&& r == Result::<(), VoteError>::Ok(())
            &&& final(proposal_account).title == old(proposal_account).title
            &&& final(proposal_account).description == old(proposal_account).description
            &&& final(proposal_account).deadline == old(proposal_account).deadline
            &&& final(proposal_account).choices@.len() == old(proposal_account).choices@.len()
            &&& final(proposal_account).choices@[choice as int].label == old(
                proposal_account,
            ).choices@[choice as int].label
            &&& final(proposal_account).choices@[choice as int].count == old(
                proposal_account,
            ).choices@[choice as int].count + 1
            &&& forall|i: int|
                0 <= i < old(proposal_account).choices@.len() && i != choice as int
                    ==> final(proposal_account).choices@[i] == old(proposal_account).choices@[i]
            &&& final(voter_account).proposal@ == proposal_key@
            &&& final(voter_account).user@ == user_key@
            &&& final(voter_account).choice_option == choice
        }),
{
    if now >= proposal_account.deadline as i64 {
        return Result::Err(VoteError::VotingIsOver);
    }
    if choice as usize >= proposal_account.choices.len() {
        return Result::Err(VoteError::InvalidOption);
    }
    voter_account.proposal = proposal_key;
    voter_account.user = user_key;
    voter_account.choice_option = choice;
    let idx = choice as usize;
    let count = proposal_account.choices[idx].count;
    let label = proposal_account.choices.remove(idx);
    proposal_account.choices.insert(
        idx,
        Choice { label: label.label, count: count + 1 },
    );
    Result::Ok(())
}

} // verus!
