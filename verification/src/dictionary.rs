//! A fixed hundred-entry counter dictionary with a pooled vault: deposits
//! increment one counter (or a batch of them), withdrawals pay out a
//! counter's accrual at a fixed rate and reset it.

use vstd::prelude::*;

verus! {

/// Units paid out per counter unit on reset.
pub const WITHDRAW_BY_PIXEL: u64 = 5_000_000;

/// Number of entries the dictionary holds.
pub const DICTIONARY_SIZE: usize = 100;

/// One counter, keyed by its fixed id.
#[derive(Clone, Copy, PartialEq, Eq, Structural, Debug)]
pub struct Entry {
    pub id: u8,
    pub value: u32,
}

/// The hundred counters, entry `i` carrying id `i`.
pub struct Dictionary {
    pub entries: Vec<Entry>,
}

/// The pooled balance the counters draw from.
pub struct Vault {
    pub total_balance: u64,
}

/// Everything a dictionary operation can fail with.
#[derive(Clone, Copy, PartialEq, Eq, Structural, Debug)]
pub enum CustomError {
    /// The id names no entry.
    InvalidId,
    /// No entry carries the requested id.
    EntryNotFound,
    /// A counter cannot grow further.
    Overflow,
    /// A deposit must move a positive amount.
    InvalidDepositAmount,
    /// The vault holds less than the payout.
    InsufficientFunds,
}

/// Well-formedness: one entry per id, in order.
pub open spec fn dict_wf(d: Dictionary) -> bool {
    &&& d.entries@.len() == DICTIONARY_SIZE
    &&& forall|i: int| 0 <= i < d.entries@.len() ==> (#[trigger] d.entries@[i]).id == i
}

/// Creates the dictionary with all counters zero and an empty vault.
pub fn initialize() -> (r: (Dictionary, Vault))
    ensures
        dict_wf(r.0),
        forall|i: int| 0 <= i < r.0.entries@.len() ==> (#[trigger] r.0.entries@[i]).value == 0,
        r.1.total_balance == 0,
{
    let mut entries: Vec<Entry> = Vec::new();
    let mut i: usize = 0;
    while i < DICTIONARY_SIZE
        invariant
            i <= DICTIONARY_SIZE,
            entries@.len() == i,
            forall|j: int|
                0 <= j < i ==> (#[trigger] entries@[j]) == (Entry { id: j as u8, value: 0 }),
        decreases DICTIONARY_SIZE - i,
    {
        entries.push(Entry { id: i as u8, value: 0 });
        i = i + 1;
    }
    (Dictionary { entries }, Vault { total_balance: 0 })
}

/// Reads one counter.
pub fn read(dictionary: &Dictionary, id: u8) -> (r: Result<u32, CustomError>)
    requires
        dict_wf(*dictionary),
    ensures
        id < DICTIONARY_SIZE ==> r == Result::<u32, CustomError>::Ok(
            dictionary.entries@[id as int].value,
        ),
        id >= DICTIONARY_SIZE ==> r == Result::<u32, CustomError>::Err(CustomError::InvalidId),
{
    if id as usize >= DICTIONARY_SIZE {
        return Result::Err(CustomError::InvalidId);
    }
    Result::Ok(dictionary.entries[id as usize].value)
}

/// Deposits into the vault and increments one counter. Nothing changes on
/// any failure.
pub fn update(dictionary: &mut Dictionary, vault: &mut Vault, id: u8, deposit_amount: u64) -> (r:
    Result<(), CustomError>)
    requires
        dict_wf(*old(dictionary)),
        // machine limit: the pool is a 64-bit counter
        old(vault).total_balance + deposit_amount <= u64::MAX,
    ensures
        dict_wf(*final(dictionary)),
        id >= DICTIONARY_SIZE ==> r == Result::<(), CustomError>::Err(CustomError::InvalidId)
            && *final(dictionary) == *old(dictionary) && *final(vault) == *old(vault),
        id < DICTIONARY_SIZE && deposit_amount == 0 ==> r == Result::<(), CustomError>::Err(
            CustomError::InvalidDepositAmount,
        ) && *final(dictionary) == *old(dictionary) && *final(vault) == *old(vault),
        id < DICTIONARY_SIZE && deposit_amount > 0 && old(dictionary).entries@[id as int].value
            == u32::MAX ==> ({
            &&& r == Result::<(), CustomError>::Err(CustomError::Overflow)
            &&& *final(dictionary) == *old(dictionary)
            &&& *final(vault) == *old(vault)
        }),
        id < DICTIONARY_SIZE && deposit_amount > 0 && old(dictionary).entries@[id as int].value
            < u32::MAX ==> ({
            &&& r == Result::<(), CustomError>::Ok(())
            &&& final(dictionary).entries@ == old(dictionary).entries@.update(
                id as int,
                Entry {
                    id,
                    value: (old(dictionary).entries@[id as int].value + 1) as u32,
                },
            )
            &&& final(vault).total_balance == old(vault).total_balance + deposit_amount
        }),
{
    if id as usize >= DICTIONARY_SIZE {
        return Result::Err(CustomError::InvalidId);
    }
    if deposit_amount == 0 {
        return Result::Err(CustomError::InvalidDepositAmount);
    }
    let e = dictionary.entries[id as usize];
    if e.value == u32::MAX {
        return Result::Err(CustomError::Overflow);
    }
    dictionary.entries.set(id as usize, Entry { id, value: e.value + 1 });
    vault.total_balance = vault.total_balance + deposit_amount;
    Result::Ok(())
}

/// Pays out one counter's accrual at the fixed rate and resets it. Nothing
/// changes on any failure.
pub fn withdraw_and_reset(dictionary: &mut Dictionary, vault: &mut Vault, id: u8) -> (r: Result<
    u64,
    CustomError,
>)
    requires
        dict_wf(*old(dictionary)),
    ensures
        dict_wf(*final(dictionary)),
        id >= DICTIONARY_SIZE ==> r == Result::<u64, CustomError>::Err(CustomError::InvalidId)
            && *final(dictionary) == *old(dictionary) && *final(vault) == *old(vault),
        id < DICTIONARY_SIZE ==> ({
            let amount = old(dictionary).entries@[id as int].value * (WITHDRAW_BY_PIXEL as int);
            if amount > old(vault).total_balance {
                &&& r == Result::<u64, CustomError>::Err(CustomError::InsufficientFunds)
                &&& *final(dictionary) == *old(dictionary)
                &&& *final(vault) == *old(vault)
            } else {
                &&& r == Result::<u64, CustomError>::Ok(amount as u64)
                &&& final(dictionary).entries@ == old(dictionary).entries@.update(
                    id as int,
                    Entry { id, value: 0 },
                )
                &&& final(vault).total_balance == old(vault).total_balance - amount
            }
        }),
{
    if id as usize >= DICTIONARY_SIZE {
        return Result::Err(CustomError::InvalidId);
    }
    let e = dictionary.entries[id as usize];
    proof {
        vstd::arithmetic::mul::lemma_mul_inequality(
            e.value as int,
            0xffff_ffffu32 as int,
            WITHDRAW_BY_PIXEL as int,
        );
    }
    let withdraw_amount: u64 = (e.value as u64) * WITHDRAW_BY_PIXEL;
    if withdraw_amount > vault.total_balance {
        return Result::Err(CustomError::InsufficientFunds);
    }
    vault.total_balance = vault.total_balance - withdraw_amount;
    dictionary.entries.set(id as usize, Entry { id, value: 0 });
    Result::Ok(withdraw_amount)
}

/// What a batch of increments does, id by id: each id must name an entry
/// (else `InvalidId`) whose counter can still grow (else `Overflow`).
#[verifier::opaque]
pub open spec fn process_updates(entries: Seq<Entry>, ids: Seq<u8>) -> Result<
    Seq<Entry>,
    CustomError,
>
    decreases ids.len(),
{
    if ids.len() == 0 {
        Result::Ok(entries)
    } else {
        let id = ids[0];
        if id >= DICTIONARY_SIZE as u8 {
            Result::Err(CustomError::InvalidId)
        } else if entries[id as int].value == u32::MAX {
            Result::Err(CustomError::Overflow)
        } else {
            process_updates(
                entries.update(
                    id as int,
                    Entry { id, value: (entries[id as int].value + 1) as u32 },
                ),
                ids.skip(1),
            )
        }
    }
}

/// Deposits once and increments a batch of counters, all or nothing.
pub fn update_by_batch(
    dictionary: &mut Dictionary,
    vault: &mut Vault,
    ids: &Vec<u8>,
    deposit_amount: u64,
) -> (r: Result<(), CustomError>)
    requires
        dict_wf(*old(dictionary)),
        // machine limit: the pool is a 64-bit counter
        old(vault).total_balance + deposit_amount <= u64::MAX,
    ensures
        dict_wf(*final(dictionary)),
        deposit_amount == 0 ==> r == Result::<(), CustomError>::Err(
            CustomError::InvalidDepositAmount,
        ) && *final(dictionary) == *old(dictionary) && *final(vault) == *old(vault),
        deposit_amount > 0 ==> ({
            match process_updates(old(dictionary).entries@, ids@) {
                Result::Err(e) => r == Result::<(), CustomError>::Err(e) && *final(dictionary)
                    == *old(dictionary) && *final(vault) == *old(vault),
                Result::Ok(fin) => {
                    &&& r == Result::<(), CustomError>::Ok(())
                    &&& final(dictionary).entries@ == fin
                    &&& final(vault).total_balance == old(vault).total_balance + deposit_amount
                },
            }
        }),
{
    if deposit_amount == 0 {
        return Result::Err(CustomError::InvalidDepositAmount);
    }
    let ghost orig = dictionary.entries@;
    let mut work: Vec<Entry> = Vec::new();
    let mut c: usize = 0;
    while c < dictionary.entries.len()
        invariant
            c <= dictionary.entries@.len(),
            work@ == dictionary.entries@.subrange(0, c as int),
            dictionary.entries@ == orig,
        decreases dictionary.entries@.len() - c,
    {
        work.push(dictionary.entries[c]);
        c = c + 1;
    }
    proof {
        assert(work@ =~= orig);
        assert(ids@.skip(0) =~= ids@);
    }
    let mut k: usize = 0;
    while k < ids.len()
        invariant
            dict_wf(*dictionary),
            dictionary.entries@ == orig,
            *dictionary == *old(dictionary),
            *vault == *old(vault),
            deposit_amount > 0,
            k <= ids@.len(),
            work@.len() == DICTIONARY_SIZE,
            forall|i: int| 0 <= i < work@.len() ==> (#[trigger] work@[i]).id == i,
            process_updates(orig, ids@) == process_updates(work@, ids@.skip(k as int)),
        decreases ids@.len() - k,
    {
        proof {
            assert(ids@.skip(k as int)[0] == ids@[k as int]);
        }
        let id = ids[k];
        if id as usize >= DICTIONARY_SIZE {
            proof {
                reveal(process_updates);
            }
            return Result::Err(CustomError::InvalidId);
        }
        let e = work[id as usize];
        if e.value == u32::MAX {
            proof {
                reveal(process_updates);
            }
            return Result::Err(CustomError::Overflow);
        }
        work.set(id as usize, Entry { id, value: e.value + 1 });
        proof {
            reveal(process_updates);
            assert(ids@.skip(k as int).skip(1) =~= ids@.skip(k + 1));
        }
        k = k + 1;
    }
    proof {
        reveal(process_updates);
        assert(ids@.skip(ids@.len() as int) =~= Seq::<u8>::empty());
    }
    dictionary.entries = work;
    vault.total_balance = vault.total_balance + deposit_amount;
    Result::Ok(())
}

/// What a batch of resets does, id by id: each id must name an entry (else
/// `InvalidId`); its accrual at the fixed rate joins the payout and its
/// counter is zeroed, so a repeated id adds nothing twice.
#[verifier::opaque]
pub open spec fn process_resets(entries: Seq<Entry>, ids: Seq<u8>) -> Result<
    (Seq<Entry>, int),
    CustomError,
>
    decreases ids.len(),
{
    if ids.len() == 0 {
        Result::Ok((entries, 0))
    } else {
        let id = ids[0];
        if id >= DICTIONARY_SIZE as u8 {
            Result::Err(CustomError::InvalidId)
        } else {
            match process_resets(entries.update(id as int, Entry { id, value: 0 }), ids.skip(1)) {
                Result::Ok(done) => Result::Ok(
                    (
                        done.0,
                        done.1 + entries[id as int].value * (WITHDRAW_BY_PIXEL as int),
                    ),
                ),
                Result::Err(e) => Result::Err(e),
            }
        }
    }
}

/// Pays out a batch of counters and resets them, all or nothing: the summed
/// payout must be covered by the vault.
pub fn withdraw_and_reset_by_batch(dictionary: &mut Dictionary, vault: &mut Vault, ids: &Vec<
    u8,
>) -> (r: Result<u64, CustomError>)
    requires
        dict_wf(*old(dictionary)),
    ensures
        dict_wf(*final(dictionary)),
        ({
            match process_resets(old(dictionary).entries@, ids@) {
                Result::Err(e) => r == Result::<u64, CustomError>::Err(e) && *final(dictionary)
                    == *old(dictionary) && *final(vault) == *old(vault),
                Result::Ok(done) => {
                    if done.1 > old(vault).total_balance {
                        &&& r == Result::<u64, CustomError>::Err(CustomError::InsufficientFunds)
                        &&& *final(dictionary) == *old(dictionary)
                        &&& *final(vault) == *old(vault)
                    } else {
                        &&& r == Result::<u64, CustomError>::Ok(done.1 as u64)
                        &&& final(dictionary).entries@ == done.0
                        &&& final(vault).total_balance == old(vault).total_balance - done.1
                    }
                },
            }
        }),
{
    let ghost orig = dictionary.entries@;
    let ghost max_term: int = (0xffff_ffffu32 as int) * (WITHDRAW_BY_PIXEL as int);
    let mut work: Vec<Entry> = Vec::new();
    let mut c: usize = 0;
    while c < dictionary.entries.len()
        invariant
            c <= dictionary.entries@.len(),
            work@ == dictionary.entries@.subrange(0, c as int),
            dictionary.entries@ == orig,
        decreases dictionary.entries@.len() - c,
    {
        work.push(dictionary.entries[c]);
        c = c + 1;
    }
    proof {
        assert(work@ =~= orig);
        assert(ids@.skip(0) =~= ids@);
    }
    let mut total: u128 = 0;
    let mut k: usize = 0;
    while k < ids.len()
        invariant
            dict_wf(*dictionary),
            dictionary.entries@ == orig,
            *dictionary == *old(dictionary),
            *vault == *old(vault),
            k <= ids@.len(),
            max_term == (0xffff_ffffu32 as int) * (WITHDRAW_BY_PIXEL as int),
            work@.len() == DICTIONARY_SIZE,
            forall|i: int| 0 <= i < work@.len() ==> (#[trigger] work@[i]).id == i,
            total as int <= (k as int) * max_term,
            ({
                match process_resets(work@, ids@.skip(k as int)) {
                    Result::Ok(done) => process_resets(orig, ids@) == Result::<
                        (Seq<Entry>, int),
                        CustomError,
                    >::Ok((done.0, done.1 + total as int)),
                    Result::Err(e) => process_resets(orig, ids@) == Result::<
                        (Seq<Entry>, int),
                        CustomError,
                    >::Err(e),
                }
            }),
        decreases ids@.len() - k,
    {
        proof {
            assert(ids@.skip(k as int)[0] == ids@[k as int]);
        }
        let id = ids[k];
        if id as usize >= DICTIONARY_SIZE {
            proof {
                reveal(process_resets);
            }
            return Result::Err(CustomError::InvalidId);
        }
        let e = work[id as usize];
        proof {
            vstd::arithmetic::mul::lemma_mul_inequality(
                e.value as int,
                0xffff_ffffu32 as int,
                WITHDRAW_BY_PIXEL as int,
            );
            assert((k as int) * max_term + max_term == ((k + 1) as int) * max_term) by {
                vstd::arithmetic::mul::lemma_mul_is_distributive_add_other_way(
                    max_term,
                    k as int,
                    1,
                );
            }
            assert(((k + 1) as int) * max_term <= 0x1_0000_0000_0000_0000 * max_term) by {
                vstd::arithmetic::mul::lemma_mul_inequality(
                    (k + 1) as int,
                    0x1_0000_0000_0000_0000,
                    max_term,
                );
            }
        }
        let term: u128 = (e.value as u128) * (WITHDRAW_BY_PIXEL as u128);
        total = total + term;
        work.set(id as usize, Entry { id, value: 0 });
        proof {
            reveal(process_resets);
            assert(ids@.skip(k as int).skip(1) =~= ids@.skip(k + 1));
        }
        k = k + 1;
    }
    proof {
        reveal(process_resets);
        assert(ids@.skip(ids@.len() as int) =~= Seq::<u8>::empty());
    }
    if total > (vault.total_balance as u128) {
        return Result::Err(CustomError::InsufficientFunds);
    }
    let total64: u64 = total as u64;
    vault.total_balance = vault.total_balance - total64;
    dictionary.entries = work;
    Result::Ok(total64)
}

/// Reads a batch of counters: all named values, or the first failure.
pub fn read_by_batch(dictionary: &Dictionary, ids: &Vec<u8>) -> (r: Result<Vec<u32>, CustomError>)
    requires
        dict_wf(*dictionary),
    ensures
        (forall|i: int| 0 <= i < ids@.len() ==> ids@[i] < DICTIONARY_SIZE) ==> ({
            match r {
                Result::Ok(values) => values@ == Seq::new(
                    ids@.len(),
                    |i: int| dictionary.entries@[ids@[i] as int].value,
                ),
                Result::Err(_) => false,
            }
        }),
        (exists|i: int| 0 <= i < ids@.len() && ids@[i] >= DICTIONARY_SIZE) ==> r == Result::<
            Vec<u32>,
            CustomError,
        >::Err(CustomError::InvalidId),
{
    let mut values: Vec<u32> = Vec::new();
    let mut k: usize = 0;
    while k < ids.len()
        invariant
            dict_wf(*dictionary),
            k <= ids@.len(),
            values@.len() == k,
            forall|j: int| 0 <= j < k ==> ids@[j] < DICTIONARY_SIZE,
            forall|j: int|
                0 <= j < k ==> values@[j] == dictionary.entries@[ids@[j] as int].value,
        decreases ids@.len() - k,
    {
        let id = ids[k];
        if id as usize >= DICTIONARY_SIZE {
            return Result::Err(CustomError::InvalidId);
        }
        values.push(dictionary.entries[id as usize].value);
        k = k + 1;
    }
    proof {
        assert(values@ =~= Seq::new(ids@.len(), |i: int| dictionary.entries@[ids@[i] as int].value));
    }
    Result::Ok(values)
}

} // verus!
