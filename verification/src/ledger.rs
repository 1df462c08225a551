//! The accounting ledger: a committed Merkle root, a pooled balance, and
//! the Deposit / Withdraw protocol over the grid of per-cell accounts.

use vstd::arithmetic::power2::pow2;
use vstd::prelude::*;

verus! {

use crate::hashing::{keccak256, make_zero_digest, zero_digest, DIGEST_LEN};
use crate::mapper::{
    cell_index,
    coord_x,
    coord_y,
    get_coordinates_from_id,
    get_index_from_coordinates,
    lemma_coordinates_index,
    lemma_id_coordinates,
    valid_cell_id,
};
use crate::merkle::{
    account_digest,
    fold_proof,
    level_view,
    reduce,
    serialize_pixel_data,
    verify_merkle_proof,
    MerkleTree,
    PixelData,
};

/// Units a depositor owes per cell of the deposited region.
pub const DEPOSIT_AMOUNT_PER_PIXEL: u64 = 900_000;

/// Units paid out per accrued counter unit on withdrawal.
pub const WITHDRAW_AMOUNT_PER_PIXEL: u64 = 450_000;

/// Everything a ledger operation can fail with. Every failure leaves the
/// ledger exactly as it was.
#[derive(Clone, Copy, PartialEq, Eq, Structural, Debug)]
pub enum VaultError {
    /// A region endpoint is no valid cell id, or the endpoints are not
    /// ordered componentwise.
    InvalidRegion,
    /// The deposited amount does not cover the region at the deposit rate.
    DepositAmountTooLow,
    /// A cell id lies outside the grid.
    OutOfRange,
    /// The caller's verified entitlement covers fewer cells than claimed.
    InsufficientNFTs,
    /// A supplied proof does not verify against the current committed root.
    InvalidMerkleProof,
    /// The batch carries no withdrawable units.
    NoWithdrawAvailable,
    /// The pool holds less than the batch pays out.
    InsufficientFunds,
    /// The presented token account does not belong to the caller and the
    /// bound collection.
    InvalidAccountData,
}

/// The digest a cell's account is committed as: an untouched account (no
/// lifetime accrual) keeps the all-zero digest the tree was constructed
/// with; any other account hashes its canonical encoding.
pub open spec fn leaf_of(d: PixelData) -> Seq<u8> {
    if d.total_count == 0 {
        zero_digest()
    } else {
        account_digest(d)
    }
}

/// Computes the committed digest of one account.
pub fn leaf_digest(d: &PixelData) -> (r: Vec<u8>)
    ensures
        r@ == leaf_of(*d),
        r@.len() == DIGEST_LEN,
{
    if d.total_count == 0 {
        make_zero_digest()
    } else {
        let bytes = serialize_pixel_data(d);
        keccak256(&bytes)
    }
}

/// The leaf array a grid of accounts is committed as: one digest per cell,
/// padded with the all-zero digest up to the tree's leaf space.
pub open spec fn grid_leaves(accounts: Seq<PixelData>, n: nat) -> Seq<Seq<u8>> {
    Seq::new(
        n,
        |i: int|
            if i < accounts.len() {
                leaf_of(accounts[i])
            } else {
                zero_digest()
            },
    )
}

/// The root the grid of accounts reduces to.
#[verifier::opaque]
pub open spec fn grid_root(accounts: Seq<PixelData>, n: nat) -> Seq<u8> {
    reduce(grid_leaves(accounts, n))
}

/// The definition of the grid root, for use where `grid_root` stays
/// otherwise folded.
pub proof fn lemma_grid_root_def(accounts: Seq<PixelData>, n: nat)
    ensures
        grid_root(accounts, n) == reduce(grid_leaves(accounts, n)),
{
    reveal(grid_root);
}

/// The ledger: authority identity, bound collection identity, pooled
/// balance, per-cell accounts, and the Merkle tree whose root commits to
/// them. The two ghost tallies record every unit accepted by a deposit and
/// every unit paid out by a withdrawal.
pub struct Vault {
    pub authority: Vec<u8>,
    pub nft_mint: Vec<u8>,
    pub total_balance: u64,
    pub width: u32,
    pub accounts: Vec<PixelData>,
    pub tree: MerkleTree,
    pub deposited: Ghost<int>,
    pub withdrawn: Ghost<int>,
}

impl Vault {
    /// The number of leaves the tree commits to.
    pub open spec fn leaf_count(self) -> nat {
        pow2(self.tree.depth())
    }

    /// The committed root.
    pub open spec fn spec_root(self) -> Seq<u8> {
        self.tree.spec_root()
    }

    /// Well-formedness, established by `initialize` and preserved by every
    /// operation:
    /// - the account array covers the grid exactly, and the tree's leaf
    ///   space covers the account array;
    /// - every leaf is the committed digest of its account — the root is
    ///   never stale;
    /// - no account has accrued less over its lifetime than it currently
    ///   holds;
    /// - the pooled balance equals everything deposited minus everything
    ///   withdrawn (conservation).
    pub open spec fn wf(self) -> bool {
        &&& 1 <= self.width <= 0xffff
        &&& self.accounts@.len() == (self.width as int) * (self.width as int)
        &&& self.accounts@.len() <= self.leaf_count()
        &&& self.tree.wf()
        &&& self.tree.leaves() == grid_leaves(self.accounts@, self.leaf_count())
        &&& forall|i: int|
            0 <= i < self.accounts@.len() ==> (#[trigger] self.accounts@[i]).matrix_counter
                <= self.accounts@[i].total_count
        &&& self.authority@.len() == DIGEST_LEN
        &&& self.nft_mint@.len() == DIGEST_LEN
        &&& 0 <= self.withdrawn@
        &&& self.withdrawn@ <= self.deposited@
        &&& self.total_balance as int == self.deposited@ - self.withdrawn@
    }

    /// Conservation: over any sequence of operations the pooled balance is
    /// exactly the sum of accepted deposit amounts minus the sum of
    /// completed payouts, as recorded by the ghost tallies.
    pub proof fn lemma_balance_conservation(self)
        requires
            self.wf(),
        ensures
            self.total_balance as int == self.deposited@ - self.withdrawn@,
    {
    }

    /// Creates the ledger: zeroed accounts, all-zero leaves, the root of
    /// those leaves committed, an empty pool.
    pub fn initialize(authority: Vec<u8>, nft_mint: Vec<u8>, width: u32, depth: usize) -> (v:
        Vault)
        requires
            1 <= width <= 0xffff,
            depth <= 30,
            (width as int) * (width as int) <= pow2(depth as nat),
            authority@.len() == DIGEST_LEN,
            nft_mint@.len() == DIGEST_LEN,
        ensures
            v.wf(),
            v.width == width,
            v.total_balance == 0,
            v.deposited@ == 0,
            v.withdrawn@ == 0,
            v.authority@ == authority@,
            v.nft_mint@ == nft_mint@,
            v.accounts@ == Seq::new(
                ((width as int) * (width as int)) as nat,
                |i: int| PixelData { matrix_counter: 0, total_count: 0 },
            ),
            v.spec_root() == reduce(v.tree.leaves()),
    {
        proof {
            assert((width as int) * (width as int) <= 0xffff * 0xffff) by (nonlinear_arith)
                requires
                    width <= 0xffff,
            ;
        }
        let n_cells_64: u64 = (width as u64) * (width as u64);
        proof {
            assert(n_cells_64 <= 0xffff_ffff);
        }
        let n_cells: usize = n_cells_64 as usize;
        let mut accounts: Vec<PixelData> = Vec::new();
        let mut i: usize = 0;
        while i < n_cells
            invariant
                i <= n_cells,
                accounts@.len() == i,
                forall|j: int|
                    0 <= j < i ==> #[trigger] accounts@[j] == (PixelData {
                        matrix_counter: 0,
                        total_count: 0,
                    }),
            decreases n_cells - i,
        {
            accounts.push(PixelData { matrix_counter: 0, total_count: 0 });
            i = i + 1;
        }
        let tree = MerkleTree::new(depth);
        let v = Vault {
            authority,
            nft_mint,
            total_balance: 0,
            width,
            accounts,
            tree,
            deposited: Ghost(0),
            withdrawn: Ghost(0),
        };
        proof {
            assert(v.accounts@ =~= Seq::new(
                ((width as int) * (width as int)) as nat,
                |i: int| PixelData { matrix_counter: 0, total_count: 0 },
            ));
            assert forall|i: int| 0 <= i < v.leaf_count() implies #[trigger] v.tree.leaves()[i]
                == grid_leaves(v.accounts@, v.leaf_count())[i] by {}
            assert(v.tree.leaves() =~= grid_leaves(v.accounts@, v.leaf_count()));
            v.tree.lemma_root_is_reduce();
        }
        v
    }

    /// An honest proof always verifies: for any valid cell id of a
    /// well-formed ledger, the cell's committed leaf is exactly the digest
    /// of its current account, and the sibling list generated from the
    /// current tree, folded over that digest, recomputes exactly the
    /// committed root.
    pub proof fn lemma_cell_proof_verifies(self, id: u32)
        requires
            self.wf(),
            valid_cell_id(id, self.width),
        ensures
            self.tree.leaves()[id - 1] == leaf_of(self.accounts@[id - 1]),
            fold_proof(
                id - 1,
                leaf_of(self.accounts@[id - 1]),
                crate::merkle::proof_for(self.tree.leaves(), id - 1),
            ) == self.spec_root(),
    {
        let idx = id - 1;
        assert(0 <= idx < self.accounts@.len());
        assert(self.tree.leaves() == grid_leaves(self.accounts@, self.leaf_count()));
        assert(self.tree.leaves().len() == self.leaf_count());
        self.tree.lemma_generated_proof_verifies(idx);
    }

    /// The persisted form of the ledger record: the authority identity,
    /// the bound collection identity, the pooled balance little-endian,
    /// and the committed root, in that order.
    pub fn persisted_record(&self) -> (r: Vec<u8>)
        requires
            self.wf(),
        ensures
            r@ == self.authority@ + self.nft_mint@ + crate::merkle::u64_le_bytes(
                self.total_balance,
            ) + self.spec_root(),
            r@.len() == 104,
    {
        let mut head = crate::hashing::concat_bytes(&self.authority, &self.nft_mint);
        crate::merkle::push_u64_le(&mut head, self.total_balance);
        let root = self.root();
        let out = crate::hashing::concat_bytes(&head, &root);
        proof {
            assert(out@ =~= self.authority@ + self.nft_mint@ + crate::merkle::u64_le_bytes(
                self.total_balance,
            ) + self.spec_root());
        }
        out
    }

    /// Reads the committed root.
    pub fn root(&self) -> (r: Vec<u8>)
        requires
            self.wf(),
        ensures
            r@ == self.spec_root(),
            r@ == grid_root(self.accounts@, self.leaf_count()),
            r@.len() == DIGEST_LEN,
    {
        proof {
            self.tree.lemma_root_is_reduce();
            lemma_grid_root_def(self.accounts@, self.leaf_count());
        }
        self.tree.calculate_root()
    }
}

/// A region of the grid: both endpoints resolve to coordinates and the
/// begin endpoint lies above-left of (or on) the end endpoint.
pub open spec fn valid_region(beg: u32, end: u32, width: u32) -> bool {
    &&& valid_cell_id(beg, width)
    &&& valid_cell_id(end, width)
    &&& coord_x(beg, width) <= coord_x(end, width)
    &&& coord_y(beg, width) <= coord_y(end, width)
}

/// The number of cells the region spans.
pub open spec fn region_area(beg: u32, end: u32, width: u32) -> int {
    (coord_x(end, width) - coord_x(beg, width) + 1) * (coord_y(end, width) - coord_y(beg, width)
        + 1)
}

/// Whether the cell owning leaf index `i` lies inside the region.
pub open spec fn index_in_region(i: int, beg: u32, end: u32, width: u32) -> bool {
    let cx = 1 + i % (width as int);
    let cy = 1 + i / (width as int);
    &&& coord_x(beg, width) <= cx <= coord_x(end, width)
    &&& coord_y(beg, width) <= cy <= coord_y(end, width)
}

/// An account after a deposit touches its cell: both counters grow by one.
pub open spec fn bump(d: PixelData) -> PixelData {
    PixelData {
        matrix_counter: (d.matrix_counter + 1) as u64,
        total_count: (d.total_count + 1) as u64,
    }
}

/// The cells already visited by the row-major deposit walk standing at
/// column `x` of row `y`: all region rows above `y`, and the region columns
/// left of `x` within row `y`.
pub open spec fn deposit_visited(i: int, xb: int, xe: int, yb: int, x: int, y: int, w: int) -> bool {
    let cx = 1 + i % w;
    let cy = 1 + i / w;
    ||| (yb <= cy < y && xb <= cx <= xe)
    ||| (cy == y && xb <= cx < x)
}

/// Distinct indexes resolve to distinct coordinates.
proof fn lemma_index_unique(i: int, x: int, y: int, width: u32)
    requires
        width >= 1,
        0 <= i,
        1 <= x <= width,
        1 <= y,
        i != cell_index(x, y, width),
    ensures
        !(1 + i % (width as int) == x && 1 + i / (width as int) == y),
{
    let w = width as int;
    if 1 + i % w == x && 1 + i / w == y {
        vstd::arithmetic::div_mod::lemma_fundamental_div_mod(i, w);
        vstd::arithmetic::mul::lemma_mul_is_commutative(w, i / w);
    }
}

impl Vault {
    /// Deposit: after validating the region and the amount, walks the
    /// region in row-major order, increments each cell's account, rehashes
    /// its leaf, and finally adds the amount to the pool. A failed
    /// precondition touches nothing.
    pub fn deposit(&mut self, amount: u64, nft_id_beg: u32, nft_id_end: u32) -> (r: Result<
        (),
        VaultError,
    >)
        requires
            old(self).wf(),
            // machine limits: the pool is a 64-bit counter, as is each cell's
            // lifetime tally
            old(self).total_balance + amount <= u64::MAX,
            forall|i: int|
                0 <= i < old(self).accounts@.len() && index_in_region(
                    i,
                    nft_id_beg,
                    nft_id_end,
                    old(self).width,
                ) ==> (#[trigger] old(self).accounts@[i]).total_count < u64::MAX,
        ensures
            final(self).wf(),
            final(self).width == old(self).width,
            final(self).authority@ == old(self).authority@,
            final(self).nft_mint@ == old(self).nft_mint@,
            final(self).withdrawn@ == old(self).withdrawn@,
            final(self).leaf_count() == old(self).leaf_count(),
            !valid_region(nft_id_beg, nft_id_end, old(self).width) ==> ({
                &&& r == Result::<(), VaultError>::Err(VaultError::InvalidRegion)
                &&& *final(self) == *old(self)
            }),
            valid_region(nft_id_beg, nft_id_end, old(self).width) && (amount as int) < region_area(
                nft_id_beg,
                nft_id_end,
                old(self).width,
            ) * (DEPOSIT_AMOUNT_PER_PIXEL as int) ==> ({
                &&& r == Result::<(), VaultError>::Err(VaultError::DepositAmountTooLow)
                &&& *final(self) == *old(self)
            }),
            valid_region(nft_id_beg, nft_id_end, old(self).width) && (amount as int)
                >= region_area(nft_id_beg, nft_id_end, old(self).width) * (
            DEPOSIT_AMOUNT_PER_PIXEL as int) ==> ({
                &&& r == Result::<(), VaultError>::Ok(())
                &&& final(self).accounts@ == Seq::new(
                    old(self).accounts@.len(),
                    |i: int|
                        if index_in_region(i, nft_id_beg, nft_id_end, old(self).width) {
                            bump(old(self).accounts@[i])
                        } else {
                            old(self).accounts@[i]
                        },
                )
                &&& final(self).total_balance == old(self).total_balance + amount
                &&& final(self).deposited@ == old(self).deposited@ + amount
            }),
    {
        let width = self.width;
        let cb = match get_coordinates_from_id(nft_id_beg, width) {
            Result::Ok(c) => c,
            Result::Err(_) => {
                return Result::Err(VaultError::InvalidRegion);
            },
        };
        let ce = match get_coordinates_from_id(nft_id_end, width) {
            Result::Ok(c) => c,
            Result::Err(_) => {
                return Result::Err(VaultError::InvalidRegion);
            },
        };
        if ce.x < cb.x || ce.y < cb.y {
            return Result::Err(VaultError::InvalidRegion);
        }
        proof {
            lemma_id_coordinates(nft_id_beg, width);
            lemma_id_coordinates(nft_id_end, width);
        }
        let rw: u64 = ((ce.x - cb.x) as u64) + 1;
        let rh: u64 = ((ce.y - cb.y) as u64) + 1;
        proof {
            assert(rw * rh <= 0x1_0000 * 0x1_0000) by (nonlinear_arith)
                requires
                    1 <= rw <= 0x1_0000 && 1 <= rh <= 0x1_0000,
            ;
        }
        let cells: u64 = rw * rh;
        proof {
            assert(cells * (DEPOSIT_AMOUNT_PER_PIXEL as int) <= 0x1_0000_0000 * 900_000)
                by (nonlinear_arith)
                requires
                    cells <= 0x1_0000_0000,
            ;
        }
        let required: u64 = cells * DEPOSIT_AMOUNT_PER_PIXEL;
        if amount < required {
            return Result::Err(VaultError::DepositAmountTooLow);
        }
        proof {
            assert(cells as int == region_area(nft_id_beg, nft_id_end, width));
        }
        let ghost old_accounts = self.accounts@;
        let ghost w_int = width as int;
        let ghost xb = cb.x as int;
        let ghost xe = ce.x as int;
        let ghost yb = cb.y as int;
        let ghost ye = ce.y as int;
        let ghost n = old(self).leaf_count();
        let mut y = cb.y;
        while y <= ce.y
            invariant
                self.wf(),
                self.width == width,
                self.authority@ == old(self).authority@,
                self.nft_mint@ == old(self).nft_mint@,
                self.total_balance == old(self).total_balance,
                self.deposited@ == old(self).deposited@,
                self.withdrawn@ == old(self).withdrawn@,
                self.leaf_count() == n,
                self.accounts@.len() == old_accounts.len(),
                old_accounts == old(self).accounts@,
                w_int == width as int,
                1 <= width <= 0xffff,
                cb.x as int == xb && ce.x as int == xe,
                cb.y as int == yb && ce.y as int == ye,
                xb == coord_x(nft_id_beg, width) && xe == coord_x(nft_id_end, width),
                yb == coord_y(nft_id_beg, width) && ye == coord_y(nft_id_end, width),
                1 <= xb <= xe <= w_int,
                1 <= yb <= ye <= w_int,
                yb <= y <= ye + 1,
                forall|i: int|
                    0 <= i < old_accounts.len() && index_in_region(
                        i,
                        nft_id_beg,
                        nft_id_end,
                        width,
                    ) ==> (#[trigger] old_accounts[i]).total_count < u64::MAX,
                forall|i: int|
                    0 <= i < old_accounts.len() ==> #[trigger] self.accounts@[i] == (
                    if deposit_visited(i, xb, xe, yb, xb as int, y as int, w_int) {
                        bump(old_accounts[i])
                    } else {
                        old_accounts[i]
                    }),
            decreases ye + 1 - y,
        {
            let mut x = cb.x;
            while x <= ce.x
                invariant
                    self.wf(),
                    self.width == width,
                    self.authority@ == old(self).authority@,
                    self.nft_mint@ == old(self).nft_mint@,
                    self.total_balance == old(self).total_balance,
                    self.deposited@ == old(self).deposited@,
                    self.withdrawn@ == old(self).withdrawn@,
                    self.leaf_count() == n,
                    self.accounts@.len() == old_accounts.len(),
                    old_accounts == old(self).accounts@,
                    w_int == width as int,
                    1 <= width <= 0xffff,
                    cb.x as int == xb && ce.x as int == xe,
                    cb.y as int == yb && ce.y as int == ye,
                    xb == coord_x(nft_id_beg, width) && xe == coord_x(nft_id_end, width),
                    yb == coord_y(nft_id_beg, width) && ye == coord_y(nft_id_end, width),
                    1 <= xb <= xe <= w_int,
                    1 <= yb <= ye <= w_int,
                    yb <= y as int <= ye,
                    xb <= x as int <= xe + 1,
                    forall|i: int|
                        0 <= i < old_accounts.len() && index_in_region(
                            i,
                            nft_id_beg,
                            nft_id_end,
                            width,
                        ) ==> (#[trigger] old_accounts[i]).total_count < u64::MAX,
                    forall|i: int|
                        0 <= i < old_accounts.len() ==> #[trigger] self.accounts@[i] == (
                        if deposit_visited(i, xb, xe, yb, x as int, y as int, w_int) {
                            bump(old_accounts[i])
                        } else {
                            old_accounts[i]
                        }),
                decreases xe + 1 - x,
            {
                let idx = get_index_from_coordinates(x, y, width);
                proof {
                    lemma_coordinates_index(x as int, y as int, width);
                    assert(idx < self.accounts@.len());
                    // The walk has not yet visited this cell: it resolves to
                    // the current column and row.
                    assert(1 + (idx as int) % w_int == x as int);
                    assert(1 + (idx as int) / w_int == y as int);
                    assert(!deposit_visited(idx as int, xb, xe, yb, x as int, y as int, w_int));
                    assert(index_in_region(idx as int, nft_id_beg, nft_id_end, width));
                    assert(self.accounts@[idx as int] == old_accounts[idx as int]);
                    assert(old_accounts[idx as int].total_count < u64::MAX);
                }
                let acc = self.accounts[idx];
                let newacc = PixelData {
                    matrix_counter: acc.matrix_counter + 1,
                    total_count: acc.total_count + 1,
                };
                let ghost pre_accounts = self.accounts@;
                self.accounts.set(idx, newacc);
                let leaf = leaf_digest(&newacc);
                let ghost pre_leaves = self.tree.leaves();
                self.tree.set_leaf(idx, leaf);
                proof {
                    assert(newacc == bump(old_accounts[idx as int]));
                    // Leaves again mirror the accounts.
                    assert forall|j: int| 0 <= j < n implies #[trigger] self.tree.leaves()[j]
                        == grid_leaves(self.accounts@, n)[j] by {
                        if j != idx as int {
                            assert(self.tree.leaves()[j] == pre_leaves[j]);
                            assert(pre_accounts[j] == self.accounts@[j] || j
                                >= self.accounts@.len());
                        }
                    }
                    assert(self.tree.leaves() =~= grid_leaves(self.accounts@, n));
                    // Exactly this cell joins the visited set.
                    assert forall|i: int| 0 <= i < old_accounts.len() implies #[trigger] self.accounts@[i]
                        == (if deposit_visited(i, xb, xe, yb, x + 1 as int, y as int, w_int) {
                        bump(old_accounts[i])
                    } else {
                        old_accounts[i]
                    }) by {
                        if i != idx as int {
                            lemma_index_unique(i, x as int, y as int, width);
                            assert(deposit_visited(i, xb, xe, yb, x + 1 as int, y as int, w_int)
                                == deposit_visited(i, xb, xe, yb, x as int, y as int, w_int));
                            assert(self.accounts@[i] == pre_accounts[i]);
                        }
                    }
                }
                x = x + 1;
            }
            proof {
                // A finished row folds into the visited-rows form.
                assert forall|i: int| 0 <= i < old_accounts.len() implies #[trigger] self.accounts@[i]
                    == (if deposit_visited(i, xb, xe, yb, xb as int, (y + 1) as int, w_int) {
                    bump(old_accounts[i])
                } else {
                    old_accounts[i]
                }) by {
                    assert(deposit_visited(i, xb, xe, yb, xe + 1, y as int, w_int)
                        == deposit_visited(i, xb, xe, yb, xb as int, (y + 1) as int, w_int));
                }
            }
            y = y + 1;
        }
        self.total_balance = self.total_balance + amount;
        proof {
            self.deposited@ = self.deposited@ + amount;
        }
        proof {
            assert forall|i: int| 0 <= i < old_accounts.len() implies #[trigger] self.accounts@[i]
                == (if index_in_region(i, nft_id_beg, nft_id_end, width) {
                bump(old_accounts[i])
            } else {
                old_accounts[i]
            }) by {
                assert(deposit_visited(i, xb, xe, yb, xb as int, (ye + 1) as int, w_int)
                    == index_in_region(i, nft_id_beg, nft_id_end, width));
            }
            assert(self.accounts@ =~= Seq::new(
                old(self).accounts@.len(),
                |i: int|
                    if index_in_region(i, nft_id_beg, nft_id_end, old(self).width) {
                        bump(old(self).accounts@[i])
                    } else {
                        old(self).accounts@[i]
                    },
            ));
        }
        Result::Ok(())
    }
}

/// The set of leaf indexes a region covers.
pub open spec fn region_index_set(beg: u32, end: u32, width: u32) -> Set<int> {
    Set::new(
        |i: int|
            0 <= i < (width as int) * (width as int) && index_in_region(i, beg, end, width),
    )
}

/// The region's indexes restricted to rows up to `y` inclusive.
spec fn region_rows_set(beg: u32, end: u32, width: u32, y: int) -> Set<int> {
    Set::new(
        |i: int|
            0 <= i < (width as int) * (width as int) && coord_x(beg, width) <= 1 + i % (
            width as int) <= coord_x(end, width) && coord_y(beg, width) <= 1 + i / (width as int)
                <= y,
    )
}

/// Counts the region's indexes row by row.
proof fn lemma_region_rows_count(beg: u32, end: u32, width: u32, y: int)
    requires
        1 <= width <= 0xffff,
        valid_region(beg, end, width),
        coord_y(beg, width) - 1 <= y <= coord_y(end, width),
    ensures
        region_rows_set(beg, end, width, y).finite(),
        region_rows_set(beg, end, width, y).len() == (coord_x(end, width) - coord_x(beg, width)
            + 1) * (y - coord_y(beg, width) + 1),
    decreases y - coord_y(beg, width) + 1,
{
    let w = width as int;
    let xb = coord_x(beg, width);
    let xe = coord_x(end, width);
    let yb = coord_y(beg, width);
    lemma_id_coordinates(beg, width);
    lemma_id_coordinates(end, width);
    if y == yb - 1 {
        assert(region_rows_set(beg, end, width, y) =~= Set::<int>::empty());
        assert((xe - xb + 1) * 0 == 0) by (nonlinear_arith);
    } else {
        lemma_region_rows_count(beg, end, width, y - 1);
        let prev = region_rows_set(beg, end, width, y - 1);
        let lo = (y - 1) * w + (xb - 1);
        let hi = (y - 1) * w + (xe - 1) + 1;
        let row = vstd::set_lib::set_int_range(lo, hi);
        vstd::set_lib::lemma_int_range(lo, hi);
        assert(0 <= (y - 1) * w) by {
            vstd::arithmetic::mul::lemma_mul_nonnegative(y - 1, w);
        }
        assert((y - 1) * w + w <= w * w) by {
            vstd::arithmetic::mul::lemma_mul_inequality(y - 1, w - 1, w);
            assert((w - 1) * w + w == w * w) by (nonlinear_arith);
        }
        assert forall|i: int|
            region_rows_set(beg, end, width, y).contains(i) <==> (prev + row).contains(i) by {
            vstd::arithmetic::div_mod::lemma_fundamental_div_mod(i, w);
            if lo <= i < hi {
                let r = i - (y - 1) * w;
                vstd::arithmetic::div_mod::lemma_fundamental_div_mod_converse_div(
                    i,
                    w,
                    y - 1,
                    r,
                );
                vstd::arithmetic::div_mod::lemma_fundamental_div_mod_converse_mod(
                    i,
                    w,
                    y - 1,
                    r,
                );
            }
            if region_rows_set(beg, end, width, y).contains(i) && 1 + i / w == y {
                assert(i == w * (i / w) + i % w);
                vstd::arithmetic::mul::lemma_mul_is_commutative(w, y - 1);
                assert(lo <= i < hi);
            }
        }
        assert(region_rows_set(beg, end, width, y) =~= prev + row);
        assert forall|i: int| !(prev.contains(i) && row.contains(i)) by {
            if lo <= i < hi {
                vstd::arithmetic::div_mod::lemma_fundamental_div_mod_converse_div(
                    i,
                    w,
                    y - 1,
                    i - (y - 1) * w,
                );
            }
        }
        assert(prev.disjoint(row));
        vstd::set_lib::lemma_set_disjoint_lens(prev, row);
        assert((xe - xb + 1) * (y - 1 - yb + 1) + (xe - xb + 1) == (xe - xb + 1) * (y - yb + 1))
            by {
            vstd::arithmetic::mul::lemma_mul_is_distributive_add(xe - xb + 1, y - yb, 1);
        }
    }
}

/// A deposit region covers exactly its area: the indexes whose cells a
/// deposit over the region increments — those `deposit` marks with
/// `index_in_region` — form a set of exactly
/// `(x_end - x_beg + 1) * (y_end - y_beg + 1)` distinct cells; a one-cell
/// region covers exactly one.
pub proof fn lemma_region_cell_count(beg: u32, end: u32, width: u32)
    requires
        1 <= width <= 0xffff,
        valid_region(beg, end, width),
    ensures
        region_index_set(beg, end, width).finite(),
        region_index_set(beg, end, width).len() == region_area(beg, end, width),
{
    lemma_region_rows_count(beg, end, width, coord_y(end, width));
    assert(region_index_set(beg, end, width) =~= region_rows_set(
        beg,
        end,
        width,
        coord_y(end, width),
    ));
}

/// An account after a withdrawal clears it: the accrued counter is zeroed,
/// the lifetime total stays.
pub open spec fn zero_out(d: PixelData) -> PixelData {
    PixelData { matrix_counter: 0, total_count: d.total_count }
}

/// The sibling lists a vector of proof vectors stands for.
pub open spec fn proofs_view(p: Vec<Vec<Vec<u8>>>) -> Seq<Seq<Seq<u8>>> {
    p@.map_values(|q: Vec<Vec<u8>>| level_view(q))
}

/// What a withdrawal batch does, triple by triple, in caller order: resolve
/// the cell id (else `OutOfRange`), check the supplied sibling list against
/// the *current* root for the claimed content (else `InvalidMerkleProof`),
/// then zero the cell — which advances the root at once, so the same proof
/// can never be replayed — and add the claimed counter times the withdraw
/// rate to the payout. The result is the final account array and the total
/// payout, or the first error.
#[verifier::opaque]
pub open spec fn process_withdraw(
    accounts: Seq<PixelData>,
    n: nat,
    width: u32,
    ids: Seq<u32>,
    proofs: Seq<Seq<Seq<u8>>>,
    claimed: Seq<PixelData>,
) -> Result<(Seq<PixelData>, int), VaultError>
    decreases ids.len(),
{
    if ids.len() == 0 {
        Result::Ok((accounts, 0))
    } else {
        let id = ids[0];
        if !valid_cell_id(id, width) {
            Result::Err(VaultError::OutOfRange)
        } else if fold_proof(id - 1, leaf_of(claimed[0]), proofs[0]) != grid_root(accounts, n) {
            Result::Err(VaultError::InvalidMerkleProof)
        } else {
            let acc2 = accounts.update(id - 1, zero_out(accounts[id - 1]));
            match process_withdraw(acc2, n, width, ids.skip(1), proofs.skip(1), claimed.skip(1)) {
                Result::Ok(done) => Result::Ok(
                    (done.0, done.1 + claimed[0].matrix_counter * (WITHDRAW_AMOUNT_PER_PIXEL as int)),
                ),
                Result::Err(e) => Result::Err(e),
            }
        }
    }
}

/// Whether finishing `rest` and then crediting `paid` more payout units
/// yields exactly the whole batch's outcome `pr`.
pub open spec fn withdraw_shifted(
    pr: Result<(Seq<PixelData>, int), VaultError>,
    rest: Result<(Seq<PixelData>, int), VaultError>,
    paid: int,
) -> bool {
    match rest {
        Result::Ok(done) => pr == Result::<(Seq<PixelData>, int), VaultError>::Ok(
            (done.0, done.1 + paid),
        ),
        Result::Err(e) => pr == Result::<(Seq<PixelData>, int), VaultError>::Err(e),
    }
}

/// Swapping one account swaps exactly its leaf in the committed leaf
/// array.
proof fn lemma_grid_leaves_update(pre: Seq<PixelData>, idx: int, newacc: PixelData, n: nat)
    requires
        0 <= idx < pre.len(),
        pre.len() <= n,
    ensures
        grid_leaves(pre.update(idx, newacc), n) == grid_leaves(pre, n).update(
            idx,
            leaf_of(newacc),
        ),
{
    assert(grid_leaves(pre.update(idx, newacc), n) =~= grid_leaves(pre, n).update(
        idx,
        leaf_of(newacc),
    ));
}

/// Copies the account array.
fn clone_accounts(v: &Vec<PixelData>) -> (r: Vec<PixelData>)
    ensures
        r@ == v@,
{
    let mut r: Vec<PixelData> = Vec::new();
    let mut i: usize = 0;
    while i < v.len()
        invariant
            i <= v@.len(),
            r@ == v@.subrange(0, i as int),
        decreases v@.len() - i,
    {
        r.push(v[i]);
        i = i + 1;
    }
    proof {
        assert(r@ =~= v@);
    }
    r
}

impl Vault {
    /// Withdraw, the proof-verified variant: after checking the caller's
    /// verified entitlement covers the batch, processes the triples in
    /// caller order against the advancing root on a working copy, and only
    /// if the whole batch succeeds — with a payout that is positive and
    /// covered by the pool — commits the new accounts, the new root and the
    /// reduced balance. Any failure leaves the ledger untouched.
    #[verifier::rlimit(100)]
    pub fn withdraw(
        &mut self,
        nft_ids: &Vec<u32>,
        merkle_proofs: &Vec<Vec<Vec<u8>>>,
        claimed_contents: &Vec<PixelData>,
        nft_count: u32,
    ) -> (r: Result<u64, VaultError>)
        requires
            old(self).wf(),
            nft_ids@.len() == merkle_proofs@.len(),
            nft_ids@.len() == claimed_contents@.len(),
        ensures
            final(self).wf(),
            final(self).width == old(self).width,
            final(self).authority@ == old(self).authority@,
            final(self).nft_mint@ == old(self).nft_mint@,
            final(self).deposited@ == old(self).deposited@,
            final(self).leaf_count() == old(self).leaf_count(),
            ({
                let pr = process_withdraw(
                    old(self).accounts@,
                    old(self).leaf_count(),
                    old(self).width,
                    nft_ids@,
                    proofs_view(*merkle_proofs),
                    claimed_contents@,
                );
                if (nft_count as int) < nft_ids@.len() {
                    &&& r == Result::<u64, VaultError>::Err(VaultError::InsufficientNFTs)
                    &&& *final(self) == *old(self)
                } else {
                    match pr {
                        Result::Err(e) => r == Result::<u64, VaultError>::Err(e) && *final(self)
                            == *old(self),
                        Result::Ok(done) => {
                            if done.1 == 0 {
                                &&& r == Result::<u64, VaultError>::Err(
                                    VaultError::NoWithdrawAvailable,
                                )
                                &&& *final(self) == *old(self)
                            } else if done.1 > old(self).total_balance {
                                &&& r == Result::<u64, VaultError>::Err(
                                    VaultError::InsufficientFunds,
                                )
                                &&& *final(self) == *old(self)
                            } else {
                                &&& r == Result::<u64, VaultError>::Ok(done.1 as u64)
                                &&& final(self).accounts@ == done.0
                                &&& final(self).total_balance == old(self).total_balance - done.1
                                &&& final(self).withdrawn@ == old(self).withdrawn@ + done.1
                            }
                        },
                    }
                }
            }),
    {
        let len = nft_ids.len();
        if (nft_count as usize) < len {
            return Result::Err(VaultError::InsufficientNFTs);
        }
        let ghost n = old(self).leaf_count();
        let ghost w = old(self).width;
        let ghost ids = nft_ids@;
        let ghost pfs = proofs_view(*merkle_proofs);
        let ghost clm = claimed_contents@;
        let ghost all_pr = process_withdraw(old(self).accounts@, n, w, ids, pfs, clm);
        let ghost max_term: int = (0xffff_ffff_ffff_ffffu64 as int) * 450_000;
        let mut work_accounts = clone_accounts(&self.accounts);
        let mut work_tree = self.tree.duplicate();
        let mut payable: u128 = 0;
        let mut k: usize = 0;
        proof {
            assert(ids.skip(0) =~= ids);
            assert(pfs.skip(0) =~= pfs);
            assert(clm.skip(0) =~= clm);
        }
        while k < len
            invariant
                self.wf(),
                *self == *old(self),
                len == ids.len(),
                len <= 0xffff_ffff,
                len <= nft_count as int,
                ids == nft_ids@,
                pfs == proofs_view(*merkle_proofs),
                clm == claimed_contents@,
                pfs.len() == len,
                clm.len() == len,
                n == old(self).leaf_count(),
                w == old(self).width,
                1 <= w <= 0xffff,
                max_term == (0xffff_ffff_ffff_ffffu64 as int) * 450_000,
                all_pr == process_withdraw(old(self).accounts@, n, w, ids, pfs, clm),
                k <= len,
                work_accounts@.len() == old(self).accounts@.len(),
                work_accounts@.len() == (w as int) * (w as int),
                forall|i: int|
                    0 <= i < work_accounts@.len() ==> (#[trigger] work_accounts@[i]).matrix_counter
                        <= work_accounts@[i].total_count,
                work_tree.wf(),
                work_tree.depth() == old(self).tree.depth(),
                work_tree.leaves() == grid_leaves(work_accounts@, n),
                payable as int <= (k as int) * max_term,
                withdraw_shifted(
                    all_pr,
                    process_withdraw(
                        work_accounts@,
                        n,
                        w,
                        ids.skip(k as int),
                        pfs.skip(k as int),
                        clm.skip(k as int),
                    ),
                    payable as int,
                ),
            decreases len - k,
        {
            let ghost rest_pr = process_withdraw(
                work_accounts@,
                n,
                w,
                ids.skip(k as int),
                pfs.skip(k as int),
                clm.skip(k as int),
            );
            proof {
                assert(ids.skip(k as int)[0] == ids[k as int]);
                assert(pfs.skip(k as int)[0] == pfs[k as int]);
                assert(clm.skip(k as int)[0] == clm[k as int]);
            }
            let id = nft_ids[k];
            let c = match get_coordinates_from_id(id, self.width) {
                Result::Ok(c) => c,
                Result::Err(_) => {
                    proof {
                        reveal(process_withdraw);
                        assert(rest_pr == Result::<(Seq<PixelData>, int), VaultError>::Err(
                            VaultError::OutOfRange,
                        ));
                    }
                    return Result::Err(VaultError::OutOfRange);
                },
            };
            proof {
                lemma_id_coordinates(id, w);
            }
            let idx = get_index_from_coordinates(c.x, c.y, self.width);
            proof {
                assert(idx as int == id - 1);
            }
            let cl = claimed_contents[k];
            let leaf = leaf_digest(&cl);
            let root = work_tree.calculate_root();
            proof {
                lemma_grid_root_def(work_accounts@, n);
                assert(root@ == grid_root(work_accounts@, n));
            }
            let ok = verify_merkle_proof(idx, &root, &merkle_proofs[k], &leaf);
            proof {
                assert(level_view(merkle_proofs@[k as int]) == pfs[k as int]);
            }
            if !ok {
                proof {
                    reveal(process_withdraw);
                    assert(rest_pr == Result::<(Seq<PixelData>, int), VaultError>::Err(
                        VaultError::InvalidMerkleProof,
                    ));
                }
                return Result::Err(VaultError::InvalidMerkleProof);
            }
            let term: u128 = (cl.matrix_counter as u128) * (WITHDRAW_AMOUNT_PER_PIXEL as u128);
            proof {
                assert(term as int <= max_term) by {
                    vstd::arithmetic::mul::lemma_mul_inequality(
                        cl.matrix_counter as int,
                        0xffff_ffff_ffff_ffffu64 as int,
                        450_000,
                    );
                }
                assert(payable as int + term as int <= (k as int) * max_term + max_term);
                assert((k as int) * max_term + max_term == ((k + 1) as int) * max_term) by {
                    vstd::arithmetic::mul::lemma_mul_is_distributive_add_other_way(
                        max_term,
                        k as int,
                        1,
                    );
                }
                assert(((k + 1) as int) * max_term <= 0x1_0000_0000 * max_term) by {
                    vstd::arithmetic::mul::lemma_mul_inequality(
                        (k + 1) as int,
                        0x1_0000_0000,
                        max_term,
                    );
                }
            }
            payable = payable + term;
            let acc = work_accounts[idx];
            let newacc = PixelData { matrix_counter: 0, total_count: acc.total_count };
            let ghost pre_accounts = work_accounts@;
            let ghost pre_leaves = work_tree.leaves();
            work_accounts.set(idx, newacc);
            let leaf2 = leaf_digest(&newacc);
            work_tree.set_leaf(idx, leaf2);
            proof {
                assert(newacc == zero_out(pre_accounts[idx as int]));
                lemma_grid_leaves_update(pre_accounts, idx as int, newacc, n);
                assert(work_tree.leaves() == grid_leaves(work_accounts@, n));
                // One unfolding step of the batch, shifted by the payout
                // credited so far.
                reveal(process_withdraw);
                assert(ids.skip(k as int).skip(1) =~= ids.skip(k + 1));
                assert(pfs.skip(k as int).skip(1) =~= pfs.skip(k + 1));
                assert(clm.skip(k as int).skip(1) =~= clm.skip(k + 1));
                let next_pr = process_withdraw(
                    work_accounts@,
                    n,
                    w,
                    ids.skip(k + 1),
                    pfs.skip(k + 1),
                    clm.skip(k + 1),
                );
                assert(work_accounts@ == pre_accounts.update(
                    idx as int,
                    zero_out(pre_accounts[idx as int]),
                ));
                match next_pr {
                    Result::Ok(done) => {
                        assert(rest_pr == Result::<(Seq<PixelData>, int), VaultError>::Ok(
                            (done.0, done.1 + cl.matrix_counter * (
                            WITHDRAW_AMOUNT_PER_PIXEL as int)),
                        ));
                    },
                    Result::Err(e) => {
                        assert(rest_pr == Result::<(Seq<PixelData>, int), VaultError>::Err(e));
                    },
                }
            }
            k = k + 1;
        }
        proof {
            reveal(process_withdraw);
            assert(ids.skip(len as int) =~= Seq::<u32>::empty());
            assert(pfs.skip(len as int) =~= Seq::<Seq<Seq<u8>>>::empty());
            assert(clm.skip(len as int) =~= Seq::<PixelData>::empty());
            assert(all_pr == Result::<(Seq<PixelData>, int), VaultError>::Ok(
                (work_accounts@, payable as int),
            ));
        }
        if payable == 0 {
            return Result::Err(VaultError::NoWithdrawAvailable);
        }
        if payable > (self.total_balance as u128) {
            return Result::Err(VaultError::InsufficientFunds);
        }
        let pay64: u64 = payable as u64;
        self.accounts = work_accounts;
        self.tree = work_tree;
        self.total_balance = self.total_balance - pay64;
        proof {
            self.withdrawn@ = self.withdrawn@ + payable as int;
        }
        Result::Ok(pay64)
    }
}

/// The entitlement decision: a token account counts toward withdrawal only
/// if it is owned by the caller and holds the bound collection; its unit
/// amount is then the caller's verified cell entitlement.
pub fn check_pixel_number(
    account_owner: &Vec<u8>,
    account_mint: &Vec<u8>,
    account_amount: u64,
    user_key: &Vec<u8>,
    nft_mint: &Vec<u8>,
) -> (r: Result<u32, VaultError>)
    ensures
        account_owner@ == user_key@ && account_mint@ == nft_mint@ ==> r == Result::<
            u32,
            VaultError,
        >::Ok(account_amount as u32),
        !(account_owner@ == user_key@ && account_mint@ == nft_mint@) ==> r == Result::<
            u32,
            VaultError,
        >::Err(VaultError::InvalidAccountData),
{
    let owner_ok = crate::hashing::bytes_eq(account_owner, user_key);
    let mint_ok = crate::hashing::bytes_eq(account_mint, nft_mint);
    if owner_ok && mint_ok {
        Result::Ok(#[verifier::truncate] (account_amount as u32))
    } else {
        Result::Err(VaultError::InvalidAccountData)
    }
}

} // verus!
