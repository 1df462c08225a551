//! A fixed-depth binary hash tree over a power-of-two leaf space.
//!
//! The tree keeps every interior level, so a single leaf update only rehashes
//! the ancestors on the leaf-to-root path, and a membership proof is read off
//! the stored levels directly. The committed root always equals the pairwise
//! hash reduction of the current leaf array.

use vstd::arithmetic::power2::{lemma_pow2_pos, lemma_pow2_unfold, pow2};
use vstd::pervasive::VecAdditionalExecFns;
use vstd::prelude::*;

verus! {

use crate::hashing::{
    bytes_eq,
    clone_bytes,
    concat_bytes,
    keccak256,
    keccak256_of,
    make_zero_digest,
    zero_digest,
    DIGEST_LEN,
};

/// The digest of an interior node from its two children.
pub open spec fn node_hash(left: Seq<u8>, right: Seq<u8>) -> Seq<u8> {
    keccak256_of(left + right)
}

/// One pairing pass: adjacent entries are hashed into their parent; an
/// odd-length level passes its last unpaired entry through unhashed.
pub open spec fn reduce_level(level: Seq<Seq<u8>>) -> Seq<Seq<u8>> {
    Seq::new(
        ((level.len() + 1) / 2) as nat,
        |i: int|
            if 2 * i + 1 < level.len() {
                node_hash(level[2 * i], level[2 * i + 1])
            } else {
                level[2 * i]
            },
    )
}

/// Iterated pairwise reduction of a level down to a single digest: the root.
pub open spec fn reduce(level: Seq<Seq<u8>>) -> Seq<u8>
    decreases level.len(),
{
    if level.len() == 0 {
        Seq::empty()
    } else if level.len() == 1 {
        level[0]
    } else {
        reduce(reduce_level(level))
    }
}

/// The index a sibling occupies within the same level.
pub open spec fn sibling_index(i: int) -> int {
    if i % 2 == 1 {
        i - 1
    } else {
        i + 1
    }
}

/// The ordered sibling list for leaf `i` of `level`: at each reduction step
/// the sibling's digest is appended if the sibling position exists.
#[verifier::opaque]
pub open spec fn proof_for(level: Seq<Seq<u8>>, i: int) -> Seq<Seq<u8>>
    decreases level.len(),
{
    if level.len() <= 1 {
        Seq::empty()
    } else {
        let s = sibling_index(i);
        let rest = proof_for(reduce_level(level), i / 2);
        if 0 <= s < level.len() {
            seq![level[s]] + rest
        } else {
            rest
        }
    }
}

/// Folds a sibling list over a starting leaf: at each step the current
/// digest is combined with the next sibling, on the side determined by the
/// index's parity, and the index is halved.
pub open spec fn fold_proof(i: int, current: Seq<u8>, pf: Seq<Seq<u8>>) -> Seq<u8>
    decreases pf.len(),
{
    if pf.len() == 0 {
        current
    } else {
        let next = if i % 2 == 1 {
            node_hash(pf[0], current)
        } else {
            node_hash(current, pf[0])
        };
        fold_proof(i / 2, next, pf.subrange(1, pf.len() as int))
    }
}

/// Completeness of the proof scheme over a power-of-two level: folding the
/// generated sibling list for position `i` over the entry at `i` recomputes
/// exactly the root of the level.
///
/// The power-of-two premise matters: with an odd-length level the unpaired
/// entry contributes no sibling, the fold then pairs the remaining siblings
/// at the wrong parities, and the recomputed digest differs from the root.
/// The tree below always holds `pow2(depth)` leaves, so every level it ever
/// reduces is of power-of-two length.
pub proof fn lemma_proof_roundtrip(level: Seq<Seq<u8>>, i: int, k: nat)
    requires
        level.len() == pow2(k),
        0 <= i < level.len(),
    ensures
        fold_proof(i, level[i], proof_for(level, i)) == reduce(level),
    decreases k,
{
    reveal(proof_for);
    if k == 0 {
        assert(pow2(0) == 1) by {
            vstd::arithmetic::power2::lemma2_to64();
        }
        assert(proof_for(level, i) =~= Seq::<Seq<u8>>::empty());
    } else {
        lemma_pow2_unfold(k);
        lemma_pow2_pos((k - 1) as nat);
        let next = reduce_level(level);
        assert(next.len() == pow2((k - 1) as nat));
        let s = sibling_index(i);
        assert(0 <= s < level.len());
        let rest = proof_for(next, i / 2);
        let pf = proof_for(level, i);
        assert(pf == seq![level[s]] + rest);
        assert(pf.len() == 1 + rest.len());
        assert(pf[0] == level[s]);
        assert(pf.subrange(1, pf.len() as int) =~= rest);
        let h = if i % 2 == 1 {
            node_hash(level[s], level[i])
        } else {
            node_hash(level[i], level[s])
        };
        assert(fold_proof(i, level[i], pf) == fold_proof(i / 2, h, rest));
        // The combined digest is exactly the parent entry of the next level.
        if i % 2 == 1 {
            assert(2 * (i / 2) == i - 1);
            assert(next[i / 2] == node_hash(level[i - 1], level[i]));
        } else {
            assert(2 * (i / 2) == i);
            assert(next[i / 2] == node_hash(level[i], level[i + 1]));
        }
        assert(h == next[i / 2]);
        assert(0 <= i / 2 < next.len());
        lemma_proof_roundtrip(next, i / 2, (k - 1) as nat);
        assert(reduce(level) == reduce(next));
    }
}

/// Updating one entry of an even-length level changes exactly one parent in
/// the reduced level: the parent of the updated entry, which is recomputed
/// from the pair that now sits under it.
pub proof fn lemma_reduce_level_update(level: Seq<Seq<u8>>, j: int, v: Seq<u8>)
    requires
        0 <= j < level.len(),
        level.len() % 2 == 0,
    ensures
        ({
            let l2 = level.update(j, v);
            let p = j / 2;
            reduce_level(l2) == reduce_level(level).update(
                p,
                node_hash(l2[2 * p], l2[2 * p + 1]),
            )
        }),
{
    let l2 = level.update(j, v);
    let p = j / 2;
    let lhs = reduce_level(l2);
    let rhs = reduce_level(level).update(p, node_hash(l2[2 * p], l2[2 * p + 1]));
    assert(2 * p + 1 < level.len());
    assert forall|m: int| 0 <= m < lhs.len() implies lhs[m] == rhs[m] by {
        if m == p {
            assert(lhs[m] == node_hash(l2[2 * p], l2[2 * p + 1]));
        } else {
            assert(2 * m != j && 2 * m + 1 != j);
            assert(l2[2 * m] == level[2 * m]);
            if 2 * m + 1 < level.len() {
                assert(l2[2 * m + 1] == level[2 * m + 1]);
            }
        }
    }
    assert(lhs =~= rhs);
}

/// Reduction is a pure function of the leaf array: equal leaves give equal
/// roots, on every recomputation.
pub proof fn lemma_reduce_deterministic(l1: Seq<Seq<u8>>, l2: Seq<Seq<u8>>)
    requires
        l1 == l2,
    ensures
        reduce(l1) == reduce(l2),
{
}

/// The root binds the full leaf set. After an unrelated leaf `j` changes:
/// the proof generated for `i` beforehand, with the unchanged leaf at `i`,
/// still folds to the root it was made against; and against any root the
/// change produced that differs from the old one, that same proof and leaf
/// no longer fold correctly. Whether the two roots actually differ is the
/// hash function's collision resistance, which nothing here decides.
pub proof fn lemma_root_binds_leaves(leaves: Seq<Seq<u8>>, i: int, j: int, v: Seq<u8>, k: nat)
    requires
        leaves.len() == pow2(k),
        0 <= i < leaves.len(),
        0 <= j < leaves.len(),
        i != j,
    ensures
        leaves.update(j, v)[i] == leaves[i],
        fold_proof(i, leaves[i], proof_for(leaves, i)) == reduce(leaves),
        reduce(leaves.update(j, v)) != reduce(leaves) ==> fold_proof(
            i,
            leaves[i],
            proof_for(leaves, i),
        ) != reduce(leaves.update(j, v)),
{
    lemma_proof_roundtrip(leaves, i, k);
}

/// One cell's account: units accrued since the last withdrawal, and the
/// lifetime total, which is never decremented.
#[derive(Clone, Copy, PartialEq, Eq, Structural, Debug)]
pub struct PixelData {
    pub matrix_counter: u64,
    pub total_count: u64,
}

/// The eight little-endian bytes of a 64-bit counter.
pub open spec fn u64_le_bytes(v: u64) -> Seq<u8> {
    seq![
        (v & 0xff) as u8,
        ((v >> 8) & 0xff) as u8,
        ((v >> 16) & 0xff) as u8,
        ((v >> 24) & 0xff) as u8,
        ((v >> 32) & 0xff) as u8,
        ((v >> 40) & 0xff) as u8,
        ((v >> 48) & 0xff) as u8,
        ((v >> 56) & 0xff) as u8,
    ]
}

/// The canonical byte encoding of an account: both counters, little-endian.
pub open spec fn spec_serialize(d: PixelData) -> Seq<u8> {
    u64_le_bytes(d.matrix_counter) + u64_le_bytes(d.total_count)
}

/// The digest a cell's account hashes to.
pub open spec fn account_digest(d: PixelData) -> Seq<u8> {
    keccak256_of(spec_serialize(d))
}

/// Appends the eight little-endian bytes of `v`.
pub(crate) fn push_u64_le(out: &mut Vec<u8>, v: u64)
    ensures
        final(out)@ == old(out)@ + u64_le_bytes(v),
{
    proof {
        assert((v & 0xff) < 256 && ((v >> 8) & 0xff) < 256 && ((v >> 16) & 0xff) < 256 && ((v
            >> 24) & 0xff) < 256 && ((v >> 32) & 0xff) < 256 && ((v >> 40) & 0xff) < 256 && ((v
            >> 48) & 0xff) < 256 && ((v >> 56) & 0xff) < 256) by (bit_vector);
    }
    out.push((v & 0xff) as u8);
    out.push(((v >> 8) & 0xff) as u8);
    out.push(((v >> 16) & 0xff) as u8);
    out.push(((v >> 24) & 0xff) as u8);
    out.push(((v >> 32) & 0xff) as u8);
    out.push(((v >> 40) & 0xff) as u8);
    out.push(((v >> 48) & 0xff) as u8);
    out.push(((v >> 56) & 0xff) as u8);
    proof {
        assert(out@ =~= old(out)@ + u64_le_bytes(v));
    }
}

/// Serializes an account into its canonical byte encoding.
pub fn serialize_pixel_data(d: &PixelData) -> (r: Vec<u8>)
    ensures
        r@ == spec_serialize(*d),
{
    let mut r: Vec<u8> = Vec::new();
    push_u64_le(&mut r, d.matrix_counter);
    push_u64_le(&mut r, d.total_count);
    proof {
        assert(r@ =~= spec_serialize(*d));
    }
    r
}

/// Within a power-of-two level of length at least two, every position has
/// its sibling, and halving an index lands in the reduced level.
proof fn lemma_sibling_in_level(idx: int, m: nat)
    requires
        m >= 1,
        0 <= idx < pow2(m),
    ensures
        pow2(m) == 2 * pow2((m - 1) as nat),
        0 <= sibling_index(idx) < pow2(m),
        0 <= idx / 2 < pow2((m - 1) as nat),
{
    lemma_pow2_unfold(m);
    lemma_pow2_pos((m - 1) as nat);
}

/// One step of proof generation: appending the sibling at the current
/// level extends a correct prefix into a correct prefix for the reduced
/// level at the halved index.
proof fn lemma_generate_step(
    leaves: Seq<Seq<u8>>,
    index: int,
    pfx_old: Seq<Seq<u8>>,
    pfx_new: Seq<Seq<u8>>,
    level: Seq<Seq<u8>>,
    nextlevel: Seq<Seq<u8>>,
    idx: int,
    m: nat,
)
    requires
        m >= 1,
        level.len() == pow2(m),
        0 <= idx < level.len(),
        nextlevel == reduce_level(level),
        proof_for(leaves, index) == pfx_old + proof_for(level, idx),
        pfx_new == pfx_old + seq![level[sibling_index(idx)]],
    ensures
        proof_for(leaves, index) == pfx_new + proof_for(nextlevel, idx / 2),
{
    reveal(proof_for);
    lemma_sibling_in_level(idx, m);
    let s = sibling_index(idx);
    assert(proof_for(level, idx) == seq![level[s]] + proof_for(nextlevel, idx / 2));
    assert(pfx_old + (seq![level[s]] + proof_for(nextlevel, idx / 2)) =~= (pfx_old + seq![
        level[s],
    ]) + proof_for(nextlevel, idx / 2));
}

/// The digests a level of digest vectors stands for.
pub open spec fn level_view(l: Vec<Vec<u8>>) -> Seq<Seq<u8>> {
    l@.map_values(|d: Vec<u8>| d@)
}

/// Pushing a digest vector extends the viewed level by its bytes.
proof fn lemma_level_view_push(l_old: Vec<Vec<u8>>, l_new: Vec<Vec<u8>>, v: Seq<u8>)
    requires
        l_new@.len() == l_old@.len() + 1,
        forall|j: int| 0 <= j < l_old@.len() ==> l_new@[j] == l_old@[j],
        l_new@[l_old@.len() as int]@ == v,
    ensures
        level_view(l_new) == level_view(l_old) + seq![v],
{
    assert forall|j: int| 0 <= j < l_new@.len() implies #[trigger] level_view(l_new)[j] == (
    level_view(l_old) + seq![v])[j] by {
        assert(level_view(l_new)[j] == l_new@[j]@);
        if j < l_old@.len() {
            assert(level_view(l_old)[j] == l_old@[j]@);
        }
    }
    assert(level_view(l_new) =~= level_view(l_old) + seq![v]);
}

/// The array-backed hash tree. `levels[0]` is the leaf array of length
/// `pow2(depth)`; each higher level is the pairwise hash reduction of the
/// one below it; the single entry of the top level is the root.
pub struct MerkleTree {
    pub levels: Vec<Vec<Vec<u8>>>,
}

impl MerkleTree {
    /// Number of reduction levels above the leaves.
    pub open spec fn depth(self) -> nat {
        (self.levels@.len() - 1) as nat
    }

    /// The current leaf array.
    pub open spec fn leaves(self) -> Seq<Seq<u8>> {
        level_view(self.levels@[0])
    }

    /// The committed root digest.
    pub open spec fn spec_root(self) -> Seq<u8> {
        level_view(self.levels@[self.levels@.len() - 1])[0]
    }

    /// Well-formedness: the stored levels form a complete reduction chain
    /// over a power-of-two leaf space, every entry a 32-byte digest.
    pub open spec fn wf(self) -> bool {
        &&& self.levels@.len() >= 1
        &&& forall|k: int|
            0 <= k < self.levels@.len() ==> #[trigger] level_view(self.levels@[k]).len() == pow2(
                (self.levels@.len() - 1 - k) as nat,
            )
        &&& forall|k: int|
            1 <= k < self.levels@.len() ==> #[trigger] level_view(self.levels@[k]) == reduce_level(
                level_view(self.levels@[k - 1]),
            )
        &&& forall|k: int, i: int|
            0 <= k < self.levels@.len() && 0 <= i < level_view(self.levels@[k]).len()
                ==> #[trigger] level_view(self.levels@[k])[i].len() == DIGEST_LEN
    }

    /// In a well-formed tree the stored root is the reduction of any level,
    /// in particular of the leaves.
    proof fn lemma_level_reduces_to_root(self, k: int)
        requires
            self.wf(),
            0 <= k < self.levels@.len(),
        ensures
            reduce(level_view(self.levels@[k])) == self.spec_root(),
        decreases self.levels@.len() - k,
    {
        let d = self.levels@.len() - 1;
        if k == d {
            assert(level_view(self.levels@[k]).len() == pow2(0));
            assert(pow2(0) == 1) by {
                vstd::arithmetic::power2::lemma2_to64();
            }
        } else {
            assert(level_view(self.levels@[k]).len() == pow2((d - k) as nat));
            lemma_pow2_unfold((d - k) as nat);
            lemma_pow2_pos((d - k - 1) as nat);
            assert(level_view(self.levels@[k]).len() >= 2);
            assert(level_view(self.levels@[k + 1]) == reduce_level(level_view(self.levels@[k])));
            self.lemma_level_reduces_to_root(k + 1);
        }
    }

    /// The committed root always reflects the current leaf array.
    pub proof fn lemma_root_is_reduce(self)
        requires
            self.wf(),
        ensures
            self.spec_root() == reduce(self.leaves()),
    {
        self.lemma_level_reduces_to_root(0);
    }

    /// For every leaf position of a well-formed tree, the proof that
    /// `generate_proof` returns, folded over that leaf's current digest as
    /// `verify_merkle_proof` folds it, recomputes exactly the committed
    /// root.
    pub proof fn lemma_generated_proof_verifies(self, i: int)
        requires
            self.wf(),
            0 <= i < self.leaves().len(),
        ensures
            fold_proof(i, self.leaves()[i], proof_for(self.leaves(), i)) == self.spec_root(),
    {
        self.lemma_root_is_reduce();
        lemma_proof_roundtrip(self.leaves(), i, self.depth());
    }

    /// Builds a level of `count` copies of one digest.
    fn uniform_level(d: &Vec<u8>, count: usize) -> (r: Vec<Vec<u8>>)
        ensures
            level_view(r) == Seq::new(count as nat, |i: int| d@),
    {
        let mut r: Vec<Vec<u8>> = Vec::new();
        let mut i: usize = 0;
        while i < count
            invariant
                i <= count,
                r@.len() == i,
                forall|j: int| 0 <= j < i ==> (#[trigger] r@[j])@ == d@,
            decreases count - i,
        {
            let ghost old_r = r@;
            let c = clone_bytes(d);
            let ghost cv = c@;
            r.push(c);
            i = i + 1;
            proof {
                assert forall|j: int| 0 <= j < i implies (#[trigger] r@[j])@ == d@ by {
                    if j < i - 1 {
                        assert(r@[j] == old_r[j]);
                    } else {
                        assert(r@[j]@ == cv);
                    }
                }
            }
        }
        proof {
            assert forall|j: int| 0 <= j < count implies #[trigger] level_view(r)[j] == d@ by {
                assert(level_view(r)[j] == r@[j]@);
            }
            assert(level_view(r) =~= Seq::new(count as nat, |i: int| d@));
        }
        r
    }

    /// Constructs the tree of the given depth with every leaf set to the
    /// all-zero digest, and the root equal to the reduction of those leaves.
    pub fn new(depth: usize) -> (t: MerkleTree)
        requires
            depth <= 30,
        ensures
            t.wf(),
            t.depth() == depth,
            t.leaves() == Seq::new(pow2(depth as nat), |i: int| zero_digest()),
    {
        // pow2(depth) fits comfortably in usize for depth <= 30.
        proof {
            vstd::arithmetic::power2::lemma2_to64();
        }
        let mut count: usize = 1;
        let mut j: usize = 0;
        while j < depth
            invariant
                j <= depth,
                depth <= 30,
                count == pow2(j as nat),
                count <= 0x4000_0000,
            decreases depth - j,
        {
            proof {
                vstd::arithmetic::power2::lemma2_to64();
                if j < depth {
                    vstd::arithmetic::power2::lemma_pow2_strictly_increases(
                        j as nat,
                        depth as nat,
                    );
                    vstd::arithmetic::power2::lemma_pow2_strictly_increases(depth as nat, 31);
                    lemma_pow2_unfold((j + 1) as nat);
                }
            }
            count = count * 2;
            j = j + 1;
        }
        let mut levels: Vec<Vec<Vec<u8>>> = Vec::new();
        let mut h: Vec<u8> = make_zero_digest();
        let first = Self::uniform_level(&h, count);
        levels.push(first);
        while levels.len() <= depth
            invariant
                depth <= 30,
                1 <= levels@.len() <= depth + 1,
                count == pow2((depth + 1 - levels@.len()) as nat),
                h@.len() == DIGEST_LEN,
                forall|k: int|
                    0 <= k < levels@.len() ==> #[trigger] level_view(levels@[k]).len() == pow2(
                        (depth - k) as nat,
                    ),
                forall|k: int|
                    1 <= k < levels@.len() ==> #[trigger] level_view(levels@[k]) == reduce_level(
                        level_view(levels@[k - 1]),
                    ),
                forall|k: int, i: int|
                    0 <= k < levels@.len() && 0 <= i < level_view(levels@[k]).len()
                        ==> #[trigger] level_view(levels@[k])[i].len() == DIGEST_LEN,
                level_view(levels@[levels@.len() - 1]) == Seq::new(
                    (count) as nat,
                    |i: int| h@,
                ),
                level_view(levels@[0]) == Seq::new(pow2(depth as nat), |i: int| zero_digest()),
            decreases depth + 1 - levels@.len(),
        {
            let ghost prev = level_view(levels@[levels@.len() - 1]);
            let ghost prev_count = count as nat;
            proof {
                lemma_pow2_unfold((depth + 1 - levels@.len()) as nat);
                lemma_pow2_pos((depth - levels@.len()) as nat);
            }
            let pair = concat_bytes(&h, &h);
            let nh = keccak256(&pair);
            let count2 = count / 2;
            let lvl = Self::uniform_level(&nh, count2);
            levels.push(lvl);
            proof {
                // The previous level is uniform, so its reduction is uniform:
                // every parent hashes the same pair of equal children.
                let cur = level_view(levels@[levels@.len() - 1]);
                assert(cur =~= Seq::new(count2 as nat, |i: int| nh@));
                let red = reduce_level(prev);
                assert(red.len() == count2);
                assert forall|m: int| 0 <= m < count2 implies red[m] == nh@ by {
                    assert(2 * m + 1 < prev.len());
                    assert(prev[2 * m] == h@ && prev[2 * m + 1] == h@);
                }
                assert(cur =~= red);
            }
            count = count2;
            h = nh;
        }
        let t = MerkleTree { levels };
        proof {
            assert(t.levels@.len() == depth + 1);
        }
        t
    }

    /// Reads the committed root as the pairwise-hash reduction of the
    /// current leaf array.
    pub fn calculate_root(&self) -> (r: Vec<u8>)
        requires
            self.wf(),
        ensures
            r@ == reduce(self.leaves()),
            r@.len() == DIGEST_LEN,
    {
        proof {
            self.lemma_root_is_reduce();
            vstd::arithmetic::power2::lemma2_to64();
        }
        let top = self.levels.len() - 1;
        proof {
            assert(level_view(self.levels@[top as int]).len() == pow2(0));
            assert(self.levels@[top as int]@.len() == 1);
            assert(level_view(self.levels@[top as int])[0].len() == DIGEST_LEN);
        }
        clone_bytes(&self.levels[top][0])
    }

    /// Replaces the leaf at `index` and rehashes exactly the ancestors on
    /// the leaf-to-root path, so the whole reduction chain — and with it the
    /// committed root — again reflects the leaf array.
    pub fn set_leaf(&mut self, index: usize, digest: Vec<u8>)
        requires
            old(self).wf(),
            index < old(self).leaves().len(),
            digest@.len() == DIGEST_LEN,
        ensures
            final(self).wf(),
            final(self).depth() == old(self).depth(),
            final(self).leaves() == old(self).leaves().update(index as int, digest@),
    {
        let ghost olv = old(self).levels@;
        let ghost dv = digest@;
        let ghost nlv = old(self).leaves().update(index as int, dv);
        let depth = self.levels.len() - 1;
        proof {
            vstd::arithmetic::power2::lemma2_to64();
            assert(level_view(olv[0]).len() == pow2(depth as nat));
            assert(olv[0]@.len() == level_view(olv[0]).len());
        }
        self.levels[0].set(index, digest);
        proof {
            assert forall|m: int| 0 <= m < nlv.len() implies #[trigger] level_view(
                self.levels@[0],
            )[m] == nlv[m] by {
                if m != index {
                    assert(self.levels@[0]@[m] == olv[0]@[m]);
                }
            }
            assert(level_view(self.levels@[0]) =~= nlv);
        }
        let mut k: usize = 0;
        let mut idx: usize = index;
        while k < depth
            invariant
                self.levels@.len() == olv.len(),
                olv.len() >= 1,
                depth == olv.len() - 1,
                k <= depth,
                idx < level_view(olv[k as int]).len(),
                forall|j: int|
                    0 <= j < olv.len() ==> #[trigger] level_view(olv[j]).len() == pow2(
                        (olv.len() - 1 - j) as nat,
                    ),
                forall|j: int|
                    1 <= j < olv.len() ==> #[trigger] level_view(olv[j]) == reduce_level(
                        level_view(olv[j - 1]),
                    ),
                forall|j: int|
                    0 <= j < olv.len() ==> #[trigger] level_view(self.levels@[j]).len()
                        == level_view(olv[j]).len(),
                forall|j: int|
                    1 <= j <= k ==> #[trigger] level_view(self.levels@[j]) == reduce_level(
                        level_view(self.levels@[j - 1]),
                    ),
                forall|j: int| k < j < olv.len() ==> #[trigger] self.levels@[j] == olv[j],
                level_view(self.levels@[0]) == nlv,
                forall|m: int|
                    0 <= m < level_view(olv[k as int]).len() && m != idx ==> #[trigger] level_view(
                        self.levels@[k as int],
                    )[m] == level_view(olv[k as int])[m],
                forall|j: int, i: int|
                    0 <= j < olv.len() && 0 <= i < level_view(self.levels@[j]).len()
                        ==> #[trigger] level_view(self.levels@[j])[i].len() == DIGEST_LEN,
            decreases depth - k,
        {
            let ghost cur_k = level_view(self.levels@[k as int]);
            let ghost old_k = level_view(olv[k as int]);
            proof {
                lemma_pow2_unfold((depth - k) as nat);
                lemma_pow2_pos((depth - k - 1) as nat);
                assert(old_k.len() == pow2((depth - k) as nat));
                assert(level_view(olv[k + 1]).len() == pow2((depth - k - 1) as nat));
                assert(old_k.len() == 2 * level_view(olv[k + 1]).len());
            }
            let parent = idx / 2;
            proof {
                assert(parent < level_view(olv[k + 1]).len());
                assert(2 * parent + 1 < old_k.len());
                assert(level_view(self.levels@[k as int]).len() == level_view(
                    olv[k as int],
                ).len());
                assert(self.levels@[k as int]@.len() == level_view(self.levels@[k as int]).len());
                assert(self.levels@[k as int]@.len() == old_k.len());
            }
            let left = 2 * parent;
            let right = left + 1;
            let combined = concat_bytes(&self.levels[k][left], &self.levels[k][right]);
            let nh = keccak256(&combined);
            let ghost nhv = nh@;
            proof {
                assert(nhv == node_hash(cur_k[left as int], cur_k[right as int]));
                assert(self.levels@[k + 1]@.len() == level_view(olv[k + 1]).len());
            }
            self.levels[k + 1].set(parent, nh);
            proof {
                // The current level equals the old one with one entry swapped,
                // so its reduction is the old reduction with one parent swapped.
                assert(cur_k =~= old_k.update(idx as int, cur_k[idx as int]));
                lemma_reduce_level_update(old_k, idx as int, cur_k[idx as int]);
                let red = reduce_level(cur_k);
                assert(red == reduce_level(old_k).update(
                    parent as int,
                    node_hash(cur_k[left as int], cur_k[right as int]),
                ));
                assert(level_view(olv[k + 1]) == reduce_level(old_k));
                assert forall|m: int| 0 <= m < red.len() implies #[trigger] level_view(
                    self.levels@[k + 1],
                )[m] == red[m] by {
                    if m != parent {
                        assert(self.levels@[k + 1]@[m] == olv[k + 1]@[m]);
                    } else {
                        assert(self.levels@[k + 1]@[m]@ == nhv);
                    }
                }
                assert(level_view(self.levels@[k + 1]) =~= red);
                // The next index halves: dividing by pow2(k) then by 2 is
                // dividing by pow2(k + 1).
                assert forall|m: int|
                    0 <= m < level_view(olv[k + 1]).len() && m != parent implies #[trigger] level_view(
                    self.levels@[k + 1],
                )[m] == level_view(olv[k + 1])[m] by {
                    assert(self.levels@[k + 1]@[m] == olv[k + 1]@[m]);
                }
            }
            idx = parent;
            k = k + 1;
        }
        proof {
            assert(final(self).wf());
            assert(final(self).leaves() == nlv);
        }
    }

    /// Hashes an account and installs the digest as the leaf at `index`,
    /// recomputing the root.
    pub fn update(&mut self, index: usize, data: &PixelData)
        requires
            old(self).wf(),
            index < old(self).leaves().len(),
        ensures
            final(self).wf(),
            final(self).depth() == old(self).depth(),
            final(self).leaves() == old(self).leaves().update(index as int, account_digest(*data)),
    {
        let bytes = serialize_pixel_data(data);
        let leaf = keccak256(&bytes);
        self.set_leaf(index, leaf);
    }

    /// Walks leaf to root and collects the sibling digest at each level:
    /// the ordered list that lets anyone recompute the root from one leaf.
    #[verifier::rlimit(60)]
    pub fn generate_proof(&self, index: usize) -> (pf: Vec<Vec<u8>>)
        requires
            self.wf(),
            index < self.leaves().len(),
        ensures
            level_view(pf) == proof_for(self.leaves(), index as int),
            pf@.len() == self.depth(),
            forall|j: int| 0 <= j < pf@.len() ==> (#[trigger] pf@[j])@.len() == DIGEST_LEN,
    {
        let depth = self.levels.len() - 1;
        let mut pf: Vec<Vec<u8>> = Vec::new();
        let mut k: usize = 0;
        let mut idx: usize = index;
        proof {
            assert(level_view(pf) + proof_for(self.leaves(), index as int) =~= proof_for(
                self.leaves(),
                index as int,
            ));
        }
        while k < depth
            invariant
                self.wf(),
                depth == self.levels@.len() - 1,
                k <= depth,
                idx < level_view(self.levels@[k as int]).len(),
                pf@.len() == k,
                forall|j: int| 0 <= j < pf@.len() ==> (#[trigger] pf@[j])@.len() == DIGEST_LEN,
                proof_for(self.leaves(), index as int) == level_view(pf) + proof_for(
                    level_view(self.levels@[k as int]),
                    idx as int,
                ),
            decreases depth - k,
        {
            let ghost cur = level_view(self.levels@[k as int]);
            let ghost m = (depth - k) as nat;
            proof {
                assert(cur.len() == pow2(m));
                lemma_sibling_in_level(idx as int, m);
                assert(self.levels@[k as int]@.len() == cur.len());
            }
            let sib = if idx % 2 == 1 {
                idx - 1
            } else {
                idx + 1
            };
            proof {
                assert(sib as int == sibling_index(idx as int));
            }
            let entry = clone_bytes(&self.levels[k][sib]);
            let ghost ev = entry@;
            let ghost pf_prev = pf;
            let ghost pf_old = level_view(pf);
            pf.push(entry);
            proof {
                assert(ev == cur[sib as int]);
                lemma_level_view_push(pf_prev, pf, ev);
                assert(level_view(self.levels@[k + 1]) == reduce_level(cur));
                lemma_generate_step(
                    self.leaves(),
                    index as int,
                    pf_old,
                    level_view(pf),
                    cur,
                    level_view(self.levels@[k + 1]),
                    idx as int,
                    m,
                );
            }
            idx = idx / 2;
            k = k + 1;
        }
        proof {
            reveal(proof_for);
            assert(level_view(self.levels@[k as int]).len() == pow2(0));
            assert(pow2(0) == 1) by {
                vstd::arithmetic::power2::lemma2_to64();
            }
            assert(proof_for(level_view(self.levels@[k as int]), idx as int)
                =~= Seq::<Seq<u8>>::empty());
            assert(level_view(pf) + Seq::<Seq<u8>>::empty() =~= level_view(pf));
        }
        pf
    }

    /// A deep copy: same leaves, same levels, same root.
    pub fn duplicate(&self) -> (t: MerkleTree)
        requires
            self.wf(),
        ensures
            t.wf(),
            t.depth() == self.depth(),
            t.leaves() == self.leaves(),
            t.spec_root() == self.spec_root(),
    {
        let mut levels: Vec<Vec<Vec<u8>>> = Vec::new();
        let mut k: usize = 0;
        while k < self.levels.len()
            invariant
                self.wf(),
                k <= self.levels@.len(),
                levels@.len() == k,
                forall|j: int|
                    0 <= j < k ==> #[trigger] level_view(levels@[j]) == level_view(self.levels@[j]),
            decreases self.levels@.len() - k,
        {
            let src = &self.levels[k];
            let mut lvl: Vec<Vec<u8>> = Vec::new();
            let mut i: usize = 0;
            while i < src.len()
                invariant
                    i <= src@.len(),
                    lvl@.len() == i,
                    forall|j: int| 0 <= j < i ==> (#[trigger] lvl@[j])@ == src@[j]@,
                decreases src@.len() - i,
            {
                let c = clone_bytes(&src[i]);
                let ghost cv = c@;
                lvl.push(c);
                i = i + 1;
                proof {
                    assert(lvl@[i - 1]@ == cv);
                }
            }
            proof {
                assert forall|j: int| 0 <= j < src@.len() implies #[trigger] level_view(lvl)[j]
                    == level_view(*src)[j] by {
                    assert(level_view(lvl)[j] == lvl@[j]@);
                }
                assert(level_view(lvl) =~= level_view(*src));
            }
            levels.push(lvl);
            k = k + 1;
        }
        let t = MerkleTree { levels };
        proof {
            assert forall|j: int, i: int|
                0 <= j < t.levels@.len() && 0 <= i < level_view(t.levels@[j]).len() implies #[trigger] level_view(
                t.levels@[j],
            )[i].len() == DIGEST_LEN by {
                assert(level_view(t.levels@[j]) == level_view(self.levels@[j]));
            }
        }
        t
    }
}

/// Folds a sibling list over a claimed leaf and compares the recomputed
/// digest to a root. Pure: touches no tree state, so any party holding only
/// the root can check one leaf's content.
pub fn verify_merkle_proof(index: usize, root: &Vec<u8>, pf: &Vec<Vec<u8>>, leaf: &Vec<u8>) -> (r:
    bool)
    ensures
        r == (fold_proof(index as int, leaf@, level_view(*pf)) == root@),
{
    let ghost pv = level_view(*pf);
    let mut cur = clone_bytes(leaf);
    let mut idx = index;
    let mut k: usize = 0;
    proof {
        assert(pv.skip(0) =~= pv);
    }
    while k < pf.len()
        invariant
            k <= pf@.len(),
            pv == level_view(*pf),
            pv.len() == pf@.len(),
            fold_proof(index as int, leaf@, pv) == fold_proof(idx as int, cur@, pv.skip(k as int)),
        decreases pf@.len() - k,
    {
        let ghost rest = pv.skip(k as int);
        proof {
            assert(rest.len() == pv.len() - k);
            assert(rest[0] == pv[k as int]);
            assert(pv[k as int] == pf@[k as int]@);
            assert(rest.subrange(1, rest.len() as int) =~= pv.skip(k + 1));
        }
        let sibling = &pf[k];
        let combined = if idx % 2 == 1 {
            concat_bytes(sibling, &cur)
        } else {
            concat_bytes(&cur, sibling)
        };
        cur = keccak256(&combined);
        idx = idx / 2;
        k = k + 1;
    }
    proof {
        assert(pv.skip(pv.len() as int) =~= Seq::<Seq<u8>>::empty());
    }
    bytes_eq(&cur, root)
}

} // verus!
