use vstd::prelude::*;
use crate::hash::{hash_pairs, hashes_equal, node_hash, sha256d_of};

verus! {

/// One step of an inclusion proof: the sibling hash at one level, and
/// whether that sibling stands to the right (`true`) or to the left (`false`)
/// of the node being combined.
#[derive(Clone, Copy, Debug)]
pub struct MerkleProofStep {
    pub hash: [u8; 32],
    pub direction: bool,
}

/// Why building or checking a proof failed.
#[derive(Clone, Copy, Debug, PartialEq, Eq, Structural)]
pub enum MerkleError {
    /// The requested leaf is not in the leaf set.
    NotFound,
    /// Replaying the proof from the leaf does not give the claimed root.
    ProofInvalid,
}

/// A proof step as its sibling's bytes and its direction.
pub open spec fn step_view(s: MerkleProofStep) -> (Seq<u8>, bool) {
    (s.hash@, s.direction)
}

/// A proof as the sequence of its steps' views.
pub open spec fn proof_view(p: Seq<MerkleProofStep>) -> Seq<(Seq<u8>, bool)> {
    p.map_values(|s: MerkleProofStep| step_view(s))
}

/// A level of the tree as the bytes of its nodes.
pub open spec fn level_view(level: Seq<[u8; 32]>) -> Seq<Seq<u8>> {
    level.map_values(|h: [u8; 32]| h@)
}

/// The partner of the node at even position `i`: the next node, or the node
/// itself when it is the last of an odd-length level.
pub open spec fn pair_right(level: Seq<Seq<u8>>, i: int) -> Seq<u8> {
    if i + 1 < level.len() {
        level[i + 1]
    } else {
        level[i]
    }
}

/// The level above `level`: adjacent pairs combined in order.
pub open spec fn next_level(level: Seq<Seq<u8>>) -> Seq<Seq<u8>> {
    Seq::new(
        ((level.len() + 1) / 2) as nat,
        |k: int| node_hash(level[2 * k], pair_right(level, 2 * k)),
    )
}

/// The root of the tree whose bottom level is `level`.
pub open spec fn merkle_root(level: Seq<Seq<u8>>) -> Seq<u8>
    decreases level.len(),
{
    if level.len() <= 1 {
        level[0]
    } else {
        merkle_root(next_level(level))
    }
}

/// The proof step recorded for the node at position `idx` of `level`.
pub open spec fn proof_step(level: Seq<Seq<u8>>, idx: int) -> (Seq<u8>, bool) {
    if idx % 2 == 0 {
        (pair_right(level, idx), true)
    } else {
        (level[idx - 1], false)
    }
}

/// The inclusion proof of the node at position `idx`, from its level up to
/// the root.
pub open spec fn merkle_path(level: Seq<Seq<u8>>, idx: int) -> Seq<(Seq<u8>, bool)>
    decreases level.len(),
{
    if level.len() <= 1 {
        Seq::empty()
    } else {
        seq![proof_step(level, idx)] + merkle_path(next_level(level), idx / 2)
    }
}

/// Combines `current` with the sibling that one proof step names.
pub open spec fn apply_step(current: Seq<u8>, step: (Seq<u8>, bool)) -> Seq<u8> {
    if step.1 {
        node_hash(current, step.0)
    } else {
        node_hash(step.0, current)
    }
}

/// The root that replaying `path` from `leaf` arrives at.
pub open spec fn root_from_path(leaf: Seq<u8>, path: Seq<(Seq<u8>, bool)>) -> Seq<u8>
    decreases path.len(),
{
    if path.len() == 0 {
        leaf
    } else {
        root_from_path(apply_step(leaf, path[0]), path.drop_first())
    }
}

/// The number of levels above `n` leaves: the least `d` with `n <= 2^d`.
pub open spec fn tree_depth(n: nat) -> nat
    decreases n,
{
    if n <= 1 {
        0
    } else {
        1 + tree_depth(((n + 1) / 2) as nat)
    }
}

/// Two distinct byte strings with the same double SHA-256 digest.
pub open spec fn sha256d_collision_exists() -> bool {
    exists|x: Seq<u8>, y: Seq<u8>| x != y && #[trigger] sha256d_of(x) == #[trigger] sha256d_of(y)
}

/// An inclusion proof has one step for each level above the leaves.
pub proof fn lemma_path_length(level: Seq<Seq<u8>>, idx: int)
    ensures
        merkle_path(level, idx).len() == tree_depth(level.len()),
    decreases level.len(),
{
    if level.len() > 1 {
        lemma_path_length(next_level(level), idx / 2);
    }
}

/// Builds the level above `level`, pairing adjacent nodes and pairing the
/// last node of an odd-length level with itself.
fn build_next_level(level: &Vec<[u8; 32]>) -> (next: Vec<[u8; 32]>)
    requires
        level@.len() >= 1,
    ensures
        level_view(next@) == next_level(level_view(level@)),
{
    let ghost lv = level_view(level@);
    let n = level.len();
    let half = n / 2 + n % 2;
    let mut next: Vec<[u8; 32]> = Vec::new();
    let mut k: usize = 0;
    while k < half
        invariant
            n == level@.len(),
            lv == level_view(level@),
            half == (n + 1) / 2,
            k <= half,
            level_view(next@) =~= next_level(lv).subrange(0, k as int),
        decreases half - k,
    {
        let i = 2 * k;
        let left = level[i];
        let right = if i < n - 1 {
            level[i + 1]
        } else {
            left
        };
        assert(lv[i as int] == left@);
        assert(right@ == pair_right(lv, i as int));
        let parent = hash_pairs(left, right);
        let ghost prev = next@;
        next.push(parent);
        assert(next_level(lv)[k as int] == parent@);
        assert(level_view(next@) =~= level_view(prev).push(parent@));
        k = k + 1;
    }
    assert(level_view(next@) =~= next_level(lv));
    next
}

/// Builds the inclusion proof of the leaf at position `index`, and the root
/// of the tree over `leaves`.
pub fn generate_merkle_proof_at(leaves: Vec<[u8; 32]>, index: usize) -> (r: (
    Vec<MerkleProofStep>,
    [u8; 32],
))
    requires
        index < leaves@.len(),
    ensures
        proof_view(r.0@) == merkle_path(level_view(leaves@), index as int),
        r.1@ == merkle_root(level_view(leaves@)),
        r.0@.len() == tree_depth(leaves@.len()),
{
    let ghost lv0 = level_view(leaves@);
    proof {
        lemma_path_length(lv0, index as int);
    }
    let mut current_level = leaves;
    let mut proof: Vec<MerkleProofStep> = Vec::new();
    let mut idx = index;
    while current_level.len() > 1
        invariant
            current_level@.len() >= 1,
            idx < current_level@.len(),
            proof_view(proof@) + merkle_path(level_view(current_level@), idx as int)
                == merkle_path(lv0, index as int),
            merkle_root(level_view(current_level@)) == merkle_root(lv0),
        decreases current_level@.len(),
    {
        let ghost lv = level_view(current_level@);
        let n = current_level.len();
        let step = if idx % 2 == 0 {
            let right = if idx < n - 1 {
                current_level[idx + 1]
            } else {
                current_level[idx]
            };
            MerkleProofStep { hash: right, direction: true }
        } else {
            MerkleProofStep { hash: current_level[idx - 1], direction: false }
        };
        assert(step_view(step) == proof_step(lv, idx as int));
        let next = build_next_level(&current_level);
        let ghost old_proof = proof@;
        proof.push(step);
        assert(proof_view(proof@) =~= proof_view(old_proof) + seq![proof_step(lv, idx as int)]);
        assert(merkle_path(lv, idx as int) == seq![proof_step(lv, idx as int)] + merkle_path(
            next_level(lv),
            idx as int / 2,
        ));
        assert(proof_view(proof@) + merkle_path(next_level(lv), idx as int / 2) =~= proof_view(
            old_proof,
        ) + merkle_path(lv, idx as int));
        idx = idx / 2;
        current_level = next;
    }
    assert(merkle_path(level_view(current_level@), idx as int) =~= Seq::empty());
    assert(proof_view(proof@) =~= merkle_path(lv0, index as int));
    let root = current_level[0];
    (proof, root)
}

/// Builds the inclusion proof of the first leaf equal to `desired_leaf`, and
/// the root of the tree over `leaves`. Fails with `NotFound` exactly when no
/// leaf equals `desired_leaf`.
pub fn generate_merkle_proof_and_root(leaves: Vec<[u8; 32]>, desired_leaf: [u8; 32]) -> (r: Result<
    (Vec<MerkleProofStep>, [u8; 32]),
    MerkleError,
>)
    ensures
        r is Err <==> !(exists|i: int| 0 <= i < leaves@.len() && leaves@[i]@ == desired_leaf@),
        r is Err ==> r == Err::<(Vec<MerkleProofStep>, [u8; 32]), MerkleError>(MerkleError::NotFound),
        r is Ok ==> exists|i: int|
            0 <= i < leaves@.len() && leaves@[i]@ == desired_leaf@ && (forall|j: int|
                0 <= j < i ==> leaves@[j]@ != desired_leaf@) && proof_view(r->Ok_0.0@)
                == merkle_path(level_view(leaves@), i) && r->Ok_0.1@ == merkle_root(
                level_view(leaves@),
            ),
        leaves@.len() == 1 && leaves@[0]@ == desired_leaf@ ==> r is Ok && r->Ok_0.0@.len() == 0
            && r->Ok_0.1@ == desired_leaf@,
{
    let mut i: usize = 0;
    while i < leaves.len()
        invariant
            i <= leaves@.len(),
            forall|j: int| 0 <= j < i ==> leaves@[j]@ != desired_leaf@,
        decreases leaves@.len() - i,
    {
        if hashes_equal(&leaves[i], &desired_leaf) {
            let ghost lv = level_view(leaves@);
            let r = generate_merkle_proof_at(leaves, i);
            assert(lv.len() == 1 ==> merkle_path(lv, 0) =~= Seq::<(Seq<u8>, bool)>::empty());
            return Ok(r);
        }
        i = i + 1;
    }
    Err(MerkleError::NotFound)
}

/// The root that replaying `proof` from `leaf` arrives at.
pub fn compute_root_from_proof(leaf: [u8; 32], proof: &[MerkleProofStep]) -> (r: [u8; 32])
    ensures
        r@ == root_from_path(leaf@, proof_view(proof@)),
{
    let ghost path = proof_view(proof@);
    let mut current = leaf;
    let mut i: usize = 0;
    assert(path.subrange(0, path.len() as int) =~= path);
    while i < proof.len()
        invariant
            i <= proof@.len(),
            path == proof_view(proof@),
            root_from_path(current@, path.subrange(i as int, path.len() as int))
                == root_from_path(leaf@, path),
        decreases proof@.len() - i,
    {
        let step = proof[i];
        let ghost rest = path.subrange(i as int, path.len() as int);
        assert(rest.drop_first() =~= path.subrange(i + 1, path.len() as int));
        assert(rest[0] == step_view(step));
        current = if step.direction {
            hash_pairs(current, step.hash)
        } else {
            hash_pairs(step.hash, current)
        };
        i = i + 1;
    }
    assert(path.subrange(i as int, path.len() as int) =~= Seq::<(Seq<u8>, bool)>::empty());
    current
}

/// Checks that replaying `proof` from `leaf` arrives at `root`; fails with
/// `ProofInvalid` otherwise.
pub fn verify_merkle_proof(root: [u8; 32], leaf: [u8; 32], proof: &[MerkleProofStep]) -> (r: Result<
    (),
    MerkleError,
>)
    ensures
        r is Ok <==> root_from_path(leaf@, proof_view(proof@)) == root@,
        r is Err ==> r == Err::<(), MerkleError>(MerkleError::ProofInvalid),
        proof@.len() == 0 ==> (r is Ok <==> leaf@ == root@),
{
    let computed = compute_root_from_proof(leaf, proof);
    if hashes_equal(&computed, &root) {
        Ok(())
    } else {
        Err(MerkleError::ProofInvalid)
    }
}

proof fn lemma_step_reaches_parent(level: Seq<Seq<u8>>, idx: int)
    requires
        level.len() > 1,
        0 <= idx < level.len(),
    ensures
        apply_step(level[idx], proof_step(level, idx)) == next_level(level)[idx / 2],
        idx / 2 < next_level(level).len(),
{
}

proof fn lemma_path_unfolds(leaf: Seq<u8>, step: (Seq<u8>, bool), rest: Seq<(Seq<u8>, bool)>)
    ensures
        root_from_path(leaf, seq![step] + rest) == root_from_path(apply_step(leaf, step), rest),
{
    let path = seq![step] + rest;
    assert(path[0] == step);
    assert(path.drop_first() =~= rest);
}

/// Replaying the inclusion proof of any node of a level, starting from that
/// node, arrives at the root of the tree over that level.
pub proof fn lemma_built_proof_verifies(level: Seq<Seq<u8>>, idx: int)
    requires
        0 <= idx < level.len(),
    ensures
        root_from_path(level[idx], merkle_path(level, idx)) == merkle_root(level),
    decreases level.len(),
{
    if level.len() > 1 {
        lemma_step_reaches_parent(level, idx);
        lemma_built_proof_verifies(next_level(level), idx / 2);
        lemma_path_unfolds(level[idx], proof_step(level, idx), merkle_path(next_level(level), idx / 2));
    }
}

/// Replaying two proofs with the same directions and sibling lengths, that
/// differ in the starting node or in some sibling, arrives at the same root
/// only if double SHA-256 has a collision.
pub proof fn lemma_same_root_exposes_collision(
    a: Seq<u8>,
    p: Seq<(Seq<u8>, bool)>,
    b: Seq<u8>,
    q: Seq<(Seq<u8>, bool)>,
)
    requires
        p.len() == q.len(),
        forall|i: int| 0 <= i < p.len() ==> p[i].1 == q[i].1 && p[i].0.len() == q[i].0.len(),
        a != b || p != q,
        root_from_path(a, p) == root_from_path(b, q),
    ensures
        sha256d_collision_exists(),
    decreases p.len(),
{
    if p.len() == 0 {
        assert(p =~= q);
    } else {
        let (s, d) = p[0];
        let t = q[0].0;
        let x = if d { a + s } else { s + a };
        let y = if d { b + t } else { t + b };
        let a1 = apply_step(a, p[0]);
        let b1 = apply_step(b, q[0]);
        assert(a1 == sha256d_of(x) && b1 == sha256d_of(y));
        if x != y && a1 == b1 {
            assert(sha256d_of(x) == sha256d_of(y));
        } else {
            if x == y {
                if d {
                    assert(a =~= x.subrange(0, a.len() as int));
                    assert(b =~= y.subrange(0, b.len() as int));
                    assert(s =~= x.subrange(a.len() as int, x.len() as int));
                    assert(t =~= y.subrange(b.len() as int, y.len() as int));
                } else {
                    assert(s =~= x.subrange(0, s.len() as int));
                    assert(t =~= y.subrange(0, t.len() as int));
                    assert(a =~= x.subrange(s.len() as int, x.len() as int));
                    assert(b =~= y.subrange(t.len() as int, y.len() as int));
                }
                assert(p[0] == q[0]);
                if p.drop_first() == q.drop_first() {
                    assert forall|i: int| 0 <= i < p.len() implies p[i] == q[i] by {
                        if i > 0 {
                            assert(p[i] == p.drop_first()[i - 1]);
                            assert(q[i] == q.drop_first()[i - 1]);
                        }
                    }
                    assert(p =~= q);
                }
            }
            assert(forall|i: int|
                0 <= i < p.drop_first().len() ==> p.drop_first()[i] == p[i + 1] && q.drop_first()[i]
                    == q[i + 1]);
            lemma_same_root_exposes_collision(a1, p.drop_first(), b1, q.drop_first());
        }
    }
}

/// A proof built for one leaf of a tree does not verify for a different
/// leaf, unless double SHA-256 has a collision.
pub proof fn lemma_other_leaf_rejected(leaves: Seq<Seq<u8>>, idx: int, other: Seq<u8>)
    requires
        0 <= idx < leaves.len(),
        other != leaves[idx],
        root_from_path(other, merkle_path(leaves, idx)) == merkle_root(leaves),
    ensures
        sha256d_collision_exists(),
{
    lemma_built_proof_verifies(leaves, idx);
    let path = merkle_path(leaves, idx);
    lemma_same_root_exposes_collision(other, path, leaves[idx], path);
}

/// Changing one byte of one sibling hash of a proof built for a leaf makes
/// the proof fail for that leaf and root, unless double SHA-256 has a
/// collision.
pub proof fn lemma_tampered_step_rejected(
    leaves: Seq<Seq<u8>>,
    idx: int,
    step: int,
    byte: int,
    value: u8,
)
    requires
        0 <= idx < leaves.len(),
        0 <= step < merkle_path(leaves, idx).len(),
        0 <= byte < merkle_path(leaves, idx)[step].0.len(),
        value != merkle_path(leaves, idx)[step].0[byte],
        root_from_path(
            leaves[idx],
            merkle_path(leaves, idx).update(
                step,
                (
                    merkle_path(leaves, idx)[step].0.update(byte, value),
                    merkle_path(leaves, idx)[step].1,
                ),
            ),
        ) == merkle_root(leaves),
    ensures
        sha256d_collision_exists(),
{
    lemma_built_proof_verifies(leaves, idx);
    let path = merkle_path(leaves, idx);
    let changed = path[step].0.update(byte, value);
    let tampered = path.update(step, (changed, path[step].1));
    assert(changed[byte] != path[step].0[byte]);
    assert(tampered[step] != path[step]);
    lemma_same_root_exposes_collision(leaves[idx], tampered, leaves[idx], path);
}

} // verus!
