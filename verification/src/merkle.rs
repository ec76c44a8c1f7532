//! Merkle roots and inclusion proofs over ordered digests.
//!
//! A level with an odd number of nodes pairs its last node with itself. The
//! same rule builds the root alone and the root together with a proof.

use vstd::prelude::*;
use crate::digest::{collision_exists, digest32, hash_bytes, is_collision, Digest};
use crate::hex::{hex_bytes, is_hex_text};

verus! {

/// On which side of the running digest a proof step's sibling stands.
#[derive(Clone, Copy, Debug, PartialEq, Eq, Structural)]
pub enum Side {
    Left,
    Right,
}

/// One step of an inclusion proof: a sibling digest and its side.
#[derive(Clone, Copy, Debug)]
pub struct ProofNode {
    pub sibling: Digest,
    pub side: Side,
}

impl View for ProofNode {
    type V = (Seq<u8>, Side);

    open spec fn view(&self) -> (Seq<u8>, Side) {
        (self.sibling@, self.side)
    }
}

/// Why a root or a proof could not be built.
#[derive(Clone, Copy, Debug, PartialEq, Eq, Structural)]
pub enum ProofError {
    /// The leaf sequence is empty.
    EmptyLeaves,
    /// The target index does not name a leaf.
    IndexOutOfRange,
    /// A digest was not written as 64 hexadecimal digits.
    MalformedHex,
}

/// The byte strings that a sequence of digests holds.
pub open spec fn digest_seq(v: Seq<Digest>) -> Seq<Seq<u8>> {
    Seq::new(v.len(), |i: int| v[i]@)
}

/// The steps that a sequence of proof nodes holds.
pub open spec fn path_seq(v: Seq<ProofNode>) -> Seq<(Seq<u8>, Side)> {
    Seq::new(v.len(), |i: int| v[i]@)
}

/// The digest of a parent node: the digest of left followed by right.
pub open spec fn parent(left: Seq<u8>, right: Seq<u8>) -> Seq<u8> {
    digest32(left + right)
}

/// The right-hand partner of the node at the even position `i`: the next
/// node, or the node itself where it is the last of an odd level.
pub open spec fn right_partner(level: Seq<Seq<u8>>, i: int) -> Seq<u8> {
    if i + 1 < level.len() {
        level[i + 1]
    } else {
        level[i]
    }
}

/// The level above `level`.
pub open spec fn next_level(level: Seq<Seq<u8>>) -> Seq<Seq<u8>> {
    Seq::new(
        ((level.len() + 1) / 2) as nat,
        |i: int| parent(level[2 * i], right_partner(level, 2 * i)),
    )
}

/// The root over a non-empty sequence of leaves.
pub open spec fn merkle_root(level: Seq<Seq<u8>>) -> Seq<u8>
    decreases level.len(),
{
    if level.len() <= 1 {
        level[0]
    } else {
        merkle_root(next_level(level))
    }
}

/// The proof step for the node at `index` of `level`.
pub open spec fn proof_step(level: Seq<Seq<u8>>, index: int) -> (Seq<u8>, Side) {
    if index % 2 == 0 {
        (right_partner(level, index), Side::Right)
    } else {
        (level[index - 1], Side::Left)
    }
}

/// The inclusion proof for the leaf at `index`, from leaf to root.
pub open spec fn merkle_path(level: Seq<Seq<u8>>, index: int) -> Seq<(Seq<u8>, Side)>
    decreases level.len(),
{
    if level.len() <= 1 {
        Seq::empty()
    } else {
        seq![proof_step(level, index)] + merkle_path(next_level(level), index / 2)
    }
}

/// The running digest after one proof step.
pub open spec fn apply_step(acc: Seq<u8>, step: (Seq<u8>, Side)) -> Seq<u8> {
    match step.1 {
        Side::Left => parent(step.0, acc),
        Side::Right => parent(acc, step.0),
    }
}

/// The digest that a proof leads to, starting from `acc`.
pub open spec fn fold_path(acc: Seq<u8>, path: Seq<(Seq<u8>, Side)>) -> Seq<u8>
    decreases path.len(),
{
    if path.len() == 0 {
        acc
    } else {
        fold_path(apply_step(acc, path[0]), path.drop_first())
    }
}

/// The digest of two digests side by side.
pub fn hash_pair(left: &Digest, right: &Digest) -> (d: Digest)
    ensures
        d@ == parent(left@, right@),
{
    let mut buf: Vec<u8> = Vec::with_capacity(64);
    let mut i: usize = 0;
    while i < 32
        invariant
            i <= 32,
            buf@ == left@.subrange(0, i as int),
        decreases 32 - i,
    {
        buf.push(left.bytes[i]);
        i += 1;
    }
    i = 0;
    while i < 32
        invariant
            i <= 32,
            buf@ == left@ + right@.subrange(0, i as int),
        decreases 32 - i,
    {
        buf.push(right.bytes[i]);
        i += 1;
    }
    assert(buf@ == left@ + right@);
    hash_bytes(buf.as_slice())
}

/// The level above a non-empty level.
fn hash_level(level: &Vec<Digest>) -> (next: Vec<Digest>)
    requires
        level@.len() >= 1,
    ensures
        next@.len() == (level@.len() + 1) / 2,
        digest_seq(next@) == next_level(digest_seq(level@)),
{
    let n = level.len();
    let half = n / 2 + n % 2;
    let mut next: Vec<Digest> = Vec::new();
    let mut k: usize = 0;
    while k < half
        invariant
            n == level@.len(),
            half == (n + 1) / 2,
            k <= half,
            next@.len() == k,
            forall|j: int|
                0 <= j < k ==> next@[j]@ == parent(
                    #[trigger] digest_seq(level@)[2 * j],
                    right_partner(digest_seq(level@), 2 * j),
                ),
        decreases half - k,
    {
        let i = 2 * k;
        let left = level[i];
        let right = if i + 1 < n {
            level[i + 1]
        } else {
            left
        };
        let d = hash_pair(&left, &right);
        next.push(d);
        k += 1;
    }
    assert(digest_seq(next@) =~= next_level(digest_seq(level@)));
    next
}

/// A copy of a sequence of digests.
fn copy_digests(leaves: &Vec<Digest>) -> (out: Vec<Digest>)
    ensures
        out@ == leaves@,
{
    let mut out: Vec<Digest> = Vec::with_capacity(leaves.len());
    let mut i: usize = 0;
    while i < leaves.len()
        invariant
            i <= leaves@.len(),
            out@ == leaves@.subrange(0, i as int),
        decreases leaves@.len() - i,
    {
        out.push(leaves[i]);
        i += 1;
    }
    assert(out@ == leaves@);
    out
}

/// The Merkle root over `leaves`, in order. Fails on an empty sequence.
pub fn build_root(leaves: &Vec<Digest>) -> (r: Result<Digest, ProofError>)
    ensures
        leaves@.len() == 0 ==> r == Err::<Digest, ProofError>(ProofError::EmptyLeaves),
        leaves@.len() > 0 ==> r is Ok && r->Ok_0@ == merkle_root(digest_seq(leaves@)),
{
    if leaves.len() == 0 {
        return Err(ProofError::EmptyLeaves);
    }
    let mut level = copy_digests(leaves);
    while level.len() > 1
        invariant
            level@.len() >= 1,
            merkle_root(digest_seq(level@)) == merkle_root(digest_seq(leaves@)),
        decreases level@.len(),
    {
        level = hash_level(&level);
    }
    Ok(level[0])
}

/// The Merkle root over `leaves` and the inclusion proof for the leaf at
/// `target_index`. Fails on an empty sequence, and on an index that names no
/// leaf.
pub fn build_proof(leaves: &Vec<Digest>, target_index: usize) -> (r: Result<
    (Digest, Vec<ProofNode>),
    ProofError,
>)
    ensures
        leaves@.len() == 0 ==> r == Err::<(Digest, Vec<ProofNode>), ProofError>(
            ProofError::EmptyLeaves,
        ),
        leaves@.len() > 0 && target_index >= leaves@.len() ==> r == Err::<
            (Digest, Vec<ProofNode>),
            ProofError,
        >(ProofError::IndexOutOfRange),
        target_index < leaves@.len() ==> r is Ok && r->Ok_0.0@ == merkle_root(
            digest_seq(leaves@),
        ) && path_seq(r->Ok_0.1@) == merkle_path(digest_seq(leaves@), target_index as int),
{
    if leaves.len() == 0 {
        return Err(ProofError::EmptyLeaves);
    }
    if target_index >= leaves.len() {
        return Err(ProofError::IndexOutOfRange);
    }
    let mut level = copy_digests(leaves);
    let mut index = target_index;
    let mut proof: Vec<ProofNode> = Vec::new();
    while level.len() > 1
        invariant
            level@.len() >= 1,
            index < level@.len(),
            merkle_root(digest_seq(level@)) == merkle_root(digest_seq(leaves@)),
            path_seq(proof@) + merkle_path(digest_seq(level@), index as int) == merkle_path(
                digest_seq(leaves@),
                target_index as int,
            ),
        decreases level@.len(),
    {
        let node = if index % 2 == 0 {
            let sibling = if index + 1 < level.len() {
                level[index + 1]
            } else {
                level[index]
            };
            ProofNode { sibling, side: Side::Right }
        } else {
            ProofNode { sibling: level[index - 1], side: Side::Left }
        };
        assert(node@ == proof_step(digest_seq(level@), index as int));
        let ghost before = path_seq(proof@);
        proof.push(node);
        assert(path_seq(proof@) =~= before + seq![node@]);
        assert(path_seq(proof@) + merkle_path(
            next_level(digest_seq(level@)),
            index as int / 2,
        ) =~= before + merkle_path(digest_seq(level@), index as int));
        level = hash_level(&level);
        index = index / 2;
    }
    assert(path_seq(proof@) =~= path_seq(proof@) + merkle_path(
        digest_seq(level@),
        index as int,
    ));
    Ok((level[0], proof))
}

/// The root that `proof` leads to from `leaf`. It equals the root of the tree
/// exactly when the proof was built for this leaf of it.
pub fn verify_proof(leaf: &Digest, proof: &Vec<ProofNode>) -> (root: Digest)
    ensures
        root@ == fold_path(leaf@, path_seq(proof@)),
{
    let mut acc = *leaf;
    let mut i: usize = 0;
    assert(path_seq(proof@).subrange(0, proof@.len() as int) =~= path_seq(proof@));
    while i < proof.len()
        invariant
            i <= proof@.len(),
            fold_path(acc@, path_seq(proof@).subrange(i as int, proof@.len() as int)) == fold_path(
                leaf@,
                path_seq(proof@),
            ),
        decreases proof@.len() - i,
    {
        let node = proof[i];
        let ghost rest = path_seq(proof@).subrange(i as int, proof@.len() as int);
        assert(rest[0] == node@);
        assert(rest.drop_first() =~= path_seq(proof@).subrange(
            i as int + 1,
            proof@.len() as int,
        ));
        acc =
        match node.side {
            Side::Left => hash_pair(&node.sibling, &acc),
            Side::Right => hash_pair(&acc, &node.sibling),
        };
        i += 1;
    }
    acc
}

/// The root of a single leaf is the leaf, and its proof is empty.
pub proof fn lemma_single_leaf(leaf: Seq<u8>)
    ensures
        merkle_root(seq![leaf]) == leaf,
        merkle_path(seq![leaf], 0) == Seq::<(Seq<u8>, Side)>::empty(),
{
}

/// Folding the proof built for any leaf of a tree, starting from that leaf,
/// gives the root of the tree.
pub proof fn lemma_proof_sound(leaves: Seq<Seq<u8>>, index: int)
    requires
        0 <= index < leaves.len(),
    ensures
        fold_path(leaves[index], merkle_path(leaves, index)) == merkle_root(leaves),
    decreases leaves.len(),
{
    if leaves.len() > 1 {
        let up = next_level(leaves);
        let path = merkle_path(leaves, index);
        let step = proof_step(leaves, index);
        assert(path[0] == step);
        assert(path.drop_first() =~= merkle_path(up, index / 2));
        assert(apply_step(leaves[index], step) == up[index / 2]);
        lemma_proof_sound(up, index / 2);
    }
}

/// Every byte string of the sequence is 32 bytes long.
pub open spec fn all_digest_sized(level: Seq<Seq<u8>>) -> bool {
    forall|i: int| 0 <= i < level.len() ==> (#[trigger] level[i]).len() == 32
}

/// Two sequences of leaves of one length with the same root are the same
/// sequence, unless the digest has a collision: a change of any single leaf
/// changes the root or exhibits two byte strings with one digest.
pub proof fn lemma_root_binds_leaves(a: Seq<Seq<u8>>, b: Seq<Seq<u8>>)
    requires
        a.len() == b.len(),
        a.len() > 0,
        all_digest_sized(a),
        all_digest_sized(b),
        merkle_root(a) == merkle_root(b),
    ensures
        a == b || collision_exists(),
    decreases a.len(),
{
    if a.len() == 1 {
        assert(a =~= b);
    } else {
        let ua = next_level(a);
        let ub = next_level(b);
        lemma_root_binds_leaves(ua, ub);
        if !collision_exists() {
            assert forall|j: int| 0 <= j < a.len() implies a[j] == b[j] by {
                let k = j / 2;
                let x = a[2 * k] + right_partner(a, 2 * k);
                let y = b[2 * k] + right_partner(b, 2 * k);
                assert(ua[k] == digest32(x));
                assert(ub[k] == digest32(y));
                if x != y {
                    assert(is_collision(x, y));
                }
                assert(a[2 * k] =~= x.subrange(0, 32));
                assert(b[2 * k] =~= y.subrange(0, 32));
                assert(right_partner(a, 2 * k) =~= x.subrange(32, 64));
                assert(right_partner(b, 2 * k) =~= y.subrange(32, 64));
            }
            assert(a =~= b);
        }
    }
}

/// A change of any single leaf changes the root, unless the digest has a
/// collision.
pub proof fn lemma_changed_leaf_changes_root(leaves: Seq<Seq<u8>>, i: int, leaf: Seq<u8>)
    requires
        0 <= i < leaves.len(),
        all_digest_sized(leaves),
        leaf.len() == 32,
        leaf != leaves[i],
    ensures
        merkle_root(leaves.update(i, leaf)) != merkle_root(leaves) || collision_exists(),
{
    let changed = leaves.update(i, leaf);
    if merkle_root(changed) == merkle_root(leaves) {
        lemma_root_binds_leaves(changed, leaves);
        assert(changed[i] == leaf);
    }
}

/// Whether `text` is a digest written in hexadecimal.
pub open spec fn is_digest_hex(text: Seq<char>) -> bool {
    text.len() == 64 && is_hex_text(text)
}

/// The digests that `hashes` write in hexadecimal, in order. Fails where one
/// of them is not 64 hexadecimal digits.
pub fn parse_leaves(hashes: &Vec<String>) -> (r: Result<Vec<Digest>, ProofError>)
    ensures
        r is Ok <==> forall|i: int| 0 <= i < hashes@.len() ==> is_digest_hex(#[trigger] hashes@[i]@),
        r is Err ==> r == Err::<Vec<Digest>, ProofError>(ProofError::MalformedHex),
        r is Ok ==> r->Ok_0@.len() == hashes@.len() && forall|i: int|
            0 <= i < hashes@.len() ==> (#[trigger] r->Ok_0@[i])@ == hex_bytes(hashes@[i]@),
{
    let mut leaves: Vec<Digest> = Vec::with_capacity(hashes.len());
    let mut i: usize = 0;
    while i < hashes.len()
        invariant
            i <= hashes@.len(),
            leaves@.len() == i,
            forall|j: int| 0 <= j < i ==> is_digest_hex(#[trigger] hashes@[j]@),
            forall|j: int| 0 <= j < i ==> (#[trigger] leaves@[j])@ == hex_bytes(hashes@[j]@),
        decreases hashes@.len() - i,
    {
        match Digest::from_hex(hashes[i].as_str()) {
            Some(d) => {
                leaves.push(d);
            },
            None => {
                assert(!is_digest_hex(hashes@[i as int]@));
                return Err(ProofError::MalformedHex);
            },
        }
        i += 1;
    }
    Ok(leaves)
}

} // verus!
