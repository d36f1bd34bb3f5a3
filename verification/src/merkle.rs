//! A Merkle tree over hexadecimal SHA3-256 hashes, kept level by level.
//!
//! Level 0 holds the leaves. A level of odd length (other than 1) is padded
//! by repeating its last hash; each following level holds the combined hash
//! of each pair of the level below. The last level holds the root alone.

use crate::digest::{sha3_256, sha3_256_digest};
use crate::hex::{bytes_to_hex, hex_string};
use vstd::prelude::*;
use vstd::string::StringExecFns;
use vstd::utf8::encode_utf8;

verus! {

/// A hash, as lower-case hexadecimal text.
pub type MerkleHash = String;

/// On which side of the running hash a sibling is combined.
#[derive(Clone, Copy, Debug, PartialEq, Eq, Structural)]
pub enum Direction {
    Left,
    Right,
}

/// Why a tree operation was refused. Each variant carries its message.
#[derive(Debug)]
pub enum MerkleTreeError {
    FailedToBuild(String),
    InvalidHash(String),
    HashAlreadyExists(String),
}

/// The hash of the concatenation of two hashes.
pub open spec fn combine(left: Seq<char>, right: Seq<char>) -> Seq<char> {
    hex_string(sha3_256(encode_utf8(left + right)))
}

/// The hash of a piece of data.
pub open spec fn hash_of(data: Seq<u8>) -> Seq<char> {
    hex_string(sha3_256(data))
}

/// A level with its last hash repeated when its length is odd and not 1.
pub open spec fn pad(level: Seq<Seq<char>>) -> Seq<Seq<char>> {
    if level.len() % 2 == 1 && level.len() != 1 {
        level.push(level.last())
    } else {
        level
    }
}

/// The combined hashes of the pairs of a level.
pub open spec fn pair_up(level: Seq<Seq<char>>) -> Seq<Seq<char>> {
    Seq::new(level.len() / 2, |i: int| combine(level[2 * i], level[2 * i + 1]))
}

/// The levels form a tree: every level but the last has an even length of
/// at least 2 and is followed by its padded pairing; the last holds at most
/// one hash.
pub open spec fn well_built(levels: Seq<Seq<Seq<char>>>) -> bool {
    &&& levels.len() >= 1
    &&& levels.last().len() <= 1
    &&& forall|k: int|
        0 <= k < levels.len() - 1 ==> {
            &&& (#[trigger] levels[k]).len() >= 2
            &&& levels[k].len() % 2 == 0
            &&& levels[k + 1] == pad(pair_up(levels[k]))
        }
}

/// The sibling of position `index` in a level, and the side it stands on.
pub open spec fn sibling(level: Seq<Seq<char>>, index: int) -> (Seq<char>, Direction) {
    if index % 2 == 0 {
        if index + 1 < level.len() {
            (level[index + 1], Direction::Right)
        } else {
            (level[index], Direction::Right)
        }
    } else {
        (level[index - 1], Direction::Left)
    }
}

/// The siblings met on the way from leaf `index` up to the root.
pub open spec fn inclusion_path(levels: Seq<Seq<Seq<char>>>, index: int) -> Seq<
    (Seq<char>, Direction),
>
    decreases levels.len(),
{
    if levels.len() == 0 || levels[0].len() == 1 {
        Seq::empty()
    } else {
        seq![sibling(levels[0], index)] + inclusion_path(levels.drop_first(), index / 2)
    }
}

/// The hash reached from `start` by combining with each sibling in turn.
pub open spec fn climb(start: Seq<char>, path: Seq<(Seq<char>, Direction)>) -> Seq<char>
    decreases path.len(),
{
    if path.len() == 0 {
        start
    } else {
        let below = climb(start, path.drop_last());
        match path.last().1 {
            Direction::Left => combine(path.last().0, below),
            Direction::Right => combine(below, path.last().0),
        }
    }
}

/// `i` is the first position of `leaf` in `level`.
pub open spec fn is_first_position(level: Seq<Seq<char>>, leaf: Seq<char>, i: int) -> bool {
    &&& 0 <= i < level.len()
    &&& level[i] == leaf
    &&& forall|j: int| 0 <= j < i ==> level[j] != leaf
}

/// The hashes of a level.
pub open spec fn level_view(level: Seq<MerkleHash>) -> Seq<Seq<char>> {
    level.map_values(|h: MerkleHash| h@)
}

/// The hashes of all levels.
pub open spec fn levels_view(levels: Seq<Vec<MerkleHash>>) -> Seq<Seq<Seq<char>>> {
    levels.map_values(|l: Vec<MerkleHash>| level_view(l@))
}

/// The steps of a path.
pub open spec fn path_view(path: Seq<(MerkleHash, Direction)>) -> Seq<(Seq<char>, Direction)> {
    path.map_values(|p: (MerkleHash, Direction)| (p.0@, p.1))
}

/// The leaves after `hash` is added: a trailing repetition is taken for
/// padding and overwritten; otherwise the hash is appended.
pub open spec fn leaves_with(leaves: Seq<Seq<char>>, hash: Seq<char>) -> Seq<Seq<char>> {
    if leaves.len() >= 2 && leaves[leaves.len() - 1] == leaves[leaves.len() - 2] {
        leaves.update(leaves.len() - 1, hash)
    } else {
        leaves.push(hash)
    }
}

/// A leaf together with the siblings that lead from it to the root.
#[derive(Debug)]
pub struct ProofOfInclusion {
    leaf: MerkleHash,
    path: Vec<(MerkleHash, Direction)>,
}

/// Mathematical content of a [`ProofOfInclusion`].
pub struct ProofView {
    pub leaf: Seq<char>,
    pub path: Seq<(Seq<char>, Direction)>,
}

impl View for ProofOfInclusion {
    type V = ProofView;

    closed spec fn view(&self) -> ProofView {
        ProofView { leaf: self.leaf@, path: path_view(self.path@) }
    }
}

impl ProofOfInclusion {
    pub fn new_from(leaf: MerkleHash, path: Vec<(MerkleHash, Direction)>) -> (p: ProofOfInclusion)
        ensures
            p@ == (ProofView { leaf: leaf@, path: path_view(path@) }),
    {
        ProofOfInclusion { leaf, path }
    }

    pub fn leaf(&self) -> (leaf: &MerkleHash)
        ensures
            leaf@ == self@.leaf,
    {
        &self.leaf
    }

    /// The siblings, from the leaf's level upwards.
    pub fn path(&self) -> (path: &Vec<(MerkleHash, Direction)>)
        ensures
            path_view(path@) == self@.path,
    {
        &self.path
    }

    /// The root this proof leads to.
    pub fn computed_root(&self) -> (root: MerkleHash)
        ensures
            root@ == climb(self@.leaf, self@.path),
    {
        climb_path(&self.leaf, &self.path)
    }
}

/// Combines `start` with each sibling of `path` in turn.
fn climb_path(start: &MerkleHash, path: &Vec<(MerkleHash, Direction)>) -> (top: MerkleHash)
    ensures
        top@ == climb(start@, path_view(path@)),
{
    let mut computed = start.clone();
    let mut i: usize = 0;
    while i < path.len()
        invariant
            i <= path.len(),
            computed@ == climb(start@, path_view(path@.subrange(0, i as int))),
        decreases path.len() - i,
    {
        proof {
            let upto = path_view(path@.subrange(0, i + 1));
            assert(upto.drop_last() =~= path_view(path@.subrange(0, i as int)));
            assert(upto.last() == (path@[i as int].0@, path@[i as int].1));
        }
        computed = match path[i].1 {
            Direction::Left => MerkleTree::combine_hashes(&path[i].0, &computed),
            Direction::Right => MerkleTree::combine_hashes(&computed, &path[i].0),
        };
        i += 1;
    }
    proof {
        assert(path@.subrange(0, path.len() as int) =~= path@);
    }
    computed
}

/// First position of `leaf` in `level`, if it occurs.
fn position_of(level: &Vec<MerkleHash>, leaf: &MerkleHash) -> (r: Option<usize>)
    ensures
        match r {
            Some(i) => is_first_position(level_view(level@), leaf@, i as int),
            None => forall|j: int| 0 <= j < level.len() ==> level_view(level@)[j] != leaf@,
        },
{
    let mut i: usize = 0;
    while i < level.len()
        invariant
            i <= level.len(),
            forall|j: int| 0 <= j < i ==> level_view(level@)[j] != leaf@,
        decreases level.len() - i,
    {
        if level[i] == *leaf {
            return Some(i);
        }
        i += 1;
    }
    None
}

/// A copy of a level.
fn copy_level(level: &Vec<MerkleHash>) -> (out: Vec<MerkleHash>)
    ensures
        level_view(out@) == level_view(level@),
{
    let mut out: Vec<MerkleHash> = Vec::new();
    let mut i: usize = 0;
    while i < level.len()
        invariant
            i <= level.len(),
            out.len() == i,
            forall|j: int| 0 <= j < i ==> out@[j]@ == level@[j]@,
        decreases level.len() - i,
    {
        out.push(level[i].clone());
        i += 1;
    }
    assert(level_view(out@) =~= level_view(level@));
    out
}

/// Repeats the last hash of a level of odd length other than 1.
fn pad_level(level: &mut Vec<MerkleHash>)
    ensures
        level_view(final(level)@) == pad(level_view(old(level)@)),
        final(level).len() == pad(level_view(old(level)@)).len(),
{
    let n = level.len();
    if n % 2 == 1 && n != 1 {
        let last = level[n - 1].clone();
        level.push(last);
        assert(level_view(level@) =~= pad(level_view(old(level)@)));
    }
}

/// The combined hashes of the pairs of a level of even length.
fn pair_level(level: &Vec<MerkleHash>) -> (next: Vec<MerkleHash>)
    requires
        level.len() % 2 == 0,
    ensures
        level_view(next@) == pair_up(level_view(level@)),
        next.len() == level.len() / 2,
{
    let len = level.len();
    let mut next: Vec<MerkleHash> = Vec::new();
    let mut i: usize = 0;
    while i < len
        invariant
            len == level.len(),
            len % 2 == 0,
            i % 2 == 0,
            i <= len,
            next.len() == i / 2,
            forall|k: int|
                0 <= k < next.len() ==> next@[k]@ == combine(level@[2 * k]@, level@[2 * k + 1]@),
        decreases len - i,
    {
        let combined = MerkleTree::combine_hashes(&level[i], &level[i + 1]);
        next.push(combined);
        i += 2;
    }
    assert(level_view(next@) =~= pair_up(level_view(level@)));
    next
}

/// The levels of the tree over the given leaves.
fn build_levels(hashes: Vec<MerkleHash>) -> (levels: Vec<Vec<MerkleHash>>)
    requires
        hashes.len() >= 1,
    ensures
        well_built(levels_view(levels@)),
        levels_view(levels@)[0] == pad(level_view(hashes@)),
{
    let mut levels: Vec<Vec<MerkleHash>> = Vec::new();
    let mut current = hashes;
    pad_level(&mut current);
    let ghost first = level_view(current@);
    while current.len() > 1
        invariant
            current.len() >= 1,
            current.len() % 2 == 0 || current.len() == 1,
            levels.len() == 0 ==> level_view(current@) == first,
            levels.len() > 0 ==> levels_view(levels@)[0] == first && level_view(current@) == pad(
                pair_up(levels_view(levels@).last()),
            ),
            forall|k: int|
                0 <= k < levels.len() ==> (#[trigger] levels_view(levels@)[k]).len() >= 2
                    && levels_view(levels@)[k].len() % 2 == 0,
            forall|k: int|
                0 <= k < levels.len() - 1 ==> levels_view(levels@)[k + 1] == pad(
                    pair_up(#[trigger] levels_view(levels@)[k]),
                ),
        decreases current.len(),
    {
        let mut next = pair_level(&current);
        pad_level(&mut next);
        let ghost before = levels_view(levels@);
        let ghost cur = level_view(current@);
        levels.push(current);
        proof {
            assert(levels_view(levels@) =~= before.push(cur));
            assert forall|k: int| 0 <= k < levels.len() - 1 implies levels_view(levels@)[k + 1]
                == pad(pair_up(#[trigger] levels_view(levels@)[k])) by {
                if k + 1 < before.len() {
                    assert(levels_view(levels@)[k] == before[k]);
                    assert(levels_view(levels@)[k + 1] == before[k + 1]);
                } else {
                    assert(before.len() > 0);
                    assert(levels_view(levels@)[k] == before.last());
                }
            }
        }
        current = next;
    }
    let ghost before = levels_view(levels@);
    let ghost cur = level_view(current@);
    levels.push(current);
    proof {
        let all = levels_view(levels@);
        assert(all =~= before.push(cur));
        assert forall|k: int| 0 <= k < all.len() - 1 implies {
            &&& (#[trigger] all[k]).len() >= 2
            &&& all[k].len() % 2 == 0
            &&& all[k + 1] == pad(pair_up(all[k]))
        } by {
            assert(all[k] == before[k]);
            if k + 1 < before.len() {
                assert(all[k + 1] == before[k + 1]);
            }
        }
    }
    levels
}

/// The tree.
#[derive(Debug)]
pub struct MerkleTree {
    levels: Vec<Vec<MerkleHash>>,
}

impl View for MerkleTree {
    type V = Seq<Seq<Seq<char>>>;

    /// The hashes, level by level, leaves first.
    closed spec fn view(&self) -> Seq<Seq<Seq<char>>> {
        levels_view(self.levels@)
    }
}

impl MerkleTree {
    /// The invariant every tree keeps.
    pub open spec fn wf(&self) -> bool {
        well_built(self@)
    }

    /// Whether the tree recomputes its root from `leaf` at position `index`.
    pub open spec fn verifies_at(&self, leaf: Seq<char>, index: int) -> bool {
        &&& self@[0][index] == leaf
        &&& climb(leaf, inclusion_path(self@, index)) == self@.last()[0]
    }

    /// Builds the tree over the given leaves. An empty list is refused.
    pub fn new_from_hashes(hashes: Vec<MerkleHash>) -> (r: Result<MerkleTree, MerkleTreeError>)
        ensures
            hashes.len() > 0 ==> r is Ok && r->Ok_0.wf() && r->Ok_0@[0] == pad(
                level_view(hashes@),
            ),
            hashes.len() == 0 ==> (r matches Err(MerkleTreeError::FailedToBuild(m)) && m@
                == "No last element in hashes"@),
    {
        let mut tree = MerkleTree { levels: Vec::new() };
        match MerkleTree::build_tree(&mut tree, hashes) {
            Ok(()) => {
                assert(tree@ =~= tree@.subrange(0, tree@.len() as int));
                Ok(tree)
            },
            Err(e) => Err(e),
        }
    }

    /// Appends to `tree` the levels of the tree over `hashes`. An empty list
    /// is refused, and `tree` stays as it was.
    fn build_tree(tree: &mut MerkleTree, hashes: Vec<MerkleHash>) -> (r: Result<
        (),
        MerkleTreeError,
    >)
        ensures
            hashes.len() > 0 ==> {
                &&& r is Ok
                &&& final(tree)@.len() > old(tree)@.len()
                &&& final(tree)@.subrange(0, old(tree)@.len() as int) == old(tree)@
                &&& well_built(final(tree)@.subrange(old(tree)@.len() as int, final(tree)@.len() as int))
                &&& final(tree)@[old(tree)@.len() as int] == pad(level_view(hashes@))
            },
            hashes.len() == 0 ==> {
                &&& r matches Err(MerkleTreeError::FailedToBuild(m)) && m@
                    == "No last element in hashes"@
                &&& final(tree)@ == old(tree)@
            },
    {
        if hashes.len() == 0 {
            return Err(
                MerkleTreeError::FailedToBuild(String::from_str("No last element in hashes")),
            );
        }
        let mut built = build_levels(hashes);
        let ghost before = tree@;
        let ghost added = levels_view(built@);
        tree.levels.append(&mut built);
        proof {
            assert(tree@ =~= before + added);
            assert(tree@.subrange(0, before.len() as int) =~= before);
            assert(tree@.subrange(before.len() as int, tree@.len() as int) =~= added);
        }
        Ok(())
    }

    /// The root: the only hash of the last level. An empty tree has none.
    pub fn root(&self) -> (r: Option<&MerkleHash>)
        ensures
            r is Some <==> self@.len() > 0 && self@.last().len() > 0,
            r matches Some(h) ==> h@ == self@.last()[0],
    {
        let n = self.levels.len();
        if n == 0 {
            return None;
        }
        let top = &self.levels[n - 1];
        if top.len() == 0 {
            None
        } else {
            Some(&top[0])
        }
    }

    /// The levels, leaves first.
    pub fn levels(&self) -> (levels: &Vec<Vec<MerkleHash>>)
        ensures
            levels_view(levels@) == self@,
    {
        &self.levels
    }

    /// Whether `leaf` stands at position `index`. The root is recomputed
    /// from the leaf and its siblings; in a tree that always succeeds, so the
    /// answer is whether the leaf is the one at that position.
    pub fn verify_with_index(&self, leaf: &MerkleHash, index: u32) -> (r: bool)
        requires
            self.wf(),
            index < self@[0].len(),
        ensures
            r == self.verifies_at(leaf@, index as int),
            r == (self@[0][index as int] == leaf@),
    {
        self.verify_at(leaf, index as usize)
    }

    fn verify_at(&self, leaf: &MerkleHash, index: usize) -> (r: bool)
        requires
            self.wf(),
            index < self@[0].len(),
        ensures
            r == self.verifies_at(leaf@, index as int),
            r == (self@[0][index as int] == leaf@),
    {
        if self.levels[0][index] != *leaf {
            return false;
        }
        let path = self.path_from(index);
        let computed = climb_path(leaf, &path);
        proof {
            lemma_inclusion_path_reaches_root(self@, index as int);
        }
        let n = self.levels.len();
        computed == self.levels[n - 1][0]
    }

    /// Whether `leaf` is a leaf of the tree, checked at its first position.
    pub fn verify(&self, leaf: &MerkleHash) -> (r: bool)
        requires
            self.wf(),
        ensures
            r == self@[0].contains(leaf@),
            r == exists|i: int|
                is_first_position(self@[0], leaf@, i) && self.verifies_at(leaf@, i),
    {
        match position_of(&self.levels[0], leaf) {
            Some(index) => {
                let r = self.verify_at(leaf, index);
                proof {
                    assert forall|i: int| is_first_position(self@[0], leaf@, i) implies i
                        == index by {}
                }
                r
            },
            None => false,
        }
    }

    /// The hash of a piece of data.
    pub fn get_hash_of(data: &[u8]) -> (h: MerkleHash)
        ensures
            h@ == hash_of(data@),
    {
        let digest = sha3_256_digest(data);
        bytes_to_hex(digest.as_slice())
    }

    /// The hash of the concatenation of two hashes.
    pub fn combine_hashes(left: &MerkleHash, right: &MerkleHash) -> (h: MerkleHash)
        ensures
            h@ == combine(left@, right@),
    {
        let mut combined = left.clone();
        combined.append(right.as_str());
        let digest = sha3_256_digest(combined.as_str().as_bytes());
        bytes_to_hex(digest.as_slice())
    }

    /// Lower-case hexadecimal text of bytes, two digits each.
    pub fn bytes_to_hex(bytes: &[u8]) -> (hex: String)
        ensures
            hex@ == hex_string(bytes@),
    {
        bytes_to_hex(bytes)
    }

    /// The siblings on the way from leaf `index` to the root.
    fn path_from(&self, index: usize) -> (path: Vec<(MerkleHash, Direction)>)
        requires
            self.wf(),
            index < self@[0].len(),
        ensures
            path_view(path@) == inclusion_path(self@, index as int),
    {
        let mut path: Vec<(MerkleHash, Direction)> = Vec::new();
        let mut at: usize = index;
        let mut k: usize = 0;
        let n = self.levels.len();
        proof {
            assert(self@.subrange(0, n as int) =~= self@);
            assert(path_view(path@) =~= Seq::empty());
        }
        while k < n
            invariant
                self.wf(),
                n == self.levels.len(),
                k <= n,
                k < n ==> at < self@[k as int].len(),
                path_view(path@) + inclusion_path(self@.subrange(k as int, n as int), at as int)
                    == inclusion_path(self@, index as int),
            ensures
                path_view(path@) == inclusion_path(self@, index as int),
            decreases n - k,
        {
            let level = &self.levels[k];
            let ghost rest = self@.subrange(k as int, n as int);
            proof {
                assert(rest[0] == self@[k as int]);
                assert(level_view(level@) == self@[k as int]);
            }
            if level.len() == 1 {
                proof {
                    assert(inclusion_path(rest, at as int) =~= Seq::empty());
                    assert(path_view(path@) + Seq::<(Seq<char>, Direction)>::empty()
                        =~= path_view(path@));
                }
                break ;
            }
            proof {
                if k == n - 1 {
                    assert(self@.last() == self@[k as int]);
                }
                assert(k < n - 1);
                assert(self@[k as int].len() % 2 == 0);
                assert(self@[k + 1] == pad(pair_up(self@[k as int])));
                assert(rest.drop_first() =~= self@.subrange(k + 1, n as int));
            }
            let ghost before = path_view(path@);
            let step = if at % 2 == 0 {
                if at + 1 < level.len() {
                    (level[at + 1].clone(), Direction::Right)
                } else {
                    (level[at].clone(), Direction::Right)
                }
            } else {
                (level[at - 1].clone(), Direction::Left)
            };
            proof {
                assert((step.0@, step.1) == sibling(self@[k as int], at as int));
            }
            path.push(step);
            proof {
                assert(path_view(path@) =~= before.push(sibling(self@[k as int], at as int)));
                assert(before.push(sibling(self@[k as int], at as int)) + inclusion_path(
                    rest.drop_first(),
                    at as int / 2,
                ) =~= before + inclusion_path(rest, at as int));
            }
            at = at / 2;
            k += 1;
        }
        proof {
            if k == n {
                assert(self@.subrange(n as int, n as int).len() == 0);
                assert(path_view(path@) + Seq::<(Seq<char>, Direction)>::empty() =~= path_view(
                    path@,
                ));
            }
        }
        path
    }

    /// The proof of inclusion of `leaf` at position `index`.
    pub fn proof_of_inclusion_with_index(&self, leaf: &MerkleHash, index: u32) -> (r: Result<
        ProofOfInclusion,
        MerkleTreeError,
    >)
        requires
            self.wf(),
            index < self@[0].len(),
        ensures
            self@[0][index as int] == leaf@ ==> r is Ok && r->Ok_0@ == (ProofView {
                leaf: leaf@,
                path: inclusion_path(self@, index as int),
            }),
            self@[0][index as int] != leaf@ ==> (r matches Err(MerkleTreeError::InvalidHash(m))
                && m@ == "Hash is not part of the tree"@),
    {
        self.proof_at(leaf, index as usize)
    }

    fn proof_at(&self, leaf: &MerkleHash, index: usize) -> (r: Result<
        ProofOfInclusion,
        MerkleTreeError,
    >)
        requires
            self.wf(),
            index < self@[0].len(),
        ensures
            self@[0][index as int] == leaf@ ==> r is Ok && r->Ok_0@ == (ProofView {
                leaf: leaf@,
                path: inclusion_path(self@, index as int),
            }),
            self@[0][index as int] != leaf@ ==> (r matches Err(MerkleTreeError::InvalidHash(m))
                && m@ == "Hash is not part of the tree"@),
    {
        if self.levels[0][index] != *leaf {
            return Err(MerkleTreeError::InvalidHash(String::from_str("Hash is not part of the tree")));
        }
        let path = self.path_from(index);
        Ok(ProofOfInclusion::new_from(leaf.clone(), path))
    }

    /// The proof of inclusion of `leaf`, from its first position.
    pub fn proof_of_inclusion(&self, leaf: &MerkleHash) -> (r: Result<
        ProofOfInclusion,
        MerkleTreeError,
    >)
        requires
            self.wf(),
        ensures
            self@[0].contains(leaf@) ==> r is Ok && r->Ok_0@.leaf == leaf@ && exists|i: int|
                is_first_position(self@[0], leaf@, i) && r->Ok_0@.path == inclusion_path(
                    self@,
                    i,
                ),
            !self@[0].contains(leaf@) ==> (r matches Err(MerkleTreeError::InvalidHash(m)) && m@
                == "Hash is not part of the tree"@),
    {
        match position_of(&self.levels[0], leaf) {
            Some(index) => self.proof_at(leaf, index),
            None => Err(
                MerkleTreeError::InvalidHash(String::from_str("Hash is not part of the tree")),
            ),
        }
    }

    /// Adds a leaf and rebuilds the tree. A hash that is a leaf already is
    /// refused, and the tree stays as it was.
    pub fn add_hash(&mut self, hash: MerkleHash) -> (r: Result<(), MerkleTreeError>)
        requires
            old(self).wf(),
        ensures
            final(self).wf(),
            old(self)@[0].contains(hash@) ==> {
                &&& r matches Err(MerkleTreeError::HashAlreadyExists(m)) && m@
                    == "Hash is already contained in the tree"@
                &&& final(self)@ == old(self)@
            },
            !old(self)@[0].contains(hash@) ==> {
                &&& r is Ok
                &&& final(self)@[0] == pad(leaves_with(old(self)@[0], hash@))
            },
    {
        if self.verify(&hash) {
            return Err(
                MerkleTreeError::HashAlreadyExists(
                    String::from_str("Hash is already contained in the tree"),
                ),
            );
        }
        let mut leaves = copy_level(&self.levels[0]);
        let len = leaves.len();
        let ghost before = level_view(leaves@);
        if len >= 2 && leaves[len - 1] == leaves[len - 2] {
            leaves.set(len - 1, hash);
        } else {
            leaves.push(hash);
        }
        proof {
            assert(level_view(leaves@) =~= leaves_with(before, hash@));
        }
        self.levels = build_levels(leaves);
        Ok(())
    }

    /// Removes the first occurrence of a leaf and rebuilds the tree. A hash
    /// that is no leaf changes nothing. Removing the only leaf leaves the
    /// empty tree: one level without hashes.
    pub fn remove_hash(&mut self, hash: &MerkleHash)
        requires
            old(self).wf(),
        ensures
            final(self).wf(),
            !old(self)@[0].contains(hash@) ==> final(self)@ == old(self)@,
            old(self)@[0].contains(hash@) ==> exists|i: int|
                is_first_position(old(self)@[0], hash@, i) && final(self)@[0] == pad(
                    old(self)@[0].remove(i),
                ),
    {
        match position_of(&self.levels[0], hash) {
            Some(index) => {
                let mut leaves = copy_level(&self.levels[0]);
                let ghost before = level_view(leaves@);
                leaves.remove(index);
                proof {
                    assert(level_view(leaves@) =~= before.remove(index as int));
                }
                if leaves.len() == 0 {
                    let mut levels: Vec<Vec<MerkleHash>> = Vec::new();
                    levels.push(leaves);
                    self.levels = levels;
                    proof {
                        assert(self@[0] =~= pad(before.remove(index as int)));
                    }
                } else {
                    self.levels = build_levels(leaves);
                }
            },
            None => {
                proof {
                    if self@[0].contains(hash@) {
                        let j = choose|j: int| 0 <= j < self@[0].len() && self@[0][j] == hash@;
                        assert(false);
                    }
                }
            },
        }
    }
}

/// In a tree with a leaf at `index`, the last level holds exactly the root.
proof fn lemma_top_is_root(levels: Seq<Seq<Seq<char>>>, index: int)
    requires
        well_built(levels),
        0 <= index < levels[0].len(),
    ensures
        levels.last().len() == 1,
{
    if levels.len() >= 2 {
        let below = levels[levels.len() - 2];
        assert(levels[levels.len() - 2 + 1] == pad(pair_up(below)));
    }
}

/// One step of a climb: the running hash combined with a sibling.
pub open spec fn climb_step(below: Seq<char>, step: (Seq<char>, Direction)) -> Seq<char> {
    match step.1 {
        Direction::Left => combine(step.0, below),
        Direction::Right => combine(below, step.0),
    }
}

/// Climbing a path is taking its first step, then climbing the rest.
pub proof fn lemma_climb_first_step(
    start: Seq<char>,
    first: (Seq<char>, Direction),
    rest: Seq<(Seq<char>, Direction)>,
)
    ensures
        climb(start, seq![first] + rest) == climb(climb_step(start, first), rest),
    decreases rest.len(),
{
    let whole = seq![first] + rest;
    if rest.len() == 0 {
        assert(whole.drop_last() =~= Seq::<(Seq<char>, Direction)>::empty());
        assert(climb(start, whole.drop_last()) == start);
    } else {
        assert(whole.drop_last() =~= seq![first] + rest.drop_last());
        assert(whole.last() == rest.last());
        lemma_climb_first_step(start, first, rest.drop_last());
    }
}

/// In a tree, the siblings on the way up from any leaf lead to the root.
pub proof fn lemma_inclusion_path_reaches_root(levels: Seq<Seq<Seq<char>>>, index: int)
    requires
        well_built(levels),
        0 <= index < levels[0].len(),
    ensures
        levels.last().len() == 1,
        climb(levels[0][index], inclusion_path(levels, index)) == levels.last()[0],
    decreases levels.len(),
{
    lemma_top_is_root(levels, index);
    if levels[0].len() == 1 {
        if levels.len() >= 2 {
            assert(levels[0].len() >= 2);
        }
    } else {
        if levels.len() == 1 {
            assert(levels.last() == levels[0]);
        }
        let rest = levels.drop_first();
        let leaves = levels[0];
        assert(leaves.len() >= 2 && leaves.len() % 2 == 0);
        assert(levels[0int + 1] == pad(pair_up(leaves)));
        assert(rest[0] == levels[1]);
        assert(well_built(rest)) by {
            assert(rest.last() == levels.last());
            assert forall|k: int| 0 <= k < rest.len() - 1 implies {
                &&& (#[trigger] rest[k]).len() >= 2
                &&& rest[k].len() % 2 == 0
                &&& rest[k + 1] == pad(pair_up(rest[k]))
            } by {
                assert(rest[k] == levels[k + 1]);
                assert(rest[k + 1] == levels[k + 1 + 1]);
            }
        }
        let j = index / 2;
        assert(0 <= j < pair_up(leaves).len());
        assert(rest[0][j] == combine(leaves[2 * j], leaves[2 * j + 1]));
        let first = sibling(leaves, index);
        assert(climb_step(leaves[index], first) == rest[0][j]);
        lemma_inclusion_path_reaches_root(rest, j);
        lemma_climb_first_step(leaves[index], first, inclusion_path(rest, j));
    }
}

} // verus!
