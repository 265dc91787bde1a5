//! The executable tree and its verified operations.

use crate::model::LeanIMTError;
use crate::model::bit_set;
use crate::model::carry_chain;
use crate::model::depth_for;
use crate::model::grow_sides;
use crate::model::insert_result;
use crate::model::lemma_break_of_is;
use crate::model::lemma_depth_for_mono;
use crate::model::lemma_depth_for_succ;
use crate::model::lemma_depth_for_word;
use crate::model::batch_error;
use crate::model::batch_nodes;
use crate::model::batch_side_at;
use crate::model::combine_level;
use crate::model::dup_before;
use crate::model::insert_many_result;
use crate::model::lemma_batch_dims;
use crate::model::lemma_depth_for_le;
use crate::model::lemma_depth_for_min;
use crate::model::lemma_insert_many_wf;
use crate::model::lemma_insert_wf;
use crate::model::level_count;
use crate::model::leaf_pairs;
use crate::model::leaf_pairs_upto;
use crate::model::level_start;
use crate::model::lemma_path_fold_snoc;
use crate::model::lemma_path_needed_mono;
use crate::model::lemma_path_needed_snoc;
use crate::model::lemma_pos_unique;
use crate::model::lemma_update_wf;
use crate::model::path_fold;
use crate::model::path_needed;
use crate::model::remove_result;
use crate::model::spine_at;
use crate::model::update_result;
use crate::model::lemma_shift_step;
use crate::model::lemma_side_present;
use crate::model::SpecHash;
use crate::model::TreeModel;
use crate::model::holds_value;
use crate::model::model_wf;
use crate::model::present;
use crate::model::root_model;
use crate::model::zero_node;
use vstd::arithmetic::power2::lemma2_to64;
use vstd::arithmetic::power2::lemma_pow2_pos;
use vstd::arithmetic::power2::lemma_pow2_strictly_increases;
use vstd::arithmetic::power2::lemma_pow2_unfold;
use vstd::arithmetic::power2::pow2;
use vstd::pervasive::VecAdditionalExecFns;
use vstd::prelude::*;

verus! {

/// A node value: either a caller-supplied leaf or a value produced by the
/// injected hash function.  The string `"0"` is the reserved sentinel.
pub type IMTNode = String;

/// The shape of an injected hash function: combines an ordered pair of child
/// nodes (passed as a two-element vector) into their parent node.
pub type IMTHashFunction = fn(Vec<IMTNode>) -> IMTNode;

/// True iff the hash function may be called on every pair of nodes.
pub open spec fn hash_total<F: Fn(Vec<IMTNode>) -> IMTNode>(f: F) -> bool {
    forall|v: Vec<IMTNode>| v@.len() == 2 ==> #[trigger] call_requires(f, (v,))
}

/// The input/output relation of the hash function on pairs, abstracted to
/// views: `r` is a possible result of hashing the pair `(a, b)`.
pub open spec fn hash_pair_rel<F: Fn(Vec<IMTNode>) -> IMTNode>(
    f: F,
    a: Seq<char>,
    b: Seq<char>,
    r: Seq<char>,
) -> bool {
    exists|v: Vec<IMTNode>, out: IMTNode|
        {
            &&& #[trigger] call_ensures(f, (v,), out)
            &&& v@.len() == 2
            &&& v@[0]@ == a
            &&& v@[1]@ == b
            &&& out@ == r
        }
}

/// Determinism: hashing a pair of node values admits a single result value.
/// The whole authentication scheme depends on this; it is required of the
/// injected function at construction time.
pub open spec fn hash_deterministic<F: Fn(Vec<IMTNode>) -> IMTNode>(f: F) -> bool {
    forall|a: Seq<char>, b: Seq<char>, r1: Seq<char>, r2: Seq<char>|
        #[trigger] hash_pair_rel(f, a, b, r1) && #[trigger] hash_pair_rel(f, a, b, r2) ==> r1 == r2
}

/// The value a deterministic hash function returns on the pair `(a, b)`.
pub open spec fn spec_hash<F: Fn(Vec<IMTNode>) -> IMTNode>(
    f: F,
    a: Seq<char>,
    b: Seq<char>,
) -> Seq<char> {
    choose|r: Seq<char>| hash_pair_rel(f, a, b, r)
}

/// The spec-level combiner induced by a deterministic hash function, used as
/// the `h` parameter of the model transitions.
pub open spec fn hash_spec_fn<F: Fn(Vec<IMTNode>) -> IMTNode>(f: F) -> SpecHash {
    |a: Seq<char>, b: Seq<char>| spec_hash(f, a, b)
}

/// The view of an optional node.
pub open spec fn opt_view(o: Option<IMTNode>) -> Option<Seq<char>> {
    match o {
        Some(s) => Some(s@),
        None => None,
    }
}

/// The views of a sequence of nodes.
pub open spec fn node_views(s: Seq<IMTNode>) -> Seq<Seq<char>> {
    s.map_values(|n: IMTNode| n@)
}

/// The views of a sequence of optional nodes.
pub open spec fn side_views(s: Seq<Option<IMTNode>>) -> Seq<Option<Seq<char>>> {
    s.map_values(|o: Option<IMTNode>| opt_view(o))
}

/// Mapping to views commutes with appending one node.
pub proof fn lemma_node_views_push(v: Seq<IMTNode>, x: IMTNode)
    ensures
        node_views(v.push(x)) == node_views(v).push(x@),
{
    assert(node_views(v.push(x)) =~= node_views(v).push(x@));
}

/// Mapping to views commutes with appending one slot.
pub proof fn lemma_side_views_push(v: Seq<Option<IMTNode>>, x: Option<IMTNode>)
    ensures
        side_views(v.push(x)) == side_views(v).push(opt_view(x)),
{
    assert(side_views(v.push(x)) =~= side_views(v).push(opt_view(x)));
}

/// Mapping to views commutes with updating one slot.
pub proof fn lemma_side_views_update(v: Seq<Option<IMTNode>>, i: int, x: Option<IMTNode>)
    requires
        0 <= i < v.len(),
    ensures
        side_views(v.update(i, x)) == side_views(v).update(i, opt_view(x)),
{
    assert(side_views(v.update(i, x)) =~= side_views(v).update(i, opt_view(x)));
}

/// The view of a returned root or error.
pub open spec fn result_view(r: Result<IMTNode, LeanIMTError>) -> Result<Seq<char>, LeanIMTError> {
    match r {
        Ok(s) => Ok(s@),
        Err(e) => Err(e),
    }
}

/// An incremental append-only Merkle tree without zero padding: a lone node
/// is promoted unchanged to the next level instead of being hashed with a
/// placeholder sibling.
pub struct LeanIMT<F: Fn(Vec<IMTNode>) -> IMTNode> {
    depth: usize,
    side_nodes: Vec<Option<IMTNode>>,
    entries: Vec<IMTNode>,
    hash: F,
}

impl<F: Fn(Vec<IMTNode>) -> IMTNode> View for LeanIMT<F> {
    type V = TreeModel;

    closed spec fn view(&self) -> TreeModel {
        TreeModel {
            depth: self.depth as nat,
            sides: side_views(self.side_nodes@),
            entries: node_views(self.entries@),
        }
    }
}

impl<F: Fn(Vec<IMTNode>) -> IMTNode> LeanIMT<F> {
    /// Well-formedness: the model invariants hold and the injected hash
    /// function is total over pairs and deterministic.
    pub closed spec fn wf(&self) -> bool {
        &&& model_wf(self@)
        &&& hash_total(self.hash)
        &&& hash_deterministic(self.hash)
    }

    /// The spec-level combiner of this tree's hash function.
    pub closed spec fn spec_h(&self) -> SpecHash {
        hash_spec_fn(self.hash)
    }

    /// Creates an empty tree around the given hash function, which must be
    /// callable on every pair of nodes and deterministic.
    pub fn new(hash: F) -> (t: Self)
        requires
            hash_total(hash),
            hash_deterministic(hash),
        ensures
            t.wf(),
            t@.entries.len() == 0,
            t@.depth == 0,
            t@.sides.len() == 0,
            t.spec_h() == hash_spec_fn(hash),
    {
        let t = LeanIMT { depth: 0, side_nodes: Vec::new(), entries: Vec::new(), hash };
        proof {
            assert(t@.entries =~= Seq::<Seq<char>>::empty());
            assert(t@.sides =~= Seq::<Option<Seq<char>>>::empty());
        }
        t
    }

    /// Hashes a pair of nodes through the injected function.
    fn hash_pair(&self, a: &IMTNode, b: &IMTNode) -> (r: IMTNode)
        requires
            hash_total(self.hash),
            hash_deterministic(self.hash),
        ensures
            r@ == self.spec_h()(a@, b@),
    {
        let mut v: Vec<IMTNode> = Vec::new();
        v.push(a.clone());
        v.push(b.clone());
        let ghost gv = v;
        let out = (self.hash)(v);
        proof {
            assert(hash_pair_rel(self.hash, a@, b@, out@)) by {
                assert(call_ensures(self.hash, (gv,), out));
            }
            assert(hash_pair_rel(self.hash, a@, b@, spec_hash(self.hash, a@, b@)));
        }
        out
    }

    /// The number of leaf slots ever occupied.
    pub fn get_size(&self) -> (n: usize)
        ensures
            n == self@.entries.len(),
    {
        self.entries.len()
    }

    /// The current tree height.
    pub fn get_depth(&self) -> (d: usize)
        ensures
            d == self@.depth,
    {
        self.depth
    }

    /// The root of the tree, absent iff the tree is empty.
    pub fn root(&self) -> (r: Option<IMTNode>)
        ensures
            opt_view(r) == root_model(self@),
    {
        if self.depth < self.side_nodes.len() {
            match &self.side_nodes[self.depth] {
                Some(s) => Some(s.clone()),
                None => None,
            }
        } else {
            None
        }
    }

    /// Checks whether a leaf value currently occupies a position.  The
    /// sentinel is never a member, no matter how many removed slots exist.
    pub fn has(&self, leaf: &IMTNode) -> (b: bool)
        ensures
            b == present(self@, leaf@),
    {
        if is_zero(leaf) {
            return false;
        }
        let mut i: usize = 0;
        while i < self.entries.len()
            invariant
                leaf@ != zero_node(),
                i <= self.entries.len(),
                forall|j: int| 0 <= j < i ==> node_views(self.entries@)[j] != leaf@,
            decreases self.entries.len() - i,
        {
            if self.entries[i].eq(leaf) {
                proof {
                    assert(node_views(self.entries@)[i as int] == leaf@);
                    assert(holds_value(node_views(self.entries@), leaf@));
                }
                return true;
            }
            i += 1;
        }
        false
    }

    /// Inserts a new leaf, which must not be the sentinel and must not be
    /// present already; returns the new root.  The insertion walks up from
    /// the new position, combining with a cached side node wherever the
    /// position's bit is set, and stops at the first clear bit.
    #[verifier::loop_isolation(false)]
    pub fn insert(&mut self, leaf: IMTNode) -> (r: Result<IMTNode, LeanIMTError>)
        requires
            old(self).wf(),
            old(self)@.entries.len() < usize::MAX,
        ensures
            final(self).wf(),
            final(self).spec_h() == old(self).spec_h(),
            final(self)@ == insert_result(old(self).spec_h(), old(self)@, leaf@).0,
            result_view(r) == insert_result(old(self).spec_h(), old(self)@, leaf@).1,
    {
        let ghost m0 = self@;
        let ghost h = self.spec_h();
        if self.has(&leaf) {
            return Err(LeanIMTError::DuplicateLeaf);
        }
        if is_zero(&leaf) {
            return Err(LeanIMTError::ZeroLeaf);
        }
        let index = self.entries.len();
        proof {
            lemma_depth_for_word(index as nat);
            lemma_depth_for_succ(index as nat);
            lemma_depth_for_mono(index as nat, (index + 1) as nat);
        }
        let tree_depth = if !pow2_at_least(self.depth, index + 1) {
            self.depth + 1
        } else {
            self.depth
        };
        let ghost d2 = tree_depth as nat;
        proof {
            assert(d2 == depth_for((index + 1) as nat));
            assert(m0.sides.len() <= d2 + 1);
        }
        let mut sides: Vec<Option<IMTNode>> = Vec::new();
        core::mem::swap(&mut sides, &mut self.side_nodes);
        proof {
            assert(side_views(sides@) == m0.sides);
        }
        while sides.len() < tree_depth + 1
            invariant
                m0.sides.len() <= sides@.len() <= d2 + 1,
                forall|i: int| 0 <= i < m0.sides.len() ==> side_views(sides@)[i] == m0.sides[i],
                forall|i: int|
                    m0.sides.len() <= i < sides@.len() ==> side_views(sides@)[i] is None,
            decreases d2 + 1 - sides@.len(),
        {
            let ghost prev = sides@;
            sides.push(None);
            proof {
                lemma_side_views_push(prev, None);
            }
        }
        let ghost gsides = side_views(sides@);
        proof {
            assert(gsides =~= grow_sides(m0.sides, d2 + 1));
        }
        let mut node = leaf.clone();
        let mut level: usize = 0;
        let mut rem: usize = index;
        proof {
            lemma2_to64();
            vstd::arithmetic::div_mod::lemma_div_basics_1(index as int);
            assert((index as nat) / pow2(0) == index as nat);
        }
        while level < tree_depth && rem % 2 == 1
            invariant
                level <= tree_depth,
                rem as nat == (index as nat) / pow2(level as nat),
                forall|j: nat| j < level ==> #[trigger] bit_set(index as nat, j),
                node@ == carry_chain(h, gsides, leaf@, level as nat),
            decreases tree_depth - level,
        {
            proof {
                assert(pow2(0) == 1) by {
                    lemma2_to64();
                }
                assert(bit_set(index as nat, level as nat));
                lemma_side_present(m0, level as nat);
                assert(gsides[level as int] == m0.sides[level as int]);
                assert(gsides[level as int] is Some);
            }
            if let Some(s) = &sides[level] {
                node = self.hash_pair(s, &node);
            } else {
                proof {
                    assert(false);
                }
            }
            proof {
                lemma_shift_step(index as nat, level as nat);
            }
            rem = rem / 2;
            level += 1;
        }
        proof {
            lemma_break_of_is(index as nat, d2, level as nat);
        }
        if level < tree_depth {
            sides.set(level, Some(node.clone()));
        }
        sides.set(tree_depth, Some(node.clone()));
        self.depth = tree_depth;
        self.side_nodes = sides;
        self.entries.push(leaf);
        proof {
            let m2 = insert_result(h, m0, leaf@).0;
            assert(self@.entries =~= m2.entries);
            assert(self@.sides =~= m2.sides);
            assert(self@ =~= m2);
            lemma_insert_wf(h, m0, leaf@);
        }
        Ok(node)
    }

    /// Builds the new parent nodes one level up from the new nodes of a
    /// level during a batch insertion.  `side_l` is the cached side node at
    /// the current level; `cur_nodes` are the new nodes, sitting at absolute
    /// indices `cur_start` up to `cur_size` within the level.
    #[verifier::loop_isolation(false)]
    fn build_level(
        &self,
        side_l: &Option<IMTNode>,
        cur_start: usize,
        cur_size: usize,
        cur_nodes: &Vec<IMTNode>,
    ) -> (next: Vec<IMTNode>)
        requires
            hash_total(self.hash),
            hash_deterministic(self.hash),
            cur_start + cur_nodes@.len() == cur_size,
            cur_nodes@.len() >= 1,
        ensures
            node_views(next@) == combine_level(
                self.spec_h(),
                opt_view(*side_l),
                cur_start as nat,
                cur_size as nat,
                node_views(cur_nodes@),
            ),
    {
        let ghost target = combine_level(
            self.spec_h(),
            opt_view(*side_l),
            cur_start as nat,
            cur_size as nat,
            node_views(cur_nodes@),
        );
        let next_start = cur_start / 2;
        let next_size = (cur_size - 1) / 2 + 1;
        proof {
            vstd::arithmetic::div_mod::lemma_div_is_ordered(
                cur_start as int,
                cur_size as int - 1,
                2,
            );
            assert(target.len() == next_size - next_start);
        }
        let number_new = next_size - next_start;
        let mut next_nodes: Vec<IMTNode> = Vec::new();
        let mut i: usize = 0;
        while i < number_new
            invariant
                i <= number_new,
                next_nodes@.len() == i,
                forall|k: int| 0 <= k < i ==> #[trigger] node_views(next_nodes@)[k] == target[k],
            decreases number_new - i,
        {
            proof {
                assert(2 * (next_size as int - 1) <= cur_size as int - 1) by {
                    vstd::arithmetic::div_mod::lemma_fundamental_div_mod(cur_size as int - 1, 2);
                }
            }
            let lc = 2 * (i + next_start);
            let rc = lc + 1;
            let left: IMTNode = if lc < cur_start {
                match side_l {
                    Some(s) => s.clone(),
                    None => zero_leaf(),
                }
            } else {
                cur_nodes[lc - cur_start].clone()
            };
            let right: IMTNode = if rc < cur_size && rc >= cur_start {
                cur_nodes[rc - cur_start].clone()
            } else {
                zero_leaf()
            };
            let parent: IMTNode = if !is_zero(&right) {
                self.hash_pair(&left, &right)
            } else {
                left
            };
            let ghost prev = next_nodes@;
            next_nodes.push(parent);
            proof {
                lemma_node_views_push(prev, parent);
                assert(node_views(next_nodes@)[i as int] == target[i as int]);
            }
            i = i + 1;
        }
        proof {
            assert(node_views(next_nodes@) =~= target);
        }
        next_nodes
    }

    /// Scans a batch for the first rejected leaf: the sentinel, a value
    /// already in the tree, or a duplicate of an earlier batch element.
    #[verifier::loop_isolation(false)]
    fn check_batch(&self, leaves: &Vec<IMTNode>) -> (r: Option<LeanIMTError>)
        ensures
            r == batch_error(self@.entries, node_views(leaves@), 0),
    {
        let ghost m0 = self@;
        let ghost bv = node_views(leaves@);
        let mut j: usize = 0;
        while j < leaves.len()
            invariant
                j <= leaves@.len(),
                batch_error(m0.entries, bv, j as nat) == batch_error(m0.entries, bv, 0),
                forall|k: int|
                    0 <= k < j ==> #[trigger] bv[k] != zero_node() && !holds_value(
                        m0.entries,
                        bv[k],
                    ) && !dup_before(bv, k as nat),
            decreases leaves@.len() - j,
        {
            let leaf = &leaves[j];
            if is_zero(leaf) {
                proof {
                    assert(batch_error(m0.entries, bv, j as nat) == Some(LeanIMTError::ZeroLeaf));
                }
                return Some(LeanIMTError::ZeroLeaf);
            }
            if self.has(leaf) {
                proof {
                    assert(batch_error(m0.entries, bv, j as nat) == Some(
                        LeanIMTError::DuplicateLeaf,
                    ));
                }
                return Some(LeanIMTError::DuplicateLeaf);
            }
            let mut k: usize = 0;
            while k < j
                invariant
                    k <= j < leaves@.len(),
                    forall|k2: int| 0 <= k2 < k ==> bv[k2] != bv[j as int],
                decreases j - k,
            {
                if leaves[k].eq(leaf) {
                    proof {
                        assert(bv[k as int] == bv[j as int]);
                        assert(dup_before(bv, j as nat));
                        assert(batch_error(m0.entries, bv, j as nat) == Some(
                            LeanIMTError::DuplicateLeaf,
                        ));
                    }
                    return Some(LeanIMTError::DuplicateLeaf);
                }
                k = k + 1;
            }
            proof {
                assert(!dup_before(bv, j as nat));
                assert(!holds_value(m0.entries, bv[j as int]));
                assert(batch_error(m0.entries, bv, (j + 1) as nat) == batch_error(
                    m0.entries,
                    bv,
                    j as nat,
                ));
            }
            j = j + 1;
        }
        None
    }

    /// Inserts a batch of leaves at once, built level by level from the
    /// bottom: cheaper than repeated single insertions.  The whole batch is
    /// validated before anything is written — the sentinel, values already in
    /// the tree and duplicates within the batch are all rejected — and the
    /// new root is returned.
    #[verifier::loop_isolation(false)]
    #[verifier::rlimit(100)]
    pub fn insert_many(&mut self, leaves: Vec<IMTNode>) -> (r: Result<IMTNode, LeanIMTError>)
        requires
            old(self).wf(),
            old(self)@.entries.len() + leaves@.len() <= usize::MAX,
            old(self)@.entries.len() + leaves@.len() >= 1,
        ensures
            final(self).wf(),
            final(self).spec_h() == old(self).spec_h(),
            final(self)@ == insert_many_result(
                old(self).spec_h(),
                old(self)@,
                node_views(leaves@),
            ).0,
            result_view(r) == insert_many_result(
                old(self).spec_h(),
                old(self)@,
                node_views(leaves@),
            ).1,
    {
        let ghost m0 = self@;
        let ghost h = self.spec_h();
        let ghost bv = node_views(leaves@);
        // validate the whole batch before any write
        if let Some(e) = self.check_batch(&leaves) {
            return Err(e);
        }
        if leaves.len() == 0 {
            let rt = match self.root() {
                Some(x) => x,
                None => {
                    proof {
                        assert(false);
                    }
                    zero_leaf()
                },
            };
            return Ok(rt);
        }
        let n = self.entries.len();
        let total = n + leaves.len();
        let ghost szn = total as nat;
        let tree_depth = depth_needed(total);
        let ghost d2 = tree_depth as nat;
        proof {
            lemma2_to64();
            assert(usize::MAX <= u64::MAX);
            lemma_depth_for_word(szn);
            lemma_depth_for_mono(n as nat, szn);
            lemma_depth_for_min(szn);
            assert(m0.sides.len() <= d2 + 1);
        }
        let mut sides: Vec<Option<IMTNode>> = Vec::new();
        core::mem::swap(&mut sides, &mut self.side_nodes);
        proof {
            assert(side_views(sides@) == m0.sides);
        }
        while sides.len() < tree_depth + 1
            invariant
                m0.sides.len() <= sides@.len() <= d2 + 1,
                forall|i: int| 0 <= i < m0.sides.len() ==> side_views(sides@)[i] == m0.sides[i],
                forall|i: int|
                    m0.sides.len() <= i < sides@.len() ==> side_views(sides@)[i] is None,
            decreases d2 + 1 - sides@.len(),
        {
            let ghost prev = sides@;
            sides.push(None);
            proof {
                lemma_side_views_push(prev, None);
            }
        }
        let ghost gsides = side_views(sides@);
        proof {
            assert(gsides =~= grow_sides(m0.sides, d2 + 1));
        }
        let mut cur_nodes: Vec<IMTNode> = leaves.clone();
        proof {
            assert forall|k: int| 0 <= k < leaves@.len() implies node_views(cur_nodes@)[k]
                == bv[k] by {
                assert(cloned::<IMTNode>(leaves@[k], cur_nodes@[k]));
            }
            assert(node_views(cur_nodes@) =~= bv);
            lemma2_to64();
            vstd::arithmetic::div_mod::lemma_div_basics_1(n as int);
            vstd::arithmetic::div_mod::lemma_div_basics_1(total as int - 1);
            assert(level_start(n as nat, 0) == n);
            assert(level_count(szn, 0) == total);
        }
        let mut cur_start = n;
        let mut cur_size = total;
        let mut level: usize = 0;
        while level < tree_depth
            invariant
                level <= tree_depth,
                cur_start as nat == level_start(n as nat, level as nat),
                cur_size as nat == level_count(szn, level as nat),
                cur_start + cur_nodes@.len() == cur_size,
                cur_size <= total,
                cur_nodes@.len() >= 1,
                node_views(cur_nodes@) == batch_nodes(h, m0.sides, n as nat, bv, level as nat),
                sides@.len() == d2 + 1,
                forall|l: int|
                    level <= l < sides@.len() ==> #[trigger] side_views(sides@)[l] == gsides[l],
                forall|l: int|
                    0 <= l < level ==> #[trigger] side_views(sides@)[l] == batch_side_at(
                        h,
                        m0.sides,
                        n as nat,
                        bv,
                        l as nat,
                    ),
            decreases tree_depth - level,
        {
            let next_start = cur_start / 2;
            let next_size = (cur_size - 1) / 2 + 1;
            proof {
                lemma_shift_step((szn - 1) as nat, level as nat);
                lemma_shift_step(n as nat, level as nat);
                assert(next_start as nat == level_start(n as nat, (level + 1) as nat));
                assert(next_size as nat == level_count(szn, (level + 1) as nat));
                vstd::arithmetic::div_mod::lemma_div_is_ordered(
                    cur_start as int,
                    cur_size as int - 1,
                    2,
                );
            }
            let ghost target = combine_level(
                h,
                gsides[level as int],
                cur_start as nat,
                cur_size as nat,
                node_views(cur_nodes@),
            );
            proof {
                assert(gsides[level as int] == (if (level as nat) < m0.sides.len() {
                    m0.sides[level as int]
                } else {
                    None
                }));
                assert(batch_nodes(h, m0.sides, n as nat, bv, (level + 1) as nat) == target);
            }
            proof {
                assert(self.spec_h() == h);
                assert(side_views(sides@)[level as int] == gsides[level as int]);
                assert(side_views(sides@)[level as int] == opt_view(sides@[level as int]));
            }
            let next_nodes = self.build_level(&sides[level], cur_start, cur_size, &cur_nodes);
            proof {
                assert(node_views(next_nodes@) == target);
            }
            let ghost sides_pre = sides@;
            if cur_size % 2 == 1 {
                let last_node = cur_nodes[cur_nodes.len() - 1].clone();
                sides.set(level, Some(last_node));
                proof {
                    lemma_side_views_update(
                        sides_pre,
                        level as int,
                        Some(cur_nodes@[cur_nodes@.len() - 1]),
                    );
                }
            } else if cur_nodes.len() > 1 {
                let second_last = cur_nodes[cur_nodes.len() - 2].clone();
                sides.set(level, Some(second_last));
                proof {
                    lemma_side_views_update(
                        sides_pre,
                        level as int,
                        Some(cur_nodes@[cur_nodes@.len() - 2]),
                    );
                }
            }
            proof {
                assert(side_views(sides@)[level as int] == batch_side_at(
                    h,
                    m0.sides,
                    n as nat,
                    bv,
                    level as nat,
                ));
            }
            cur_start = next_start;
            cur_size = next_size;
            cur_nodes = next_nodes;
            level = level + 1;
            proof {
                assert(node_views(cur_nodes@) =~= batch_nodes(
                    h,
                    m0.sides,
                    n as nat,
                    bv,
                    level as nat,
                ));
            }
        }
        proof {
            lemma_batch_dims(h, m0.sides, n as nat, bv, d2);
            assert(n < pow2(d2));
            assert(n as nat / pow2(d2) == 0) by {
                vstd::arithmetic::div_mod::lemma_basic_div(n as int, pow2(d2) as int);
            }
            assert(((szn - 1) as nat) / pow2(d2) == 0) by {
                vstd::arithmetic::div_mod::lemma_basic_div(szn as int - 1, pow2(d2) as int);
            }
            assert(cur_nodes@.len() == 1);
        }
        let root_node = match cur_nodes.pop() {
            Some(x) => x,
            None => {
                proof {
                    assert(false);
                }
                zero_leaf()
            },
        };
        let ghost before_top = sides@;
        sides.set(tree_depth, Some(root_node.clone()));
        proof {
            lemma_side_views_update(before_top, tree_depth as int, Some(root_node));
        }
        self.depth = tree_depth;
        self.side_nodes = sides;
        let mut tail = leaves;
        self.entries.append(&mut tail);
        proof {
            let m2 = insert_many_result(h, m0, bv).0;
            assert(root_node@ == batch_nodes(h, m0.sides, n as nat, bv, d2)[0]);
            assert(self@.entries =~= m2.entries);
            assert(self@.sides =~= m2.sides);
            assert(self@ =~= m2);
            lemma_insert_many_wf(h, m0, bv);
        }
        Ok(root_node)
    }

    /// Replaces an existing leaf value, gated by a Merkle proof: the sibling
    /// path supplied by the caller must recompute the tree's current root
    /// from the old leaf, else the call fails and nothing changes.  Side
    /// nodes on the rightmost spine are refreshed; returns the new root.
    #[verifier::loop_isolation(false)]
    pub fn update(
        &mut self,
        old_leaf: &IMTNode,
        new_leaf: IMTNode,
        sibling_nodes: &Vec<IMTNode>,
    ) -> (r: Result<IMTNode, LeanIMTError>)
        requires
            old(self).wf(),
        ensures
            final(self).wf(),
            final(self).spec_h() == old(self).spec_h(),
            final(self)@ == update_result(
                old(self).spec_h(),
                old(self)@,
                old_leaf@,
                new_leaf@,
                node_views(sibling_nodes@),
            ).0,
            result_view(r) == update_result(
                old(self).spec_h(),
                old(self)@,
                old_leaf@,
                new_leaf@,
                node_views(sibling_nodes@),
            ).1,
    {
        let ghost m0 = self@;
        let ghost h = self.spec_h();
        let ghost sv = node_views(sibling_nodes@);
        if !self.has(old_leaf) {
            return Err(LeanIMTError::LeafNotFound);
        }
        if self.has(&new_leaf) {
            return Err(LeanIMTError::DuplicateLeaf);
        }
        let index = match self.index_of(old_leaf) {
            Ok(i) => i,
            Err(e) => {
                proof {
                    assert(false);
                }
                return Err(e);
            },
        };
        proof {
            lemma_pos_unique(m0.entries, old_leaf@, index as int);
        }
        let ghost idxn = index as nat;
        let last_index = self.entries.len() - 1;
        let ghost lastn = last_index as nat;
        let tree_depth = self.depth;
        let mut node = new_leaf.clone();
        let mut old_node = old_leaf.clone();
        let mut cur_idx = index;
        let mut cur_last = last_index;
        let mut used: usize = 0;
        let mut staged: Vec<(usize, IMTNode)> = Vec::new();
        let mut level: usize = 0;
        proof {
            lemma2_to64();
            vstd::arithmetic::div_mod::lemma_div_basics_1(index as int);
            vstd::arithmetic::div_mod::lemma_div_basics_1(last_index as int);
            assert(idxn / pow2(0) == idxn);
            assert(lastn / pow2(0) == lastn);
        }
        while level < tree_depth
            invariant
                level <= tree_depth,
                cur_idx as nat == idxn / pow2(level as nat),
                cur_last as nat == lastn / pow2(level as nat),
                used as nat == path_needed(idxn, lastn, level as nat),
                used <= sibling_nodes.len(),
                node@ == path_fold(h, idxn, lastn, level as nat, new_leaf@, sv),
                old_node@ == path_fold(h, idxn, lastn, level as nat, old_leaf@, sv),
                forall|k: int|
                    0 <= k < staged@.len() ==> (#[trigger] staged@[k]).0 < level && spine_at(
                        idxn,
                        lastn,
                        staged@[k].0 as nat,
                    ) && staged@[k].1@ == path_fold(
                        h,
                        idxn,
                        lastn,
                        staged@[k].0 as nat,
                        new_leaf@,
                        sv,
                    ),
                forall|l: nat|
                    l < level && #[trigger] spine_at(idxn, lastn, l) ==> exists|k: int|
                        0 <= k < staged@.len() && (#[trigger] staged@[k]).0 == l,
            decreases tree_depth - level,
        {
            proof {
                lemma_path_needed_snoc(idxn, lastn, level as nat);
            }
            if cur_idx % 2 == 1 {
                if used >= sibling_nodes.len() {
                    proof {
                        lemma_path_needed_mono(
                            idxn,
                            lastn,
                            (level + 1) as nat,
                            tree_depth as nat,
                        );
                    }
                    return Err(LeanIMTError::InsufficientSiblingPath);
                }
                proof {
                    lemma_path_fold_snoc(h, idxn, lastn, level as nat, new_leaf@, sv);
                    lemma_path_fold_snoc(h, idxn, lastn, level as nat, old_leaf@, sv);
                }
                let sib = &sibling_nodes[used];
                node = self.hash_pair(sib, &node);
                old_node = self.hash_pair(sib, &old_node);
                used = used + 1;
                proof {
                    assert(!spine_at(idxn, lastn, level as nat));
                }
            } else if cur_idx != cur_last {
                if used >= sibling_nodes.len() {
                    proof {
                        lemma_path_needed_mono(
                            idxn,
                            lastn,
                            (level + 1) as nat,
                            tree_depth as nat,
                        );
                    }
                    return Err(LeanIMTError::InsufficientSiblingPath);
                }
                proof {
                    lemma_path_fold_snoc(h, idxn, lastn, level as nat, new_leaf@, sv);
                    lemma_path_fold_snoc(h, idxn, lastn, level as nat, old_leaf@, sv);
                }
                let sib = &sibling_nodes[used];
                node = self.hash_pair(&node, sib);
                old_node = self.hash_pair(&old_node, sib);
                used = used + 1;
                proof {
                    assert(spine_at(idxn, lastn, level as nat) == false);
                }
            } else {
                proof {
                    lemma_path_fold_snoc(h, idxn, lastn, level as nat, new_leaf@, sv);
                    lemma_path_fold_snoc(h, idxn, lastn, level as nat, old_leaf@, sv);
                }
                let ghost staged0 = staged@;
                staged.push((level, node.clone()));
                proof {
                    assert(spine_at(idxn, lastn, level as nat));
                    assert(forall|k: int| 0 <= k < staged0.len() ==> staged@[k] == staged0[k]);
                    assert forall|l: nat|
                        l < level + 1 && #[trigger] spine_at(idxn, lastn, l) implies exists|k: int|
                        0 <= k < staged@.len() && (#[trigger] staged@[k]).0 == l by {
                        if l < level as nat {
                            let k0 = choose|k: int|
                                0 <= k < staged0.len() && (#[trigger] staged0[k]).0 == l;
                            assert((staged@[k0]).0 == l);
                        } else {
                            assert((staged@[staged@.len() - 1]).0 == level);
                        }
                    }
                }
            }
            proof {
                lemma_shift_step(idxn, level as nat);
                lemma_shift_step(lastn, level as nat);
            }
            cur_idx = cur_idx / 2;
            cur_last = cur_last / 2;
            level = level + 1;
        }
        let matches_root = if let Some(stored) = self.root() {
            old_node.eq(&stored)
        } else {
            proof {
                assert(false);
            }
            false
        };
        if !matches_root {
            return Err(LeanIMTError::InvalidSiblingPath);
        }
        let ghost newr = path_fold(h, idxn, lastn, tree_depth as nat, new_leaf@, sv);
        let mut sides: Vec<Option<IMTNode>> = Vec::new();
        core::mem::swap(&mut sides, &mut self.side_nodes);
        proof {
            assert(side_views(sides@) == m0.sides);
        }
        let mut t: usize = 0;
        while t < staged.len()
            invariant
                t <= staged@.len(),
                sides@.len() == m0.sides.len(),
                forall|l: int|
                    0 <= l < sides@.len() ==> #[trigger] side_views(sides@)[l] == (
                    if exists|k: int| 0 <= k < t && (#[trigger] staged@[k]).0 == l {
                        Some(path_fold(h, idxn, lastn, l as nat, new_leaf@, sv))
                    } else {
                        m0.sides[l]
                    }),
            decreases staged@.len() - t,
        {
            let lvl = staged[t].0;
            let val = staged[t].1.clone();
            proof {
                assert((staged@[t as int]).0 < tree_depth);
            }
            let ghost before = sides@;
            sides.set(lvl, Some(val));
            proof {
                lemma_side_views_update(before, lvl as int, Some(val));
                assert(val@ == path_fold(h, idxn, lastn, lvl as nat, new_leaf@, sv));
                assert forall|l: int| 0 <= l < sides@.len() implies #[trigger] side_views(
                    sides@,
                )[l] == (if exists|k: int| 0 <= k < t + 1 && (#[trigger] staged@[k]).0 == l {
                    Some(path_fold(h, idxn, lastn, l as nat, new_leaf@, sv))
                } else {
                    m0.sides[l]
                }) by {
                    assert(side_views(sides@) == side_views(before).update(
                        lvl as int,
                        opt_view(Some(val)),
                    ));
                    if l == lvl {
                        assert((staged@[t as int]).0 == l);
                        assert(side_views(sides@)[l] == Some(val@));
                    } else {
                        assert(side_views(sides@)[l] == side_views(before)[l]);
                        assert forall|k: int|
                            0 <= k < t + 1 && (#[trigger] staged@[k]).0 == l implies k < t by {
                            if k == t {
                                assert((staged@[t as int]).0 == lvl);
                            }
                        }
                    }
                }
            }
            t = t + 1;
        }
        let ghost before_top = sides@;
        sides.set(tree_depth, Some(node.clone()));
        proof {
            lemma_side_views_update(before_top, tree_depth as int, Some(node));
        }
        self.side_nodes = sides;
        self.entries.set(index, new_leaf);
        proof {
            let m2 = update_result(h, m0, old_leaf@, new_leaf@, sv).0;
            assert(update_result(h, m0, old_leaf@, new_leaf@, sv).1 is Ok);
            assert(self@.entries =~= m2.entries);
            assert forall|l: int| 0 <= l < m2.sides.len() implies self@.sides[l]
                == m2.sides[l] by {
                if l != tree_depth {
                    if spine_at(idxn, lastn, l as nat) {
                        assert(exists|k: int|
                            0 <= k < staged@.len() && (#[trigger] staged@[k]).0 == l);
                    } else {
                        assert(forall|k: int|
                            0 <= k < staged@.len() ==> (#[trigger] staged@[k]).0 != l);
                    }
                }
            }
            assert(self@.sides =~= m2.sides);
            assert(self@ =~= m2);
            lemma_update_wf(h, m0, old_leaf@, new_leaf@, sv);
        }
        Ok(node)
    }

    /// Removes a leaf: replaces its value with the sentinel, gated by the
    /// same Merkle proof as an update.  Size and depth are unchanged; the
    /// position keeps contributing a sentinel node to future hashing.
    pub fn remove(&mut self, old_leaf: &IMTNode, sibling_nodes: &Vec<IMTNode>) -> (r: Result<
        IMTNode,
        LeanIMTError,
    >)
        requires
            old(self).wf(),
        ensures
            final(self).wf(),
            final(self).spec_h() == old(self).spec_h(),
            final(self)@ == remove_result(
                old(self).spec_h(),
                old(self)@,
                old_leaf@,
                node_views(sibling_nodes@),
            ).0,
            result_view(r) == remove_result(
                old(self).spec_h(),
                old(self)@,
                old_leaf@,
                node_views(sibling_nodes@),
            ).1,
    {
        let zero: IMTNode = "0".to_string();
        self.update(old_leaf, zero, sibling_nodes)
    }

    /// A copy of the per-level side-node cache, for inspection.
    #[verifier::loop_isolation(false)]
    pub fn get_side_nodes(&self) -> (v: Vec<Option<IMTNode>>)
        ensures
            side_views(v@) == self@.sides,
    {
        let mut v: Vec<Option<IMTNode>> = Vec::new();
        let mut i: usize = 0;
        while i < self.side_nodes.len()
            invariant
                i <= self.side_nodes@.len(),
                v@.len() == i,
                forall|k: int| 0 <= k < i ==> #[trigger] side_views(v@)[k] == self@.sides[k],
            decreases self.side_nodes@.len() - i,
        {
            let o: Option<IMTNode> = match &self.side_nodes[i] {
                Some(s) => Some(s.clone()),
                None => None,
            };
            let ghost prev = v@;
            let ghost go = o;
            v.push(o);
            proof {
                lemma_side_views_push(prev, go);
            }
            i = i + 1;
        }
        proof {
            assert(side_views(v@) =~= self@.sides);
        }
        v
    }

    /// The occupied leaves with their 1-based positions, in position order:
    /// removed slots are skipped.
    #[verifier::loop_isolation(false)]
    pub fn get_leaves(&self) -> (v: Vec<(IMTNode, usize)>)
        ensures
            v@.map_values(|p: (IMTNode, usize)| pair_view(p)) == leaf_pairs(self@.entries),
    {
        let mut v: Vec<(IMTNode, usize)> = Vec::new();
        let mut i: usize = 0;
        while i < self.entries.len()
            invariant
                i <= self.entries@.len(),
                v@.map_values(|p: (IMTNode, usize)| pair_view(p)) == leaf_pairs_upto(
                    self@.entries,
                    i as nat,
                ),
            decreases self.entries@.len() - i,
        {
            let leaf = &self.entries[i];
            let ghost prev = v@;
            if !is_zero(leaf) {
                v.push((leaf.clone(), i + 1));
                proof {
                    assert(v@.map_values(|p: (IMTNode, usize)| pair_view(p)) =~= prev.map_values(
                        |p: (IMTNode, usize)| pair_view(p),
                    ).push((self@.entries[i as int], (i + 1) as nat)));
                }
            }
            proof {
                assert(self@.entries[i as int] == self.entries@[i as int]@);
            }
            i = i + 1;
        }
        proof {
            assert(leaf_pairs_upto(self@.entries, self@.entries.len()) == leaf_pairs(
                self@.entries,
            ));
        }
        v
    }

    /// The 0-based position of a leaf value, or `LeafNotFound`.
    pub fn index_of(&self, leaf: &IMTNode) -> (r: Result<usize, LeanIMTError>)
        ensures
            match r {
                Ok(i) => present(self@, leaf@) && 0 <= i < self@.entries.len()
                    && self@.entries[i as int] == leaf@,
                Err(e) => !present(self@, leaf@) && e == LeanIMTError::LeafNotFound,
            },
    {
        if is_zero(leaf) {
            return Err(LeanIMTError::LeafNotFound);
        }
        let mut i: usize = 0;
        while i < self.entries.len()
            invariant
                leaf@ != zero_node(),
                i <= self.entries.len(),
                forall|j: int| 0 <= j < i ==> node_views(self.entries@)[j] != leaf@,
            decreases self.entries.len() - i,
        {
            if self.entries[i].eq(leaf) {
                proof {
                    assert(node_views(self.entries@)[i as int] == leaf@);
                    assert(holds_value(node_views(self.entries@), leaf@));
                }
                return Ok(i);
            }
            i += 1;
        }
        Err(LeanIMTError::LeafNotFound)
    }
}

/// Compares a subtree capacity with a requested leaf count.
#[verifier::loop_isolation(false)]
fn pow2_at_least(d: usize, target: usize) -> (b: bool)
    ensures
        b == (pow2(d as nat) >= target),
{
    proof {
        lemma2_to64();
        assert(usize::MAX <= u64::MAX);
    }
    if target <= 1 {
        proof {
            lemma_pow2_pos(d as nat);
        }
        return true;
    }
    let mut p: u128 = 1;
    let mut i: usize = 0;
    while i < d
        invariant
            i <= d,
            p == pow2(i as nat),
            p < target as u128,
        decreases d - i,
    {
        proof {
            lemma_pow2_unfold((i + 1) as nat);
        }
        p = p * 2;
        i += 1;
        if p >= target as u128 {
            proof {
                if (i as nat) < d as nat {
                    lemma_pow2_strictly_increases(i as nat, d as nat);
                }
            }
            return true;
        }
    }
    p >= target as u128
}

/// The reserved sentinel node value.
fn zero_leaf() -> (z: IMTNode)
    ensures
        z@ == zero_node(),
{
    "0".to_string()
}

/// The smallest depth whose subtree capacity reaches `target` leaves.
#[verifier::loop_isolation(false)]
fn depth_needed(target: usize) -> (d: usize)
    ensures
        d as nat == depth_for(target as nat),
{
    proof {
        lemma2_to64();
        assert(usize::MAX <= u64::MAX);
        lemma_depth_for_min(target as nat);
        lemma_depth_for_word(target as nat);
    }
    let mut p: u128 = 1;
    let mut d: usize = 0;
    while p < target as u128
        invariant
            p == pow2(d as nat),
            d as nat <= depth_for(target as nat),
        decreases depth_for(target as nat) - d,
    {
        proof {
            if d as nat >= depth_for(target as nat) {
                if d as nat > depth_for(target as nat) {
                    lemma_pow2_strictly_increases(depth_for(target as nat), d as nat);
                }
                assert(p >= target);
            }
            lemma_pow2_unfold((d + 1) as nat);
        }
        p = 2 * p;
        d = d + 1;
    }
    proof {
        lemma_depth_for_le(target as nat, d as nat);
    }
    d
}

/// The view of a leaf/position pair.
pub open spec fn pair_view(p: (IMTNode, usize)) -> (Seq<char>, nat) {
    (p.0@, p.1 as nat)
}

/// True iff the node is the reserved sentinel.
fn is_zero(s: &IMTNode) -> (b: bool)
    ensures
        b == (s@ == zero_node()),
{
    let z: String = "0".to_string();
    s.eq(&z)
}

impl LeanIMTError {
    /// A human-readable description of the error.
    pub fn message(&self) -> (m: &'static str)
        ensures
            match self {
                LeanIMTError::ZeroLeaf => m@ == "Leaf cannot be zero"@,
                LeanIMTError::DuplicateLeaf => m@ == "Leaf already exists"@,
                LeanIMTError::LeafNotFound => m@ == "Leaf does not exist"@,
                LeanIMTError::InsufficientSiblingPath => m@ == "Not enough sibling nodes"@,
                LeanIMTError::InvalidSiblingPath => m@ == "Wrong sibling nodes"@,
            },
    {
        match self {
            LeanIMTError::ZeroLeaf => "Leaf cannot be zero",
            LeanIMTError::DuplicateLeaf => "Leaf already exists",
            LeanIMTError::LeafNotFound => "Leaf does not exist",
            LeanIMTError::InsufficientSiblingPath => "Not enough sibling nodes",
            LeanIMTError::InvalidSiblingPath => "Wrong sibling nodes",
        }
    }
}

} // verus!
