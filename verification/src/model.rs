//! Mathematical model of the incremental Merkle tree.
//!
//! A tree state is abstracted as a [`TreeModel`]: the current depth, the
//! per-level side-node cache, and the sequence of node values occupying the
//! leaf positions (the reserved sentinel marks removed slots).  Every mutating
//! operation of [`crate::tree::LeanIMT`] is specified as a pure transition on
//! this model, parametric in the spec-level hash function `h` that combines
//! two child nodes.

use vstd::arithmetic::div_mod::lemma_breakdown;
use vstd::arithmetic::div_mod::lemma_div_basics_1;
use vstd::arithmetic::div_mod::lemma_div_by_multiple;
use vstd::arithmetic::div_mod::lemma_div_denominator;
use vstd::arithmetic::div_mod::lemma_div_is_ordered;
use vstd::arithmetic::div_mod::lemma_fundamental_div_mod;
use vstd::arithmetic::div_mod::lemma_fundamental_div_mod_converse;
use vstd::arithmetic::div_mod::lemma_mod_division_less_than_divisor;
use vstd::arithmetic::div_mod::lemma_mod_multiples_basic;
use vstd::arithmetic::power2::lemma2_to64;
use vstd::arithmetic::power2::lemma_pow2_adds;
use vstd::arithmetic::power2::lemma_pow2_pos;
use vstd::arithmetic::power2::lemma_pow2_strictly_increases;
use vstd::arithmetic::power2::lemma_pow2_unfold;
use vstd::arithmetic::power2::pow2;
use vstd::prelude::*;

verus! {

/// Errors reported by the tree operations.  Every failure leaves the tree in
/// its prior state.
#[derive(Clone, Copy, Debug, PartialEq, Eq, Structural)]
pub enum LeanIMTError {
    /// A leaf given to an insertion equals the reserved sentinel value.
    ZeroLeaf,
    /// A leaf value already occupies a position (or is duplicated in a batch).
    DuplicateLeaf,
    /// A referenced leaf value is not present in the tree.
    LeafNotFound,
    /// Fewer sibling nodes were supplied than the Merkle path requires.
    InsufficientSiblingPath,
    /// The old root recomputed from the supplied siblings does not match the
    /// tree's current root.
    InvalidSiblingPath,
}

/// The view of the reserved sentinel node value, which marks an absent child
/// or a removed leaf and is never a valid caller-supplied leaf.
pub open spec fn zero_node() -> Seq<char> {
    "0"@
}

/// A spec-level 2-ary node combiner.
pub type SpecHash = spec_fn(Seq<char>, Seq<char>) -> Seq<char>;

/// True iff bit `l` of `n` is set.
pub open spec fn bit_set(n: nat, l: nat) -> bool {
    (n / pow2(l)) % 2 == 1
}

/// The smallest `d` with `2^d >= n` (0 for the empty tree).
pub open spec fn depth_for(n: nat) -> nat
    decreases n,
{
    if n <= 1 {
        0
    } else {
        1 + depth_for((n + 1) / 2)
    }
}

/// Abstract state of a tree: `sides[l]` is the cached side node at level `l`
/// (`None` when the slot was never written), and `entries[p]` is the node
/// value at leaf position `p` (the sentinel for removed leaves).
#[verifier::ext_equal]
pub ghost struct TreeModel {
    pub depth: nat,
    pub sides: Seq<Option<Seq<char>>>,
    pub entries: Seq<Seq<char>>,
}

/// True iff some position holds exactly the value `x`.
pub open spec fn holds_value(entries: Seq<Seq<char>>, x: Seq<char>) -> bool {
    exists|i: int| 0 <= i < entries.len() && entries[i] == x
}

/// Membership: a non-sentinel value occupying some position.
pub open spec fn present(m: TreeModel, x: Seq<char>) -> bool {
    x != zero_node() && holds_value(m.entries, x)
}

/// The position of `x` among the entries (unique for non-sentinel values of a
/// well-formed tree).
pub open spec fn pos_of(entries: Seq<Seq<char>>, x: Seq<char>) -> int {
    choose|i: int| 0 <= i < entries.len() && entries[i] == x
}

/// Non-sentinel values occupy at most one position each.
pub open spec fn distinct_entries(entries: Seq<Seq<char>>) -> bool {
    forall|i: int, j: int|
        0 <= i < j < entries.len() && entries[i] != zero_node() ==> entries[i] != entries[j]
}

/// Well-formedness of a tree state.
pub open spec fn model_wf(m: TreeModel) -> bool {
    &&& m.depth == depth_for(m.entries.len())
    &&& (m.entries.len() == 0 ==> m.sides.len() == 0)
    &&& (m.entries.len() > 0 ==> m.sides.len() == m.depth + 1)
    &&& (forall|l: int|
        0 <= l < m.sides.len() && bit_set(m.entries.len(), l as nat) ==> m.sides[l] is Some)
    &&& (m.entries.len() > 0 ==> m.sides[m.depth as int] is Some)
    &&& distinct_entries(m.entries)
}

/// The root: the side node at the top level, absent for an empty tree.
pub open spec fn root_model(m: TreeModel) -> Option<Seq<char>> {
    if m.depth < m.sides.len() {
        m.sides[m.depth as int]
    } else {
        None
    }
}

/// The side-node sequence padded with empty slots up to `len` levels.
pub open spec fn grow_sides(sides: Seq<Option<Seq<char>>>, len: nat) -> Seq<Option<Seq<char>>> {
    if sides.len() >= len {
        sides
    } else {
        sides + Seq::new((len - sides.len()) as nat, |i: int| None)
    }
}

/// The node carried upward by a single insertion after combining with the
/// cached side node at each of the lowest `j` levels.
pub open spec fn carry_chain(
    h: SpecHash,
    sides: Seq<Option<Seq<char>>>,
    x: Seq<char>,
    j: nat,
) -> Seq<char>
    decreases j,
{
    if j == 0 {
        x
    } else {
        h(sides[j - 1].unwrap(), carry_chain(h, sides, x, (j - 1) as nat))
    }
}

/// The level at which a single insertion at position `idx` stops climbing:
/// the lowest level whose bit of `idx` is clear, capped at `d`.
pub open spec fn break_of(idx: nat, d: nat) -> nat
    decreases d,
{
    if d == 0 {
        0
    } else if idx % 2 == 0 {
        0
    } else {
        1 + break_of(idx / 2, (d - 1) as nat)
    }
}

/// The transition of a single insertion: the new state and the returned root
/// or error.  On success the carried node is written both at the level where
/// the climb stopped and at the top level (the new root).
pub open spec fn insert_result(h: SpecHash, m: TreeModel, leaf: Seq<char>) -> (
    TreeModel,
    Result<Seq<char>, LeanIMTError>,
) {
    if present(m, leaf) {
        (m, Err(LeanIMTError::DuplicateLeaf))
    } else if leaf == zero_node() {
        (m, Err(LeanIMTError::ZeroLeaf))
    } else {
        let n = m.entries.len();
        let d2 = depth_for(n + 1);
        let grown = grow_sides(m.sides, d2 + 1);
        let brk = break_of(n, d2);
        let carry = carry_chain(h, grown, leaf, brk);
        let sides2 = grown.update(brk as int, Some(carry)).update(d2 as int, Some(carry));
        (TreeModel { depth: d2, sides: sides2, entries: m.entries.push(leaf) }, Ok(carry))
    }
}

/// The root recomputed from a leaf value at position `idx` and the supplied
/// sibling nodes, over `d` levels.  `last` is the highest occupied position:
/// wherever the climbing node is a left child on the tree's rightmost spine,
/// no sibling exists and the node is promoted unchanged.
pub open spec fn path_fold(
    h: SpecHash,
    idx: nat,
    last: nat,
    d: nat,
    x: Seq<char>,
    sibs: Seq<Seq<char>>,
) -> Seq<char>
    decreases d,
{
    if d == 0 {
        x
    } else if idx % 2 == 1 {
        path_fold(h, idx / 2, last / 2, (d - 1) as nat, h(sibs[0], x), sibs.drop_first())
    } else if idx != last {
        path_fold(h, idx / 2, last / 2, (d - 1) as nat, h(x, sibs[0]), sibs.drop_first())
    } else {
        path_fold(h, idx / 2, last / 2, (d - 1) as nat, x, sibs)
    }
}

/// The number of sibling nodes a path over `d` levels consumes.
pub open spec fn path_needed(idx: nat, last: nat, d: nat) -> nat
    decreases d,
{
    if d == 0 {
        0
    } else if idx % 2 == 1 || idx != last {
        1 + path_needed(idx / 2, last / 2, (d - 1) as nat)
    } else {
        path_needed(idx / 2, last / 2, (d - 1) as nat)
    }
}

/// True iff the node climbing from position `idx` is, at level `l`, a left
/// child on the rightmost spine: its side node is refreshed by an update.
pub open spec fn spine_at(idx: nat, last: nat, l: nat) -> bool {
    (idx / pow2(l)) % 2 == 0 && idx / pow2(l) == last / pow2(l)
}

/// The transition of a proof-gated update: the old root is recomputed from
/// `oldl` and the supplied siblings and compared against the stored root
/// before anything is written.
pub open spec fn update_result(
    h: SpecHash,
    m: TreeModel,
    oldl: Seq<char>,
    newl: Seq<char>,
    sibs: Seq<Seq<char>>,
) -> (TreeModel, Result<Seq<char>, LeanIMTError>) {
    if !present(m, oldl) {
        (m, Err(LeanIMTError::LeafNotFound))
    } else if present(m, newl) {
        (m, Err(LeanIMTError::DuplicateLeaf))
    } else {
        let idx = pos_of(m.entries, oldl) as nat;
        let last = (m.entries.len() - 1) as nat;
        if path_needed(idx, last, m.depth) > sibs.len() {
            (m, Err(LeanIMTError::InsufficientSiblingPath))
        } else if root_model(m) != Some(path_fold(h, idx, last, m.depth, oldl, sibs)) {
            (m, Err(LeanIMTError::InvalidSiblingPath))
        } else {
            let newr = path_fold(h, idx, last, m.depth, newl, sibs);
            let sides2 = Seq::new(
                m.sides.len(),
                |l: int|
                    if l == m.depth {
                        Some(newr)
                    } else if spine_at(idx, last, l as nat) {
                        Some(path_fold(h, idx, last, l as nat, newl, sibs))
                    } else {
                        m.sides[l]
                    },
            );
            (
                TreeModel { depth: m.depth, sides: sides2, entries: m.entries.update(idx as int, newl) },
                Ok(newr),
            )
        }
    }
}

/// The transition of a removal: an update that writes the sentinel.
pub open spec fn remove_result(
    h: SpecHash,
    m: TreeModel,
    oldl: Seq<char>,
    sibs: Seq<Seq<char>>,
) -> (TreeModel, Result<Seq<char>, LeanIMTError>) {
    update_result(h, m, oldl, zero_node(), sibs)
}

/// True iff an earlier batch element equals the one at `j`.
pub open spec fn dup_before(batch: Seq<Seq<char>>, j: nat) -> bool {
    exists|k: int| 0 <= k < j && batch[k] == batch[j as int]
}

/// Scans a batch from index `j` for the first rejected leaf: the sentinel, a
/// value already in the tree, or a duplicate of an earlier batch element.
pub open spec fn batch_error(
    entries: Seq<Seq<char>>,
    batch: Seq<Seq<char>>,
    j: nat,
) -> Option<LeanIMTError>
    decreases batch.len() - j,
{
    if j >= batch.len() {
        None
    } else if batch[j as int] == zero_node() {
        Some(LeanIMTError::ZeroLeaf)
    } else if holds_value(entries, batch[j as int]) || dup_before(batch, j) {
        Some(LeanIMTError::DuplicateLeaf)
    } else {
        batch_error(entries, batch, j + 1)
    }
}

/// The number of nodes at a level of a tree with `sz` leaves (`sz >= 1`).
pub open spec fn level_count(sz: nat, level: nat) -> nat {
    ((sz - 1) as nat) / pow2(level) + 1
}

/// The index of the first node at a level that an `n`-leaf tree lacks.
pub open spec fn level_start(n: nat, level: nat) -> nat {
    n / pow2(level)
}

/// The new parent nodes one level up from the new `nodes` of a level.  The
/// node indices are absolute within the level: `nodes[0]` sits at `start`,
/// and the level holds `cnt` nodes in total.  A left child below `start` is
/// the cached side node; a right child at or beyond `cnt` does not exist yet
/// and its parent is the left child promoted unchanged.
pub open spec fn combine_level(
    h: SpecHash,
    side: Option<Seq<char>>,
    start: nat,
    cnt: nat,
    nodes: Seq<Seq<char>>,
) -> Seq<Seq<char>> {
    let start2 = start / 2;
    let cnt2 = ((cnt - 1) as nat) / 2 + 1;
    Seq::new(
        (cnt2 - start2) as nat,
        |i: int|
            {
                let lc = 2 * (i + start2);
                let rc = lc + 1;
                let left = if lc < start {
                    if side is Some {
                        side.unwrap()
                    } else {
                        zero_node()
                    }
                } else {
                    nodes[lc - start]
                };
                let right = if start <= rc < cnt {
                    nodes[rc - start]
                } else {
                    zero_node()
                };
                if right == zero_node() {
                    left
                } else {
                    h(left, right)
                }
            },
    )
}

/// The new nodes a batch insertion produces at each level, bottom up: level 0
/// holds the batch itself.
pub open spec fn batch_nodes(
    h: SpecHash,
    sides: Seq<Option<Seq<char>>>,
    n: nat,
    batch: Seq<Seq<char>>,
    level: nat,
) -> Seq<Seq<char>>
    decreases level,
{
    if level == 0 {
        batch
    } else {
        let lp = (level - 1) as nat;
        combine_level(
            h,
            if lp < sides.len() {
                sides[lp as int]
            } else {
                None
            },
            level_start(n, lp),
            level_count(n + batch.len(), lp),
            batch_nodes(h, sides, n, batch, lp),
        )
    }
}

/// The side node cached at a level after a batch insertion: the last new node
/// if the level's node count is odd, else the second-to-last new node if
/// there are at least two, else the slot is untouched.
pub open spec fn batch_side_at(
    h: SpecHash,
    sides: Seq<Option<Seq<char>>>,
    n: nat,
    batch: Seq<Seq<char>>,
    l: nat,
) -> Option<Seq<char>> {
    let nodes = batch_nodes(h, sides, n, batch, l);
    let cnt = level_count(n + batch.len(), l);
    if cnt % 2 == 1 {
        Some(nodes.last())
    } else if nodes.len() > 1 {
        Some(nodes[nodes.len() - 2])
    } else if l < sides.len() {
        sides[l as int]
    } else {
        None
    }
}

/// The transition of a batch insertion, processed level by level: cheaper
/// than repeated single insertions but validated the same way, and a no-op
/// when any leaf of the batch is rejected.
pub open spec fn insert_many_result(h: SpecHash, m: TreeModel, batch: Seq<Seq<char>>) -> (
    TreeModel,
    Result<Seq<char>, LeanIMTError>,
) {
    if batch_error(m.entries, batch, 0) is Some {
        (m, Err(batch_error(m.entries, batch, 0).unwrap()))
    } else if batch.len() == 0 {
        (m, Ok(root_model(m).unwrap()))
    } else {
        let n = m.entries.len();
        let sz = n + batch.len();
        let d2 = depth_for(sz);
        let root = batch_nodes(h, m.sides, n, batch, d2)[0];
        let sides2 = Seq::new(
            d2 + 1,
            |l: int|
                if l == d2 {
                    Some(root)
                } else {
                    batch_side_at(h, m.sides, n, batch, l as nat)
                },
        );
        (TreeModel { depth: d2, sides: sides2, entries: m.entries + batch }, Ok(root))
    }
}

/// The occupied leaves among the first `j` positions, as pairs of the value
/// and its 1-based position, in position order.
pub open spec fn leaf_pairs_upto(entries: Seq<Seq<char>>, j: nat) -> Seq<(Seq<char>, nat)>
    decreases j,
{
    if j == 0 {
        Seq::empty()
    } else {
        let prefix = leaf_pairs_upto(entries, (j - 1) as nat);
        if entries[j - 1] == zero_node() {
            prefix
        } else {
            prefix.push((entries[j - 1], j))
        }
    }
}

/// All occupied leaves with their 1-based positions, in position order.
pub open spec fn leaf_pairs(entries: Seq<Seq<char>>) -> Seq<(Seq<char>, nat)> {
    leaf_pairs_upto(entries, entries.len())
}

/// In a distinct sequence, a position holding a non-sentinel value is the
/// position `pos_of` picks.
pub proof fn lemma_pos_unique(entries: Seq<Seq<char>>, x: Seq<char>, i: int)
    requires
        distinct_entries(entries),
        0 <= i < entries.len(),
        entries[i] == x,
        x != zero_node(),
    ensures
        pos_of(entries, x) == i,
{
    let j = pos_of(entries, x);
    assert(0 <= j < entries.len() && entries[j] == x);
}

/// Extending a path by one level consumes one more sibling exactly when the
/// climbing node has one at that level.
pub proof fn lemma_path_needed_snoc(idx: nat, last: nat, l: nat)
    ensures
        path_needed(idx, last, l + 1) == path_needed(idx, last, l) + (
        if (idx / pow2(l)) % 2 == 1 || idx / pow2(l) != last / pow2(l) {
            1int
        } else {
            0int
        }),
    decreases l,
{
    lemma2_to64();
    if l == 0 {
        assert(idx / pow2(0) == idx);
        assert(last / pow2(0) == last);
        assert(path_needed(idx / 2, last / 2, 0) == 0);
    } else {
        lemma_path_needed_snoc(idx / 2, last / 2, (l - 1) as nat);
        lemma_shift_step_down(idx, (l - 1) as nat);
        lemma_shift_step_down(last, (l - 1) as nat);
    }
}

/// Sibling consumption is monotone in the number of levels walked.
pub proof fn lemma_path_needed_mono(idx: nat, last: nat, d1: nat, d2: nat)
    requires
        d1 <= d2,
    ensures
        path_needed(idx, last, d1) <= path_needed(idx, last, d2),
    decreases d2 - d1,
{
    if d1 < d2 {
        lemma_path_needed_snoc(idx, last, (d2 - 1) as nat);
        lemma_path_needed_mono(idx, last, d1, (d2 - 1) as nat);
    }
}

/// Unfolds a path fold at its top level: the value over `l + 1` levels is the
/// value over `l` levels combined with the sibling consumed at level `l`, if
/// any.
pub proof fn lemma_path_fold_snoc(
    h: SpecHash,
    idx: nat,
    last: nat,
    l: nat,
    x: Seq<char>,
    sibs: Seq<Seq<char>>,
)
    requires
        path_needed(idx, last, l + 1) <= sibs.len(),
    ensures
        (idx / pow2(l)) % 2 == 1 ==> path_fold(h, idx, last, l + 1, x, sibs) == h(
            sibs[path_needed(idx, last, l) as int],
            path_fold(h, idx, last, l, x, sibs),
        ),
        (idx / pow2(l)) % 2 == 0 && idx / pow2(l) != last / pow2(l) ==> path_fold(
            h,
            idx,
            last,
            l + 1,
            x,
            sibs,
        ) == h(path_fold(h, idx, last, l, x, sibs), sibs[path_needed(idx, last, l) as int]),
        (idx / pow2(l)) % 2 == 0 && idx / pow2(l) == last / pow2(l) ==> path_fold(
            h,
            idx,
            last,
            l + 1,
            x,
            sibs,
        ) == path_fold(h, idx, last, l, x, sibs),
    decreases l,
{
    lemma2_to64();
    lemma_path_needed_snoc(idx, last, l);
    if l == 0 {
        assert(idx / pow2(0) == idx);
        assert(last / pow2(0) == last);
        assert(path_needed(idx / 2, last / 2, 0) == 0);
        assert(path_fold(h, idx / 2, last / 2, 0, h(sibs[0], x), sibs.drop_first()) == h(
            sibs[0],
            x,
        ));
        assert(path_fold(h, idx / 2, last / 2, 0, h(x, sibs[0]), sibs.drop_first()) == h(
            x,
            sibs[0],
        ));
        assert(path_fold(h, idx / 2, last / 2, 0, x, sibs) == x);
    } else {
        lemma_shift_step_down(idx, (l - 1) as nat);
        lemma_shift_step_down(last, (l - 1) as nat);
        lemma_path_needed_snoc(idx / 2, last / 2, (l - 1) as nat);
        if idx % 2 == 1 {
            lemma_path_fold_snoc(
                h,
                idx / 2,
                last / 2,
                (l - 1) as nat,
                h(sibs[0], x),
                sibs.drop_first(),
            );
            assert(forall|k: int|
                0 <= k < sibs.len() - 1 ==> sibs.drop_first()[k] == sibs[k + 1]);
            assert(path_needed(idx, last, l) == 1 + path_needed(idx / 2, last / 2, (l - 1) as nat));
        } else if idx != last {
            lemma_path_fold_snoc(
                h,
                idx / 2,
                last / 2,
                (l - 1) as nat,
                h(x, sibs[0]),
                sibs.drop_first(),
            );
            assert(forall|k: int|
                0 <= k < sibs.len() - 1 ==> sibs.drop_first()[k] == sibs[k + 1]);
            assert(path_needed(idx, last, l) == 1 + path_needed(idx / 2, last / 2, (l - 1) as nat));
        } else {
            lemma_path_fold_snoc(h, idx / 2, last / 2, (l - 1) as nat, x, sibs);
        }
    }
}

/// A successful update preserves well-formedness: the shape is untouched and
/// only refreshed side nodes and the replaced entry change.
pub proof fn lemma_update_wf(
    h: SpecHash,
    m: TreeModel,
    oldl: Seq<char>,
    newl: Seq<char>,
    sibs: Seq<Seq<char>>,
)
    requires
        model_wf(m),
        update_result(h, m, oldl, newl, sibs).1 is Ok,
    ensures
        model_wf(update_result(h, m, oldl, newl, sibs).0),
{
    let m2 = update_result(h, m, oldl, newl, sibs).0;
    let idx = pos_of(m.entries, oldl);
    assert(0 <= idx < m.entries.len() && m.entries[idx] == oldl);
    assert(m2.entries.len() == m.entries.len());
    assert(forall|l: int|
        0 <= l < m.sides.len() && m.sides[l] is Some ==> m2.sides[l] is Some);
    assert forall|i: int, j: int|
        0 <= i < j < m2.entries.len() && m2.entries[i] != zero_node() implies m2.entries[i]
        != m2.entries[j] by {
        if i == idx || j == idx {
            if newl != zero_node() {
                assert(!holds_value(m.entries, newl));
            }
        }
    }
}

/// A clean batch is clean at every index.
pub proof fn lemma_batch_error_all(entries: Seq<Seq<char>>, batch: Seq<Seq<char>>, j: nat)
    requires
        batch_error(entries, batch, j) is None,
    ensures
        forall|i: nat|
            j <= i < batch.len() ==> batch[i as int] != zero_node() && !holds_value(
                entries,
                #[trigger] batch[i as int],
            ) && !dup_before(batch, i),
    decreases batch.len() - j,
{
    if j < batch.len() {
        lemma_batch_error_all(entries, batch, j + 1);
    }
}

/// Relates the node count of a level to the shifted leaf count: one more
/// than the shift when the division is inexact.
pub proof fn lemma_level_count_parity(sz: nat, l: nat)
    requires
        sz >= 1,
    ensures
        sz % pow2(l) == 0 ==> level_count(sz, l) == sz / pow2(l),
        sz % pow2(l) != 0 ==> level_count(sz, l) == sz / pow2(l) + 1,
{
    let p = pow2(l) as int;
    lemma_pow2_pos(l);
    let q = sz as int / p;
    let r = sz as int % p;
    lemma_fundamental_div_mod(sz as int, p);
    lemma_mod_division_less_than_divisor(sz as int, p);
    if r == 0 {
        assert(q >= 1) by {
            if q <= 0 {
                assert(p * q <= 0) by (nonlinear_arith)
                    requires
                        p > 0,
                        q <= 0,
                ;
            }
        }
        assert(sz as int - 1 == p * (q - 1) + (p - 1)) by {
            assert(p * (q - 1) == p * q - p) by (nonlinear_arith);
        }
        lemma_fundamental_div_mod_converse(sz as int - 1, p, q - 1, p - 1);
    } else {
        lemma_fundamental_div_mod_converse(sz as int - 1, p, q, r - 1);
    }
}

/// The dimensions of the new-node lists: at every level the new nodes fill
/// the level from `level_start` up to `level_count`.
pub proof fn lemma_batch_dims(
    h: SpecHash,
    sides: Seq<Option<Seq<char>>>,
    n: nat,
    batch: Seq<Seq<char>>,
    level: nat,
)
    requires
        batch.len() >= 1,
    ensures
        level_start(n, level) + 1 <= level_count(n + batch.len(), level),
        batch_nodes(h, sides, n, batch, level).len() == level_count(n + batch.len(), level)
            - level_start(n, level),
    decreases level,
{
    lemma2_to64();
    let sz = n + batch.len();
    if level == 0 {
        assert(pow2(0) == 1);
        assert(((sz - 1) as nat) / pow2(0) == sz - 1) by {
            lemma_div_basics_1(sz as int - 1);
        }
        assert(n / pow2(0) == n) by {
            lemma_div_basics_1(n as int);
        }
    } else {
        let lp = (level - 1) as nat;
        lemma_batch_dims(h, sides, n, batch, lp);
        lemma_shift_step((sz - 1) as nat, lp);
        lemma_shift_step(n, lp);
        let cnt = level_count(sz as nat, lp);
        let start = level_start(n, lp);
        assert(level_count(sz as nat, level) == ((cnt - 1) as nat) / 2 + 1);
        assert(level_start(n, level) == start / 2);
        assert(((start) as int) / 2 <= ((cnt - 1) as int) / 2) by {
            lemma_div_is_ordered(start as int, cnt as int - 1, 2);
        }
    }
}

/// A successful batch insertion preserves well-formedness.
pub proof fn lemma_insert_many_wf(h: SpecHash, m: TreeModel, batch: Seq<Seq<char>>)
    requires
        model_wf(m),
        batch_error(m.entries, batch, 0) is None,
        batch.len() >= 1,
    ensures
        model_wf(insert_many_result(h, m, batch).0),
{
    lemma_batch_error_all(m.entries, batch, 0);
    let n = m.entries.len();
    let sz = n + batch.len();
    let d2 = depth_for(sz);
    let m2 = insert_many_result(h, m, batch).0;
    assert(m2.entries.len() == sz);
    lemma_depth_for_min(sz);
    assert forall|l: int|
        0 <= l < m2.sides.len() && bit_set(sz as nat, l as nat) implies m2.sides[l] is Some by {
        if l != d2 {
            let ln = l as nat;
            let p = pow2(ln);
            lemma_pow2_pos(ln);
            let f = sz as nat / p;
            lemma_level_count_parity(sz as nat, ln);
            lemma_batch_dims(h, m.sides, n, batch, ln);
            let cnt = level_count(sz as nat, ln);
            let start = level_start(n, ln);
            let nodes = batch_nodes(h, m.sides, n, batch, ln);
            assert(m2.sides[l] == batch_side_at(h, m.sides, n, batch, ln));
            if sz as nat % p == 0 {
                assert(cnt == f && cnt % 2 == 1);
                assert(batch_side_at(h, m.sides, n, batch, ln) is Some);
            } else {
                assert(cnt == f + 1 && cnt % 2 == 0);
                if nodes.len() <= 1 {
                    // the second-to-last node is an old one: the old tree
                    // already ended in an uncombined node at this level
                    assert(start <= f) by {
                        lemma_div_is_ordered(n as int, sz as int, p as int);
                    }
                    assert(start == f);
                    assert(bit_set(n, ln));
                    lemma_side_present(m, ln);
                    assert(batch_side_at(h, m.sides, n, batch, ln) == m.sides[l]);
                }
            }
        }
    }
    assert forall|i: int, j: int|
        0 <= i < j < m2.entries.len() && m2.entries[i] != zero_node() implies m2.entries[i]
        != m2.entries[j] by {
        if i < n && j >= n {
            if m2.entries[i] == m2.entries[j] {
                assert(holds_value(m.entries, batch[j - n]));
            }
        } else if i >= n {
            if m2.entries[i] == m2.entries[j] {
                assert(dup_before(batch, (j - n) as nat));
            }
        }
    }
}

/// `depth_for(n)` is a height whose subtree capacity reaches `n`, and the
/// smallest such: one level less no longer suffices.
pub proof fn lemma_depth_for_min(n: nat)
    ensures
        pow2(depth_for(n)) >= n,
        depth_for(n) > 0 ==> pow2((depth_for(n) - 1) as nat) < n,
    decreases n,
{
    lemma2_to64();
    if n > 1 {
        let m = ((n + 1) / 2) as nat;
        assert(m < n && m >= 1) by {
            lemma_fundamental_div_mod(n as int + 1, 2);
            lemma_mod_division_less_than_divisor(n as int + 1, 2);
        }
        lemma_depth_for_min(m);
        let dm = depth_for(m);
        assert(depth_for(n) == 1 + dm);
        lemma_pow2_unfold(dm + 1);
        assert(2 * m >= n) by {
            lemma_fundamental_div_mod(n as int + 1, 2);
            lemma_mod_division_less_than_divisor(n as int + 1, 2);
        }
        assert(pow2(dm + 1) == 2 * pow2(dm) >= 2 * m >= n);
        if dm == 0 {
            assert(pow2(0) < n);
        } else {
            lemma_pow2_unfold(dm);
            assert(pow2(dm) == 2 * pow2((dm - 1) as nat) < 2 * m);
            assert(2 * m <= n + 1) by {
                lemma_fundamental_div_mod(n as int + 1, 2);
                lemma_mod_division_less_than_divisor(n as int + 1, 2);
            }
            if pow2(dm) == n {
                // pow2(dm) is even for dm > 0, so n is even and 2 * m <= n,
                // contradicting pow2(dm) < 2 * m.
                assert(pow2(dm) % 2 == 0) by {
                    lemma_pow2_unfold(dm);
                    lemma_mod_multiples_basic(pow2((dm - 1) as nat) as int, 2);
                }
                assert((n + 1) % 2 == 1) by {
                    lemma_fundamental_div_mod_converse(
                        n as int + 1,
                        2,
                        (n as int) / 2 + ((n as int) % 2 == 0) as int,
                        1,
                    );
                }
                assert(2 * m == n);
            }
        }
    }
}

/// Any height whose capacity reaches `n` is at least `depth_for(n)`.
pub proof fn lemma_depth_for_le(n: nat, d: nat)
    requires
        pow2(d) >= n,
    ensures
        depth_for(n) <= d,
    decreases n,
{
    lemma2_to64();
    if n > 1 {
        let m = ((n + 1) / 2) as nat;
        assert(m < n && m >= 1) by {
            lemma_fundamental_div_mod(n as int + 1, 2);
            lemma_mod_division_less_than_divisor(n as int + 1, 2);
        }
        assert(d >= 1) by {
            if d == 0 {
                assert(pow2(0) == 1 < n);
            }
        }
        let p = pow2((d - 1) as nat);
        assert(pow2(d) == 2 * p) by {
            lemma_pow2_unfold(d);
        }
        assert(m <= p) by {
            assert(n + 1 <= 2 * p + 1);
            assert((2 * p + 1) / 2 == p) by {
                lemma_fundamental_div_mod_converse(2 * (p as int) + 1, 2, p as int, 1);
            }
            lemma_div_is_ordered(n as int + 1, 2 * (p as int) + 1, 2);
        }
        lemma_depth_for_le(m, (d - 1) as nat);
    }
}

/// `depth_for` is monotone in the number of leaves: the depth never shrinks.
pub proof fn lemma_depth_for_mono(a: nat, b: nat)
    requires
        a <= b,
    ensures
        depth_for(a) <= depth_for(b),
{
    lemma_depth_for_min(b);
    lemma_depth_for_le(a, depth_for(b));
}

/// Growth by a single leaf raises the depth by at most one level, exactly
/// when the current capacity is exhausted.
pub proof fn lemma_depth_for_succ(n: nat)
    ensures
        depth_for(n + 1) == if pow2(depth_for(n)) >= n + 1 {
            depth_for(n)
        } else {
            depth_for(n) + 1
        },
{
    let d = depth_for(n);
    lemma_depth_for_min(n);
    lemma_depth_for_min((n + 1) as nat);
    lemma_depth_for_mono(n, (n + 1) as nat);
    if pow2(d) >= n + 1 {
        lemma_depth_for_le((n + 1) as nat, d);
    } else {
        let d2 = depth_for((n + 1) as nat);
        assert(d2 > d) by {
            if d2 <= d {
                if d2 < d {
                    lemma_pow2_strictly_increases(d2, d);
                }
                assert(pow2(d2) <= pow2(d));
            }
        }
        assert(d2 <= d + 1) by {
            lemma_pow2_unfold(d + 1);
            assert(pow2(d + 1) == 2 * pow2(d));
            assert(n >= 1) by {
                lemma2_to64();
                if n == 0 {
                    assert(pow2(0) == 1 >= n + 1);
                }
            }
            assert(pow2(d) >= n);
            assert(pow2(d + 1) >= n + 1);
            lemma_depth_for_le((n + 1) as nat, d + 1);
        }
    }
}

/// Any leaf count that a machine word can hold needs at most 64 levels.
pub proof fn lemma_depth_for_word(n: nat)
    requires
        n <= u64::MAX,
    ensures
        depth_for(n) <= 64,
{
    lemma2_to64();
    lemma_depth_for_le(n, 64);
}

/// If every bit of `n` below `k` is set, `n` is congruent to `2^k - 1`.
pub proof fn lemma_all_ones_below(n: nat, k: nat)
    requires
        forall|j: nat| j < k ==> #[trigger] bit_set(n, j),
    ensures
        n % pow2(k) == pow2(k) - 1,
    decreases k,
{
    if k == 0 {
        lemma2_to64();
        lemma_fundamental_div_mod_converse(n as int, 1, n as int, 0);
    } else {
        let km = (k - 1) as nat;
        lemma_all_ones_below(n, km);
        let p = pow2(km) as int;
        lemma_pow2_pos(km);
        assert(bit_set(n, km));
        lemma_breakdown(n as int, p, 2);
        lemma_pow2_unfold(k);
        assert(n as int % (p * 2) == p * ((n as int / p) % 2) + n as int % p);
        assert(pow2(k) == (p * 2));
    }
}

/// How the binary representation changes when `n` grows by one, where `k` is
/// the lowest clear bit of `n`: bits below `k` clear, bit `k` becomes set,
/// and the bits above `k` are untouched.
pub proof fn lemma_bits_of_incr(n: nat, k: nat)
    requires
        forall|j: nat| j < k ==> #[trigger] bit_set(n, j),
        !bit_set(n, k),
    ensures
        (n + 1) / pow2(k) == n / pow2(k) + 1,
        bit_set((n + 1) as nat, k),
        forall|l: nat| l < k ==> !#[trigger] bit_set((n + 1) as nat, l),
        forall|l: nat| l > k ==> (n + 1) / pow2(l) == n / pow2(l),
{
    let p = pow2(k) as int;
    lemma_pow2_pos(k);
    let q = n as int / p;
    lemma_all_ones_below(n, k);
    lemma_fundamental_div_mod(n as int, p);
    assert(n as int == p * q + (p - 1));
    assert(p * (q + 1) == p * q + p) by (nonlinear_arith);
    assert(n as int + 1 == p * (q + 1));
    assert((n + 1) as int / p == q + 1) by {
        lemma_div_by_multiple(q + 1, p);
        assert(((q + 1) * p) / p == q + 1);
        assert(p * (q + 1) == (q + 1) * p) by {
            vstd::arithmetic::mul::lemma_mul_is_commutative(p, q + 1);
        }
    }
    assert(q % 2 == 0);
    assert((q + 1) % 2 == 1) by {
        lemma_fundamental_div_mod(q, 2);
        lemma_fundamental_div_mod_converse(q + 1, 2, q / 2, 1);
    }
    assert forall|l: nat| l < k implies !#[trigger] bit_set((n + 1) as nat, l) by {
        let pl = pow2(l) as int;
        lemma_pow2_pos(l);
        let w = pow2((k - l) as nat) as int;
        lemma_pow2_pos((k - l) as nat);
        lemma_pow2_adds(l, (k - l) as nat);
        assert(p == pl * w);
        assert(n as int + 1 == pl * (w * (q + 1))) by {
            vstd::arithmetic::mul::lemma_mul_is_associative(pl, w, q + 1);
        }
        assert((n + 1) as int / pl == w * (q + 1)) by {
            lemma_div_by_multiple(w * (q + 1), pl);
            vstd::arithmetic::mul::lemma_mul_is_commutative(pl, w * (q + 1));
        }
        assert(w % 2 == 0) by {
            lemma_pow2_unfold((k - l) as nat);
            lemma_mod_multiples_basic(pow2((k - l - 1) as nat) as int, 2);
        }
        assert((w * (q + 1)) % 2 == 0) by {
            let half = w / 2;
            assert(w == 2 * half);
            lemma_fundamental_div_mod(w, 2);
            assert(w * (q + 1) == 2 * (half * (q + 1))) by {
                vstd::arithmetic::mul::lemma_mul_is_associative(2, half, q + 1);
            }
            lemma_mod_multiples_basic(half * (q + 1), 2);
            vstd::arithmetic::mul::lemma_mul_is_commutative(half * (q + 1), 2);
        }
    }
    assert forall|l: nat| l > k implies (n + 1) / pow2(l) == n / pow2(l) by {
        let j = (l - k) as nat;
        let pj = pow2(j) as int;
        lemma_pow2_pos(j);
        lemma_pow2_adds(k, j);
        lemma_div_denominator(n as int, p, pj);
        lemma_div_denominator(n as int + 1, p, pj);
        assert(n as int / pow2(l) as int == q / pj);
        assert((n as int + 1) / pow2(l) as int == (q + 1) / pj);
        assert((q + 1) / pj == q / pj) by {
            let half = q / 2;
            assert(q == 2 * half) by {
                lemma_fundamental_div_mod(q, 2);
            }
            assert((q + 1) / 2 == half && q / 2 == half) by {
                lemma_fundamental_div_mod_converse(q + 1, 2, half, 1);
            }
            let pjm = pow2((j - 1) as nat) as int;
            lemma_pow2_pos((j - 1) as nat);
            lemma_pow2_unfold(j);
            lemma_div_denominator(q, 2, pjm);
            lemma_div_denominator(q + 1, 2, pjm);
            assert(q / pj == half / pjm);
            assert((q + 1) / pj == half / pjm);
        }
    }
}

/// The binary representation of a power of two: only the one bit is set.
pub proof fn lemma_pow2_bits(d: nat, l: nat)
    ensures
        l <= d ==> (bit_set(pow2(d), l) <==> l == d),
{
    if l <= d {
        lemma2_to64();
        let w = pow2((d - l) as nat) as int;
        lemma_pow2_pos(l);
        lemma_pow2_pos((d - l) as nat);
        lemma_pow2_adds(l, (d - l) as nat);
        assert(pow2(d) as int == pow2(l) as int * w);
        assert(pow2(d) as int / pow2(l) as int == w) by {
            lemma_div_by_multiple(w, pow2(l) as int);
            vstd::arithmetic::mul::lemma_mul_is_commutative(pow2(l) as int, w);
        }
        if l == d {
            assert(w == 1);
        } else {
            assert(w % 2 == 0) by {
                lemma_pow2_unfold((d - l) as nat);
                lemma_mod_multiples_basic(pow2((d - l - 1) as nat) as int, 2);
            }
        }
    }
}

/// A set bit witnesses that `n` reaches that power of two.
pub proof fn lemma_bit_le(n: nat, l: nat)
    requires
        bit_set(n, l),
    ensures
        pow2(l) <= n,
{
    lemma_pow2_pos(l);
    if n < pow2(l) {
        assert(n as int / pow2(l) as int == 0) by {
            lemma_fundamental_div_mod_converse(n as int, pow2(l) as int, 0, n as int);
        }
    }
}

/// Dividing twice by two is dividing by the next power of two.
pub proof fn lemma_shift_step(n: nat, l: nat)
    ensures
        (n / pow2(l)) / 2 == n / pow2(l + 1),
{
    lemma_pow2_pos(l);
    lemma_pow2_unfold(l + 1);
    lemma_div_denominator(n as int, pow2(l) as int, 2);
}

/// A level with a set bit of the leaf count holds a cached side node.
pub proof fn lemma_side_present(m: TreeModel, l: nat)
    requires
        model_wf(m),
        bit_set(m.entries.len(), l),
    ensures
        l < m.sides.len(),
        m.sides[l as int] is Some,
{
    let n = m.entries.len();
    lemma_bit_le(n, l);
    lemma_pow2_pos(l);
    lemma_depth_for_min(n);
    assert(l <= m.depth) by {
        if l > m.depth {
            lemma_pow2_strictly_increases(m.depth, l);
        }
    }
}

/// The properties of the break level: every bit below it is set, and the bit
/// at it is clear unless the cap was reached.
pub proof fn lemma_break_of_props(idx: nat, d: nat)
    ensures
        break_of(idx, d) <= d,
        forall|j: nat| j < break_of(idx, d) ==> #[trigger] bit_set(idx, j),
        break_of(idx, d) < d ==> !bit_set(idx, break_of(idx, d)),
    decreases d,
{
    lemma2_to64();
    if d == 0 {
    } else if idx % 2 == 0 {
        assert(idx / pow2(0) == idx);
        assert(!bit_set(idx, 0));
    } else {
        lemma_break_of_props(idx / 2, (d - 1) as nat);
        let b = break_of(idx / 2, (d - 1) as nat);
        assert(break_of(idx, d) == 1 + b);
        assert forall|j: nat| j < 1 + b implies #[trigger] bit_set(idx, j) by {
            if j == 0 {
                assert(idx / pow2(0) == idx);
            } else {
                assert(bit_set(idx / 2, (j - 1) as nat));
                lemma_shift_step_down(idx, (j - 1) as nat);
            }
        }
        if 1 + b < d {
            assert(!bit_set(idx / 2, b));
            lemma_shift_step_down(idx, b);
        }
    }
}

/// Shifting once and then by `l` levels is shifting by `l + 1` levels.
pub proof fn lemma_shift_step_down(n: nat, l: nat)
    ensures
        (n / 2) / pow2(l) == n / pow2(l + 1),
{
    lemma_pow2_pos(l);
    lemma_pow2_adds(1, l);
    assert(pow2(1) == 2) by {
        lemma2_to64();
    }
    lemma_div_denominator(n as int, 2, pow2(l) as int);
}

/// A successful insertion preserves well-formedness.
pub proof fn lemma_insert_wf(h: SpecHash, m: TreeModel, leaf: Seq<char>)
    requires
        model_wf(m),
        !present(m, leaf),
        leaf != zero_node(),
    ensures
        model_wf(insert_result(h, m, leaf).0),
{
    let n = m.entries.len();
    let d = m.depth;
    let d2 = depth_for(n + 1);
    let grown = grow_sides(m.sides, d2 + 1);
    let brk = break_of(n, d2);
    let m2 = insert_result(h, m, leaf).0;
    lemma_depth_for_min(n);
    lemma_depth_for_min((n + 1) as nat);
    lemma_depth_for_mono(n, (n + 1) as nat);
    lemma_break_of_props(n, d2);
    assert(m2.entries.len() == n + 1);
    assert(grown.len() == d2 + 1);
    assert(m2.sides.len() == d2 + 1);
    // the values of the old side slots survive into `grown`
    assert(forall|l: int| 0 <= l < m.sides.len() ==> grown[l] == m.sides[l]);
    if brk < d2 {
        lemma_bits_of_incr(n, brk);
        assert forall|l: int|
            0 <= l < m2.sides.len() && bit_set((n + 1) as nat, l as nat) implies m2.sides[l]
            is Some by {
            if l == d2 || l == brk {
            } else {
                assert(l != brk && l != d2);
                if (l as nat) < brk {
                    assert(!bit_set((n + 1) as nat, l as nat));
                } else {
                    assert(bit_set(n, l as nat));
                    lemma_side_present(m, l as nat);
                    assert(m2.sides[l] == m.sides[l]);
                }
            }
        }
    } else {
        // every level below the new depth carried: the new size is exactly
        // the capacity of the new depth
        lemma_all_ones_below(n, d2);
        let p = pow2(d2) as int;
        lemma_pow2_pos(d2);
        let q = n as int / p;
        lemma_fundamental_div_mod(n as int, p);
        assert(n as int == p * q + (p - 1));
        assert(q == 0) by {
            if q >= 1 {
                assert(p * q >= p) by (nonlinear_arith)
                    requires
                        p > 0,
                        q >= 1,
                ;
            }
        }
        assert(n + 1 == pow2(d2));
        assert forall|l: int|
            0 <= l < m2.sides.len() && bit_set((n + 1) as nat, l as nat) implies m2.sides[l]
            is Some by {
            lemma_pow2_bits(d2, l as nat);
            assert(l == d2);
        }
    }
    assert(m2.sides[d2 as int] is Some);
    // distinctness: the appended leaf occupies no other position
    assert forall|i: int, j: int|
        0 <= i < j < m2.entries.len() && m2.entries[i] != zero_node() implies m2.entries[i]
        != m2.entries[j] by {
        if j == n {
            assert(m2.entries[j] == leaf);
            if m2.entries[i] == leaf {
                assert(holds_value(m.entries, leaf));
            }
        }
    }
}

/// Characterizes the break level of an insertion: the lowest clear bit of
/// `idx`, capped at `d`.
pub proof fn lemma_break_of_is(idx: nat, d: nat, k: nat)
    requires
        k <= d,
        forall|j: nat| j < k ==> #[trigger] bit_set(idx, j),
        k < d ==> !bit_set(idx, k),
    ensures
        break_of(idx, d) == k,
    decreases k,
{
    lemma2_to64();
    if k == 0 {
        if d > 0 {
            assert(!bit_set(idx, 0));
            assert(idx / pow2(0) == idx);
            assert(idx % 2 == 0);
        }
    } else {
        assert(bit_set(idx, 0));
        assert(idx / pow2(0) == idx);
        assert(idx % 2 == 1);
        assert forall|j: nat| j < k - 1 implies #[trigger] bit_set(idx / 2, j) by {
            lemma_shift_step(idx, j);
            assert(pow2(0 + 1) == 2 * pow2(0)) by {
                lemma_pow2_unfold(1);
            }
            assert((idx / 2) / pow2(j) == (idx / pow2(1)) / pow2(j)) by {
                assert(pow2(1) == 2);
            }
            assert((idx / pow2(1)) / pow2(j) == idx / pow2(j + 1)) by {
                lemma_pow2_pos(j);
                lemma_pow2_adds(1, j);
                lemma_div_denominator(idx as int, 2, pow2(j) as int);
            }
            assert(bit_set(idx, (j + 1) as nat));
        }
        if k - 1 < d - 1 {
            assert(!bit_set(idx, k));
            assert((idx / 2) / pow2((k - 1) as nat) == idx / pow2(k)) by {
                lemma_pow2_pos((k - 1) as nat);
                lemma_pow2_adds(1, (k - 1) as nat);
                lemma_div_denominator(idx as int, 2, pow2((k - 1) as nat) as int);
                assert(pow2(1) == 2);
            }
            assert(!bit_set(idx / 2, (k - 1) as nat));
        }
        lemma_break_of_is(idx / 2, (d - 1) as nat, (k - 1) as nat);
    }
}


} // verus!
