//! Laws relating the tree operations, stated and proved over the model.

use crate::model::LeanIMTError;
use crate::model::SpecHash;
use crate::model::TreeModel;
use crate::model::batch_error;
use crate::model::batch_nodes;
use crate::model::batch_side_at;
use crate::model::break_of;
use crate::model::carry_chain;
use crate::model::combine_level;
use crate::model::depth_for;
use crate::model::dup_before;
use crate::model::grow_sides;
use crate::model::holds_value;
use crate::model::level_count;
use crate::model::level_start;
use crate::model::insert_many_result;
use crate::model::insert_result;
use crate::model::lemma_depth_for_min;
use crate::model::lemma_depth_for_mono;
use crate::model::lemma_insert_wf;
use crate::model::lemma_pos_unique;
use crate::model::lemma_update_wf;
use crate::model::model_wf;
use crate::model::pos_of;
use crate::model::present;
use crate::model::remove_result;
use crate::model::root_model;
use crate::model::update_result;
use crate::model::zero_node;
use vstd::arithmetic::div_mod::lemma_div_basics_1;
use vstd::arithmetic::power2::lemma2_to64;
use vstd::arithmetic::power2::pow2;
use vstd::prelude::*;

verus! {

/// The root is absent if and only if the tree is empty: a tree whose leaves
/// were all removed still has a root (built from sentinel values).
pub proof fn lemma_root_none_iff_empty(m: TreeModel)
    requires
        model_wf(m),
    ensures
        (root_model(m) is None) <==> m.entries.len() == 0,
{
}

/// After a successful insertion the leaf is a member, and its 0-based
/// position is the previous size: one less than the new size.
pub proof fn lemma_insert_membership(h: SpecHash, m: TreeModel, leaf: Seq<char>)
    requires
        model_wf(m),
        insert_result(h, m, leaf).1 is Ok,
    ensures
        present(insert_result(h, m, leaf).0, leaf),
        insert_result(h, m, leaf).0.entries.len() == m.entries.len() + 1,
        pos_of(insert_result(h, m, leaf).0.entries, leaf) == m.entries.len(),
{
    let m2 = insert_result(h, m, leaf).0;
    let n = m.entries.len() as int;
    assert(m2.entries[n] == leaf);
    lemma_insert_wf(h, m, leaf);
    lemma_pos_unique(m2.entries, leaf, n);
}

/// The depth is the ceiling of the base-two logarithm of the size: the
/// smallest height whose capacity reaches the leaf count, and zero for an
/// empty tree.
pub proof fn lemma_depth_is_ceil_log2(n: nat)
    ensures
        n <= 1 ==> depth_for(n) == 0,
        pow2(depth_for(n)) >= n,
        depth_for(n) > 0 ==> pow2((depth_for(n) - 1) as nat) < n,
{
    lemma_depth_for_min(n);
}

/// The depth never decreases: a single insertion can only deepen the tree.
pub proof fn lemma_depth_monotone_insert(h: SpecHash, m: TreeModel, leaf: Seq<char>)
    requires
        model_wf(m),
    ensures
        insert_result(h, m, leaf).0.depth >= m.depth,
{
    lemma_depth_for_mono(m.entries.len(), (m.entries.len() + 1) as nat);
}

/// The depth never decreases: a batch insertion can only deepen the tree.
pub proof fn lemma_depth_monotone_insert_many(h: SpecHash, m: TreeModel, batch: Seq<Seq<char>>)
    requires
        model_wf(m),
    ensures
        insert_many_result(h, m, batch).0.depth >= m.depth,
{
    lemma_depth_for_mono(m.entries.len(), (m.entries.len() + batch.len()) as nat);
}

/// Updates and removals never change the size or the depth.
pub proof fn lemma_depth_constant_update(
    h: SpecHash,
    m: TreeModel,
    oldl: Seq<char>,
    newl: Seq<char>,
    sibs: Seq<Seq<char>>,
)
    ensures
        update_result(h, m, oldl, newl, sibs).0.depth == m.depth,
        update_result(h, m, oldl, newl, sibs).0.entries.len() == m.entries.len(),
{
}

/// An accepted update is reversible: updating back with the same sibling
/// path succeeds and restores both the original root and the original
/// entries exactly.
pub proof fn lemma_update_roundtrip(
    h: SpecHash,
    m: TreeModel,
    oldl: Seq<char>,
    newl: Seq<char>,
    sibs: Seq<Seq<char>>,
)
    requires
        model_wf(m),
        newl != zero_node(),
        update_result(h, m, oldl, newl, sibs).1 is Ok,
    ensures
        update_result(h, update_result(h, m, oldl, newl, sibs).0, newl, oldl, sibs).1 == Ok::<
            Seq<char>,
            LeanIMTError,
        >(root_model(m).unwrap()),
        root_model(update_result(h, update_result(h, m, oldl, newl, sibs).0, newl, oldl, sibs).0)
            == root_model(m),
        update_result(h, update_result(h, m, oldl, newl, sibs).0, newl, oldl, sibs).0.entries
            == m.entries,
{
    let m1 = update_result(h, m, oldl, newl, sibs).0;
    let idx = pos_of(m.entries, oldl);
    assert(0 <= idx < m.entries.len() && m.entries[idx] == oldl);
    lemma_update_wf(h, m, oldl, newl, sibs);
    // after the first update the new leaf sits exactly where the old one was
    assert(m1.entries[idx] == newl);
    assert(present(m1, newl));
    lemma_pos_unique(m1.entries, newl, idx);
    // the old leaf is gone: it occupied only that position
    assert(!present(m1, oldl)) by {
        assert(oldl != newl);
        assert forall|i: int| 0 <= i < m1.entries.len() implies m1.entries[i] != oldl by {
            if i != idx {
                assert(m.entries[i] == m1.entries[i]);
            }
        }
    }
    let m2 = update_result(h, m1, newl, oldl, sibs).0;
    assert(m2.entries =~= m.entries);
}

/// Removing a leaf and then inserting another leaves the removed one absent,
/// the new one present at a fresh position, and the removed slot holding the
/// sentinel: positions are never reused.
pub proof fn lemma_remove_then_insert(
    h: SpecHash,
    m: TreeModel,
    x: Seq<char>,
    y: Seq<char>,
    sibs: Seq<Seq<char>>,
)
    requires
        model_wf(m),
        remove_result(h, m, x, sibs).1 is Ok,
        y != x,
        insert_result(h, remove_result(h, m, x, sibs).0, y).1 is Ok,
    ensures
        !present(insert_result(h, remove_result(h, m, x, sibs).0, y).0, x),
        present(insert_result(h, remove_result(h, m, x, sibs).0, y).0, y),
        insert_result(h, remove_result(h, m, x, sibs).0, y).0.entries[pos_of(m.entries, x)]
            == zero_node(),
        pos_of(insert_result(h, remove_result(h, m, x, sibs).0, y).0.entries, y) == m.entries.len(),
{
    let m1 = remove_result(h, m, x, sibs).0;
    let idx = pos_of(m.entries, x);
    assert(0 <= idx < m.entries.len() && m.entries[idx] == x);
    lemma_update_wf(h, m, x, zero_node(), sibs);
    let m2 = insert_result(h, m1, y).0;
    assert(m2.entries[m1.entries.len() as int] == y);
    assert(present(m2, y));
    lemma_insert_wf(h, m1, y);
    lemma_pos_unique(m2.entries, y, m1.entries.len() as int);
    assert(!present(m2, x)) by {
        assert forall|i: int| 0 <= i < m2.entries.len() implies m2.entries[i] != x by {
            if i < m1.entries.len() {
                if i != idx {
                    assert(m1.entries[i] == m.entries[i]);
                    if m.entries[i] == x {
                        assert(x != zero_node());
                    }
                }
            }
        }
    }
}

/// A batch of one leaf inserted into the empty tree produces exactly the
/// state and root of a single insertion of that leaf.
pub proof fn lemma_batch_one_matches_sequential(h: SpecHash, m: TreeModel, x: Seq<char>)
    requires
        model_wf(m),
        m.entries.len() == 0,
        x != zero_node(),
    ensures
        insert_many_result(h, m, seq![x]).1 == insert_result(h, m, x).1,
        insert_many_result(h, m, seq![x]).0 == insert_result(h, m, x).0,
{
    let b = seq![x];
    lemma2_to64();
    assert(!present(m, x));
    assert(!holds_value(m.entries, b[0]));
    assert(batch_error(m.entries, b, 1) is None);
    assert(batch_error(m.entries, b, 0) is None);
    assert(depth_for(1) == 0);
    assert(level_start(0, 0) == 0) by {
        lemma_div_basics_1(0);
    }
    assert(level_count(1, 0) == 1) by {
        lemma_div_basics_1(0);
    }
    assert(batch_nodes(h, m.sides, 0, b, 0) == b);
    let m_seq = insert_result(h, m, x).0;
    let m_bat = insert_many_result(h, m, b).0;
    assert(grow_sides(m.sides, 1).len() == 1);
    assert(carry_chain(h, grow_sides(m.sides, 1), x, break_of(0, 0)) == x);
    assert(m_seq.sides =~= m_bat.sides);
    assert(m_seq.entries =~= m_bat.entries);
    assert(m_seq =~= m_bat);
    assert(insert_many_result(h, m, b).1 == Ok::<Seq<char>, LeanIMTError>(x));
    assert(insert_result(h, m, x).1 == Ok::<Seq<char>, LeanIMTError>(x));
}

/// A batch of two distinct leaves inserted into the empty tree produces
/// exactly the state and root of inserting them one at a time, in order.
pub proof fn lemma_batch_pair_matches_sequential(
    h: SpecHash,
    m: TreeModel,
    x: Seq<char>,
    y: Seq<char>,
)
    requires
        model_wf(m),
        m.entries.len() == 0,
        x != zero_node(),
        y != zero_node(),
        x != y,
    ensures
        insert_many_result(h, m, seq![x, y]).1 == insert_result(
            h,
            insert_result(h, m, x).0,
            y,
        ).1,
        insert_many_result(h, m, seq![x, y]).0 == insert_result(h, insert_result(h, m, x).0, y).0,
{
    let b = seq![x, y];
    lemma2_to64();
    // the batch passes validation
    assert(!holds_value(m.entries, b[0]));
    assert(!holds_value(m.entries, b[1]));
    assert(!dup_before(b, 0));
    assert(!dup_before(b, 1));
    assert(batch_error(m.entries, b, 2) is None);
    assert(batch_error(m.entries, b, 1) is None);
    assert(batch_error(m.entries, b, 0) is None);
    // the two trees agree on the depth
    assert(depth_for(1) == 0);
    assert(depth_for(2) == 1);
    // the sequential side: x alone, then y combined with the side node x
    let m1 = insert_result(h, m, x).0;
    assert(carry_chain(h, grow_sides(m.sides, 1), x, break_of(0, 0)) == x);
    assert(m1.entries =~= seq![x]);
    assert(m1.sides =~= seq![Some(x)]);
    assert(m1.depth == 0);
    assert(!present(m1, y));
    let g1 = grow_sides(m1.sides, 2);
    assert(g1.len() == 2 && g1[0] == Some(x));
    assert(break_of(1, 1) == 1) by {
        assert(break_of(0, 0) == 0);
    }
    assert(carry_chain(h, g1, y, 0) == y);
    assert(carry_chain(h, g1, y, 1) == h(x, y));
    let m2 = insert_result(h, m1, y).0;
    assert(m2.entries =~= seq![x, y]);
    assert(m2.sides =~= seq![Some(x), Some(h(x, y))]);
    assert(m2.depth == 1);
    // the batched side: both leaves combined in one level step
    assert(level_start(0, 0) == 0) by {
        lemma_div_basics_1(0);
    }
    assert(level_count(2, 0) == 2) by {
        lemma_div_basics_1(1);
    }
    assert(batch_nodes(h, m.sides, 0, b, 0) == b);
    let parents = combine_level(h, None, 0, 2, b);
    assert(parents.len() == 1) by {
        lemma_div_basics_1(1);
    }
    assert(parents[0] == h(x, y));
    assert(batch_nodes(h, m.sides, 0, b, 1) == parents);
    let m_bat = insert_many_result(h, m, b).0;
    assert(batch_side_at(h, m.sides, 0, b, 0) == Some(x));
    assert(m_bat.sides =~= seq![Some(x), Some(h(x, y))]);
    assert(m_bat.entries =~= seq![x, y]);
    assert(m_bat =~= m2);
    assert(insert_many_result(h, m, b).1 == Ok::<Seq<char>, LeanIMTError>(h(x, y)));
    assert(insert_result(h, m1, y).1 == Ok::<Seq<char>, LeanIMTError>(h(x, y)));
}

} // verus!
