//! The analysis fact attached to a program point: per-slot ancestor sets,
//! per-slot child sets, and the shared revoked set, forming a join
//! semilattice whose join is componentwise union.

use vstd::prelude::*;
use crate::slot_set::count_bits;
use crate::slot_set::count_grid;
use crate::slot_set::empty_bits;
use crate::slot_set::empty_grid;
use crate::slot_set::empty_grid_exec;
use crate::slot_set::empty_set;
use crate::slot_set::grid_wf;
use crate::slot_set::lemma_count_empty_bits;
use crate::slot_set::lemma_count_empty_grid;
use crate::slot_set::lemma_count_grid_le;
use crate::slot_set::lemma_count_grid_subset;
use crate::slot_set::lemma_count_grid_subset_strict;
use crate::slot_set::lemma_count_le_len;
use crate::slot_set::lemma_count_subset;
use crate::slot_set::lemma_count_subset_strict;
use crate::slot_set::subset_bits;
use crate::slot_set::subset_grid;
use crate::slot_set::union_bits;
use crate::slot_set::union_grid;
use crate::slot_set::union_grid_into;
use crate::slot_set::union_into;
use crate::slot_set::copy_grid;
use crate::slot_set::copy_set;

verus! {

/// Mathematical content of an analysis state.
#[verifier::ext_equal]
pub ghost struct StateModel {
    pub ancestry: Seq<Seq<bool>>,
    pub children: Seq<Seq<bool>>,
    pub revoked: Seq<bool>,
}

impl StateModel {
    /// Number of slots the state speaks about.
    pub open spec fn slots(self) -> nat {
        self.revoked.len()
    }

    pub open spec fn wf(self) -> bool {
        grid_wf(self.ancestry, self.slots(), self.slots()) && grid_wf(
            self.children,
            self.slots(),
            self.slots(),
        )
    }
}

/// Componentwise union: the join of the semilattice.
pub open spec fn join_model(a: StateModel, b: StateModel) -> StateModel {
    StateModel {
        ancestry: union_grid(a.ancestry, b.ancestry),
        children: union_grid(a.children, b.children),
        revoked: union_bits(a.revoked, b.revoked),
    }
}

/// The bottom element: every component empty.
pub open spec fn bottom_model(n: nat) -> StateModel {
    StateModel { ancestry: empty_grid(n, n), children: empty_grid(n, n), revoked: empty_bits(n) }
}

/// Componentwise inclusion: the partial order of the semilattice.
pub open spec fn subset_model(a: StateModel, b: StateModel) -> bool {
    subset_grid(a.ancestry, b.ancestry) && subset_grid(a.children, b.children) && subset_bits(
        a.revoked,
        b.revoked,
    )
}

/// Total number of set membership bits: the measure that bounds chains.
pub open spec fn count_model(a: StateModel) -> nat {
    count_grid(a.ancestry) + count_grid(a.children) + count_bits(a.revoked)
}

/// Largest possible `count_model` of a well-formed state over `n` slots.
pub open spec fn capacity_model(n: nat) -> nat {
    2 * n * n + n
}

/// `join` is commutative.
pub proof fn lemma_join_commutative(a: StateModel, b: StateModel)
    requires
        a.wf(),
        b.wf(),
        a.slots() == b.slots(),
    ensures
        join_model(a, b) == join_model(b, a),
{
    assert(join_model(a, b) =~~= join_model(b, a));
}

/// `join` is associative.
pub proof fn lemma_join_associative(a: StateModel, b: StateModel, c: StateModel)
    requires
        a.wf(),
        b.wf(),
        c.wf(),
        a.slots() == b.slots() && b.slots() == c.slots(),
    ensures
        join_model(join_model(a, b), c) == join_model(a, join_model(b, c)),
{
    assert(join_model(join_model(a, b), c) =~~= join_model(a, join_model(b, c)));
}

/// `join` is idempotent.
pub proof fn lemma_join_idempotent(a: StateModel)
    requires
        a.wf(),
    ensures
        join_model(a, a) == a,
{
    assert(join_model(a, a) =~~= a);
}

/// Both arguments are below their join; in particular `revoked` never shrinks.
pub proof fn lemma_join_grows(a: StateModel, b: StateModel)
    requires
        a.wf(),
        b.wf(),
        a.slots() == b.slots(),
    ensures
        subset_model(a, join_model(a, b)),
        subset_model(b, join_model(a, b)),
        join_model(a, b).wf(),
        join_model(a, b).slots() == a.slots(),
{
}

/// Inclusion is reflected in the bit count, strictly so when the states differ.
pub proof fn lemma_count_model_subset(a: StateModel, b: StateModel)
    requires
        subset_model(a, b),
    ensures
        count_model(a) <= count_model(b),
        a != b ==> count_model(a) < count_model(b),
{
    lemma_count_grid_subset(a.ancestry, b.ancestry);
    lemma_count_grid_subset(a.children, b.children);
    lemma_count_subset(a.revoked, b.revoked);
    if a != b {
        if a.ancestry != b.ancestry {
            lemma_count_grid_subset_strict(a.ancestry, b.ancestry);
        } else if a.children != b.children {
            lemma_count_grid_subset_strict(a.children, b.children);
        } else {
            assert(a.revoked != b.revoked);
            lemma_count_subset_strict(a.revoked, b.revoked);
        }
    }
}

/// A well-formed state holds at most `capacity_model(n)` bits.
pub proof fn lemma_count_model_le_capacity(a: StateModel)
    requires
        a.wf(),
    ensures
        count_model(a) <= capacity_model(a.slots()),
{
    let n = a.slots();
    lemma_count_grid_le(a.ancestry, n);
    lemma_count_grid_le(a.children, n);
    lemma_count_le_len(a.revoked);
    assert(n * n + n * n + n == capacity_model(n)) by (nonlinear_arith);
}

pub proof fn lemma_count_model_bottom(n: nat)
    ensures
        count_model(bottom_model(n)) == 0,
        bottom_model(n).wf(),
        bottom_model(n).slots() == n,
{
    lemma_count_empty_grid(n, n);
    lemma_count_empty_bits(n);
}

/// One analysis fact, as held by the running engine.
pub struct AncestryState {
    pub ancestry: Vec<Vec<bool>>,
    pub all_children: Vec<Vec<bool>>,
    pub revoked: Vec<bool>,
}

impl View for AncestryState {
    type V = StateModel;

    open spec fn view(&self) -> StateModel {
        StateModel {
            ancestry: self.ancestry@.map_values(|v: Vec<bool>| v@),
            children: self.all_children@.map_values(|v: Vec<bool>| v@),
            revoked: self.revoked@,
        }
    }
}

impl AncestryState {
    /// Joins `other` into `self` componentwise; reports whether anything
    /// was added.  `revoked` (like every component) only grows.
    pub fn join(&mut self, other: &AncestryState) -> (changed: bool)
        requires
            old(self)@.wf(),
            other@.wf(),
            old(self)@.slots() == other@.slots(),
        ensures
            final(self)@ == join_model(old(self)@, other@),
            changed == (final(self)@ != old(self)@),
            final(self)@.wf(),
            final(self)@.slots() == old(self)@.slots(),
    {
        proof {
            assert(forall|j: int| 0 <= j < self.ancestry@.len() ==> (#[trigger] self.ancestry@[j])@
                == self@.ancestry[j]);
            assert(forall|j: int| 0 <= j < other.ancestry@.len() ==> (
            #[trigger] other.ancestry@[j])@ == other@.ancestry[j]);
            assert(forall|j: int|
                0 <= j < self.all_children@.len() ==> (#[trigger] self.all_children@[j])@
                    == self@.children[j]);
            assert(forall|j: int|
                0 <= j < other.all_children@.len() ==> (#[trigger] other.all_children@[j])@
                    == other@.children[j]);
        }
        let c1 = union_grid_into(&mut self.ancestry, &other.ancestry);
        let c2 = union_grid_into(&mut self.all_children, &other.all_children);
        let c3 = union_into(&mut self.revoked, &other.revoked);
        let changed = c1 || c2 || c3;
        proof {
            assert(self@ =~= join_model(old(self)@, other@));
            if !changed {
                assert(self@ =~= old(self)@);
            } else {
                assert(self@ != old(self)@);
            }
        }
        changed
    }
}

/// An exact copy of a state.
pub fn copy_state(src: &AncestryState) -> (r: AncestryState)
    ensures
        r@ == src@,
{
    let r = AncestryState {
        ancestry: copy_grid(&src.ancestry),
        all_children: copy_grid(&src.all_children),
        revoked: copy_set(&src.revoked),
    };
    proof {
        assert(r@ =~= src@);
    }
    r
}

/// The bottom state over `n` slots.
pub fn bottom_state(n: usize) -> (r: AncestryState)
    ensures
        r@ == bottom_model(n as nat),
        r@.wf(),
        r@.slots() == n,
{
    let r = AncestryState {
        ancestry: empty_grid_exec(n),
        all_children: empty_grid_exec(n),
        revoked: empty_set(n),
    };
    proof {
        assert(r@ =~= bottom_model(n as nat));
    }
    r
}

} // verus!
