//! The query cursor: the fixpoint retains only block-boundary states, so the
//! state at a particular instruction is reconstructed on demand by replaying
//! the transfer function from the block's entry state.

use vstd::prelude::*;
use crate::ir::Cfg;
use crate::ir::Instr;
use crate::state::copy_state;
use crate::state::AncestryState;
use crate::state::StateModel;
use crate::fixpoint::all_wf;
use crate::fixpoint::cfg_never_derives;
use crate::fixpoint::respects_underived;
use crate::fixpoint::states_model;
use crate::fixpoint::transfer_upto;
use crate::transfer::lemma_transfer_untouched;
use crate::transfer::transfer_model;
use crate::transfer::untouched;
use crate::transfer::AncestryAnalysis;

verus! {

/// The transfer function preserves well-formedness.
pub proof fn lemma_transfer_wf(st: StateModel, i: Instr)
    requires
        st.wf(),
        i.wf(st.slots()),
    ensures
        transfer_model(st, i).wf(),
        transfer_model(st, i).slots() == st.slots(),
{
    let n = st.slots();
    let t = transfer_model(st, i);
    assert forall|x: int| 0 <= x < t.ancestry.len() implies (#[trigger] t.ancestry[x]).len()
        == n by {
        assert(st.ancestry[x].len() == n);
    }
    assert forall|x: int| 0 <= x < t.children.len() implies (#[trigger] t.children[x]).len()
        == n by {
        assert(st.children[x].len() == n);
    }
}

/// Replaying a block prefix preserves well-formedness.
pub proof fn lemma_replay_wf(st: StateModel, instrs: Seq<Instr>, k: int)
    requires
        st.wf(),
        0 <= k <= instrs.len(),
        forall|j: int| 0 <= j < instrs.len() ==> (#[trigger] instrs[j]).wf(st.slots()),
    ensures
        transfer_upto(st, instrs, k).wf(),
        transfer_upto(st, instrs, k).slots() == st.slots(),
    decreases k,
{
    if k > 0 {
        lemma_replay_wf(st, instrs, k - 1);
        lemma_transfer_wf(transfer_upto(st, instrs, k - 1), instrs[k - 1]);
    }
}

/// A slot that no instruction of the block derives into, and that is
/// untouched at the block's entry, stays untouched at every point of the
/// block.
pub proof fn lemma_replay_untouched(st: StateModel, instrs: Seq<Instr>, k: int, sl: int)
    requires
        st.wf(),
        0 <= k <= instrs.len(),
        forall|j: int| 0 <= j < instrs.len() ==> (#[trigger] instrs[j]).wf(st.slots()),
        0 <= sl < st.slots(),
        untouched(st, sl),
        forall|j: int| 0 <= j < instrs.len() ==> !crate::transfer::derives_into(
            #[trigger] instrs[j],
            sl,
        ),
    ensures
        untouched(transfer_upto(st, instrs, k), sl),
    decreases k,
{
    if k > 0 {
        lemma_replay_untouched(st, instrs, k - 1, sl);
        lemma_replay_wf(st, instrs, k - 1);
        lemma_transfer_untouched(transfer_upto(st, instrs, k - 1), instrs[k - 1], sl);
    }
}

/// A slot the program never derives into is never present in `revoked`, at
/// any instruction of any block, for the lifetime of the analysis.
pub proof fn lemma_underived_never_revoked(cfg: Cfg, ss: Seq<StateModel>, b: int, k: int, sl: int)
    requires
        cfg.wf(),
        ss.len() == cfg.blocks@.len(),
        all_wf(ss, cfg.n_slots as nat),
        respects_underived(cfg, ss),
        0 <= b < cfg.blocks@.len(),
        0 <= k <= cfg.blocks@[b].statements@.len(),
        0 <= sl < cfg.n_slots,
        cfg_never_derives(cfg, sl),
    ensures
        !transfer_upto(ss[b], cfg.blocks@[b].statements@, k).revoked[sl],
{
    assert(untouched(ss[b], sl));
    assert(cfg.blocks@[b].wf(cfg.n_slots as nat, cfg.blocks@.len()));
    assert forall|j: int|
        0 <= j < cfg.blocks@[b].statements@.len() implies !crate::transfer::derives_into(
        #[trigger] cfg.blocks@[b].statements@[j],
        sl,
    ) by {
        assert(!crate::transfer::derives_into(cfg.blocks@[b].statements@[j], sl));
    }
    lemma_replay_untouched(ss[b], cfg.blocks@[b].statements@, k, sl);
}

/// The state on which the instruction at `statement_index` acts, rebuilt by
/// replaying the block from its retained entry state.
#[verifier::loop_isolation(false)]
pub fn state_before_statement(
    cfg: &Cfg,
    entries: &Vec<AncestryState>,
    block: usize,
    statement_index: usize,
) -> (r: AncestryState)
    requires
        cfg.wf(),
        entries@.len() == cfg.blocks@.len(),
        all_wf(states_model(entries@), cfg.n_slots as nat),
        (block as int) < cfg.blocks@.len(),
        statement_index as int <= cfg.blocks@[block as int].statements@.len(),
    ensures
        r@ == transfer_upto(
            states_model(entries@)[block as int],
            cfg.blocks@[block as int].statements@,
            statement_index as int,
        ),
        r@.wf(),
        r@.slots() == cfg.n_slots,
{
    let ghost entry_b = states_model(entries@)[block as int];
    proof {
        assert(entry_b == entries@[block as int]@);
        assert(cfg.blocks@[block as int].wf(cfg.n_slots as nat, cfg.blocks@.len()));
    }
    let mut s = copy_state(&entries[block]);
    let analysis = AncestryAnalysis;
    let mut k: usize = 0;
    while k < statement_index
        invariant
            k <= statement_index,
            s@ == transfer_upto(entry_b, cfg.blocks@[block as int].statements@, k as int),
            s@.wf(),
            s@.slots() == cfg.n_slots,
        decreases statement_index - k,
    {
        analysis.apply_primary_statement_effect(&mut s, &cfg.blocks[block].statements[k]);
        k = k + 1;
    }
    s
}

/// The state just after the instruction at `statement_index` took effect.
pub fn state_after_statement(
    cfg: &Cfg,
    entries: &Vec<AncestryState>,
    block: usize,
    statement_index: usize,
) -> (r: AncestryState)
    requires
        cfg.wf(),
        entries@.len() == cfg.blocks@.len(),
        all_wf(states_model(entries@), cfg.n_slots as nat),
        (block as int) < cfg.blocks@.len(),
        (statement_index as int) < cfg.blocks@[block as int].statements@.len(),
    ensures
        r@ == transfer_upto(
            states_model(entries@)[block as int],
            cfg.blocks@[block as int].statements@,
            statement_index + 1,
        ),
        r@.wf(),
        r@.slots() == cfg.n_slots,
{
    let mut s = state_before_statement(cfg, entries, block, statement_index);
    let analysis = AncestryAnalysis;
    proof {
        assert(cfg.blocks@[block as int].wf(cfg.n_slots as nat, cfg.blocks@.len()));
    }
    analysis.apply_primary_statement_effect(&mut s, &cfg.blocks[block].statements[statement_index]);
    s
}

} // verus!
