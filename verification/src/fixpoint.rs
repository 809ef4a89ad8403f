//! The forward dataflow fixpoint: repeatedly pushes each block's exit state
//! into its successors' entry states until nothing changes.  Entry states
//! only grow (by joins), which bounds the number of rounds by the total
//! number of membership bits the retained states can hold.

use vstd::prelude::*;
use vstd::pervasive::VecAdditionalExecFns;
use crate::ir::Cfg;
use crate::ir::Instr;
use crate::state::capacity_model;
use crate::state::copy_state;
use crate::state::count_model;
use crate::state::join_model;
use crate::state::lemma_count_model_le_capacity;
use crate::state::lemma_count_model_subset;
use crate::state::lemma_count_model_bottom;
use crate::state::lemma_join_grows;
use crate::state::AncestryState;
use crate::state::StateModel;
use crate::transfer::derives_into;
use crate::transfer::lemma_transfer_untouched;
use crate::transfer::transfer_model;
use crate::transfer::untouched;
use crate::transfer::AncestryAnalysis;

verus! {

/// The state after the first `k` instructions of a block, starting from `st`.
pub open spec fn transfer_upto(st: StateModel, instrs: Seq<Instr>, k: int) -> StateModel
    decreases k,
{
    if k <= 0 {
        st
    } else {
        transfer_model(transfer_upto(st, instrs, k - 1), instrs[k - 1])
    }
}

/// A block's exit state, given its entry state.
pub open spec fn block_exit_model(st: StateModel, instrs: Seq<Instr>) -> StateModel {
    transfer_upto(st, instrs, instrs.len() as int)
}

/// The views of a vector of states.
pub open spec fn states_model(v: Seq<AncestryState>) -> Seq<StateModel> {
    v.map_values(|s: AncestryState| s@)
}

pub open spec fn all_wf(ss: Seq<StateModel>, n: nat) -> bool {
    forall|b: int| 0 <= b < ss.len() ==> (#[trigger] ss[b]).wf() && ss[b].slots() == n
}

/// Total number of membership bits held across a vector of states.
pub open spec fn count_states(ss: Seq<StateModel>) -> nat
    decreases ss.len(),
{
    if ss.len() == 0 {
        0
    } else {
        count_states(ss.drop_last()) + count_model(ss.last())
    }
}

proof fn lemma_count_states_push(ss: Seq<StateModel>, v: StateModel)
    ensures
        count_states(ss.push(v)) == count_states(ss) + count_model(v),
{
    assert(ss.push(v).drop_last() =~= ss);
}

proof fn lemma_count_states_update(ss: Seq<StateModel>, i: int, v: StateModel)
    requires
        0 <= i < ss.len(),
    ensures
        count_states(ss.update(i, v)) + count_model(ss[i]) == count_states(ss) + count_model(v),
    decreases ss.len(),
{
    let t = ss.update(i, v);
    if i == ss.len() - 1 {
        assert(t.drop_last() =~= ss.drop_last());
    } else {
        assert(t.drop_last() =~= ss.drop_last().update(i, v));
        lemma_count_states_update(ss.drop_last(), i, v);
    }
}

proof fn lemma_count_states_le(ss: Seq<StateModel>, n: nat)
    requires
        all_wf(ss, n),
    ensures
        count_states(ss) <= ss.len() * capacity_model(n),
    decreases ss.len(),
{
    if ss.len() > 0 {
        assert(all_wf(ss.drop_last(), n));
        lemma_count_states_le(ss.drop_last(), n);
        lemma_count_model_le_capacity(ss.last());
        assert((ss.len() - 1) * capacity_model(n) + capacity_model(n) == ss.len() * capacity_model(
            n,
        )) by (nonlinear_arith);
    }
}

/// No instruction of the CFG derives into slot `s`.
pub open spec fn cfg_never_derives(cfg: Cfg, s: int) -> bool {
    forall|b: int, k: int|
        0 <= b < cfg.blocks@.len() && 0 <= k < cfg.blocks@[b].statements@.len() ==> !derives_into(
            #[trigger] cfg.blocks@[b].statements@[k],
            s,
        )
}

/// Every slot the program never derives into is untouched (not revoked, in
/// no children set) in every retained state.
pub open spec fn respects_underived(cfg: Cfg, ss: Seq<StateModel>) -> bool {
    forall|b: int, s: int|
        #![trigger ss[b], cfg_never_derives(cfg, s)]
        0 <= b < ss.len() && 0 <= s < cfg.n_slots && cfg_never_derives(cfg, s) ==> untouched(
            ss[b],
            s,
        )
}

/// The defining property of the fixpoint: propagating any block's exit state
/// into any of its successors changes nothing.
pub open spec fn stable_assignment(cfg: Cfg, ss: Seq<StateModel>) -> bool {
    &&& ss.len() == cfg.blocks@.len()
    &&& forall|b: int, j: int|
        0 <= b < ss.len() && 0 <= j < cfg.blocks@[b].successors@.len() ==> {
            let t = #[trigger] cfg.blocks@[b].successors@[j] as int;
            join_model(ss[t], block_exit_model(ss[b], cfg.blocks@[b].statements@)) == ss[t]
        }
}

/// The exit state `ex` of block `b`, joined into its first `j` listed
/// successors in order.  The exit state is computed once per sweep, from the
/// entry state the block had when the sweep reached it, exactly as the
/// engine does it.
pub open spec fn join_exit_into_succs(
    cfg: Cfg,
    ss: Seq<StateModel>,
    b: int,
    ex: StateModel,
    j: int,
) -> Seq<StateModel>
    decreases j,
{
    if j <= 0 {
        ss
    } else {
        let prev = join_exit_into_succs(cfg, ss, b, ex, j - 1);
        let t = cfg.blocks@[b].successors@[j - 1] as int;
        prev.update(t, join_model(prev[t], ex))
    }
}

/// The first `b` blocks of one sweep over the whole CFG.
pub open spec fn pass_upto(cfg: Cfg, ss: Seq<StateModel>, b: int) -> Seq<StateModel>
    decreases b,
{
    if b <= 0 {
        ss
    } else {
        let prev = pass_upto(cfg, ss, b - 1);
        join_exit_into_succs(
            cfg,
            prev,
            b - 1,
            block_exit_model(prev[b - 1], cfg.blocks@[b - 1].statements@),
            cfg.blocks@[b - 1].successors@.len() as int,
        )
    }
}

/// One full sweep: every block's exit state pushed into its successors.
pub open spec fn pass_model(cfg: Cfg, ss: Seq<StateModel>) -> Seq<StateModel> {
    pass_upto(cfg, ss, cfg.blocks@.len() as int)
}

/// Sweeps iterated until one changes nothing, or the fuel runs out.
pub open spec fn iterate_model(cfg: Cfg, ss: Seq<StateModel>, fuel: nat) -> Seq<StateModel>
    decreases fuel,
{
    if fuel == 0 {
        ss
    } else {
        let next = pass_model(cfg, ss);
        if next == ss {
            ss
        } else {
            iterate_model(cfg, next, (fuel - 1) as nat)
        }
    }
}

/// The entry states the iteration starts from: bottom for every block.
pub open spec fn bottom_entries(cfg: Cfg) -> Seq<StateModel> {
    Seq::new(cfg.blocks@.len(), |i: int| crate::state::bottom_model(cfg.n_slots as nat))
}

/// The per-block entry states the engine computes: the sweep iterated from
/// the bottom-seeded states until it changes nothing.  The fuel always
/// suffices, because a changing sweep adds at least one membership bit and
/// the retained states hold at most `blocks * capacity` of them; the engine
/// is proved to return exactly this assignment.
pub open spec fn computed_fixpoint(cfg: Cfg) -> Seq<StateModel> {
    iterate_model(
        cfg,
        bottom_entries(cfg),
        cfg.blocks@.len() * capacity_model(cfg.n_slots as nat) + 1,
    )
}

proof fn lemma_join_untouched(a: StateModel, b: StateModel, s: int)
    requires
        a.wf(),
        b.wf(),
        a.slots() == b.slots(),
        0 <= s < a.slots(),
        untouched(a, s),
        untouched(b, s),
    ensures
        untouched(join_model(a, b), s),
{
    let t = join_model(a, b);
    assert forall|x: int| 0 <= x < t.slots() implies !(#[trigger] t.children[x])[s] by {
        assert(!a.children[x][s] && !b.children[x][s]);
    }
}

/// One sweep over all blocks: computes each block's exit state and joins it
/// into every successor's entry state.  Entry states only grow; when the
/// sweep changes nothing the assignment is stable.
#[verifier::loop_isolation(false)]
fn pass(cfg: &Cfg, entries: &mut Vec<AncestryState>) -> (changed: bool)
    requires
        cfg.wf(),
        old(entries)@.len() == cfg.blocks@.len(),
        all_wf(states_model(old(entries)@), cfg.n_slots as nat),
        respects_underived(*cfg, states_model(old(entries)@)),
    ensures
        final(entries)@.len() == old(entries)@.len(),
        all_wf(states_model(final(entries)@), cfg.n_slots as nat),
        respects_underived(*cfg, states_model(final(entries)@)),
        count_states(states_model(old(entries)@)) <= count_states(states_model(final(entries)@)),
        changed ==> count_states(states_model(old(entries)@)) < count_states(
            states_model(final(entries)@),
        ),
        !changed ==> states_model(final(entries)@) == states_model(old(entries)@)
            && stable_assignment(*cfg, states_model(final(entries)@)),
        states_model(final(entries)@) == pass_model(*cfg, states_model(old(entries)@)),
        changed == (pass_model(*cfg, states_model(old(entries)@)) != states_model(old(entries)@)),
{
    let ghost n = cfg.n_slots as nat;
    let ghost e0 = states_model(entries@);
    let nb = entries.len();
    let mut changed = false;
    let mut b: usize = 0;
    while b < nb
        invariant
            b <= nb,
            entries@.len() == nb,
            all_wf(states_model(entries@), n),
            respects_underived(*cfg, states_model(entries@)),
            count_states(e0) <= count_states(states_model(entries@)),
            states_model(entries@) == pass_upto(*cfg, e0, b as int),
            changed ==> count_states(e0) < count_states(states_model(entries@)),
            !changed ==> states_model(entries@) == e0,
            !changed ==> forall|b2: int, j: int|
                0 <= b2 < b && 0 <= j < cfg.blocks@[b2].successors@.len() ==> {
                    let t = #[trigger] cfg.blocks@[b2].successors@[j] as int;
                    join_model(
                        states_model(entries@)[t],
                        block_exit_model(states_model(entries@)[b2], cfg.blocks@[b2].statements@),
                    ) == states_model(entries@)[t]
                },
        decreases nb - b,
    {
        let ghost entry_b = states_model(entries@)[b as int];
        proof {
            assert(entry_b == entries@[b as int]@);
            assert forall|sl: int|
                0 <= sl < n && cfg_never_derives(*cfg, sl) implies untouched(entry_b, sl) by {
                assert(untouched(states_model(entries@)[b as int], sl));
            }
        }
        let mut s = copy_state(&entries[b]);
        let analysis = AncestryAnalysis;
        let m = cfg.blocks[b].statements.len();
        let mut k: usize = 0;
        while k < m
            invariant
                k <= m,
                m == cfg.blocks@[b as int].statements@.len(),
                s@ == transfer_upto(entry_b, cfg.blocks@[b as int].statements@, k as int),
                s@.wf(),
                s@.slots() == n,
                forall|sl: int|
                    0 <= sl < n && cfg_never_derives(*cfg, sl) ==> untouched(#[trigger] s@, sl),
            decreases m - k,
        {
            let ghost s_pre = s@;
            let ghost instr_g = cfg.blocks@[b as int].statements@[k as int];
            proof {
                assert(cfg.blocks@[b as int].wf(n, nb as nat));
                assert(instr_g.wf(n));
            }
            analysis.apply_primary_statement_effect(&mut s, &cfg.blocks[b].statements[k]);
            k = k + 1;
            proof {
                assert forall|sl: int|
                    0 <= sl < n && cfg_never_derives(*cfg, sl) implies untouched(s@, sl) by {
                    assert(untouched(s_pre, sl));
                    assert(!derives_into(cfg.blocks@[b as int].statements@[k - 1], sl));
                    lemma_transfer_untouched(s_pre, instr_g, sl);
                }
            }
        }
        let ghost exit_b = s@;
        proof {
            assert(exit_b == block_exit_model(entry_b, cfg.blocks@[b as int].statements@));
        }
        let ghost eb = states_model(entries@);
        let nsucc = cfg.blocks[b].successors.len();
        let mut j: usize = 0;
        while j < nsucc
            invariant
                j <= nsucc,
                nsucc == cfg.blocks@[b as int].successors@.len(),
                entries@.len() == nb,
                all_wf(states_model(entries@), n),
                respects_underived(*cfg, states_model(entries@)),
                count_states(e0) <= count_states(states_model(entries@)),
                eb == pass_upto(*cfg, e0, b as int),
                entry_b == eb[b as int],
                exit_b == block_exit_model(entry_b, cfg.blocks@[b as int].statements@),
                states_model(entries@) == join_exit_into_succs(*cfg, eb, b as int, exit_b, j as int),
                changed ==> count_states(e0) < count_states(states_model(entries@)),
                !changed ==> states_model(entries@) == e0 && states_model(entries@) == eb,
                !changed ==> forall|b2: int, j2: int|
                    0 <= b2 < b && 0 <= j2 < cfg.blocks@[b2].successors@.len() ==> {
                        let t = #[trigger] cfg.blocks@[b2].successors@[j2] as int;
                        join_model(
                            states_model(entries@)[t],
                            block_exit_model(
                                states_model(entries@)[b2],
                                cfg.blocks@[b2].statements@,
                            ),
                        ) == states_model(entries@)[t]
                    },
                !changed ==> forall|j2: int|
                    0 <= j2 < j ==> {
                        let t = #[trigger] cfg.blocks@[b as int].successors@[j2] as int;
                        join_model(
                            states_model(entries@)[t],
                            block_exit_model(
                                states_model(entries@)[b as int],
                                cfg.blocks@[b as int].statements@,
                            ),
                        ) == states_model(entries@)[t]
                    },
            decreases nsucc - j,
        {
            let t = cfg.blocks[b].successors[j];
            proof {
                assert(cfg.blocks@[b as int].wf(n, nb as nat));
                assert((t as int) < nb);
            }
            let ghost pre = states_model(entries@);
            let mut tgt = copy_state(&entries[t]);
            proof {
                assert(pre[t as int] == entries@[t as int]@);
                assert(tgt@.wf() && tgt@.slots() == n);
            }
            let ch = tgt.join(&s);
            entries.set(t, tgt);
            proof {
                let joined = join_model(pre[t as int], exit_b);
                assert(states_model(entries@) =~= pre.update(t as int, joined));
                lemma_count_states_update(pre, t as int, joined);
                lemma_join_grows(pre[t as int], exit_b);
                lemma_count_model_subset(pre[t as int], joined);
                if ch {
                    assert(joined != pre[t as int]);
                    assert(count_model(pre[t as int]) < count_model(joined));
                } else {
                    assert(joined == pre[t as int]);
                    assert(states_model(entries@) =~= pre);
                }
                assert(states_model(entries@) == join_exit_into_succs(
                    *cfg,
                    eb,
                    b as int,
                    exit_b,
                    j + 1,
                ));
                assert forall|b2: int, sl: int|
                    #![trigger states_model(entries@)[b2], cfg_never_derives(*cfg, sl)]
                    0 <= b2 < nb && 0 <= sl < n && cfg_never_derives(*cfg, sl) implies untouched(
                    states_model(entries@)[b2],
                    sl,
                ) by {
                    assert(untouched(pre[b2], sl));
                    if b2 == t as int {
                        assert(untouched(exit_b, sl));
                        lemma_join_untouched(pre[t as int], exit_b, sl);
                    }
                }
            }
            if ch {
                changed = true;
            }
            j = j + 1;
        }
        b = b + 1;
        proof {
            assert(states_model(entries@) == pass_upto(*cfg, e0, b as int));
        }
    }
    proof {
        assert(states_model(entries@) == pass_model(*cfg, e0));
        if changed {
            assert(states_model(entries@) != e0);
        }
    }
    changed
}

/// Runs the sweep to quiescence.  Returns exactly `computed_fixpoint`: the
/// converged entry state of every block, a function of the CFG value alone,
/// together with the number of sweeps taken, which is bounded by the total
/// bit capacity of the retained states plus one.
impl AncestryAnalysis {
    #[verifier::loop_isolation(false)]
    pub fn iterate_to_fixpoint(&self, cfg: &Cfg) -> (r: (Vec<AncestryState>, usize))
        requires
            cfg.wf(),
            // the retained states must be addressable: their total bit
            // capacity fits the machine's word
            cfg.blocks@.len() * capacity_model(cfg.n_slots as nat) + 1 <= usize::MAX as int,
        ensures
            r.0@.len() == cfg.blocks@.len(),
            all_wf(states_model(r.0@), cfg.n_slots as nat),
            // the result is exactly the bottom-seeded sweep iteration: the
            // engine computes a function of the CFG value alone
            states_model(r.0@) == computed_fixpoint(*cfg),
            pass_model(*cfg, computed_fixpoint(*cfg)) == computed_fixpoint(*cfg),
            stable_assignment(*cfg, states_model(r.0@)),
            respects_underived(*cfg, states_model(r.0@)),
            r.1 as int <= cfg.blocks@.len() * capacity_model(cfg.n_slots as nat) + 1,
    {
        let ghost n = cfg.n_slots as nat;
        let nb = cfg.blocks.len();
        let ghost cap = cfg.blocks@.len() * capacity_model(n);
        let mut entries: Vec<AncestryState> = Vec::new();
        let mut b: usize = 0;
        while b < nb
            invariant
                b <= nb,
                entries@.len() == b,
                nb == cfg.blocks@.len(),
                cfg.wf(),
                forall|i: int| 0 <= i < b ==> (#[trigger] entries@[i])@ == crate::state::bottom_model(
                    cfg.n_slots as nat,
                ),
                count_states(states_model(entries@)) == 0,
            decreases nb - b,
        {
            let bottom = self.bottom_value(cfg);
            proof {
                lemma_count_states_push(states_model(entries@), bottom@);
                lemma_count_model_bottom(cfg.n_slots as nat);
                assert(states_model(entries@.push(bottom)) =~= states_model(entries@).push(
                    bottom@,
                ));
            }
            entries.push(bottom);
            b = b + 1;
        }
        // at function entry no slot has ancestors; on the bottom state this
        // is already so, but the engine establishes it explicitly
        let analysis = AncestryAnalysis;
        let mut start = copy_state(&entries[cfg.entry]);
        analysis.initialize_start_block(cfg, &mut start);
        proof {
            assert(start@ =~~= crate::state::bottom_model(n));
        }
        let ghost pre_init = states_model(entries@);
        entries.set(cfg.entry, start);
        proof {
            assert(states_model(entries@) =~= pre_init);
            lemma_count_model_bottom(n);
            assert(all_wf(states_model(entries@), n)) by {
                assert forall|i: int| 0 <= i < nb implies (#[trigger] states_model(entries@)[i]).wf()
                    && states_model(entries@)[i].slots() == n by {
                    assert(states_model(entries@)[i] == crate::state::bottom_model(n));
                }
            }
            assert(states_model(entries@) =~= bottom_entries(*cfg));
            assert(respects_underived(*cfg, states_model(entries@))) by {
                assert forall|b2: int, s: int|
                    #![trigger states_model(entries@)[b2], cfg_never_derives(*cfg, s)]
                    0 <= b2 < nb && 0 <= s < n && cfg_never_derives(*cfg, s) implies untouched(
                    states_model(entries@)[b2],
                    s,
                ) by {
                    let bm = crate::state::bottom_model(n);
                    assert(states_model(entries@)[b2] == bm);
                    assert forall|x: int| 0 <= x < bm.slots() implies !(#[trigger] bm.children[x])[s] by {
                        assert(bm.children[x] == crate::slot_set::empty_bits(n));
                    }
                    assert(!bm.revoked[s]);
                }
            }
        }
        let mut changed = true;
        let mut rounds: usize = 0;
        while changed
            invariant
                entries@.len() == nb,
                nb == cfg.blocks@.len(),
                cfg.wf(),
                cap == cfg.blocks@.len() * capacity_model(n),
                cap + 1 <= usize::MAX as int,
                all_wf(states_model(entries@), n),
                respects_underived(*cfg, states_model(entries@)),
                count_states(states_model(entries@)) <= cap,
                changed ==> rounds as int <= count_states(states_model(entries@)),
                !changed ==> rounds as int <= count_states(states_model(entries@)) + 1,
                rounds as int <= cap + 1,
                changed ==> iterate_model(
                    *cfg,
                    states_model(entries@),
                    (cap + 1 - rounds as int) as nat,
                ) == computed_fixpoint(*cfg),
                !changed ==> states_model(entries@) == computed_fixpoint(*cfg),
                !changed ==> pass_model(*cfg, states_model(entries@)) == states_model(entries@),
                !changed ==> stable_assignment(*cfg, states_model(entries@)),
            decreases 2 * (cap - count_states(states_model(entries@))) + (if changed {
                1int
            } else {
                0int
            }),
        {
            let ghost pre = states_model(entries@);
            let ghost fuel = (cap + 1 - rounds as int) as nat;
            changed = pass(cfg, &mut entries);
            proof {
                lemma_count_states_le(states_model(entries@), n);
                let cur = states_model(entries@);
                assert(fuel >= 1);
                assert(iterate_model(*cfg, pre, fuel) == computed_fixpoint(*cfg));
                if changed {
                    assert(cur != pre);
                    assert(iterate_model(*cfg, pre, fuel) == iterate_model(
                        *cfg,
                        cur,
                        (fuel - 1) as nat,
                    ));
                } else {
                    assert(cur == pre && pass_model(*cfg, pre) == pre);
                    assert(iterate_model(*cfg, pre, fuel) == pre);
                }
            }
            rounds = rounds + 1;
        }
        (entries, rounds)
    }
}

} // verus!
