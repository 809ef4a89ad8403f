//! The diagnostic scanner: after convergence, walks every instruction in
//! program order, rebuilds the state in force before each pointer write, and
//! reports every write performed through a revoked pointer.

use vstd::prelude::*;
use crate::ir::Cfg;
use crate::ir::Finding;
use crate::ir::FindingMessage;
use crate::ir::Instr;
use crate::ir::Location;
use crate::state::capacity_model;
use crate::state::copy_state;
use crate::state::AncestryState;
use crate::state::StateModel;
use crate::fixpoint::all_wf;
use crate::fixpoint::cfg_never_derives;
use crate::fixpoint::computed_fixpoint;
use crate::fixpoint::respects_underived;
use crate::fixpoint::stable_assignment;
use crate::fixpoint::states_model;
use crate::fixpoint::transfer_upto;
use crate::cursor::lemma_replay_untouched;
use crate::transfer::untouched;
use crate::transfer::AncestryAnalysis;

verus! {

/// The findings the instruction at `(b, k)` contributes, given the block's
/// entry state: one finding exactly when it writes through a slot that is
/// revoked at that point.
pub open spec fn finding_at(cfg: Cfg, entry: StateModel, b: int, k: int) -> Seq<Finding> {
    match cfg.blocks@[b].statements@[k] {
        Instr::WritePointerTarget { target, .. } => {
            if transfer_upto(entry, cfg.blocks@[b].statements@, k).revoked[target as int] {
                seq![
                    Finding {
                        location: Location { block: b as usize, statement_index: k as usize },
                        slot: target,
                        message: FindingMessage::WriteThroughRevokedPointer,
                    },
                ]
            } else {
                Seq::empty()
            }
        },
        _ => Seq::empty(),
    }
}

/// Findings of the first `k` instructions of block `b`, in program order.
pub open spec fn block_findings_upto(cfg: Cfg, entry: StateModel, b: int, k: int) -> Seq<Finding>
    decreases k,
{
    if k <= 0 {
        Seq::empty()
    } else {
        block_findings_upto(cfg, entry, b, k - 1) + finding_at(cfg, entry, b, k - 1)
    }
}

/// Findings of the first `b` blocks, in program order.
pub open spec fn findings_upto_block(cfg: Cfg, ss: Seq<StateModel>, b: int) -> Seq<Finding>
    decreases b,
{
    if b <= 0 {
        Seq::empty()
    } else {
        findings_upto_block(cfg, ss, b - 1) + block_findings_upto(
            cfg,
            ss[b - 1],
            b - 1,
            cfg.blocks@[b - 1].statements@.len() as int,
        )
    }
}

/// Every finding of the whole program, in program order, given the converged
/// entry state of every block.
pub open spec fn all_findings(cfg: Cfg, ss: Seq<StateModel>) -> Seq<Finding> {
    findings_upto_block(cfg, ss, cfg.blocks@.len() as int)
}

/// The finding points at a pointer-write instruction of the program that
/// writes through the flagged slot.
pub open spec fn finding_is_revoked_write(cfg: Cfg, f: Finding) -> bool {
    &&& (f.location.block as int) < cfg.blocks@.len()
    &&& (f.location.statement_index as int) < cfg.blocks@[f.location.block as int].statements@.len()
    &&& cfg.blocks@[f.location.block as int].statements@[f.location.statement_index as int]
        matches Instr::WritePointerTarget { target, .. } && target == f.slot
    &&& f.message == FindingMessage::WriteThroughRevokedPointer
}

/// Walks the converged results and reports all violations, in program order.
#[verifier::loop_isolation(false)]
pub fn scan(cfg: &Cfg, entries: &Vec<AncestryState>) -> (findings: Vec<Finding>)
    requires
        cfg.wf(),
        entries@.len() == cfg.blocks@.len(),
        all_wf(states_model(entries@), cfg.n_slots as nat),
    ensures
        findings@ == all_findings(*cfg, states_model(entries@)),
{
    let ghost ss = states_model(entries@);
    let mut findings: Vec<Finding> = Vec::new();
    let nb = cfg.blocks.len();
    let analysis = AncestryAnalysis;
    let mut b: usize = 0;
    while b < nb
        invariant
            b <= nb,
            findings@ == findings_upto_block(*cfg, ss, b as int),
        decreases nb - b,
    {
        let ghost entry_b = ss[b as int];
        proof {
            assert(entry_b == entries@[b as int]@);
            assert(cfg.blocks@[b as int].wf(cfg.n_slots as nat, cfg.blocks@.len()));
        }
        let mut s = copy_state(&entries[b]);
        let m = cfg.blocks[b].statements.len();
        let mut k: usize = 0;
        while k < m
            invariant
                k <= m,
                b < nb,
                m == cfg.blocks@[b as int].statements@.len(),
                s@ == transfer_upto(entry_b, cfg.blocks@[b as int].statements@, k as int),
                s@.wf(),
                s@.slots() == cfg.n_slots,
                findings@ == findings_upto_block(*cfg, ss, b as int) + block_findings_upto(
                    *cfg,
                    entry_b,
                    b as int,
                    k as int,
                ),
            decreases m - k,
        {
            let instr = cfg.blocks[b].statements[k];
            let ghost pre_findings = findings@;
            match instr {
                Instr::WritePointerTarget { target, .. } => {
                    proof {
                        assert(instr.wf(cfg.n_slots as nat));
                    }
                    if s.revoked[target] {
                        findings.push(
                            Finding {
                                location: Location { block: b, statement_index: k },
                                slot: target,
                                message: FindingMessage::WriteThroughRevokedPointer,
                            },
                        );
                    }
                },
                _ => {},
            }
            proof {
                assert(findings@ =~= pre_findings + finding_at(*cfg, entry_b, b as int, k as int));
            }
            analysis.apply_primary_statement_effect(&mut s, &instr);
            k = k + 1;
        }
        b = b + 1;
        proof {
            assert(findings@ =~= findings_upto_block(*cfg, ss, b as int));
        }
    }
    findings
}

/// Analyzes one function body: runs the fixpoint, then scans for writes
/// through revoked pointers.  Pure: the findings equal the scan of the
/// computed fixpoint, a function of the CFG value alone, which is stable
/// and keeps every never-derived slot out of `revoked`.
pub fn run_my_pointer_analysis(cfg: &Cfg) -> (findings: Vec<Finding>)
    requires
        cfg.wf(),
        cfg.blocks@.len() * capacity_model(cfg.n_slots as nat) + 1 <= usize::MAX as int,
    ensures
        findings@ == all_findings(*cfg, computed_fixpoint(*cfg)),
        all_wf(computed_fixpoint(*cfg), cfg.n_slots as nat),
        stable_assignment(*cfg, computed_fixpoint(*cfg)),
        respects_underived(*cfg, computed_fixpoint(*cfg)),
        forall|i: int| 0 <= i < findings@.len() ==> finding_is_revoked_write(
            *cfg,
            #[trigger] findings@[i],
        ),
        forall|i: int| 0 <= i < findings@.len() ==> !cfg_never_derives(
            *cfg,
            (#[trigger] findings@[i]).slot as int,
        ),
{
    let analysis = AncestryAnalysis;
    let fixed = analysis.iterate_to_fixpoint(cfg);
    let entries = fixed.0;
    let findings = scan(cfg, &entries);
    proof {
        let ss = states_model(entries@);
        assert({
            &&& ss == computed_fixpoint(*cfg)
            &&& all_wf(ss, cfg.n_slots as nat)
            &&& stable_assignment(*cfg, ss)
            &&& respects_underived(*cfg, ss)
            &&& findings@ == all_findings(*cfg, ss)
        });
        lemma_all_findings_sound(*cfg, ss);
    }
    findings
}

proof fn lemma_block_findings_sound(cfg: Cfg, entry: StateModel, b: int, k: int)
    requires
        cfg.wf(),
        entry.wf(),
        entry.slots() == cfg.n_slots,
        0 <= b < cfg.blocks@.len(),
        0 <= k <= cfg.blocks@[b].statements@.len(),
    ensures
        forall|i: int|
            0 <= i < block_findings_upto(cfg, entry, b, k).len() ==> {
                let f = #[trigger] block_findings_upto(cfg, entry, b, k)[i];
                finding_is_revoked_write(cfg, f) && (cfg_never_derives(cfg, f.slot as int)
                    ==> !untouched(entry, f.slot as int))
            },
    decreases k,
{
    if k > 0 {
        lemma_block_findings_sound(cfg, entry, b, k - 1);
        let bf = block_findings_upto(cfg, entry, b, k);
        let prev = block_findings_upto(cfg, entry, b, k - 1);
        let add = finding_at(cfg, entry, b, k - 1);
        assert forall|i: int|
            0 <= i < bf.len() implies {
            let f = #[trigger] bf[i];
            finding_is_revoked_write(cfg, f) && (cfg_never_derives(cfg, f.slot as int)
                ==> !untouched(entry, f.slot as int))
        } by {
            if i < prev.len() {
                assert(bf[i] == prev[i]);
            } else {
                let f = bf[i];
                assert(f == add[i - prev.len()]);
                assert(cfg.blocks@[b].wf(cfg.n_slots as nat, cfg.blocks@.len()));
                if cfg_never_derives(cfg, f.slot as int) && untouched(entry, f.slot as int) {
                    assert forall|j: int|
                        0 <= j < cfg.blocks@[b].statements@.len()
                            implies !crate::transfer::derives_into(
                        #[trigger] cfg.blocks@[b].statements@[j],
                        f.slot as int,
                    ) by {
                        assert(!crate::transfer::derives_into(
                            cfg.blocks@[b].statements@[j],
                            f.slot as int,
                        ));
                    }
                    lemma_replay_untouched(
                        entry,
                        cfg.blocks@[b].statements@,
                        k - 1,
                        f.slot as int,
                    );
                    assert(false);
                }
            }
        }
    }
}

proof fn lemma_all_findings_sound(cfg: Cfg, ss: Seq<StateModel>)
    requires
        cfg.wf(),
        ss.len() == cfg.blocks@.len(),
        all_wf(ss, cfg.n_slots as nat),
        respects_underived(cfg, ss),
    ensures
        forall|i: int|
            0 <= i < all_findings(cfg, ss).len() ==> finding_is_revoked_write(
                cfg,
                #[trigger] all_findings(cfg, ss)[i],
            ),
        forall|i: int|
            0 <= i < all_findings(cfg, ss).len() ==> !cfg_never_derives(
                cfg,
                (#[trigger] all_findings(cfg, ss)[i]).slot as int,
            ),
{
    lemma_findings_upto_sound(cfg, ss, cfg.blocks@.len() as int);
}

proof fn lemma_findings_upto_sound(cfg: Cfg, ss: Seq<StateModel>, b: int)
    requires
        cfg.wf(),
        ss.len() == cfg.blocks@.len(),
        all_wf(ss, cfg.n_slots as nat),
        respects_underived(cfg, ss),
        0 <= b <= cfg.blocks@.len(),
    ensures
        forall|i: int|
            0 <= i < findings_upto_block(cfg, ss, b).len() ==> {
                let f = #[trigger] findings_upto_block(cfg, ss, b)[i];
                finding_is_revoked_write(cfg, f) && !cfg_never_derives(cfg, f.slot as int)
            },
    decreases b,
{
    if b > 0 {
        lemma_findings_upto_sound(cfg, ss, b - 1);
        let m = cfg.blocks@[b - 1].statements@.len() as int;
        assert(ss[b - 1].wf() && ss[b - 1].slots() == cfg.n_slots);
        lemma_block_findings_sound(cfg, ss[b - 1], b - 1, m);
        let whole = findings_upto_block(cfg, ss, b);
        let prev = findings_upto_block(cfg, ss, b - 1);
        let add = block_findings_upto(cfg, ss[b - 1], b - 1, m);
        assert forall|i: int|
            0 <= i < whole.len() implies {
            let f = #[trigger] whole[i];
            finding_is_revoked_write(cfg, f) && !cfg_never_derives(cfg, f.slot as int)
        } by {
            if i < prev.len() {
                assert(whole[i] == prev[i]);
            } else {
                let f = whole[i];
                assert(f == add[i - prev.len()]);
                if cfg_never_derives(cfg, f.slot as int) {
                    assert(finding_is_revoked_write(cfg, f));
                    assert(0 <= f.slot < cfg.n_slots);
                    assert(untouched(ss[b - 1], f.slot as int));
                    assert(false);
                }
            }
        }
    }
}

} // verus!
