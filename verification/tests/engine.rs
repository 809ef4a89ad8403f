use ancestry::cursor::{state_after_statement, state_before_statement};
use ancestry::ir::{Block, Cfg, Instr, SlotKind};
use ancestry::scan::{run_my_pointer_analysis, scan};
use ancestry::state::AncestryState;
use ancestry::transfer::AncestryAnalysis;

fn kinds(n: usize) -> Vec<SlotKind> {
    let mut v = Vec::new();
    for _ in 0..n {
        v.push(SlotKind::Value);
    }
    v
}

fn empty_row(n: usize) -> Vec<bool> {
    let mut v = Vec::new();
    for _ in 0..n {
        v.push(false);
    }
    v
}

fn state_of(n: usize) -> AncestryState {
    let mut ancestry = Vec::new();
    let mut all_children = Vec::new();
    for _ in 0..n {
        ancestry.push(empty_row(n));
        all_children.push(empty_row(n));
    }
    AncestryState { ancestry, all_children, revoked: empty_row(n) }
}

fn same_state(a: &AncestryState, b: &AncestryState) -> bool {
    a.ancestry == b.ancestry && a.all_children == b.all_children && a.revoked == b.revoked
}

fn copy_of(a: &AncestryState) -> AncestryState {
    AncestryState {
        ancestry: a.ancestry.clone(),
        all_children: a.all_children.clone(),
        revoked: a.revoked.clone(),
    }
}

// join is commutative, associative and idempotent on assorted state triples.
#[test]
fn join_laws_on_concrete_triples() {
    let n = 4;
    let mut a = state_of(n);
    a.ancestry[0][1] = true;
    a.all_children[1][2] = true;
    a.revoked[3] = true;
    let mut b = state_of(n);
    b.ancestry[2][0] = true;
    b.all_children[1][3] = true;
    b.revoked[0] = true;
    let mut c = state_of(n);
    c.ancestry[0][1] = true;
    c.revoked[1] = true;

    // commutative
    let mut ab = copy_of(&a);
    ab.join(&b);
    let mut ba = copy_of(&b);
    ba.join(&a);
    assert!(same_state(&ab, &ba));

    // associative
    let mut ab_c = copy_of(&a);
    ab_c.join(&b);
    ab_c.join(&c);
    let mut bc = copy_of(&b);
    bc.join(&c);
    let mut a_bc = copy_of(&a);
    a_bc.join(&bc);
    assert!(same_state(&ab_c, &a_bc));

    // idempotent: joining a state into itself changes nothing
    let mut aa = copy_of(&a);
    let changed = aa.join(&a);
    assert!(!changed);
    assert!(same_state(&aa, &a));
}

// join reports exactly whether anything was added, and revoked never shrinks.
#[test]
fn join_reports_change_and_grows() {
    let n = 3;
    let mut a = state_of(n);
    a.revoked[1] = true;
    let mut b = state_of(n);
    b.revoked[2] = true;
    let mut j = copy_of(&a);
    let changed = j.join(&b);
    assert!(changed);
    assert!(j.revoked[1] && j.revoked[2]);
    let changed_again = j.join(&b);
    assert!(!changed_again);
}

// Revoke(S) never inserts S itself: a write through slot 0 revokes its
// recorded descendants 1 and 2 (transitively), but never slot 0.
#[test]
fn revoke_spares_the_trigger_slot() {
    let n = 3;
    let mut st = state_of(n);
    st.all_children[0][1] = true;
    st.all_children[1][2] = true;
    let analysis = AncestryAnalysis;
    analysis
        .apply_primary_statement_effect(&mut st, &Instr::WritePointerTarget { target: 0, value: 0 });
    assert!(!st.revoked[0]);
    assert!(st.revoked[1]);
    assert!(st.revoked[2]);
}

// An already revoked slot blocks the descent: descendants recorded behind it
// are not revoked through it.
#[test]
fn revoked_slot_blocks_descent() {
    let n = 3;
    let mut st = state_of(n);
    st.all_children[0][1] = true;
    st.all_children[1][2] = true;
    st.revoked[1] = true;
    let analysis = AncestryAnalysis;
    analysis
        .apply_primary_statement_effect(&mut st, &Instr::WritePointerTarget { target: 0, value: 0 });
    assert!(!st.revoked[0]);
    assert!(st.revoked[1]);
    assert!(!st.revoked[2]);
}

// The transfer function never removes a revoked slot.
#[test]
fn transfer_keeps_revoked() {
    let n = 3;
    let mut st = state_of(n);
    st.revoked[2] = true;
    let analysis = AncestryAnalysis;
    analysis.apply_primary_statement_effect(
        &mut st,
        &Instr::AssignReference { dest: 1, source: 0, via_deref: false, is_unique: true },
    );
    assert!(st.revoked[2]);
    analysis.apply_primary_statement_effect(&mut st, &Instr::AssignOther { dest: 2 });
    assert!(st.revoked[2]);
}

// A derivation records ancestry transitively and the child link.
#[test]
fn derivation_records_ancestry_and_children() {
    let n = 3;
    let mut st = state_of(n);
    let analysis = AncestryAnalysis;
    analysis.apply_primary_statement_effect(
        &mut st,
        &Instr::AssignReference { dest: 1, source: 0, via_deref: false, is_unique: true },
    );
    analysis.apply_primary_statement_effect(
        &mut st,
        &Instr::AssignReference { dest: 2, source: 1, via_deref: true, is_unique: true },
    );
    assert!(st.ancestry[1][0]);
    assert!(st.ancestry[2][1] && st.ancestry[2][0]);
    assert!(st.all_children[0][1]);
    assert!(st.all_children[1][2]);
}

// The fixpoint joins both branches of a diamond, and the scan flags the
// write through the revoked reborrow in the join block.
#[test]
fn diamond_cfg_joins_branches() {
    let y = 0;
    let z = 1;
    let x = 2;
    let b0 = Block {
        statements: vec![Instr::AssignReference {
            dest: z,
            source: y,
            via_deref: false,
            is_unique: true,
        }],
        successors: vec![1, 2],
    };
    let b1 = Block {
        statements: vec![Instr::AssignReference {
            dest: x,
            source: z,
            via_deref: true,
            is_unique: true,
        }],
        successors: vec![3],
    };
    let b2 = Block { statements: vec![Instr::AssignOther { dest: x }], successors: vec![3] };
    let b3 = Block {
        statements: vec![
            Instr::WritePointerTarget { target: z, value: 0 },
            Instr::WritePointerTarget { target: x, value: 0 },
        ],
        successors: vec![],
    };
    let cfg = Cfg {
        n_slots: 3,
        entry: 0,
        blocks: vec![b0, b1, b2, b3],
        slot_kinds: kinds(3),
    };
    let findings = run_my_pointer_analysis(&cfg);
    assert_eq!(findings.len(), 1);
    assert_eq!(findings[0].slot, x);
    assert_eq!(findings[0].location.block, 3);
    assert_eq!(findings[0].location.statement_index, 1);
}

// A self-loop converges: the reborrow in the loop body eventually sees its
// own previous generation as a child of z and revokes it, and the sweep
// count stays within the stated bound.
#[test]
fn loop_cfg_converges_within_bound() {
    let y = 0;
    let z = 1;
    let x = 2;
    let b0 = Block {
        statements: vec![Instr::AssignReference {
            dest: z,
            source: y,
            via_deref: false,
            is_unique: true,
        }],
        successors: vec![1],
    };
    let b1 = Block {
        statements: vec![Instr::AssignReference {
            dest: x,
            source: z,
            via_deref: true,
            is_unique: true,
        }],
        successors: vec![1],
    };
    let cfg = Cfg { n_slots: 3, entry: 0, blocks: vec![b0, b1], slot_kinds: kinds(3) };
    let analysis = AncestryAnalysis;
    let (entries, rounds) = analysis.iterate_to_fixpoint(&cfg);
    let n = 3;
    let bound = 2 * (2 * n * n + n) + 1;
    assert!(rounds <= bound);
    // at the loop head, the previous generation of x is already revoked
    assert!(entries[1].revoked[x]);
    assert!(!entries[1].revoked[z]);
    assert!(!entries[1].revoked[y]);
    // and the scan over the converged states reports no pointer write at all
    let findings = scan(&cfg, &entries);
    assert_eq!(findings.len(), 0);
}

// The cursor rebuilds intra-block states: before the write through z nothing
// is revoked, just after it the reborrow x and its descendant p are.
#[test]
fn cursor_rebuilds_intrablock_states() {
    let y = 0;
    let z = 1;
    let x = 2;
    let p = 3;
    let statements = vec![
        Instr::AssignReference { dest: z, source: y, via_deref: false, is_unique: true },
        Instr::AssignReference { dest: x, source: z, via_deref: true, is_unique: true },
        Instr::AssignRawPointer { dest: p, source: x, via_deref: true },
        Instr::WritePointerTarget { target: z, value: 0 },
        Instr::WritePointerTarget { target: p, value: 0 },
    ];
    let cfg = Cfg {
        n_slots: 4,
        entry: 0,
        blocks: vec![Block { statements, successors: vec![] }],
        slot_kinds: kinds(4),
    };
    let analysis = AncestryAnalysis;
    let (entries, _rounds) = analysis.iterate_to_fixpoint(&cfg);
    let before_write = state_before_statement(&cfg, &entries, 0, 3);
    assert!(!before_write.revoked[x] && !before_write.revoked[p]);
    assert!(before_write.ancestry[p][x] && before_write.ancestry[p][z] && before_write.ancestry[p][y]);
    let after_write = state_after_statement(&cfg, &entries, 0, 3);
    assert!(after_write.revoked[x] && after_write.revoked[p]);
    assert!(!after_write.revoked[z]);
}

// The bottom value is empty in every component and start-block
// initialization keeps it so.
#[test]
fn bottom_value_is_empty() {
    let cfg = Cfg {
        n_slots: 2,
        entry: 0,
        blocks: vec![Block { statements: vec![], successors: vec![] }],
        slot_kinds: kinds(2),
    };
    let analysis = AncestryAnalysis;
    let mut st = analysis.bottom_value(&cfg);
    for i in 0..2 {
        assert!(!st.revoked[i]);
        for j in 0..2 {
            assert!(!st.ancestry[i][j]);
            assert!(!st.all_children[i][j]);
        }
    }
    analysis.initialize_start_block(&cfg, &mut st);
    for i in 0..2 {
        for j in 0..2 {
            assert!(!st.ancestry[i][j]);
        }
    }
}
