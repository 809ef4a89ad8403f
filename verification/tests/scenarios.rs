use ancestry::ir::{Block, Cfg, FindingMessage, Instr, SlotKind};
use ancestry::scan::run_my_pointer_analysis;

fn linear_cfg(n_slots: usize, statements: Vec<Instr>) -> Cfg {
    let mut kinds = Vec::new();
    for _ in 0..n_slots {
        kinds.push(SlotKind::Value);
    }
    Cfg {
        n_slots,
        entry: 0,
        blocks: vec![Block { statements, successors: vec![] }],
        slot_kinds: kinds,
    }
}

fn unique_ref(dest: usize, source: usize) -> Instr {
    Instr::AssignReference { dest, source, via_deref: false, is_unique: true }
}

fn reborrow(dest: usize, source: usize) -> Instr {
    Instr::AssignReference { dest, source, via_deref: true, is_unique: true }
}

fn raw_view(dest: usize, source: usize) -> Instr {
    Instr::AssignRawPointer { dest, source, via_deref: true }
}

fn write_through(target: usize) -> Instr {
    Instr::WritePointerTarget { target, value: 0 }
}

// Scenario: reborrow-then-write invalidation.  The write through `z` revokes
// the reborrow `x` and its descendant `p`; only the final write through `p`
// is flagged.
#[test]
fn scenario_reborrow_then_write() {
    let y = 0;
    let z = 1;
    let x = 2;
    let p = 3;
    let cfg = linear_cfg(
        4,
        vec![
            unique_ref(z, y),
            reborrow(x, z),
            raw_view(p, x),
            write_through(z),
            write_through(p),
        ],
    );
    let findings = run_my_pointer_analysis(&cfg);
    assert_eq!(findings.len(), 1);
    assert_eq!(findings[0].slot, p);
    assert_eq!(findings[0].location.block, 0);
    assert_eq!(findings[0].location.statement_index, 4);
    assert_eq!(findings[0].message, FindingMessage::WriteThroughRevokedPointer);
}

// Scenario: reference-write invalidation, no raw pointer needed for the
// invalidating write.  Writing through `x` revokes `p`; the write through
// `p` is the one finding.
#[test]
fn scenario_reference_write() {
    let y = 0;
    let z = 1;
    let x = 2;
    let p = 3;
    let cfg = linear_cfg(
        4,
        vec![
            unique_ref(z, y),
            reborrow(x, z),
            raw_view(p, x),
            write_through(x),
            write_through(p),
        ],
    );
    let findings = run_my_pointer_analysis(&cfg);
    assert_eq!(findings.len(), 1);
    assert_eq!(findings[0].slot, p);
    assert_eq!(findings[0].location.statement_index, 4);
}

// Scenario: double reborrow from a raw pointer.  The second reborrow revokes
// the first, so the write through `x` is flagged; `y2` is not yet revoked
// when its own write executes.
#[test]
fn scenario_double_reborrow() {
    let z = 0;
    let p = 1;
    let x = 2;
    let y2 = 3;
    let cfg = linear_cfg(
        4,
        vec![
            raw_view(p, z),
            reborrow(x, p),
            reborrow(y2, p),
            write_through(x),
            write_through(y2),
        ],
    );
    let findings = run_my_pointer_analysis(&cfg);
    assert_eq!(findings.len(), 1);
    assert_eq!(findings[0].slot, x);
    assert_eq!(findings[0].location.statement_index, 3);
}

// Scenario: sibling raw pointers never invalidate each other — raw-pointer
// creation never revokes, and writes through unrevoked pointers are clean.
#[test]
fn scenario_sibling_raw_pointers() {
    let z = 0;
    let p = 1;
    let p2 = 2;
    let cfg = linear_cfg(
        3,
        vec![raw_view(p, z), raw_view(p2, z), write_through(p), write_through(p2)],
    );
    let findings = run_my_pointer_analysis(&cfg);
    assert_eq!(findings.len(), 0);
}

// A direct unique borrow (no dereference) does not revoke anything.
#[test]
fn direct_borrow_never_revokes() {
    let y = 0;
    let z = 1;
    let x = 2;
    let cfg = linear_cfg(3, vec![unique_ref(z, y), unique_ref(x, y), write_through(z)]);
    let findings = run_my_pointer_analysis(&cfg);
    assert_eq!(findings.len(), 0);
}

// An unrelated assignment clears the destination's provenance: after `x`
// is reassigned a fresh value, a stale write through it is not flagged on
// account of the old derivation, and the old child entry stays with `z`.
#[test]
fn other_assignment_clears_destination() {
    let y = 0;
    let z = 1;
    let x = 2;
    let cfg = linear_cfg(
        3,
        vec![
            unique_ref(z, y),
            reborrow(x, z),
            Instr::AssignOther { dest: x },
            write_through(x),
        ],
    );
    let findings = run_my_pointer_analysis(&cfg);
    assert_eq!(findings.len(), 0);
}

// A slot never dereferenced through or derived from (here `y`, and the
// spare slot `w`) is never flagged, whatever else the program does.
#[test]
fn underived_slot_never_flagged() {
    let y = 0;
    let z = 1;
    let x = 2;
    let p = 3;
    let w = 4;
    let cfg = linear_cfg(
        5,
        vec![
            unique_ref(z, y),
            reborrow(x, z),
            raw_view(p, x),
            write_through(z),
            write_through(p),
            write_through(w),
        ],
    );
    let findings = run_my_pointer_analysis(&cfg);
    for f in &findings {
        assert!(f.slot != y);
        assert!(f.slot != w);
    }
    assert_eq!(findings.len(), 1);
}

// A shared (non-unique) borrow and a raw pointer formed without a
// dereference are both unrelated fresh values: they derive nothing and
// revoke nothing.
#[test]
fn non_derivations_are_fresh_values() {
    let y = 0;
    let z = 1;
    let x = 2;
    let q = 3;
    let cfg = linear_cfg(
        4,
        vec![
            unique_ref(z, y),
            reborrow(x, z),
            Instr::AssignReference { dest: q, source: z, via_deref: true, is_unique: false },
            Instr::AssignRawPointer { dest: q, source: z, via_deref: false },
            write_through(x),
            write_through(q),
        ],
    );
    // neither assignment to q revoked x, and q itself was never revoked
    let findings = run_my_pointer_analysis(&cfg);
    assert_eq!(findings.len(), 0);
}

// A body with no instructions produces no findings.
#[test]
fn empty_body_has_no_findings() {
    let cfg = linear_cfg(2, vec![]);
    let findings = run_my_pointer_analysis(&cfg);
    assert_eq!(findings.len(), 0);
}

// The scanner reports all violations in one pass, not only the first.
#[test]
fn scanner_reports_all_violations() {
    let y = 0;
    let z = 1;
    let x = 2;
    let p = 3;
    let cfg = linear_cfg(
        4,
        vec![
            unique_ref(z, y),
            reborrow(x, z),
            raw_view(p, x),
            write_through(z),
            write_through(p),
            write_through(x),
        ],
    );
    let findings = run_my_pointer_analysis(&cfg);
    assert_eq!(findings.len(), 2);
    assert_eq!(findings[0].slot, p);
    assert_eq!(findings[0].location.statement_index, 4);
    assert_eq!(findings[1].slot, x);
    assert_eq!(findings[1].location.statement_index, 5);
}
