//! The transfer function: how one instruction transforms an analysis state,
//! including the recursive revocation of descendants.

use vstd::prelude::*;
use vstd::pervasive::VecAdditionalExecFns;
use crate::ir::Cfg;
use crate::ir::Instr;
use crate::slot_set::copy_set;
use crate::slot_set::empty_bits;
use crate::slot_set::empty_set;
use crate::slot_set::grid_wf;
use crate::slot_set::lemma_count_le_len;
use crate::slot_set::lemma_count_update_true;
use crate::state::bottom_model;
use crate::state::bottom_state;
use crate::state::AncestryState;
use crate::state::StateModel;

verus! {

/// A chain of child edges of length at most `fuel + 1` leads from `l` to `c`
/// without passing through an already revoked slot; `c` is neither `l`
/// itself nor already revoked.  This is exactly the set of slots that
/// `Revoke(l)` inserts.
pub open spec fn desc(
    children: Seq<Seq<bool>>,
    revoked: Seq<bool>,
    l: int,
    c: int,
    fuel: nat,
) -> bool
    decreases fuel,
{
    &&& 0 <= c < revoked.len()
    &&& c != l
    &&& !revoked[c]
    &&& {
        ||| children[l][c]
        ||| (fuel > 0 && exists|x: int|
            0 <= x < revoked.len() && desc(children, revoked, l, x, (fuel - 1) as nat)
                && #[trigger] children[x][c])
    }
}

/// `Revoke(l)` on a state with these children and revoked sets inserts `c`.
pub open spec fn revokes(children: Seq<Seq<bool>>, revoked: Seq<bool>, l: int, c: int) -> bool {
    exists|fuel: nat| desc(children, revoked, l, c, fuel)
}

/// Effect of `Revoke(l)`: every descendant of `l` reachable through child
/// edges that were not already revoked is inserted; nothing else changes.
pub open spec fn revoke_model(st: StateModel, l: int) -> StateModel {
    StateModel {
        ancestry: st.ancestry,
        children: st.children,
        revoked: Seq::new(
            st.revoked.len(),
            |c: int| st.revoked[c] || revokes(st.children, st.revoked, l, c),
        ),
    }
}

/// Effect of recording `dest` as directly derived from `source`:
/// `ancestry(dest)` becomes `{source} ∪ ancestry(source)` and `dest` is
/// added to `children(source)`.
pub open spec fn derive_model(st: StateModel, dest: int, source: int) -> StateModel {
    StateModel {
        ancestry: st.ancestry.update(dest, st.ancestry[source].update(source, true)),
        children: st.children.update(source, st.children[source].update(dest, true)),
        revoked: st.revoked,
    }
}

/// Effect of assigning an unrelated fresh value to `dest`: its ancestry and
/// children become empty.
pub open spec fn clear_model(st: StateModel, dest: int) -> StateModel {
    StateModel {
        ancestry: st.ancestry.update(dest, empty_bits(st.slots())),
        children: st.children.update(dest, empty_bits(st.slots())),
        revoked: st.revoked,
    }
}

/// The transfer function, per instruction:
/// - a direct unique borrow derives `dest` from `source`;
/// - a reborrow first revokes the prior descendants of `source`, then
///   derives `dest` from it;
/// - a raw-pointer view derives without revoking;
/// - any other right-hand side clears `dest`;
/// - a write through `target` revokes the descendants of `target`.
pub open spec fn transfer_model(st: StateModel, i: Instr) -> StateModel {
    match i {
        Instr::AssignReference { dest, source, via_deref, is_unique } => {
            if is_unique {
                if via_deref {
                    derive_model(revoke_model(st, source as int), dest as int, source as int)
                } else {
                    derive_model(st, dest as int, source as int)
                }
            } else {
                clear_model(st, dest as int)
            }
        },
        Instr::AssignRawPointer { dest, source, via_deref } => {
            if via_deref {
                derive_model(st, dest as int, source as int)
            } else {
                clear_model(st, dest as int)
            }
        },
        Instr::AssignOther { dest } => clear_model(st, dest as int),
        Instr::WritePointerTarget { target, .. } => revoke_model(st, target as int),
    }
}

/// The instruction records `s` as derived from some slot (rules that add
/// `s` to a children set).
pub open spec fn derives_into(i: Instr, s: int) -> bool {
    match i {
        Instr::AssignReference { dest, is_unique, .. } => is_unique && dest == s,
        Instr::AssignRawPointer { dest, via_deref, .. } => via_deref && dest == s,
        _ => false,
    }
}

/// Slot `s` is in no children set and not revoked.
pub open spec fn untouched(st: StateModel, s: int) -> bool {
    &&& !st.revoked[s]
    &&& forall|x: int| 0 <= x < st.slots() ==> !(#[trigger] st.children[x])[s]
}

/// `Revoke(l)` never inserts `l` itself.
pub proof fn lemma_revoke_spares_source(st: StateModel, l: int)
    requires
        st.wf(),
        0 <= l < st.slots(),
    ensures
        revoke_model(st, l).revoked[l] == st.revoked[l],
{
    assert(!revokes(st.children, st.revoked, l, l)) by {
        if revokes(st.children, st.revoked, l, l) {
            let f = choose|f: nat| desc(st.children, st.revoked, l, l, f);
            assert(desc(st.children, st.revoked, l, l, f));
            assert(false);
        }
    }
}

/// `revoked` never shrinks under the transfer function.
pub proof fn lemma_transfer_revoked_monotone(st: StateModel, i: Instr)
    requires
        st.wf(),
        i.wf(st.slots()),
    ensures
        forall|c: int| 0 <= c < st.slots() && st.revoked[c] ==> #[trigger] transfer_model(
            st,
            i,
        ).revoked[c],
{
}

proof fn lemma_revoke_untouched(st: StateModel, l: int, s: int)
    requires
        st.wf(),
        0 <= l < st.slots(),
        0 <= s < st.slots(),
        untouched(st, s),
    ensures
        untouched(revoke_model(st, l), s),
{
    assert(!revokes(st.children, st.revoked, l, s)) by {
        if revokes(st.children, st.revoked, l, s) {
            let f = choose|f: nat| desc(st.children, st.revoked, l, s, f);
            assert(desc(st.children, st.revoked, l, s, f));
            assert(!st.children[l][s]);
            if f > 0 && exists|x: int|
                0 <= x < st.revoked.len() && desc(st.children, st.revoked, l, x, (f - 1) as nat)
                    && #[trigger] st.children[x][s] {
                let x = choose|x: int|
                    0 <= x < st.revoked.len() && desc(st.children, st.revoked, l, x, (f - 1) as nat)
                        && #[trigger] st.children[x][s];
                assert(!st.children[x][s]);
            }
            assert(false);
        }
    }
}

proof fn lemma_derive_untouched(st: StateModel, dest: int, source: int, s: int)
    requires
        st.wf(),
        0 <= dest < st.slots(),
        0 <= source < st.slots(),
        0 <= s < st.slots(),
        untouched(st, s),
        dest != s,
    ensures
        untouched(derive_model(st, dest, source), s),
{
    let t = derive_model(st, dest, source);
    assert forall|x: int| 0 <= x < t.slots() implies !(#[trigger] t.children[x])[s] by {
        if x == source {
            assert(t.children[x] == st.children[source].update(dest, true));
        }
    }
}

proof fn lemma_clear_untouched(st: StateModel, dest: int, s: int)
    requires
        st.wf(),
        0 <= dest < st.slots(),
        0 <= s < st.slots(),
        untouched(st, s),
    ensures
        untouched(clear_model(st, dest), s),
{
    let t = clear_model(st, dest);
    assert forall|x: int| 0 <= x < t.slots() implies !(#[trigger] t.children[x])[s] by {
        if x == dest {
            assert(t.children[x] == empty_bits(st.slots()));
        }
    }
}

/// A slot that an instruction does not derive into stays untouched across
/// the transfer function.
pub proof fn lemma_transfer_untouched(st: StateModel, i: Instr, s: int)
    requires
        st.wf(),
        i.wf(st.slots()),
        0 <= s < st.slots(),
        untouched(st, s),
        !derives_into(i, s),
    ensures
        untouched(transfer_model(st, i), s),
{
    match i {
        Instr::AssignReference { dest, source, via_deref, is_unique } => {
            if is_unique {
                if via_deref {
                    lemma_revoke_untouched(st, source as int, s);
                    lemma_derive_untouched(
                        revoke_model(st, source as int),
                        dest as int,
                        source as int,
                        s,
                    );
                } else {
                    lemma_derive_untouched(st, dest as int, source as int, s);
                }
            } else {
                lemma_clear_untouched(st, dest as int, s);
            }
        },
        Instr::AssignRawPointer { dest, source, via_deref } => {
            if via_deref {
                lemma_derive_untouched(st, dest as int, source as int, s);
            } else {
                lemma_clear_untouched(st, dest as int, s);
            }
        },
        Instr::AssignOther { dest } => {
            lemma_clear_untouched(st, dest as int, s);
        },
        Instr::WritePointerTarget { target, .. } => {
            lemma_revoke_untouched(st, target as int, s);
        },
    }
}

/// Is `x` on the worklist?
spec fn on_stack(s: Seq<usize>, x: int) -> bool {
    exists|k: int| 0 <= k < s.len() && s[k] == x
}

proof fn lemma_on_stack_push(s: Seq<usize>, v: usize, y: int)
    ensures
        on_stack(s.push(v), y) == (on_stack(s, y) || v == y),
{
    if on_stack(s, y) {
        let k = choose|k: int| 0 <= k < s.len() && s[k] == y;
        assert(s.push(v)[k] == y);
    }
    if v == y {
        assert(s.push(v)[s.len() as int] == y);
    }
    if on_stack(s.push(v), y) {
        let k = choose|k: int| 0 <= k < s.push(v).len() && s.push(v)[k] == y;
        if k < s.len() {
            assert(s[k] == y);
        }
    }
}

proof fn lemma_on_stack_drop_last(s: Seq<usize>, y: int)
    requires
        s.len() > 0,
    ensures
        on_stack(s, y) == (on_stack(s.drop_last(), y) || s[s.len() - 1] == y),
{
    if on_stack(s.drop_last(), y) {
        let k = choose|k: int| 0 <= k < s.drop_last().len() && s.drop_last()[k] == y;
        assert(s[k] == y);
    }
    if on_stack(s, y) {
        let k = choose|k: int| 0 <= k < s.len() && s[k] == y;
        if k < s.len() - 1 {
            assert(s.drop_last()[k] == y);
        }
    }
}

proof fn lemma_desc_complete(
    ch: Seq<Seq<bool>>,
    orev: Seq<bool>,
    visited: Seq<bool>,
    l: int,
    c: int,
    fuel: nat,
)
    requires
        orev.len() == visited.len(),
        0 <= l < visited.len(),
        visited[l],
        forall|x: int, cc: int|
            0 <= x < visited.len() && 0 <= cc < visited.len() && visited[x] && #[trigger] ch[x][cc]
                ==> (orev[cc] || visited[cc]),
        desc(ch, orev, l, c, fuel),
    ensures
        visited[c],
    decreases fuel,
{
    assert(0 <= c < orev.len() && c != l && !orev[c]);
    if ch[l][c] {
        assert(orev[c] || visited[c]);
    } else {
        assert(fuel > 0);
        let x = choose|x: int|
            0 <= x < orev.len() && desc(ch, orev, l, x, (fuel - 1) as nat) && #[trigger] ch[x][c];
        lemma_desc_complete(ch, orev, visited, l, x, (fuel - 1) as nat);
        assert(orev[c] || visited[c]);
    }
}

/// Marks every descendant of `l` (reachable through not-yet-revoked child
/// edges) as revoked, by an explicit worklist with a visited guard; `l`
/// itself is never inserted, and nothing else in the state changes.
pub(crate) fn revoke(state: &mut AncestryState, l: usize)
    requires
        old(state)@.wf(),
        (l as int) < old(state)@.slots(),
    ensures
        final(state)@ == revoke_model(old(state)@, l as int),
        final(state)@.wf(),
        final(state)@.slots() == old(state)@.slots(),
        // the triggering slot itself is never inserted
        final(state)@.revoked[l as int] == old(state)@.revoked[l as int],
        // revocation only ever adds
        forall|c: int| 0 <= c < old(state)@.slots() && old(state)@.revoked[c]
            ==> final(state)@.revoked[c],
{
    proof {
        lemma_revoke_spares_source(old(state)@, l as int);
    }
    let ghost st0 = state@;
    let ghost ch = st0.children;
    let ghost orev = st0.revoked;
    let ghost n = st0.slots();
    proof {
        assert(forall|j: int| 0 <= j < n ==> (#[trigger] state.all_children@[j])@ == ch[j]);
    }
    let nn = state.revoked.len();
    let mut visited = empty_set(nn);
    visited.set(l, true);
    let mut stack: Vec<usize> = Vec::new();
    stack.push(l);
    proof {
        lemma_count_le_len(visited@);
        assert(stack@[0] == l);
        assert(on_stack(stack@, l as int));
    }
    while stack.len() > 0
        invariant
            state@.ancestry == st0.ancestry,
            state@.children == st0.children,
            state@.slots() == n,
            st0.wf(),
            grid_wf(ch, n, n),
            orev.len() == n && ch.len() == n,
            nn == n,
            state.all_children@.len() == n,
            forall|j: int| 0 <= j < n ==> (#[trigger] state.all_children@[j])@ == ch[j],
            visited@.len() == n,
            (l as int) < n,
            visited@[l as int],
            visited_count_at_most(visited@, n),
            forall|c: int| 0 <= c < n ==> state@.revoked[c] == (orev[c] || (visited@[c] && c
                != l)),
            forall|c: int| 0 <= c < n && visited@[c] && c != l ==> revokes(ch, orev, l as int, c),
            forall|k: int| 0 <= k < stack@.len() ==> (#[trigger] stack@[k] as int) < n
                && visited@[stack@[k] as int],
            forall|k1: int, k2: int| 0 <= k1 < k2 < stack@.len() ==> stack@[k1] != stack@[k2],
            forall|x: int, cc: int|
                0 <= x < n && 0 <= cc < n && visited@[x] && !on_stack(stack@, x)
                && #[trigger] ch[x][cc] ==> (orev[cc] || visited@[cc]),
        decreases 2 * (n - crate::slot_set::count_bits(visited@)) + stack@.len(),
    {
        let ghost stack_pre = stack@;
        let x = stack.pop().unwrap();
        proof {
            assert(stack@ =~= stack_pre.drop_last());
            assert(!on_stack(stack@, x as int)) by {
                if on_stack(stack@, x as int) {
                    let k = choose|k: int| 0 <= k < stack@.len() && stack@[k] == x;
                    assert(stack_pre[k] == x && stack_pre[stack_pre.len() - 1] == x);
                }
            }
            assert forall|y: int| !on_stack(stack@, y) && y != x implies !on_stack(
                stack_pre,
                y,
            ) by {
                lemma_on_stack_drop_last(stack_pre, y);
            }
        }
        let ghost v0 = visited@;
        let ghost s0len = stack@.len();
        let row = copy_set(&state.all_children[x]);
        proof {
            assert(row@ == ch[x as int]);
            assert(row@.len() == n);
        }
        let mut c: usize = 0;
        while c < nn
            invariant
                state@.ancestry == st0.ancestry,
                state@.children == st0.children,
                state@.slots() == n,
                st0.wf(),
                grid_wf(ch, n, n),
                orev.len() == n && ch.len() == n,
                nn == n,
                c <= nn,
                state.all_children@.len() == n,
                forall|j: int| 0 <= j < n ==> (#[trigger] state.all_children@[j])@ == ch[j],
                visited@.len() == n,
                (l as int) < n && (x as int) < n,
                visited@[l as int],
                visited@[x as int],
                row@ == ch[x as int],
                !on_stack(stack@, x as int),
                visited_count_at_most(visited@, n),
                2 * (n - crate::slot_set::count_bits(visited@)) + stack@.len() <= 2 * (n
                    - crate::slot_set::count_bits(v0)) + s0len,
                forall|cc: int| 0 <= cc < n ==> state@.revoked[cc] == (orev[cc] || (visited@[cc]
                    && cc != l)),
                forall|cc: int| 0 <= cc < n && visited@[cc] && cc != l ==> revokes(
                    ch,
                    orev,
                    l as int,
                    cc,
                ),
                forall|k: int| 0 <= k < stack@.len() ==> (#[trigger] stack@[k] as int) < n
                    && visited@[stack@[k] as int],
                forall|k1: int, k2: int| 0 <= k1 < k2 < stack@.len() ==> stack@[k1] != stack@[k2],
                forall|y: int, cc: int|
                    0 <= y < n && 0 <= cc < n && y != x && visited@[y] && !on_stack(stack@, y)
                    && #[trigger] ch[y][cc] ==> (orev[cc] || visited@[cc]),
                forall|cc: int| 0 <= cc < c && #[trigger] ch[x as int][cc] ==> (orev[cc]
                    || visited@[cc]),
            decreases nn - c,
        {
            let ghost vis_in = visited@;
            let ghost stk_in = stack@;
            if row[c] && !state.revoked[c] && !visited[c] {
                proof {
                    assert(!orev[c as int]);
                    assert(c != l);
                    if x == l {
                        assert(desc(ch, orev, l as int, c as int, 0));
                        assert(revokes(ch, orev, l as int, c as int));
                    } else {
                        assert(revokes(ch, orev, l as int, x as int));
                        let f = choose|f: nat| desc(ch, orev, l as int, x as int, f);
                        assert(desc(ch, orev, l as int, c as int, f + 1)) by {
                            assert(desc(ch, orev, l as int, x as int, ((f + 1) - 1) as nat));
                            assert(0 <= x < orev.len() && ch[x as int][c as int]);
                        }
                        assert(revokes(ch, orev, l as int, c as int));
                    }
                    lemma_count_update_true(visited@, c as int);
                }
                state.revoked.set(c, true);
                visited.set(c, true);
                let ghost old_stack_g = stack@;
                stack.push(c);
                proof {
                    lemma_count_le_len(visited@);
                    assert forall|k1: int, k2: int|
                        0 <= k1 < k2 < stack@.len() implies stack@[k1] != stack@[k2] by {
                        if k2 == stack@.len() - 1 {
                            assert(!v0[stack@[k1] as int] ==> stack@[k1] != c);
                        }
                    }
                    assert forall|y: int| !on_stack(stack@, y) implies !on_stack(
                        old_stack_g,
                        y,
                    ) && y != c by {
                        lemma_on_stack_push(old_stack_g, c, y);
                    }
                    assert forall|y: int, cc: int|
                        0 <= y < n && 0 <= cc < n && y != x && visited@[y] && !on_stack(stack@, y)
                            && #[trigger] ch[y][cc] implies (orev[cc] || visited@[cc]) by {
                        lemma_on_stack_push(old_stack_g, c, y);
                        assert(!on_stack(stk_in, y) && y != c as int);
                        assert(vis_in[y]);
                        assert(orev[cc] || vis_in[cc]);
                    }
                }
            }
            c = c + 1;
        }
        proof {
            assert forall|y: int, cc: int|
                0 <= y < n && 0 <= cc < n && visited@[y] && !on_stack(stack@, y)
                && #[trigger] ch[y][cc] implies (orev[cc] || visited@[cc]) by {
                if y == x as int {
                    assert(ch[x as int][cc] && 0 <= cc < nn);
                }
            }
        }
    }
    proof {
        assert forall|c: int| 0 <= c < n implies state@.revoked[c] == (orev[c] || revokes(
            ch,
            orev,
            l as int,
            c,
        )) by {
            if revokes(ch, orev, l as int, c) {
                let f = choose|f: nat| desc(ch, orev, l as int, c, f);
                assert(desc(ch, orev, l as int, c, f));
                lemma_desc_complete(ch, orev, visited@, l as int, c, f);
                assert(visited@[c] && c != l);
            }
            if visited@[c] && c != l {
                assert(revokes(ch, orev, l as int, c));
            }
        }
        assert(state@.revoked =~= revoke_model(st0, l as int).revoked);
        assert(state@ =~~= revoke_model(st0, l as int));
    }
}

/// The visited count never exceeds the slot count (keeps the loop's
/// termination measure non-negative).
spec fn visited_count_at_most(v: Seq<bool>, n: nat) -> bool {
    crate::slot_set::count_bits(v) <= n
}

fn derive_into(state: &mut AncestryState, dest: usize, source: usize)
    requires
        old(state)@.wf(),
        (dest as int) < old(state)@.slots(),
        (source as int) < old(state)@.slots(),
    ensures
        final(state)@ == derive_model(old(state)@, dest as int, source as int),
        final(state)@.wf(),
        final(state)@.slots() == old(state)@.slots(),
{
    proof {
        assert(forall|j: int|
            0 <= j < old(state)@.slots() ==> (#[trigger] state.ancestry@[j])@ == state@.ancestry[j]);
        assert(forall|j: int|
            0 <= j < old(state)@.slots() ==> (#[trigger] state.all_children@[j])@
                == state@.children[j]);
    }
    let mut new_anc = copy_set(&state.ancestry[source]);
    new_anc.set(source, true);
    let mut new_ch = copy_set(&state.all_children[source]);
    new_ch.set(dest, true);
    state.all_children.set(source, new_ch);
    state.ancestry.set(dest, new_anc);
    proof {
        assert(state@ =~~= derive_model(old(state)@, dest as int, source as int));
    }
}

fn clear_dest(state: &mut AncestryState, dest: usize)
    requires
        old(state)@.wf(),
        (dest as int) < old(state)@.slots(),
    ensures
        final(state)@ == clear_model(old(state)@, dest as int),
        final(state)@.wf(),
        final(state)@.slots() == old(state)@.slots(),
{
    let n = state.revoked.len();
    state.ancestry.set(dest, empty_set(n));
    state.all_children.set(dest, empty_set(n));
    proof {
        assert(state@ =~~= clear_model(old(state)@, dest as int));
    }
}

/// The analysis itself: bottom value, start-block initialization, and the
/// per-instruction transfer function.
pub struct AncestryAnalysis;

impl AncestryAnalysis {
    /// The empty ("bottom") state, sized for the analyzed body.
    pub fn bottom_value(&self, cfg: &Cfg) -> (r: AncestryState)
        ensures
            r@ == bottom_model(cfg.n_slots as nat),
            r@.wf(),
            r@.slots() == cfg.n_slots,
    {
        bottom_state(cfg.n_slots)
    }

    /// At function entry no slot has ancestors: clears every ancestry set.
    pub fn initialize_start_block(&self, cfg: &Cfg, state: &mut AncestryState)
        requires
            old(state)@.wf(),
            old(state)@.slots() == cfg.n_slots,
        ensures
            final(state)@ == (StateModel {
                ancestry: crate::slot_set::empty_grid(old(state)@.slots(), old(state)@.slots()),
                ..old(state)@
            }),
            final(state)@.wf(),
            final(state)@.slots() == old(state)@.slots(),
    {
        let n = state.revoked.len();
        let mut i: usize = 0;
        while i < n
            invariant
                i <= n,
                state@.slots() == n,
                state@.children == old(state)@.children,
                state@.revoked == old(state)@.revoked,
                state.ancestry@.len() == n,
                old(state)@.wf(),
                forall|j: int| 0 <= j < i ==> (#[trigger] state.ancestry@[j])@ == empty_bits(
                    n as nat,
                ),
                forall|j: int| i <= j < n ==> (#[trigger] state.ancestry@[j])@ == old(
                    state,
                )@.ancestry[j],
            decreases n - i,
        {
            state.ancestry.set(i, empty_set(n));
            i = i + 1;
        }
        proof {
            assert(state@ =~~= (StateModel {
                ancestry: crate::slot_set::empty_grid(n as nat, n as nat),
                ..old(state)@
            }));
        }
    }

    /// Applies one instruction's effect to the state.
    pub fn apply_primary_statement_effect(&self, state: &mut AncestryState, statement: &Instr)
        requires
            old(state)@.wf(),
            statement.wf(old(state)@.slots()),
        ensures
            final(state)@ == transfer_model(old(state)@, *statement),
            final(state)@.wf(),
            final(state)@.slots() == old(state)@.slots(),
            // `revoked` is non-decreasing along every execution step
            forall|c: int| 0 <= c < old(state)@.slots() && old(state)@.revoked[c]
                ==> final(state)@.revoked[c],
    {
        proof {
            lemma_transfer_revoked_monotone(old(state)@, *statement);
        }
        match *statement {
            Instr::AssignReference { dest, source, via_deref, is_unique } => {
                if is_unique {
                    if via_deref {
                        revoke(state, source);
                    }
                    derive_into(state, dest, source);
                } else {
                    clear_dest(state, dest);
                }
            },
            Instr::AssignRawPointer { dest, source, via_deref } => {
                if via_deref {
                    derive_into(state, dest, source);
                } else {
                    clear_dest(state, dest);
                }
            },
            Instr::AssignOther { dest } => {
                clear_dest(state, dest);
            },
            Instr::WritePointerTarget { target, .. } => {
                revoke(state, target);
            },
        }
    }
}

} // verus!
