//! Slot sets as fixed-width boolean membership vectors, and grids of such
//! sets indexed by slot, together with the counting lemmas that bound the
//! lattice height.

use vstd::prelude::*;

verus! {

/// The empty set over `n` slots.
pub open spec fn empty_bits(n: nat) -> Seq<bool> {
    Seq::new(n, |i: int| false)
}

/// Pointwise union of two equally wide sets.
pub open spec fn union_bits(a: Seq<bool>, b: Seq<bool>) -> Seq<bool> {
    Seq::new(a.len(), |i: int| a[i] || b[i])
}

/// Every slot of `a` is also in `b`.
pub open spec fn subset_bits(a: Seq<bool>, b: Seq<bool>) -> bool {
    a.len() == b.len() && forall|i: int| 0 <= i < a.len() && a[i] ==> b[i]
}

/// Number of slots present in the set.
pub open spec fn count_bits(s: Seq<bool>) -> nat
    decreases s.len(),
{
    if s.len() == 0 {
        0
    } else {
        count_bits(s.drop_last()) + if s.last() {
            1nat
        } else {
            0nat
        }
    }
}

pub proof fn lemma_count_le_len(s: Seq<bool>)
    ensures
        count_bits(s) <= s.len(),
    decreases s.len(),
{
    if s.len() > 0 {
        lemma_count_le_len(s.drop_last());
    }
}

pub proof fn lemma_count_empty_bits(n: nat)
    ensures
        count_bits(empty_bits(n)) == 0,
    decreases n,
{
    if n > 0 {
        assert(empty_bits(n).drop_last() =~= empty_bits((n - 1) as nat));
        lemma_count_empty_bits((n - 1) as nat);
    }
}

/// Inserting a slot that was absent grows the count by one.
pub proof fn lemma_count_update_true(s: Seq<bool>, i: int)
    requires
        0 <= i < s.len(),
        !s[i],
    ensures
        count_bits(s.update(i, true)) == count_bits(s) + 1,
    decreases s.len(),
{
    let t = s.update(i, true);
    if i == s.len() - 1 {
        assert(t.drop_last() =~= s.drop_last());
    } else {
        assert(t.drop_last() =~= s.drop_last().update(i, true));
        lemma_count_update_true(s.drop_last(), i);
    }
}

pub proof fn lemma_count_subset(a: Seq<bool>, b: Seq<bool>)
    requires
        subset_bits(a, b),
    ensures
        count_bits(a) <= count_bits(b),
    decreases a.len(),
{
    if a.len() > 0 {
        assert(subset_bits(a.drop_last(), b.drop_last()));
        lemma_count_subset(a.drop_last(), b.drop_last());
    }
}

/// A strict subset has a strictly smaller count.
pub proof fn lemma_count_subset_strict(a: Seq<bool>, b: Seq<bool>)
    requires
        subset_bits(a, b),
        a != b,
    ensures
        count_bits(a) < count_bits(b),
{
    assert(exists|i: int| 0 <= i < a.len() && a[i] != b[i]) by {
        if forall|i: int| 0 <= i < a.len() ==> a[i] == b[i] {
            assert(a =~= b);
        }
    }
    let i = choose|i: int| 0 <= i < a.len() && a[i] != b[i];
    assert(!a[i] && b[i]);
    let a2 = a.update(i, true);
    lemma_count_update_true(a, i);
    assert(subset_bits(a2, b));
    lemma_count_subset(a2, b);
}

/// A grid holds one slot set per slot.
pub open spec fn grid_wf(g: Seq<Seq<bool>>, rows: nat, width: nat) -> bool {
    g.len() == rows && forall|i: int| 0 <= i < g.len() ==> (#[trigger] g[i]).len() == width
}

pub open spec fn empty_grid(rows: nat, width: nat) -> Seq<Seq<bool>> {
    Seq::new(rows, |i: int| empty_bits(width))
}

pub open spec fn union_grid(a: Seq<Seq<bool>>, b: Seq<Seq<bool>>) -> Seq<Seq<bool>> {
    Seq::new(a.len(), |i: int| union_bits(a[i], b[i]))
}

pub open spec fn subset_grid(a: Seq<Seq<bool>>, b: Seq<Seq<bool>>) -> bool {
    a.len() == b.len() && forall|i: int| 0 <= i < a.len() ==> subset_bits(#[trigger] a[i], b[i])
}

pub open spec fn count_grid(g: Seq<Seq<bool>>) -> nat
    decreases g.len(),
{
    if g.len() == 0 {
        0
    } else {
        count_grid(g.drop_last()) + count_bits(g.last())
    }
}

pub proof fn lemma_count_empty_grid(rows: nat, width: nat)
    ensures
        count_grid(empty_grid(rows, width)) == 0,
    decreases rows,
{
    if rows > 0 {
        assert(empty_grid(rows, width).drop_last() =~= empty_grid((rows - 1) as nat, width));
        lemma_count_empty_grid((rows - 1) as nat, width);
        lemma_count_empty_bits(width);
    }
}

pub proof fn lemma_count_grid_le(g: Seq<Seq<bool>>, width: nat)
    requires
        forall|i: int| 0 <= i < g.len() ==> (#[trigger] g[i]).len() == width,
    ensures
        count_grid(g) <= g.len() * width,
    decreases g.len(),
{
    if g.len() > 0 {
        lemma_count_grid_le(g.drop_last(), width);
        lemma_count_le_len(g.last());
        assert((g.len() - 1) * width + width == g.len() * width) by (nonlinear_arith);
    }
}

/// Replacing one row changes the count by the difference of the rows' counts.
pub proof fn lemma_count_grid_update(g: Seq<Seq<bool>>, i: int, r: Seq<bool>)
    requires
        0 <= i < g.len(),
    ensures
        count_grid(g.update(i, r)) + count_bits(g[i]) == count_grid(g) + count_bits(r),
    decreases g.len(),
{
    let t = g.update(i, r);
    if i == g.len() - 1 {
        assert(t.drop_last() =~= g.drop_last());
    } else {
        assert(t.drop_last() =~= g.drop_last().update(i, r));
        lemma_count_grid_update(g.drop_last(), i, r);
    }
}

pub proof fn lemma_count_grid_subset(a: Seq<Seq<bool>>, b: Seq<Seq<bool>>)
    requires
        subset_grid(a, b),
    ensures
        count_grid(a) <= count_grid(b),
    decreases a.len(),
{
    if a.len() > 0 {
        assert(subset_grid(a.drop_last(), b.drop_last()));
        lemma_count_grid_subset(a.drop_last(), b.drop_last());
        lemma_count_subset(a.last(), b.last());
    }
}

pub proof fn lemma_count_grid_subset_strict(a: Seq<Seq<bool>>, b: Seq<Seq<bool>>)
    requires
        subset_grid(a, b),
        a != b,
    ensures
        count_grid(a) < count_grid(b),
    decreases a.len(),
{
    assert(a.len() > 0) by {
        if a.len() == 0 {
            assert(a =~= b);
        }
    }
    if a.last() != b.last() {
        assert(subset_bits(a.last(), b.last()));
        lemma_count_subset_strict(a.last(), b.last());
        assert(subset_grid(a.drop_last(), b.drop_last()));
        lemma_count_grid_subset(a.drop_last(), b.drop_last());
    } else {
        assert(a.drop_last() != b.drop_last()) by {
            if a.drop_last() == b.drop_last() {
                assert forall|k: int| 0 <= k < a.len() implies a[k] == b[k] by {
                    if k < a.len() - 1 {
                        assert(a[k] == a.drop_last()[k]);
                        assert(b[k] == b.drop_last()[k]);
                    } else {
                        assert(a[k] == a.last() && b[k] == b.last());
                    }
                }
                assert(a =~= b);
            }
        }
        assert(subset_grid(a.drop_last(), b.drop_last()));
        lemma_count_grid_subset_strict(a.drop_last(), b.drop_last());
    }
}

/// The empty set over `n` slots, as a vector.
pub fn empty_set(n: usize) -> (r: Vec<bool>)
    ensures
        r@ == empty_bits(n as nat),
{
    let mut r: Vec<bool> = Vec::new();
    let mut i: usize = 0;
    while i < n
        invariant
            i <= n,
            r@ == empty_bits(i as nat),
        decreases n - i,
    {
        r.push(false);
        i = i + 1;
        proof {
            assert(r@ =~= empty_bits(i as nat));
        }
    }
    r
}

pub fn copy_set(src: &Vec<bool>) -> (r: Vec<bool>)
    ensures
        r@ == src@,
{
    let n = src.len();
    let mut r: Vec<bool> = Vec::new();
    let mut i: usize = 0;
    while i < n
        invariant
            i <= n,
            n == src@.len(),
            r@ == src@.take(i as int),
        decreases n - i,
    {
        r.push(src[i]);
        i = i + 1;
        proof {
            assert(r@ =~= src@.take(i as int));
        }
    }
    proof {
        assert(src@.take(n as int) =~= src@);
    }
    r
}

/// Unions `src` into `dst`; reports whether `dst` changed.
pub fn union_into(dst: &mut Vec<bool>, src: &Vec<bool>) -> (changed: bool)
    requires
        old(dst)@.len() == src@.len(),
    ensures
        final(dst)@ == union_bits(old(dst)@, src@),
        changed == (final(dst)@ != old(dst)@),
{
    let ghost d0 = dst@;
    let n = dst.len();
    let mut changed = false;
    let mut i: usize = 0;
    while i < n
        invariant
            i <= n,
            n == dst@.len() == src@.len() && n == d0.len(),
            forall|j: int| 0 <= j < i ==> dst@[j] == (d0[j] || src@[j]),
            forall|j: int| i <= j < n ==> dst@[j] == d0[j],
            changed == exists|j: int| 0 <= j < i && #[trigger] dst@[j] != d0[j],
        decreases n - i,
    {
        if src[i] && !dst[i] {
            dst.set(i, true);
            changed = true;
            proof {
                assert(dst@[i as int] != d0[i as int]);
            }
        }
        i = i + 1;
    }
    proof {
        assert(dst@ =~= union_bits(d0, src@));
        if !changed {
            assert(dst@ =~= d0);
        }
    }
    changed
}

/// A grid of `n` empty sets of width `n`.
pub fn empty_grid_exec(n: usize) -> (r: Vec<Vec<bool>>)
    ensures
        r@.map_values(|v: Vec<bool>| v@) == empty_grid(n as nat, n as nat),
{
    let mut r: Vec<Vec<bool>> = Vec::new();
    let mut i: usize = 0;
    while i < n
        invariant
            i <= n,
            r@.len() == i,
            forall|j: int| 0 <= j < i ==> (#[trigger] r@[j])@ == empty_bits(n as nat),
        decreases n - i,
    {
        r.push(empty_set(n));
        i = i + 1;
    }
    proof {
        assert(r@.map_values(|v: Vec<bool>| v@) =~= empty_grid(n as nat, n as nat));
    }
    r
}

pub fn copy_grid(src: &Vec<Vec<bool>>) -> (r: Vec<Vec<bool>>)
    ensures
        r@.map_values(|v: Vec<bool>| v@) == src@.map_values(|v: Vec<bool>| v@),
        r@.len() == src@.len(),
{
    let n = src.len();
    let mut r: Vec<Vec<bool>> = Vec::new();
    let mut i: usize = 0;
    while i < n
        invariant
            i <= n,
            n == src@.len(),
            r@.len() == i,
            forall|j: int| 0 <= j < i ==> (#[trigger] r@[j])@ == src@[j]@,
        decreases n - i,
    {
        r.push(copy_set(&src[i]));
        i = i + 1;
    }
    proof {
        assert(r@.map_values(|v: Vec<bool>| v@) =~= src@.map_values(|v: Vec<bool>| v@));
    }
    r
}

/// Unions `src` into `dst`, row by row; reports whether `dst` changed.
pub fn union_grid_into(dst: &mut Vec<Vec<bool>>, src: &Vec<Vec<bool>>) -> (changed: bool)
    requires
        old(dst)@.len() == src@.len(),
        forall|i: int| 0 <= i < src@.len() ==> (#[trigger] old(dst)@[i])@.len() == src@[i]@.len(),
    ensures
        final(dst)@.map_values(|v: Vec<bool>| v@) == union_grid(
            old(dst)@.map_values(|v: Vec<bool>| v@),
            src@.map_values(|v: Vec<bool>| v@),
        ),
        changed == (final(dst)@.map_values(|v: Vec<bool>| v@) != old(dst)@.map_values(
            |v: Vec<bool>| v@,
        )),
{
    let ghost d0 = dst@.map_values(|v: Vec<bool>| v@);
    let ghost s0 = src@.map_values(|v: Vec<bool>| v@);
    let n = dst.len();
    let mut changed = false;
    let mut i: usize = 0;
    proof {
        assert(forall|j: int| 0 <= j < n ==> #[trigger] d0[j] == old(dst)@[j]@);
        assert(forall|j: int| 0 <= j < n ==> #[trigger] s0[j] == src@[j]@);
    }
    while i < n
        invariant
            i <= n,
            n == dst@.len() == src@.len(),
            d0.len() == n && s0.len() == n,
            forall|j: int| 0 <= j < n ==> #[trigger] d0[j].len() == s0[j].len(),
            forall|j: int| 0 <= j < n ==> #[trigger] s0[j] == src@[j]@,
            forall|j: int| 0 <= j < i ==> (#[trigger] dst@[j])@ == union_bits(d0[j], s0[j]),
            forall|j: int| i <= j < n ==> (#[trigger] dst@[j])@ == d0[j],
            changed == exists|j: int| 0 <= j < i && (#[trigger] dst@[j])@ != d0[j],
        decreases n - i,
    {
        let ghost pre = dst@;
        let mut row = copy_set(&dst[i]);
        let ch = union_into(&mut row, &src[i]);
        dst.set(i, row);
        proof {
            assert((dst@[i as int])@ == union_bits(d0[i as int], s0[i as int]));
            if ch {
                assert((dst@[i as int])@ != d0[i as int]);
            } else {
                assert((dst@[i as int])@ == d0[i as int]);
            }
            if changed {
                let j0 = choose|j: int| 0 <= j < i && (#[trigger] pre[j])@ != d0[j];
                assert((dst@[j0])@ != d0[j0]);
            }
        }
        if ch {
            changed = true;
            proof {
                assert(0 <= i < i + 1 && (#[trigger] dst@[i as int])@ != d0[i as int]);
            }
        } else {
            proof {
                if !changed {
                    assert forall|j: int| 0 <= j < i + 1 implies (#[trigger] dst@[j])@ == d0[j] by {
                        if j < i {
                            assert(dst@[j] == pre[j]);
                        }
                    }
                }
            }
        }
        i = i + 1;
    }
    proof {
        assert(dst@.map_values(|v: Vec<bool>| v@) =~= union_grid(d0, s0));
        if !changed {
            assert(dst@.map_values(|v: Vec<bool>| v@) =~= d0);
        } else {
            assert(dst@.map_values(|v: Vec<bool>| v@) != d0);
        }
    }
    changed
}

} // verus!
