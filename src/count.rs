use vstd::prelude::*;

use crate::cell::{CellState, CellView};

verus! {

/// Number of cells of `s` that satisfy `p`.
pub open spec fn count_cells(s: Seq<CellView>, p: spec_fn(CellView) -> bool) -> nat
    decreases s.len(),
{
    if s.len() == 0 {
        0
    } else {
        count_cells(s.drop_last(), p) + if p(s.last()) {
            1nat
        } else {
            0nat
        }
    }
}

pub open spec fn has_mine() -> spec_fn(CellView) -> bool {
    |c: CellView| c.mines != 0
}

pub open spec fn is_hidden_safe() -> spec_fn(CellView) -> bool {
    |c: CellView| c.mines == 0 && c.state is Hidden
}

pub open spec fn is_flagged() -> spec_fn(CellView) -> bool {
    |c: CellView| c.state matches CellState::Hidden { flags } && flags > 0
}

/// Number of cells holding a mine.
pub open spec fn mine_count(s: Seq<CellView>) -> nat {
    count_cells(s, has_mine())
}

/// Number of cells without a mine that are still hidden.
pub open spec fn hidden_safe_count(s: Seq<CellView>) -> nat {
    count_cells(s, is_hidden_safe())
}

/// Number of hidden cells that carry a flag.
pub open spec fn flagged_count(s: Seq<CellView>) -> nat {
    count_cells(s, is_flagged())
}

pub proof fn lemma_count_bounded(s: Seq<CellView>, p: spec_fn(CellView) -> bool)
    ensures
        count_cells(s, p) <= s.len(),
    decreases s.len(),
{
    if s.len() > 0 {
        lemma_count_bounded(s.drop_last(), p);
    }
}

/// Replacing one cell changes the count by what the old and the new cell contribute.
pub proof fn lemma_count_update(s: Seq<CellView>, i: int, v: CellView, p: spec_fn(CellView) -> bool)
    requires
        0 <= i < s.len(),
    ensures
        count_cells(s.update(i, v), p) as int == count_cells(s, p) as int - (if p(s[i]) {
            1int
        } else {
            0int
        }) + (if p(v) {
            1int
        } else {
            0int
        }),
    decreases s.len(),
{
    let t = s.update(i, v);
    if i == s.len() - 1 {
        assert(t.drop_last() =~= s.drop_last());
    } else {
        assert(t.drop_last() =~= s.drop_last().update(i, v));
        lemma_count_update(s.drop_last(), i, v, p);
    }
}

/// A sequence in which no cell satisfies `p` counts zero.
pub proof fn lemma_count_none(s: Seq<CellView>, p: spec_fn(CellView) -> bool)
    requires
        forall|i: int| 0 <= i < s.len() ==> !p(#[trigger] s[i]),
    ensures
        count_cells(s, p) == 0,
    decreases s.len(),
{
    if s.len() > 0 {
        lemma_count_none(s.drop_last(), p);
    }
}

/// A sequence in which every cell satisfies `p` counts its length.
pub proof fn lemma_count_all(s: Seq<CellView>, p: spec_fn(CellView) -> bool)
    requires
        forall|i: int| 0 <= i < s.len() ==> p(#[trigger] s[i]),
    ensures
        count_cells(s, p) == s.len(),
    decreases s.len(),
{
    if s.len() > 0 {
        lemma_count_all(s.drop_last(), p);
    }
}

/// A zero count means that no cell satisfies `p`.
pub proof fn lemma_count_zero(s: Seq<CellView>, p: spec_fn(CellView) -> bool, i: int)
    requires
        count_cells(s, p) == 0,
        0 <= i < s.len(),
    ensures
        !p(s[i]),
    decreases s.len(),
{
    if i < s.len() - 1 {
        lemma_count_zero(s.drop_last(), p, i);
    }
}

/// Sequences whose cells agree on `p` count the same.
pub proof fn lemma_count_same(s: Seq<CellView>, t: Seq<CellView>, p: spec_fn(CellView) -> bool)
    requires
        s.len() == t.len(),
        forall|i: int| 0 <= i < s.len() ==> p(#[trigger] t[i]) == p(s[i]),
    ensures
        count_cells(t, p) == count_cells(s, p),
    decreases s.len(),
{
    if s.len() > 0 {
        lemma_count_same(s.drop_last(), t.drop_last(), p);
    }
}

} // verus!
