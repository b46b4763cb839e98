use vstd::prelude::*;

verus! {

/// Number of `false` entries (places without a mine) in `s`.
pub open spec fn free_count(s: Seq<bool>) -> nat
    decreases s.len(),
{
    if s.len() == 0 {
        0
    } else {
        free_count(s.drop_last()) + if s.last() {
            0nat
        } else {
            1nat
        }
    }
}

/// Index `i` is the place without a mine that has exactly `r` such places before it.
pub open spec fn is_nth_free(s: Seq<bool>, r: int, i: int) -> bool {
    0 <= i < s.len() && !s[i] && free_count(s.take(i)) == r
}

/// Puts a mine on the `r`-th place (counting from 0, in order) that has none yet.
pub open spec fn place_pick(s: Seq<bool>, r: int) -> Seq<bool> {
    s.update(choose|i: int| is_nth_free(s, r, i), true)
}

/// The mine layout of `n` places after placing one mine per pick, in order.
pub open spec fn picks_layout(n: nat, picks: Seq<u32>) -> Seq<bool>
    decreases picks.len(),
{
    if picks.len() == 0 {
        Seq::new(n, |i: int| false)
    } else {
        place_pick(picks_layout(n, picks.drop_last()), picks.last() as int)
    }
}

/// Picks that can all be placed on `n` places: the `j`-th pick is below the
/// number of places still free when it is placed.
pub open spec fn valid_picks(n: int, picks: Seq<u32>) -> bool {
    &&& picks.len() <= n
    &&& forall|j: int| 0 <= j < picks.len() ==> #[trigger] picks[j] < n - j
}

pub proof fn lemma_free_count_take(s: Seq<bool>, k: int)
    requires
        0 <= k < s.len(),
    ensures
        free_count(s.take(k + 1)) == free_count(s.take(k)) + if s[k] {
            0nat
        } else {
            1nat
        },
{
    assert(s.take(k + 1).drop_last() =~= s.take(k));
}

pub proof fn lemma_free_count_full(s: Seq<bool>)
    ensures
        free_count(s.take(s.len() as int)) == free_count(s),
{
    assert(s.take(s.len() as int) =~= s);
}

/// Free places in a prefix never outnumber those in a longer prefix.
pub proof fn lemma_free_count_mono(s: Seq<bool>, j: int, k: int)
    requires
        0 <= j <= k <= s.len(),
    ensures
        free_count(s.take(j)) <= free_count(s.take(k)),
    decreases k - j,
{
    if j < k {
        lemma_free_count_mono(s, j, k - 1);
        lemma_free_count_take(s, k - 1);
    }
}

/// At most one place is the `r`-th free one.
pub proof fn lemma_nth_free_unique(s: Seq<bool>, r: int, i: int, j: int)
    requires
        is_nth_free(s, r, i),
        is_nth_free(s, r, j),
    ensures
        i == j,
{
    if i < j {
        lemma_free_count_take(s, i);
        lemma_free_count_mono(s, i + 1, j);
    } else if j < i {
        lemma_free_count_take(s, j);
        lemma_free_count_mono(s, j + 1, i);
    }
}

/// Taking a free place for a mine leaves one free place fewer.
pub proof fn lemma_free_count_update(s: Seq<bool>, i: int)
    requires
        0 <= i < s.len(),
        !s[i],
    ensures
        free_count(s.update(i, true)) + 1 == free_count(s),
    decreases s.len(),
{
    let t = s.update(i, true);
    if i == s.len() - 1 {
        assert(t.drop_last() =~= s.drop_last());
    } else {
        assert(t.drop_last() =~= s.drop_last().update(i, true));
        lemma_free_count_update(s.drop_last(), i);
    }
}

pub proof fn lemma_free_count_all_free(n: nat)
    ensures
        free_count(Seq::new(n, |i: int| false)) == n,
    decreases n,
{
    if n > 0 {
        assert(Seq::new(n, |i: int| false).drop_last() =~= Seq::new((n - 1) as nat, |i: int| false));
        lemma_free_count_all_free((n - 1) as nat);
    }
}

/// Relies on rand::random_range: a value drawn from the thread-local
/// generator, within `0..bound`; the call panics on an empty range.
#[verifier::external_body]
pub(crate) fn random_below(bound: u32) -> (r: u32)
    requires
        bound > 0,
    ensures
        r < bound,
{
    rand::random_range(0..bound)
}

} // verus!
