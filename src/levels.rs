//! Price levels: which entries of a side belong to its leading levels.

use crate::book::Order;
use crate::decimal::{same_value, Decimal};
use vstd::prelude::*;

verus! {

pub open spec fn prices(side: Seq<Order>) -> Seq<Decimal> {
    side.map_values(|o: Order| o.limit_price)
}

/// The 1-based price level of entry `i`: one more than the number of price
/// changes among the entries up to `i`.
pub open spec fn level_at(p: Seq<Decimal>, i: int) -> nat
    decreases i,
{
    if i <= 0 {
        1
    } else if same_value(p[i], p[i - 1]) {
        level_at(p, i - 1)
    } else {
        level_at(p, i - 1) + 1
    }
}

/// How many leading entries lie within the first `n` levels.
pub open spec fn selected_count(p: Seq<Decimal>, n: nat) -> nat
    decreases p.len(),
{
    if p.len() == 0 {
        0
    } else if level_at(p, p.len() - 1) <= n {
        p.len()
    } else {
        selected_count(p.drop_last(), n)
    }
}

/// The level of each entry of the first `n` levels, in the order received.
pub open spec fn select_spec(p: Seq<Decimal>, n: nat) -> Seq<nat> {
    Seq::new(selected_count(p, n), |i: int| level_at(p, i))
}

pub proof fn lemma_level_monotone(p: Seq<Decimal>, i: int, j: int)
    requires
        0 <= i <= j,
    ensures
        level_at(p, i) <= level_at(p, j),
    decreases j,
{
    if i < j {
        lemma_level_monotone(p, i, j - 1);
    }
}

/// A level depends only on the prices up to its entry.
pub proof fn lemma_level_prefix(p: Seq<Decimal>, q: Seq<Decimal>, i: int)
    requires
        0 <= i < p.len(),
        i < q.len(),
        forall|j: int| 0 <= j <= i ==> p[j] == q[j],
    ensures
        level_at(p, i) == level_at(q, i),
    decreases i,
{
    if i > 0 {
        lemma_level_prefix(p, q, i - 1);
    }
}

/// `selected_count` is the length of the run of entries within `n` levels.
pub proof fn lemma_selected_count(p: Seq<Decimal>, n: nat)
    ensures
        selected_count(p, n) <= p.len(),
        forall|j: int| 0 <= j < selected_count(p, n) ==> level_at(p, j) <= n,
        selected_count(p, n) < p.len() ==> level_at(p, selected_count(p, n) as int) > n,
    decreases p.len(),
{
    if p.len() > 0 {
        let c = selected_count(p, n);
        if level_at(p, p.len() - 1) <= n {
            assert forall|j: int| 0 <= j < c implies level_at(p, j) <= n by {
                lemma_level_monotone(p, j, p.len() - 1);
            }
        } else {
            let q = p.drop_last();
            lemma_selected_count(q, n);
            assert forall|j: int| 0 <= j < c implies level_at(p, j) <= n by {
                lemma_level_prefix(p, q, j);
            }
            if c < q.len() {
                lemma_level_prefix(p, q, c as int);
            }
        }
    }
}

/// Any run of entries within `n` levels that stops at the first entry beyond
/// them has length `selected_count(p, n)`.
pub proof fn lemma_selected_count_unique(p: Seq<Decimal>, n: nat, c: int)
    requires
        0 <= c <= p.len(),
        forall|j: int| 0 <= j < c ==> level_at(p, j) <= n,
        c == p.len() || level_at(p, c) > n,
    ensures
        selected_count(p, n) == c,
{
    lemma_selected_count(p, n);
    let s = selected_count(p, n) as int;
    if s < c {
        assert(level_at(p, s) <= n);
    } else if s > c {
        assert(level_at(p, c) <= n);
    }
}

/// For each entry within the first `n` levels of `side`, in order, its level.
/// The entries selected are the first `r.len()` of `side`.
pub fn select_levels(side: &Vec<Order>, n: u32) -> (r: Vec<u32>)
    requires
        forall|i: int| 0 <= i < side.len() ==> (#[trigger] side[i]).limit_price.wf(),
    ensures
        r@.len() == selected_count(prices(side@), n as nat),
        forall|i: int| 0 <= i < r.len() ==> r[i] as nat == level_at(prices(side@), i),
{
    let ghost p = prices(side@);
    let mut out: Vec<u32> = Vec::new();
    let mut level: u32 = 0;
    let mut i: usize = 0;
    let mut beyond = false;
    while i < side.len() && !beyond
        invariant
            p == prices(side@),
            forall|i: int| 0 <= i < side.len() ==> (#[trigger] side[i]).limit_price.wf(),
            i <= side.len(),
            out.len() == i,
            level <= n,
            i == 0 ==> level == 0,
            i > 0 ==> level as nat == level_at(p, i - 1),
            forall|j: int| 0 <= j < i ==> out[j] as nat == level_at(p, j) && level_at(p, j) <= n,
            beyond ==> i < side.len() && level_at(p, i as int) > n,
        decreases side.len() - i + (if beyond { 0int } else { 1int }),
    {
        let changed = i == 0 || !side[i].limit_price.same_value(&side[i - 1].limit_price);
        let next: u64 = if changed {
            level as u64 + 1
        } else {
            level as u64
        };
        proof {
            assert(next == level_at(p, i as int));
        }
        if next > n as u64 {
            beyond = true;
        } else {
            out.push(next as u32);
            level = next as u32;
            i = i + 1;
        }
    }
    proof {
        lemma_selected_count_unique(p, n as nat, i as int);
    }
    out
}

/// Selecting `m` levels from what a selection of `n >= m` levels kept gives
/// what selecting `m` levels from the whole side gives.
pub proof fn lemma_truncation_idempotent(p: Seq<Decimal>, n: nat, m: nat)
    requires
        m <= n,
    ensures
        select_spec(p.take(selected_count(p, n) as int), m) == select_spec(p, m),
{
    let k = selected_count(p, n) as int;
    let c = selected_count(p, m) as int;
    let q = p.take(k);
    lemma_selected_count(p, n);
    lemma_selected_count(p, m);
    if c > k {
        assert(level_at(p, k) <= m);
    }
    assert forall|j: int| 0 <= j < k implies level_at(q, j) == level_at(p, j) by {
        lemma_level_prefix(q, p, j);
    }
    lemma_selected_count_unique(q, m, c);
    assert(select_spec(q, m) =~= select_spec(p, m));
}

pub proof fn lemma_same_value_transitive(a: Decimal, b: Decimal, c: Decimal)
    requires
        same_value(a, b),
        same_value(b, c),
    ensures
        same_value(a, c),
{
    crate::decimal::lemma_pow10_positive(a.scale as nat);
    crate::decimal::lemma_pow10_positive(b.scale as nat);
    crate::decimal::lemma_pow10_positive(c.scale as nat);
    let pa = crate::decimal::pow10(a.scale as nat) as int;
    let pb = crate::decimal::pow10(b.scale as nat) as int;
    let pc = crate::decimal::pow10(c.scale as nat) as int;
    let ma = a.mantissa as int;
    let mb = b.mantissa as int;
    let mc = c.mantissa as int;
    assert(ma * pc == mc * pa) by (nonlinear_arith)
        requires
            ma * pb == mb * pa,
            mb * pc == mc * pb,
            pb > 0,
    {
        assert(ma * pc * pb == mb * pa * pc);
        assert(mc * pa * pb == mb * pc * pa);
    }
}

/// Levels depend on prices alone: two sides whose prices are equal entry by
/// entry (for instance, one that reorders entries within a price level) get
/// the same levels for the same entries, in the same order.
pub proof fn lemma_levels_follow_prices(p: Seq<Decimal>, q: Seq<Decimal>, n: nat)
    requires
        p.len() == q.len(),
        forall|i: int| 0 <= i < p.len() ==> same_value(#[trigger] p[i], q[i]),
    ensures
        select_spec(p, n) == select_spec(q, n),
{
    assert forall|i: int| 0 <= i < p.len() implies level_at(p, i) == level_at(q, i) by {
        lemma_levels_agree(p, q, i);
    }
    lemma_selected_count(p, n);
    lemma_selected_count_unique(q, n, selected_count(p, n) as int);
    assert(select_spec(p, n) =~= select_spec(q, n));
}

proof fn lemma_levels_agree(p: Seq<Decimal>, q: Seq<Decimal>, i: int)
    requires
        p.len() == q.len(),
        0 <= i < p.len(),
        forall|i: int| 0 <= i < p.len() ==> same_value(#[trigger] p[i], q[i]),
    ensures
        level_at(p, i) == level_at(q, i),
    decreases i,
{
    if i > 0 {
        lemma_levels_agree(p, q, i - 1);
        let (a, b, c, d) = (p[i], p[i - 1], q[i], q[i - 1]);
        assert(same_value(a, c) && same_value(b, d));
        if same_value(a, b) {
            lemma_same_value_transitive(c, a, b);
            lemma_same_value_transitive(c, b, d);
        }
        if same_value(c, d) {
            lemma_same_value_transitive(a, c, d);
            lemma_same_value_transitive(a, d, b);
        }
    }
}

} // verus!
