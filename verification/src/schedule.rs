//! The fair-succession leader schedule and the facts that make it fair.
use vstd::prelude::*;
use std::collections::{HashMap, VecDeque};

verus! {

broadcast use vstd::std_specs::hash::group_hash_axioms;

/// Number of occurrences of `v` in `s`.
pub open spec fn occ(s: Seq<usize>, v: int) -> nat
    decreases s.len(),
{
    if s.len() == 0 {
        0
    } else {
        occ(s.drop_last(), v) + if s.last() == v { 1nat } else { 0nat }
    }
}

/// The leader that follows `v` when `v` leaves its turn for the `c`-th time
/// (counting from 0): the `c + 1`-th node after `v` in cyclic order.
pub open spec fn succ_of(v: int, c: int, n: int) -> int {
    (v + c + 1) % n
}

/// The first `len` entries of the greedy walk over `n` nodes: it starts at node 0,
/// and a node that has already led `c` times hands over to `succ_of(node, c, n)`.
pub open spec fn greedy_walk(n: int, len: nat) -> Seq<usize>
    decreases len,
{
    if len == 0 {
        Seq::<usize>::empty()
    } else if len == 1 {
        seq![0usize]
    } else {
        let p = greedy_walk(n, (len - 1) as nat);
        p.push(succ_of(p.last() as int, occ(p.drop_last(), p.last() as int) as int, n) as usize)
    }
}

/// The schedule over `n` nodes: one lap of the greedy walk, `n * (n - 1)` turns.
pub open spec fn fair_schedule(n: int) -> Seq<usize> {
    greedy_walk(n, (n * (n - 1)) as nat)
}


/// How many times `v` has already handed over its turn in the walk `s`
/// (every entry but the last one is followed by a successor).
pub open spec fn departures(s: Seq<usize>, v: int) -> nat {
    occ(s.drop_last(), v)
}

/// How many of the `m` hand-overs into `w` with distances `1..=m` the walk `s`
/// has already made: the one with distance `k` comes from `(w - k) % n` on its
/// `k`-th departure.
pub open spec fn arrivals(s: Seq<usize>, w: int, n: int, m: int) -> nat
    decreases m,
{
    if m <= 0 {
        0
    } else {
        arrivals(s, w, n, m - 1) + if departures(s, (w - m) % n) >= m { 1nat } else { 0nat }
    }
}

/// Sum of `occ(t, v)` over `v < j`.
pub open spec fn occ_sum(t: Seq<usize>, j: int) -> nat
    decreases j,
{
    if j <= 0 {
        0
    } else {
        occ_sum(t, j - 1) + occ(t, j - 1)
    }
}

/// The invariant of the greedy walk: every node enters as often as it leaves,
/// except the start node 0 (one more departure) and the current node (one more
/// arrival); and the entries into a node arrive in order of increasing distance.
pub open spec fn walk_inv(s: Seq<usize>, n: int) -> bool {
    &&& 1 <= n <= usize::MAX
    &&& s.len() >= 1
    &&& s[0] == 0
    &&& forall|i: int| 0 <= i < s.len() ==> s[i] < n
    &&& forall|v: int| 0 <= v < n ==> #[trigger] departures(s, v) <= n - 1
    &&& forall|w: int|
        0 <= w < n ==> #[trigger] arrivals(s, w, n, n - 1) + (if w == 0 { 1int } else { 0int })
            == departures(s, w) + (if w == s.last() { 1int } else { 0int })
}

/// `a % n` for `a` within one period on either side of `[0, n)`.
pub proof fn lemma_mod_window(a: int, n: int)
    requires
        n > 0,
        -n <= a < 2 * n,
    ensures
        a % n == (if a < 0 { a + n } else if a < n { a } else { a - n }),
{
    if a < 0 {
        vstd::arithmetic::div_mod::lemma_mod_add_multiples_vanish(a, n);
        vstd::arithmetic::div_mod::lemma_small_mod((a + n) as nat, n as nat);
    } else if a < n {
        vstd::arithmetic::div_mod::lemma_small_mod(a as nat, n as nat);
    } else {
        vstd::arithmetic::div_mod::lemma_mod_sub_multiples_vanish(a, n);
        vstd::arithmetic::div_mod::lemma_small_mod((a - n) as nat, n as nat);
    }
}

pub proof fn lemma_occ_push(s: Seq<usize>, x: usize, v: int)
    ensures
        occ(s.push(x), v) == occ(s, v) + if x == v { 1nat } else { 0nat },
{
    assert(s.push(x).drop_last() =~= s);
}

proof fn lemma_arrivals_step(s: Seq<usize>, n: int, w: int, m: int)
    requires
        s.len() >= 1,
        0 <= s.last() < n,
        departures(s, s.last() as int) + 1 <= n - 1,
        0 <= w < n,
        0 <= m <= n - 1,
    ensures
        ({
            let l = s.last() as int;
            let c = departures(s, l) as int;
            let x = succ_of(l, c, n);
            arrivals(s.push(x as usize), w, n, m) == arrivals(s, w, n, m) + if w == x && c + 1 <= m {
                1nat
            } else {
                0nat
            }
        }),
    decreases m,
{
    let l = s.last() as int;
    let c = departures(s, l) as int;
    let x = succ_of(l, c, n);
    let s2 = s.push(x as usize);
    lemma_mod_window(l + c + 1, n);
    if m > 0 {
        lemma_arrivals_step(s, n, w, m - 1);
        let src = (w - m) % n;
        lemma_mod_window(w - m, n);
        assert(s2.drop_last() =~= s);
        lemma_occ_push(s.drop_last(), s.last(), src);
        assert(s.drop_last().push(s.last()) =~= s);
        assert(departures(s2, src) == departures(s, src) + if src == l { 1nat } else { 0nat });
        if m == c + 1 {
            assert((src == l) == (w == x));
        }
    }
}

proof fn lemma_arrivals_bound(s: Seq<usize>, w: int, n: int, m: int)
    requires
        m >= 0,
    ensures
        arrivals(s, w, n, m) <= m,
    decreases m,
{
    if m > 0 {
        lemma_arrivals_bound(s, w, n, m - 1);
    }
}

proof fn lemma_arrivals_full(s: Seq<usize>, w: int, n: int, m: int, k: int)
    requires
        arrivals(s, w, n, m) == m,
        1 <= k <= m,
    ensures
        departures(s, (w - k) % n) >= k,
    decreases m,
{
    lemma_arrivals_bound(s, w, n, m - 1);
    if k < m {
        lemma_arrivals_full(s, w, n, m - 1, k);
    }
}

proof fn lemma_walk_step(s: Seq<usize>, n: int)
    requires
        walk_inv(s, n),
        departures(s, s.last() as int) < n - 1,
    ensures
        ({
            let l = s.last() as int;
            let x = succ_of(l, departures(s, l) as int, n);
            &&& 0 <= x < n
            &&& walk_inv(s.push(x as usize), n)
        }),
{
    let l = s.last() as int;
    let c = departures(s, l) as int;
    let x = succ_of(l, c, n);
    lemma_mod_window(l + c + 1, n);
    let s2 = s.push(x as usize);
    assert(s2.drop_last() =~= s);
    assert forall|v: int| 0 <= v < n implies departures(s2, v) == departures(s, v) + if v == l {
        1nat
    } else {
        0nat
    } by {
        lemma_occ_push(s.drop_last(), s.last(), v);
        assert(s.drop_last().push(s.last()) =~= s);
    }
    assert forall|w: int| 0 <= w < n implies #[trigger] arrivals(s2, w, n, n - 1) + (if w == 0 {
        1int
    } else {
        0int
    }) == departures(s2, w) + (if w == s2.last() { 1int } else { 0int }) by {
        lemma_arrivals_step(s, n, w, n - 1);
        assert(departures(s2, w) == departures(s, w) + if w == l { 1nat } else { 0nat });
        assert(s2.last() == x as usize);
        assert(arrivals(s, w, n, n - 1) + (if w == 0 { 1int } else { 0int }) == departures(s, w)
            + (if w == s.last() { 1int } else { 0int }));
    }
    assert forall|v: int| 0 <= v < n implies #[trigger] departures(s2, v) <= n - 1 by {}
}

proof fn lemma_occ_sum_push(t: Seq<usize>, x: usize, j: int)
    ensures
        occ_sum(t.push(x), j) == occ_sum(t, j) + if 0 <= x < j { 1nat } else { 0nat },
    decreases j,
{
    if j > 0 {
        lemma_occ_sum_push(t, x, j - 1);
        lemma_occ_push(t, x, j - 1);
    }
}

/// Counting by value adds up to the length when every entry is below `j`.
proof fn lemma_occ_sum_len(t: Seq<usize>, j: int)
    requires
        forall|i: int| 0 <= i < t.len() ==> t[i] < j,
    ensures
        occ_sum(t, j) == t.len(),
    decreases t.len(),
{
    if t.len() == 0 {
        lemma_occ_sum_zero(t, j);
    } else {
        lemma_occ_sum_len(t.drop_last(), j);
        lemma_occ_sum_push(t.drop_last(), t.last(), j);
        assert(t.drop_last().push(t.last()) =~= t);
    }
}

proof fn lemma_occ_sum_zero(t: Seq<usize>, j: int)
    requires
        t.len() == 0,
    ensures
        occ_sum(t, j) == 0,
    decreases j,
{
    if j > 0 {
        lemma_occ_sum_zero(t, j - 1);
    }
}

proof fn lemma_occ_sum_upper(t: Seq<usize>, j: int, n: int)
    requires
        0 <= j <= n,
        n >= 1,
        forall|v: int| 0 <= v < n ==> #[trigger] occ(t, v) <= n - 1,
    ensures
        occ_sum(t, j) <= j * (n - 1),
        forall|v: int| 0 <= v < j ==> occ_sum(t, j) + (n - 1 - occ(t, v)) <= j * (n - 1),
    decreases j,
{
    if j > 0 {
        lemma_occ_sum_upper(t, j - 1, n);
        assert(j * (n - 1) == (j - 1) * (n - 1) + (n - 1)) by (nonlinear_arith);
        assert(occ(t, j - 1) <= n - 1);
    } else {
        assert(j * (n - 1) == 0) by (nonlinear_arith)
            requires
                j == 0,
        ;
    }
}

proof fn lemma_occ_sum_all(t: Seq<usize>, j: int, n: int)
    requires
        j >= 0,
        forall|v: int| 0 <= v < j ==> #[trigger] occ(t, v) == n - 1,
    ensures
        occ_sum(t, j) == j * (n - 1),
    decreases j,
{
    if j > 0 {
        lemma_occ_sum_all(t, j - 1, n);
        assert(j * (n - 1) == (j - 1) * (n - 1) + (n - 1)) by (nonlinear_arith);
        assert(occ(t, j - 1) == n - 1);
    } else {
        assert(j * (n - 1) == 0) by (nonlinear_arith)
            requires
                j == 0,
        ;
    }
}

/// Once the walk reaches a node with no successor left, every node has led
/// `n - 1` times and the walk is back at node 0.
proof fn lemma_walk_stuck(s: Seq<usize>, n: int)
    requires
        walk_inv(s, n),
        departures(s, s.last() as int) == n - 1,
    ensures
        s.last() == 0,
        forall|v: int| 0 <= v < n ==> #[trigger] departures(s, v) == n - 1,
        s.len() == n * (n - 1) + 1,
{
    let l = s.last() as int;
    lemma_arrivals_bound(s, l, n, n - 1);
    assert(l == 0) by {
        if l != 0 {
            assert(arrivals(s, l, n, n - 1) == departures(s, l) + 1);
        }
    }
    lemma_all_departed(s, n, n - 1);
    let t = s.drop_last();
    assert forall|v: int| 0 <= v < n implies #[trigger] occ(t, v) == n - 1 by {
        assert(departures(s, v) == n - 1);
    }
    assert forall|i: int| 0 <= i < t.len() implies t[i] < n by {
        assert(t[i] == s[i]);
    }
    lemma_occ_sum_len(t, n);
    lemma_occ_sum_all(t, n, n);
}

proof fn lemma_all_departed(s: Seq<usize>, n: int, w: int)
    requires
        walk_inv(s, n),
        s.last() == 0,
        departures(s, 0) == n - 1,
        0 <= w < n,
    ensures
        forall|v: int| 0 <= v <= w ==> #[trigger] departures(s, v) == n - 1,
    decreases w,
{
    if w > 0 {
        lemma_all_departed(s, n, w - 1);
        let p = w - 1;
        assert(departures(s, p) == n - 1);
        assert(arrivals(s, p, n, n - 1) == n - 1);
        lemma_arrivals_full(s, p, n, n - 1, n - 1);
        lemma_mod_window(p - (n - 1), n);
        assert(departures(s, w) >= n - 1);
    }
}

/// Every prefix of one lap of the walk satisfies the walk invariant.
proof fn lemma_walk_inv(n: int, len: nat)
    requires
        1 <= n <= usize::MAX,
        1 <= len <= n * (n - 1) + 1,
    ensures
        walk_inv(greedy_walk(n, len), n),
        greedy_walk(n, len).len() == len,
    decreases len,
{
    if len == 1 {
        let s = greedy_walk(n, 1);
        assert(s.drop_last() =~= Seq::<usize>::empty());
        assert forall|w: int| 0 <= w < n implies #[trigger] arrivals(s, w, n, n - 1) + (if w
            == 0 {
            1int
        } else {
            0int
        }) == departures(s, w) + (if w == s.last() { 1int } else { 0int }) by {
            lemma_arrivals_none(s, w, n, n - 1);
        }
    } else {
        lemma_walk_inv(n, (len - 1) as nat);
        let p = greedy_walk(n, (len - 1) as nat);
        if departures(p, p.last() as int) == n - 1 {
            lemma_walk_stuck(p, n);
        }
        lemma_walk_step(p, n);
    }
}

proof fn lemma_arrivals_none(s: Seq<usize>, w: int, n: int, m: int)
    requires
        forall|v: int| #[trigger] departures(s, v) == 0,
    ensures
        arrivals(s, w, n, m) == 0,
    decreases m,
{
    if m > 0 {
        lemma_arrivals_none(s, w, n, m - 1);
        assert(departures(s, (w - m) % n) == 0);
    }
}

/// At the end of one lap the walk is back at 0 and every node has led `n - 1` times.
proof fn lemma_walk_end(n: int)
    requires
        1 <= n <= usize::MAX,
    ensures
        greedy_walk(n, (n * (n - 1) + 1) as nat).last() == 0,
        forall|v: int|
            0 <= v < n ==> #[trigger] departures(greedy_walk(n, (n * (n - 1) + 1) as nat), v) == n
                - 1,
{
    assert(n * (n - 1) >= 0) by (nonlinear_arith)
        requires
            n >= 1,
    ;
    let len = (n * (n - 1) + 1) as nat;
    lemma_walk_inv(n, len);
    let s = greedy_walk(n, len);
    let t = s.drop_last();
    assert forall|i: int| 0 <= i < t.len() implies t[i] < n by {
        assert(t[i] == s[i]);
    }
    lemma_occ_sum_len(t, n);
    assert forall|v: int| 0 <= v < n implies #[trigger] occ(t, v) <= n - 1 by {
        assert(departures(s, v) <= n - 1);
    }
    lemma_occ_sum_upper(t, n, n);
    assert forall|v: int| 0 <= v < n implies #[trigger] departures(s, v) == n - 1 by {
        assert(occ(t, v) <= n - 1);
    }
    lemma_walk_stuck(s, n);
}


/// The successors that node `v` of `n` still has to hand over to after `c`
/// departures, in order.
pub open spec fn pending_successors(v: int, c: int, n: int) -> Seq<usize> {
    Seq::new((n - 1 - c) as nat, |k: int| succ_of(v, c + k, n) as usize)
}

/// `table` holds, for each of the `n` nodes, the successors it still has to
/// hand over to after its departures in the walk `w`.
pub open spec fn table_ok(table: Map<usize, VecDeque<usize>>, w: Seq<usize>, n: int) -> bool {
    forall|v: usize| v < n ==> #[trigger] table.contains_key(v) && table[v]@ =~= pending_successors(
        v as int,
        departures(w, v as int) as int,
        n,
    )
}

/// The table of all successors fits the walk that has only started.
proof fn lemma_table_start(table: Map<usize, VecDeque<usize>>, n: int)
    requires
        forall|a: usize| a < n ==> #[trigger] table.contains_key(a) && table[a]@
            == pending_successors(a as int, 0, n),
    ensures
        table_ok(table, seq![0usize], n),
{
    assert forall|v: usize| v < n implies #[trigger] table.contains_key(v) && table[v]@ =~= pending_successors(
        v as int,
        departures(seq![0usize], v as int) as int,
        n,
    ) by {
        assert(seq![0usize].drop_last() =~= Seq::<usize>::empty());
        assert(table.contains_key(v));
    }
}

/// After a hand-over from `leader`, the table with the leader's remaining
/// successors fits the longer walk.
proof fn lemma_table_step(
    table: Map<usize, VecDeque<usize>>,
    t2: Map<usize, VecDeque<usize>>,
    w: Seq<usize>,
    w2: Seq<usize>,
    n: int,
    leader: usize,
    rest: Seq<usize>,
)
    requires
        table_ok(table, w, n),
        leader < n,
        t2.dom() == table.dom(),
        forall|v: usize| v != leader && #[trigger] table.contains_key(v) ==> t2[v] == table[v],
        t2[leader]@ == rest,
        rest == pending_successors(leader as int, (departures(w, leader as int) + 1) as int, n),
        departures(w2, leader as int) == departures(w, leader as int) + 1,
        forall|v: int| 0 <= v < n && v != leader ==> departures(w2, v) == departures(w, v),
    ensures
        table_ok(t2, w2, n),
{
    assert forall|v: usize| v < n implies #[trigger] t2.contains_key(v) && t2[v]@ =~= pending_successors(
        v as int,
        departures(w2, v as int) as int,
        n,
    ) by {
        assert(table.contains_key(v));
        if v != leader {
            assert(departures(w2, v as int) == departures(w, v as int));
        }
    }
}

/// Position `t` of the cyclic schedule `s` hands the lead from `i` to `j`.
pub open spec fn hands_over(s: Seq<usize>, t: int, i: int, j: int) -> bool {
    &&& 0 <= t < s.len()
    &&& s[t] == i
    &&& s[(t + 1) % (s.len() as int)] == j
}

/// Every later node of the schedule is back in the lead within `3n - 2` turns,
/// as far as the (non-cyclic) schedule reaches.
pub open spec fn waits_bounded(s: Seq<usize>, n: int) -> bool {
    forall|start: int|
        0 <= start && start + 3 * n - 2 <= s.len() ==> #[trigger] leads_again_within(
            s,
            start,
            3 * n - 2,
        )
}

/// The node at position `start` of `s` leads again before position `start + span`.
pub open spec fn leads_again_within(s: Seq<usize>, start: int, span: int) -> bool {
    exists|k: int| start < k < start + span && #[trigger] s[k] == s[start]
}

proof fn lemma_walk_len(n: int, len: nat)
    ensures
        greedy_walk(n, len).len() == len,
    decreases len,
{
    if len > 1 {
        lemma_walk_len(n, (len - 1) as nat);
    }
}

proof fn lemma_walk_prefix(n: int, a: nat, b: nat)
    requires
        a <= b,
    ensures
        greedy_walk(n, a) == greedy_walk(n, b).take(a as int),
    decreases b,
{
    lemma_walk_len(n, b);
    if a == b {
        assert(greedy_walk(n, b).take(a as int) =~= greedy_walk(n, b));
    } else {
        lemma_walk_prefix(n, a, (b - 1) as nat);
        lemma_walk_len(n, (b - 1) as nat);
        if b >= 2 {
            assert(greedy_walk(n, (b - 1) as nat).take(a as int) =~= greedy_walk(n, b).take(a as int));
        } else {
            assert(greedy_walk(n, a) =~= greedy_walk(n, b).take(a as int));
        }
    }
}

/// Entry `t + 1` of the walk is the successor of entry `t`, chosen by how many
/// times entry `t` led before.
proof fn lemma_walk_rule(n: int, len: nat, t: int)
    requires
        1 <= n <= usize::MAX,
        0 <= t,
        t + 2 <= len,
    ensures
        greedy_walk(n, len)[t + 1] == succ_of(
            greedy_walk(n, len)[t] as int,
            occ(greedy_walk(n, len).take(t), greedy_walk(n, len)[t] as int) as int,
            n,
        ),
{
    let w = greedy_walk(n, len);
    lemma_walk_len(n, len);
    lemma_walk_len(n, (t + 2) as nat);
    lemma_walk_prefix(n, (t + 2) as nat, len);
    lemma_walk_prefix(n, (t + 1) as nat, len);
    lemma_walk_prefix(n, t as nat, len);
    lemma_walk_len(n, (t + 1) as nat);
    let p = greedy_walk(n, (t + 1) as nat);
    assert(p.last() == w[t]);
    assert(p.drop_last() =~= w.take(t));
    assert(greedy_walk(n, (t + 2) as nat)[t + 1] == w[t + 1]);
    let x = succ_of(w[t] as int, occ(w.take(t), w[t] as int) as int, n);
    assert(0 <= x < n) by {
        vstd::arithmetic::div_mod::lemma_mod_bound(w[t] + occ(w.take(t), w[t] as int) + 1, n);
    }
}

pub(crate) proof fn lemma_occ_take_step(s: Seq<usize>, t: int, v: int)
    requires
        0 <= t < s.len(),
    ensures
        occ(s.take(t + 1), v) == occ(s.take(t), v) + if s[t] == v { 1nat } else { 0nat },
{
    assert(s.take(t + 1).drop_last() =~= s.take(t));
}

proof fn lemma_occ_take_mono(s: Seq<usize>, v: int, a: int, b: int)
    requires
        0 <= a <= b <= s.len(),
    ensures
        occ(s.take(a), v) <= occ(s.take(b), v),
    decreases b,
{
    if a < b {
        lemma_occ_take_mono(s, v, a, b - 1);
        lemma_occ_take_step(s, b - 1, v);
    }
}

/// The `c`-th occurrence (counting from 0) of `v` in `s` exists when `v` occurs
/// more than `c` times.
proof fn lemma_nth_occurrence(s: Seq<usize>, v: int, c: nat)
    requires
        c < occ(s, v),
    ensures
        exists|t: int| 0 <= t < s.len() && s[t] == v && occ(s.take(t), v) == c,
    decreases s.len(),
{
    let p = s.drop_last();
    if c < occ(p, v) {
        lemma_nth_occurrence(p, v, c);
        let t = choose|t: int| 0 <= t < p.len() && p[t] == v && occ(p.take(t), v) == c;
        assert(p.take(t) =~= s.take(t));
        assert(s[t] == p[t]);
    } else {
        let t = s.len() - 1;
        assert(s.take(t) =~= p);
        assert(s[t] == v);
    }
}

/// Facts about the full lap: `fair_schedule(n)` followed by the return to 0.
proof fn lemma_lap(n: int)
    requires
        1 <= n <= usize::MAX,
    ensures
        n * (n - 1) >= 0,
        fair_schedule(n).len() == n * (n - 1),
        greedy_walk(n, (n * (n - 1) + 1) as nat).drop_last() == fair_schedule(n),
        greedy_walk(n, (n * (n - 1) + 1) as nat).last() == 0,
        forall|v: int| 0 <= v < n ==> #[trigger] occ(fair_schedule(n), v) == n - 1,
        forall|i: int| 0 <= i < fair_schedule(n).len() ==> fair_schedule(n)[i] < n,
{
    assert(n * (n - 1) >= 0) by (nonlinear_arith)
        requires
            n >= 1,
    ;
    let big = (n * (n - 1) + 1) as nat;
    let nn = (n * (n - 1)) as nat;
    lemma_walk_len(n, big);
    lemma_walk_len(n, nn);
    lemma_walk_prefix(n, nn, big);
    lemma_walk_end(n);
    lemma_walk_inv(n, big);
    let w = greedy_walk(n, big);
    assert(w.drop_last() =~= fair_schedule(n));
    assert forall|v: int| 0 <= v < n implies #[trigger] occ(fair_schedule(n), v) == n - 1 by {
        assert(departures(w, v) == n - 1);
    }
    assert forall|i: int| 0 <= i < fair_schedule(n).len() implies fair_schedule(n)[i] < n by {
        assert(fair_schedule(n)[i] == w[i]);
    }
}

/// The successor of position `t` in the cyclic schedule.
proof fn lemma_next(n: int, t: int)
    requires
        2 <= n <= usize::MAX,
        0 <= t < n * (n - 1),
    ensures
        ({
            let s = fair_schedule(n);
            let c = occ(s.take(t), s[t] as int) as int;
            &&& 0 <= c < n - 1
            &&& s[(t + 1) % (s.len() as int)] == succ_of(s[t] as int, c, n)
        }),
{
    lemma_lap(n);
    let s = fair_schedule(n);
    let len = s.len() as int;
    let big = (n * (n - 1) + 1) as nat;
    let w = greedy_walk(n, big);
    lemma_walk_len(n, big);
    lemma_walk_rule(n, big, t);
    lemma_walk_inv(n, big);
    assert(w[t] == s[t]);
    assert(w.take(t) =~= s.take(t));
    lemma_occ_take_step(s, t, s[t] as int);
    lemma_occ_take_mono(s, s[t] as int, t + 1, len);
    assert(s.take(len) =~= s);
    if t + 1 < len {
        vstd::arithmetic::div_mod::lemma_small_mod((t + 1) as nat, len as nat);
        assert(w[t + 1] == s[t + 1]);
    } else {
        vstd::arithmetic::div_mod::lemma_mod_self_0(len);
        assert(w[t + 1] == w.last());
        assert(s[0] == w[0]);
    }
}

/// Law: the schedule has `n * (n - 1)` turns, every entry names a node below `n`,
/// and every node leads the same number of turns, `n - 1`.
pub proof fn lemma_schedule_turns(n: int)
    requires
        1 <= n <= usize::MAX,
    ensures
        fair_schedule(n).len() == n * (n - 1),
        forall|i: int| 0 <= i < fair_schedule(n).len() ==> fair_schedule(n)[i] < n,
        forall|v: int| 0 <= v < n ==> #[trigger] occ(fair_schedule(n), v) == n - 1,
{
    lemma_lap(n);
}

/// Law: read cyclically, no node ever succeeds itself, and every node is succeeded
/// by every other node exactly once.
pub proof fn lemma_schedule_successions(n: int, i: int, j: int)
    requires
        2 <= n <= usize::MAX,
        0 <= i < n,
        0 <= j < n,
        i != j,
    ensures
        forall|t: int| 0 <= t < fair_schedule(n).len() ==> #[trigger] fair_schedule(n)[(t + 1) % (
        fair_schedule(n).len() as int)] != fair_schedule(n)[t],
        exists|t: int| hands_over(fair_schedule(n), t, i, j),
        forall|t1: int, t2: int|
            hands_over(fair_schedule(n), t1, i, j) && hands_over(fair_schedule(n), t2, i, j) ==> t1
                == t2,
{
    lemma_lap(n);
    let s = fair_schedule(n);
    let len = s.len() as int;
    assert forall|t: int| 0 <= t < len implies #[trigger] s[(t + 1) % len] != s[t] by {
        lemma_next(n, t);
        let c = occ(s.take(t), s[t] as int) as int;
        lemma_mod_window(s[t] + c + 1, n);
    }
    // existence: the departure of i with distance (j - i) mod n
    let c: nat = if j > i { (j - i - 1) as nat } else { (j - i + n - 1) as nat };
    lemma_nth_occurrence(s, i, c);
    let t = choose|t: int| 0 <= t < s.len() && s[t] == i && occ(s.take(t), i) == c;
    lemma_next(n, t);
    lemma_mod_window(i + c + 1, n);
    assert(hands_over(s, t, i, j));
    // uniqueness: equal distances mean equal departure counts, which only one
    // position of i has
    assert forall|t1: int, t2: int|
        hands_over(s, t1, i, j) && hands_over(s, t2, i, j) implies t1 == t2 by {
        lemma_next(n, t1);
        lemma_next(n, t2);
        let c1 = occ(s.take(t1), i) as int;
        let c2 = occ(s.take(t2), i) as int;
        lemma_mod_window(i + c1 + 1, n);
        lemma_mod_window(i + c2 + 1, n);
        assert(c1 == c2);
        if t1 < t2 {
            lemma_occ_take_step(s, t1, i);
            lemma_occ_take_mono(s, i, t1 + 1, t2);
        } else if t2 < t1 {
            lemma_occ_take_step(s, t2, i);
            lemma_occ_take_mono(s, i, t2 + 1, t1);
        }
    }
}


/// The schedule in which every node leads `n - 1` turns and is succeeded by every
/// other node exactly once (read cyclically): for `n = 4`,
/// `0 1 2 3 0 2 0 3 1 3 2 1`.
pub fn generate_schedule(n: usize) -> (schedule: Vec<usize>)
    requires
        n * (n - 1) + 1 <= usize::MAX,
    ensures
        n == 0 ==> schedule@.len() == 0,
        n >= 1 ==> schedule@ == fair_schedule(n as int),
        schedule@.len() == n * (n - 1),
        forall|v: int| 0 <= v < n ==> #[trigger] occ(schedule@, v) == n - 1,
{
    if n < 1 {
        return Vec::new();
    }
    let ghost nn = n as int;
    proof {
        assert(nn * (nn - 1) >= 0) by (nonlinear_arith)
            requires
                nn >= 1,
        ;
        assert(2 * nn <= nn * (nn - 1) + 3) by (nonlinear_arith)
            requires
                nn >= 1,
        ;
    }
    // The successors of each leader in the order in which it hands over:
    // for n = 4, leader 0: 1 2 3; leader 1: 2 3 0; leader 2: 3 0 1; leader 3: 0 1 2.
    let mut successors: HashMap<usize, VecDeque<usize>> = HashMap::new();
    for i in 0..n
        invariant
            nn == n,
            nn >= 1,
            2 * nn <= nn * (nn - 1) + 3,
            nn * (nn - 1) + 1 <= usize::MAX,
            forall|a: usize| a < i ==> #[trigger] successors@.contains_key(a) && successors@[a]@
                == pending_successors(a as int, 0, nn),
    {
        let mut index_schedule: VecDeque<usize> = VecDeque::new();
        for j in 0..n
            invariant
                nn == n,
                nn >= 1,
                0 <= i < n,
                2 * nn <= nn * (nn - 1) + 3,
                nn * (nn - 1) + 1 <= usize::MAX,
                index_schedule@.len() == if j == 0 { 0 } else { j - 1 },
                forall|k: int|
                    0 <= k < index_schedule@.len() ==> index_schedule@[k] == succ_of(
                        i as int,
                        k,
                        nn,
                    ),
        {
            let next_successor = (i + j) % n;
            proof {
                lemma_mod_window(i + j, nn);
            }
            if next_successor != i {
                index_schedule.push_back(next_successor);
            }
        }
        proof {
            assert(index_schedule@ =~= pending_successors(i as int, 0, nn));
        }
        successors.insert(i, index_schedule);
    }
    // Follow the successors, always taking the leader's next unused one, until the
    // current leader has none left.
    let mut schedule: Vec<usize> = Vec::new();
    let mut leader: usize = 0;
    proof {
        lemma_walk_inv(nn, 1);
        assert(schedule@.push(leader) =~= greedy_walk(nn, 1));
        lemma_table_start(successors@, nn);
        assert(schedule@.push(leader) =~= seq![0usize]);
    }
    loop
        invariant_except_break
            nn == n,
            nn >= 1,
            nn * (nn - 1) + 1 <= usize::MAX,
            leader < n,
            walk_inv(schedule@.push(leader), nn),
            schedule@.push(leader) == greedy_walk(nn, (schedule@.len() + 1) as nat),
            schedule@.len() + 1 <= nn * (nn - 1) + 1,
            table_ok(successors@, schedule@.push(leader), nn),
        ensures
            schedule@ == greedy_walk(nn, (nn * (nn - 1) + 1) as nat),
        decreases nn * (nn - 1) + 1 - schedule@.len(),
    {
        let ghost table = successors@;
        schedule.push(leader);
        let ghost w = schedule@;
        let ghost c = departures(w, leader as int);
        let mut queue = match successors.remove(&leader) {
            Some(q) => q,
            None => VecDeque::new(),
        };
        assert(queue@ == pending_successors(leader as int, c as int, nn));
        let next = queue.pop_front();
        let ghost rest = queue@;
        successors.insert(leader, queue);
        match next {
            Some(nx) => {
                proof {
                    assert(c < nn - 1);
                    lemma_walk_step(w, nn);
                    if w.len() == nn * (nn - 1) + 1 {
                        lemma_walk_end(nn);
                    }
                    let w2 = w.push(nx);
                    assert(w2.drop_last() =~= w);
                    assert forall|v: int| 0 <= v < n implies departures(w2, v) == departures(w, v)
                        + if v == leader {
                        1nat
                    } else {
                        0nat
                    } by {
                        lemma_occ_push(w.drop_last(), w.last(), v);
                        assert(w.drop_last().push(w.last()) =~= w);
                    }
                    assert(rest =~= pending_successors(leader as int, (c + 1) as int, nn));
                    lemma_table_step(table, successors@, w, w2, nn, leader, rest);
                }
                leader = nx;
            },
            None => {
                proof {
                    lemma_walk_stuck(w, nn);
                }
                break;
            },
        }
    }
    proof {
        lemma_lap(nn);
        lemma_walk_inv(nn, (nn * (nn - 1) + 1) as nat);
        assert(schedule@[0] == schedule@[schedule@.len() - 1]);
    }
    // The schedule loops back around: drop the closing return to the first leader.
    schedule.pop();
    proof {
        assert(schedule@ =~= fair_schedule(nn));
        lemma_schedule_turns(nn);
    }
    schedule
}

/// Checks the one property of the schedule over `n` nodes that is not proved
/// here: wherever a node leads, it leads again within `3n - 2` turns (as far as
/// the schedule reaches). The schedule's length, `n * (n - 1)`, and the equal
/// number of turns per node are guaranteed by `generate_schedule`'s contract.
pub fn test_generate_schedule_fairness(n: usize) -> (fair: bool)
    requires
        1 <= n,
        (n + 2) * (n + 2) <= usize::MAX,
    ensures
        fair == waits_bounded(fair_schedule(n as int), n as int),
{
    proof {
        assert(n * (n - 1) + 1 <= usize::MAX && n * (n - 1) + 3 * n <= usize::MAX) by (
        nonlinear_arith)
            requires
                1 <= n,
                (n + 2) * (n + 2) <= usize::MAX,
        ;
    }
    let schedule = generate_schedule(n);
    let len = schedule.len();
    let span = 3 * n - 2;
    let ghost s = schedule@;
    assert(s == fair_schedule(n as int));
    let mut start: usize = 0;
    while start < len
        invariant
            s == schedule@,
            s == fair_schedule(n as int),
            len == s.len(),
            len + 3 * n <= usize::MAX,
            span == 3 * n - 2,
            n >= 1,
            start <= len,
            forall|st: int|
                0 <= st < start && st + span <= len ==> #[trigger] leads_again_within(s, st, span as int),
        decreases len - start,
    {
        let end = start + span;
        if end > len {
            assert forall|st: int| 0 <= st && st + span <= len implies #[trigger] leads_again_within(
                s,
                st,
                span as int,
            ) by {}
            assert(waits_bounded(s, n as int));
            return true;
        }
        let v = schedule[start];
        let mut k = start + 1;
        let mut found = false;
        while k < end && !found
            invariant
                s == schedule@,
                end <= len,
                len == s.len(),
                start < len,
                v == s[start as int],
                start + 1 <= k <= end,
                found ==> leads_again_within(s, start as int, span as int),
                !found ==> forall|k2: int| start < k2 < k ==> s[k2] != v,
                end == start + span,
            decreases end - k + if found { 0int } else { 1int },
        {
            if schedule[k] == v {
                found = true;
            } else {
                k = k + 1;
            }
        }
        if !found {
            assert(!leads_again_within(s, start as int, span as int)) by {
                if leads_again_within(s, start as int, span as int) {
                    let k2 = choose|k2: int| start < k2 < start + span && #[trigger] s[k2] == s[start as int];
                    assert(false);
                }
            }
            assert(!waits_bounded(s, n as int)) by {
                assert(start + 3 * n - 2 <= s.len());
                assert(!leads_again_within(s, start as int, 3 * n - 2));
            }
            return false;
        }
        start = start + 1;
    }
    assert(waits_bounded(s, n as int));
    true
}

} // verus!
