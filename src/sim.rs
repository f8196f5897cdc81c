//! The simulation engine: competitor registry, payout table, tournament
//! resolution over a score table, per-worker accumulation, merge and
//! normalization.
use vstd::prelude::*;
use crate::player::{Player, Totals, add_totals, award, fits, zero_totals};
use crate::ranking::{final_order, is_perm, lemma_final_order_perm, resolve, widen};
use crate::laws::{lemma_chunk_bounds, lemma_merge_matches_sequential};
use vstd::arithmetic::div_mod::{lemma_div_by_multiple, lemma_div_is_ordered};

verus! {

/// Normalized statistics are stored in millionths.
pub const SCALE: u64 = 1000000;

/// The largest field the engine accepts.
pub const MAX_FIELD: usize = 1000000;

/// The largest simulation count and round count the engine accepts.
pub const MAX_COUNT: usize = 4294967295;

/// Sum of the `len` scores of `d` that start at `lo`.
pub open spec fn window_sum(d: Seq<i32>, lo: int, len: int) -> int
    decreases len,
{
    if len <= 0 {
        0
    } else {
        window_sum(d, lo, len - 1) + d[lo + len - 1]
    }
}

/// Each competitor's total over the first `len` rounds of simulation `s`.
pub open spec fn round_totals(data: Seq<Vec<i32>>, s: int, rounds: int, len: int) -> Seq<int> {
    Seq::new(data.len(), |p: int| window_sum(data[p]@, s * rounds, len))
}

/// The payout for finishing at `rank`: the last entry for that rank, or zero.
pub open spec fn pay_at(purse: Seq<(u32, u32)>, rank: int) -> int
    decreases purse.len(),
{
    if purse.len() == 0 {
        0
    } else if purse.last().0 as int == rank {
        purse.last().1 as int
    } else {
        pay_at(purse.drop_last(), rank)
    }
}

/// The statistics after crediting the first `k` places of `order`.
pub open spec fn credit_order(
    stats: Seq<Totals>,
    order: Seq<usize>,
    k: int,
    cut_line: int,
    purse: Seq<(u32, u32)>,
) -> Seq<Totals>
    decreases k,
{
    if k <= 0 {
        stats
    } else {
        let prev = credit_order(stats, order, k - 1, cut_line, purse);
        let p = order[k - 1] as int;
        if 0 <= p < prev.len() {
            prev.update(p, add_totals(prev[p], award(k, cut_line, pay_at(purse, k))))
        } else {
            prev
        }
    }
}

pub open spec fn zeros(n: int) -> Seq<Totals> {
    Seq::new(n as nat, |p: int| zero_totals())
}

pub open spec fn add_seq(a: Seq<Totals>, b: Seq<Totals>) -> Seq<Totals> {
    Seq::new(a.len(), |p: int| add_totals(a[p], b[p]))
}

/// Field-wise sum of `base` and every accumulator in `parts`.
pub open spec fn merge_all(base: Seq<Totals>, parts: Seq<Seq<Totals>>) -> Seq<Totals>
    decreases parts.len(),
{
    if parts.len() == 0 {
        base
    } else {
        add_seq(merge_all(base, parts.drop_last()), parts.last())
    }
}

/// First simulation of chunk `t` when `sims` simulations are split into
/// contiguous chunks of `ceil(sims / workers)`.
pub open spec fn chunk_lo(sims: int, workers: int, t: int) -> int {
    let size = (sims + workers - 1) / workers;
    if t * size < sims { t * size } else { sims }
}

/// Statistics of a competitor after `k` tournaments in a field of `n`: the
/// tiers nest, and each sum is bounded by what `k` tournaments can add.
pub open spec fn bounded(t: Totals, k: int, n: int) -> bool {
    &&& 0 <= t.win <= t.top5
    &&& t.top5 <= t.top10
    &&& t.top10 <= t.top20
    &&& t.top20 <= t.made_cut
    &&& t.made_cut <= k
    &&& 0 <= t.finish <= k * n
    &&& 0 <= t.earnings <= k * (u32::MAX as int)
}

pub open spec fn within(stats: Seq<Totals>, k: int) -> bool {
    forall|p: int| 0 <= p < stats.len() ==> bounded(#[trigger] stats[p], k, stats.len() as int)
}

/// Errors in the engine's configuration.
#[derive(Clone, Copy, Debug, PartialEq, Eq)]
pub enum SimError {
    /// A standard deviation that is zero or negative.
    NonPositiveStdDev,
}

/// The engine: competitors in registration order with unique ids, the payout
/// table, and the run parameters.
pub struct Sim {
    pub players: Vec<(u32, Player)>,
    pub purse: Vec<(u32, u32)>,
    pub num_sims: usize,
    pub num_rounds: usize,
    pub cut_round: usize,
    pub cut_line: usize,
    pub normalized: bool,
}

impl Sim {
    pub open spec fn wf(&self) -> bool {
        forall|i: int, j: int|
            0 <= i < j < self.players.len() ==> #[trigger] self.players@[i].0 != #[trigger] self.players@[j].0
    }

    /// The sizes stay within what the arithmetic and memory allow, and the
    /// cut round lies within the tournament.
    pub open spec fn limits_ok(&self) -> bool {
        &&& self.num_sims <= MAX_COUNT
        &&& self.num_rounds <= MAX_COUNT
        &&& self.num_sims * self.num_rounds <= usize::MAX
        &&& self.players.len() <= MAX_FIELD
        &&& self.cut_round <= self.num_rounds
    }

    pub open spec fn stats(&self) -> Seq<Totals> {
        self.players@.map_values(|e: (u32, Player)| e.1@)
    }

    /// The score table holds one row per competitor, each with
    /// `num_sims * num_rounds` scores.
    pub open spec fn table_ok(&self, data: Seq<Vec<i32>>) -> bool {
        &&& data.len() == self.players.len()
        &&& forall|p: int| 0 <= p < data.len() ==> #[trigger] data[p].len() == self.num_sims * self.num_rounds
    }

    /// The final order of simulation `s`.
    pub open spec fn sim_order(&self, data: Seq<Vec<i32>>, s: int) -> Seq<usize> {
        final_order(
            round_totals(data, s, self.num_rounds as int, self.num_rounds as int),
            round_totals(data, s, self.num_rounds as int, self.cut_round as int),
            self.cut_round > 0,
            self.cut_line as int,
        )
    }

    /// The place up to which a field of `n` is credited with the cut,
    /// earnings and tiers: everyone when no cut is applied, else one place
    /// past the cut line.
    pub open spec fn credit_line(&self, n: int) -> int {
        if self.cut_round == 0 { n } else { self.cut_line as int }
    }

    /// `base` after crediting simulations `lo..hi` in turn. Tournaments of
    /// zero rounds produce no statistics.
    pub open spec fn tally(&self, data: Seq<Vec<i32>>, base: Seq<Totals>, lo: int, hi: int) -> Seq<Totals>
        decreases hi - lo,
    {
        if hi <= lo || self.num_rounds == 0 {
            base
        } else {
            credit_order(
                self.tally(data, base, lo, hi - 1),
                self.sim_order(data, hi - 1),
                base.len() as int,
                self.credit_line(base.len() as int),
                self.purse@,
            )
        }
    }
}

pub open spec fn views(v: Seq<Player>) -> Seq<Totals> {
    v.map_values(|p: Player| p@)
}

pub open spec fn parts_views(parts: Seq<Vec<Player>>) -> Seq<Seq<Totals>> {
    parts.map_values(|v: Vec<Player>| views(v@))
}

/// A running sum over `sims` simulations, as a mean in millionths; with no
/// simulations the sum is left as it is.
pub open spec fn scaled(x: int, sims: int) -> int {
    if sims == 0 { x } else { x * (SCALE as int) / sims }
}

pub open spec fn normalize_totals(t: Totals, sims: int) -> Totals {
    Totals {
        finish: scaled(t.finish, sims),
        earnings: scaled(t.earnings, sims),
        win: scaled(t.win, sims),
        top5: scaled(t.top5, sims),
        top10: scaled(t.top10, sims),
        top20: scaled(t.top20, sims),
        made_cut: scaled(t.made_cut, sims),
    }
}

pub open spec fn normalize_seq(stats: Seq<Totals>, sims: int) -> Seq<Totals> {
    stats.map_values(|t: Totals| normalize_totals(t, sims))
}

/// Normalized tier statistics nest and are probabilities in millionths.
pub open spec fn rates_ok(t: Totals) -> bool {
    0 <= t.win <= t.top5 && t.top5 <= t.top10 && t.top10 <= t.top20 && t.top20 <= t.made_cut
        && t.made_cut <= SCALE
}

/// `b` has `a`'s ids, skill parameters, payout table and run parameters.
pub open spec fn same_setup(a: Sim, b: Sim) -> bool {
    &&& a.players.len() == b.players.len()
    &&& forall|p: int|
        0 <= p < a.players.len() ==> (#[trigger] b.players@[p]).0 == a.players@[p].0
            && b.players@[p].1.index == a.players@[p].1.index
            && b.players@[p].1.std_dev == a.players@[p].1.std_dev
    &&& a.purse == b.purse
    &&& a.num_sims == b.num_sims
    &&& a.num_rounds == b.num_rounds
    &&& a.cut_round == b.cut_round
    &&& a.cut_line == b.cut_line
}

/// A competitor with the given skill parameters and no statistics yet.
pub open spec fn fresh_player(index: i32, std_dev: i32) -> Player {
    Player {
        index,
        std_dev,
        avg_finish: 0,
        avg_earnings: 0,
        win: 0,
        top5: 0,
        top10: 0,
        top20: 0,
        made_cut: 0,
    }
}

pub open spec fn has_id(s: Seq<(u32, Player)>, id: u32) -> bool {
    exists|i: int| 0 <= i < s.len() && #[trigger] s[i].0 == id
}

/// The registry slot of `id`, where it has one.
pub open spec fn slot_of(s: Seq<(u32, Player)>, id: u32) -> int {
    choose|i: int| 0 <= i < s.len() && #[trigger] s[i].0 == id
}

/// No statistic is negative.
pub open spec fn nonneg(t: Totals) -> bool {
    t.finish >= 0 && t.earnings >= 0 && t.win >= 0 && t.top5 >= 0 && t.top10 >= 0 && t.top20 >= 0
        && t.made_cut >= 0
}

/// Every prefix of a merge whose total fits in `u64` fits as well, since no
/// statistic is negative.
proof fn lemma_merge_prefix_le(base: Seq<Totals>, parts: Seq<Seq<Totals>>, j: int)
    requires
        0 <= j <= parts.len(),
        forall|t: int| 0 <= t < parts.len() ==> (#[trigger] parts[t]).len() == base.len(),
        forall|t: int, p: int| 0 <= t < parts.len() && 0 <= p < base.len() ==> nonneg(#[trigger] parts[t][p]),
        forall|p: int| 0 <= p < base.len() ==> nonneg(#[trigger] base[p]),
        forall|p: int| 0 <= p < base.len() ==> fits(#[trigger] merge_all(base, parts)[p]),
    ensures
        merge_all(base, parts.take(j)).len() == base.len(),
        forall|p: int| 0 <= p < base.len() ==> fits(#[trigger] merge_all(base, parts.take(j))[p]),
    decreases parts.len() - j,
{
    if j == parts.len() {
        assert(parts.take(j) =~= parts);
        lemma_merge_len(base, parts);
    } else {
        lemma_merge_prefix_le(base, parts, j + 1);
        assert(parts.take(j + 1).drop_last() =~= parts.take(j));
        let front = parts.take(j);
        assert forall|t: int, p: int| 0 <= t < front.len() && 0 <= p < base.len() implies nonneg(
            #[trigger] front[t][p],
        ) by {
            assert(front[t] == parts[t]);
        }
        lemma_merge_len(base, front);
        let small = merge_all(base, parts.take(j));
        let big = merge_all(base, parts.take(j + 1));
        assert(big == add_seq(small, parts[j]));
        assert forall|p: int| 0 <= p < base.len() implies fits(#[trigger] small[p]) by {
            assert(big[p] == add_totals(small[p], parts[j][p]));
            assert(nonneg(parts[j][p]));
            assert(nonneg(small[p]));
        }
    }
}

proof fn lemma_merge_len(base: Seq<Totals>, parts: Seq<Seq<Totals>>)
    requires
        forall|t: int| 0 <= t < parts.len() ==> (#[trigger] parts[t]).len() == base.len(),
        forall|t: int, p: int| 0 <= t < parts.len() && 0 <= p < base.len() ==> nonneg(#[trigger] parts[t][p]),
        forall|p: int| 0 <= p < base.len() ==> nonneg(#[trigger] base[p]),
    ensures
        merge_all(base, parts).len() == base.len(),
        forall|p: int| 0 <= p < base.len() ==> nonneg(#[trigger] merge_all(base, parts)[p]),
    decreases parts.len(),
{
    if parts.len() > 0 {
        let front = parts.drop_last();
        assert forall|t: int, p: int| 0 <= t < front.len() && 0 <= p < base.len() implies nonneg(
            #[trigger] front[t][p],
        ) by {
            assert(front[t] == parts[t]);
        }
        lemma_merge_len(base, front);
        assert(parts.last() == parts[parts.len() - 1]);
        assert forall|p: int| 0 <= p < base.len() implies nonneg(#[trigger] merge_all(base, parts)[p]) by {
            assert(nonneg(parts[parts.len() - 1][p]));
            assert(nonneg(merge_all(base, front)[p]));
        }
    }
}

proof fn lemma_zeros_within(n: int, k: int)
    requires
        n >= 0,
        k >= 0,
    ensures
        within(zeros(n), k),
{
    assert(k * n >= 0) by (nonlinear_arith)
        requires
            n >= 0,
            k >= 0,
    ;
    assert(k * (u32::MAX as int) >= 0) by (nonlinear_arith)
        requires
            k >= 0,
    ;
}

proof fn lemma_scaled_le(x: int, y: int, k: int)
    requires
        0 <= x <= y,
        k > 0,
    ensures
        0 <= scaled(x, k) <= scaled(y, k),
{
    assert(0 <= x * (SCALE as int) <= y * (SCALE as int)) by (nonlinear_arith)
        requires
            0 <= x <= y,
    ;
    lemma_div_is_ordered(0, x * (SCALE as int), k);
    lemma_div_is_ordered(x * (SCALE as int), y * (SCALE as int), k);
}

proof fn lemma_scaled_bound(x: int, k: int, b: int)
    requires
        0 <= x <= k * b,
        k > 0,
        b >= 0,
    ensures
        0 <= scaled(x, k) <= b * (SCALE as int),
{
    lemma_scaled_le(x, k * b, k);
    assert(k * b * (SCALE as int) == (b * (SCALE as int)) * k) by (nonlinear_arith);
    lemma_div_by_multiple(b * (SCALE as int), k);
}

proof fn lemma_normalized_ok(t: Totals, k: int, n: int)
    requires
        bounded(t, k, n),
        0 <= k,
        0 <= n <= MAX_FIELD,
    ensures
        rates_ok(normalize_totals(t, k)),
        fits(normalize_totals(t, k)),
{
    if k > 0 {
        lemma_scaled_le(t.win, t.top5, k);
        lemma_scaled_le(t.top5, t.top10, k);
        lemma_scaled_le(t.top10, t.top20, k);
        lemma_scaled_le(t.top20, t.made_cut, k);
        assert(t.made_cut <= k * 1);
        lemma_scaled_bound(t.made_cut, k, 1);
        lemma_scaled_bound(t.finish, k, n);
        lemma_scaled_bound(t.earnings, k, u32::MAX as int);
    }
}

proof fn lemma_pay_bounded(purse: Seq<(u32, u32)>, rank: int)
    ensures
        0 <= pay_at(purse, rank) <= u32::MAX,
    decreases purse.len(),
{
    if purse.len() > 0 {
        lemma_pay_bounded(purse.drop_last(), rank);
    }
}

proof fn lemma_bounded_fits(t: Totals, k: int, n: int)
    requires
        bounded(t, k, n),
        0 <= k <= MAX_COUNT,
        0 <= n <= MAX_FIELD,
    ensures
        fits(t),
{
    assert(k * n <= MAX_COUNT * MAX_FIELD) by (nonlinear_arith)
        requires
            0 <= k <= MAX_COUNT,
            0 <= n <= MAX_FIELD,
    ;
    assert(k * (u32::MAX as int) <= MAX_COUNT * (u32::MAX as int)) by (nonlinear_arith)
        requires
            0 <= k <= MAX_COUNT,
    ;
}

/// Crediting a prefix of a permutation gives each competitor at most one
/// more tournament's worth of statistics.
proof fn lemma_credit_bounded(stats: Seq<Totals>, order: Seq<usize>, q: int, k: int, c: int, purse: Seq<(u32, u32)>)
    requires
        is_perm(order, stats.len() as int),
        within(stats, k),
        stats.len() <= MAX_FIELD,
        k >= 0,
        0 <= q <= order.len(),
    ensures
        credit_order(stats, order, q, c, purse).len() == stats.len(),
        forall|p: int|
            0 <= p < stats.len() ==> bounded(
                #[trigger] credit_order(stats, order, q, c, purse)[p],
                if order.take(q).contains(p as usize) { k + 1 } else { k },
                stats.len() as int,
            ),
    decreases q,
{
    let n = stats.len() as int;
    if q > 0 {
        lemma_credit_bounded(stats, order, q - 1, k, c, purse);
        let prev = credit_order(stats, order, q - 1, c, purse);
        let x = order[q - 1];
        lemma_pay_bounded(purse, q);
        assert(!order.take(q - 1).contains(x)) by {
            if order.take(q - 1).contains(x) {
                let j = choose|j: int| 0 <= j < q - 1 && #[trigger] order.take(q - 1)[j] == x;
                assert(order[j] != order[q - 1]);
            }
        }
        assert(k * n + n == (k + 1) * n) by (nonlinear_arith);
        assert(k * (u32::MAX as int) + u32::MAX == (k + 1) * (u32::MAX as int)) by (nonlinear_arith);
        assert forall|p: int| 0 <= p < n implies bounded(
            #[trigger] credit_order(stats, order, q, c, purse)[p],
            if order.take(q).contains(p as usize) { k + 1 } else { k },
            n,
        ) by {
            assert(order.take(q) =~= order.take(q - 1).push(x));
            if p != x as int {
                let y = p as usize;
                if order.take(q).contains(y) {
                    let j = choose|j: int| 0 <= j < q && #[trigger] order.take(q)[j] == y;
                    assert(j != q - 1);
                    assert(order.take(q - 1)[j] == y);
                }
                if order.take(q - 1).contains(y) {
                    let j = choose|j: int| 0 <= j < q - 1 && #[trigger] order.take(q - 1)[j] == y;
                    assert(order.take(q)[j] == y);
                }
            } else {
                assert(order.take(q)[q - 1] == x);
            }
        }
    }
}

impl Sim {
    /// Sum of the `len` scores of `d` starting at `lo`.
    fn window_total(d: &Vec<i32>, lo: usize, len: usize) -> (r: i64)
        requires
            lo + len <= d.len(),
            len <= MAX_COUNT,
        ensures
            r as int == window_sum(d@, lo as int, len as int),
    {
        let mut acc: i64 = 0;
        let mut i: usize = 0;
        while i < len
            invariant
                lo + len <= d.len(),
                len <= MAX_COUNT,
                i <= len,
                acc as int == window_sum(d@, lo as int, i as int),
                i * (i32::MIN as int) <= acc <= i * (i32::MAX as int),
            decreases len - i,
        {
            acc = acc + d[lo + i] as i64;
            i = i + 1;
        }
        acc
    }

    /// Resolves simulation `s` of the score table: the competitors'
    /// registry positions, winner first.
    pub fn simulate_tournament(&self, data: &Vec<Vec<i32>>, s: usize) -> (r: Vec<usize>)
        requires
            self.table_ok(data@),
            s < self.num_sims,
            self.limits_ok(),
        ensures
            r@ == self.sim_order(data@, s as int),
            is_perm(r@, data.len() as int),
    {
        let n = data.len();
        let rounds = self.num_rounds;
        proof {
            assert(s * rounds <= self.num_sims * rounds) by (nonlinear_arith)
                requires
                    s < self.num_sims,
            ;
        }
        let lo = s * rounds;
        proof {
            assert(s * rounds + rounds <= self.num_sims * rounds) by (nonlinear_arith)
                requires
                    s < self.num_sims,
            ;
        }
        let mut full: Vec<i64> = Vec::new();
        let mut partial: Vec<i64> = Vec::new();
        let mut p: usize = 0;
        while p < n
            invariant
                n == data.len(),
                self.table_ok(data@),
                self.num_rounds <= MAX_COUNT,
                self.cut_round <= self.num_rounds,
                rounds == self.num_rounds,
                lo == s * rounds,
                lo + rounds <= self.num_sims * rounds,
                p <= n,
                full.len() == p,
                partial.len() == p,
                forall|j: int| 0 <= j < p ==> #[trigger] full@[j] as int == window_sum(data@[j]@, lo as int, rounds as int),
                forall|j: int| 0 <= j < p ==> #[trigger] partial@[j] as int == window_sum(data@[j]@, lo as int, self.cut_round as int),
            decreases n - p,
        {
            full.push(Self::window_total(&data[p], lo, rounds));
            partial.push(Self::window_total(&data[p], lo, self.cut_round));
            p = p + 1;
        }
        proof {
            assert(widen(full@) =~= round_totals(data@, s as int, rounds as int, rounds as int));
            assert(widen(partial@) =~= round_totals(data@, s as int, rounds as int, self.cut_round as int));
        }
        resolve(&full, &partial, self.cut_round > 0, self.cut_line)
    }

    /// The payout for finishing at `rank`; zero where the table has none.
    pub fn payout(&self, rank: u64) -> (r: u64)
        ensures
            r as int == pay_at(self.purse@, rank as int),
    {
        let mut i: usize = self.purse.len();
        assert(self.purse@.take(i as int) =~= self.purse@);
        while i > 0
            invariant
                i <= self.purse.len(),
                pay_at(self.purse@.take(i as int), rank as int) == pay_at(self.purse@, rank as int),
            decreases i,
        {
            let e = self.purse[i - 1];
            assert(self.purse@.take(i as int).drop_last() =~= self.purse@.take(i - 1));
            if e.0 as u64 == rank {
                return e.1 as u64;
            }
            i = i - 1;
        }
        0
    }

    /// Credits one resolved tournament to the accumulator `stats`, place by
    /// place.
    fn update_player_stats(&self, order: &Vec<usize>, stats: &mut Vec<Player>, Ghost(k): Ghost<int>)
        requires
            is_perm(order@, old(stats).len() as int),
            within(views(old(stats)@), k),
            0 <= k < MAX_COUNT,
            old(stats).len() <= MAX_FIELD,
        ensures
            views(final(stats)@) == credit_order(
                views(old(stats)@),
                order@,
                order.len() as int,
                self.credit_line(order.len() as int),
                self.purse@,
            ),
            within(views(final(stats)@), k + 1),
            final(stats).len() == old(stats).len(),
            forall|p: int| 0 <= p < final(stats).len() ==> (#[trigger] final(stats)@[p]).index == old(stats)@[p].index
                && final(stats)@[p].std_dev == old(stats)@[p].std_dev,
    {
        let ghost start = views(stats@);
        let n = order.len();
        let line: u64 = if self.cut_round == 0 { n as u64 } else { self.cut_line as u64 };
        let ghost c = self.credit_line(n as int);
        let mut q: usize = 0;
        while q < n
            invariant
                n == order.len(),
                n == stats.len(),
                is_perm(order@, n as int),
                within(start, k),
                start.len() == n,
                0 <= k < MAX_COUNT,
                n <= MAX_FIELD,
                c == self.credit_line(n as int),
                c == line as int,
                q <= n,
                views(stats@) == credit_order(start, order@, q as int, c, self.purse@),
                forall|p: int| 0 <= p < stats.len() ==> (#[trigger] stats@[p]).index == old(stats)@[p].index
                    && stats@[p].std_dev == old(stats)@[p].std_dev,
            decreases n - q,
        {
            let p = order[q];
            let fin = q as u64 + 1;
            let e = self.payout(fin);
            proof {
                lemma_credit_bounded(start, order@, q + 1, k, c, self.purse@);
                lemma_bounded_fits(
                    credit_order(start, order@, q + 1, c, self.purse@)[p as int],
                    if order@.take(q + 1).contains(p) { k + 1 } else { k },
                    n as int,
                );
                assert(views(stats@)[p as int] == stats@[p as int]@);
            }
            let mut pl = stats[p];
            pl.update_stats(fin, line, e);
            stats.set(p, pl);
            q = q + 1;
            assert(views(stats@) =~= credit_order(start, order@, q as int, c, self.purse@));
        }
        proof {
            lemma_credit_bounded(start, order@, n as int, k, c, self.purse@);
            assert forall|p: int| 0 <= p < n implies bounded(#[trigger] views(stats@)[p], k + 1, n as int) by {
                let b = credit_order(start, order@, n as int, c, self.purse@)[p];
                if !order@.take(n as int).contains(p as usize) {
                    assert(bounded(b, k, n as int));
                    assert(k * n <= (k + 1) * n) by (nonlinear_arith)
                        requires
                            n >= 0,
                    ;
                    assert(k * (u32::MAX as int) <= (k + 1) * (u32::MAX as int)) by (nonlinear_arith);
                }
            }
        }
    }

    /// The worker that draws the scores of competitor `id` when `workers`
    /// workers share the sampling: the id modulo the worker count, with no
    /// workers counted as one.
    pub fn sampling_worker(id: u32, workers: usize) -> (r: usize)
        ensures
            workers == 0 ==> r == 0,
            workers > 0 ==> r as int == (id as int) % (workers as int),
    {
        if workers == 0 {
            0
        } else {
            (id as usize) % workers
        }
    }

    /// The first simulation of chunk `t` of `workers` contiguous chunks.
    pub fn chunk_start(sims: usize, workers: usize, t: usize) -> (r: usize)
        requires
            sims <= MAX_COUNT,
            1 <= workers <= MAX_COUNT,
            t <= workers,
        ensures
            r as int == chunk_lo(sims as int, workers as int, t as int),
    {
        let size: u128 = (sims as u128 + (workers as u128 - 1)) / workers as u128;
        proof {
            assert(size as int <= sims as int + workers as int) by (nonlinear_arith)
                requires
                    workers as int >= 1,
                    sims as int >= 0,
                    size as int == (sims as int + (workers as int - 1)) / workers as int,
            ;
            assert((t as int) * (size as int) <= MAX_COUNT * (2 * MAX_COUNT)) by (nonlinear_arith)
                requires
                    t <= MAX_COUNT,
                    0 <= size <= 2 * MAX_COUNT,
            ;
        }
        let start: u128 = (t as u128) * size;
        if start < sims as u128 {
            start as usize
        } else {
            sims
        }
    }

    /// One worker's pass: tallies simulations `lo..hi` into a private copy
    /// of the registry whose statistics start at zero.
    pub fn tally_chunk(&self, data: &Vec<Vec<i32>>, lo: usize, hi: usize) -> (r: Vec<Player>)
        requires
            self.limits_ok(),
            self.table_ok(data@),
            lo <= hi <= self.num_sims,
        ensures
            r.len() == self.players.len(),
            views(r@) == self.tally(data@, zeros(self.players.len() as int), lo as int, hi as int),
            within(views(r@), hi - lo),
            forall|p: int| 0 <= p < r.len() ==> (#[trigger] r@[p]).index == self.players@[p].1.index
                && r@[p].std_dev == self.players@[p].1.std_dev,
    {
        let n = self.players.len();
        let mut stats: Vec<Player> = Vec::new();
        let mut p: usize = 0;
        while p < n
            invariant
                n == self.players.len(),
                p <= n,
                stats.len() == p,
                forall|j: int| 0 <= j < p ==> (#[trigger] stats@[j])@ == zero_totals(),
                forall|j: int| 0 <= j < p ==> (#[trigger] stats@[j]).index == self.players@[j].1.index
                    && stats@[j].std_dev == self.players@[j].1.std_dev,
            decreases n - p,
        {
            let e = &self.players[p];
            stats.push(Player::fresh(e.1.index, e.1.std_dev));
            p = p + 1;
        }
        assert(views(stats@) =~= zeros(n as int));
        if self.num_rounds == 0 {
            proof {
                lemma_zeros_within(n as int, hi - lo);
            }
            return stats;
        }
        let mut s: usize = lo;
        while s < hi
            invariant
                self.limits_ok(),
                self.table_ok(data@),
                lo <= s <= hi <= self.num_sims,
                self.num_rounds > 0,
                n == self.players.len(),
                stats.len() == n,
                views(stats@) == self.tally(data@, zeros(n as int), lo as int, s as int),
                within(views(stats@), s - lo),
                forall|j: int| 0 <= j < n ==> (#[trigger] stats@[j]).index == self.players@[j].1.index
                    && stats@[j].std_dev == self.players@[j].1.std_dev,
            decreases hi - s,
        {
            let order = self.simulate_tournament(data, s);
            self.update_player_stats(&order, &mut stats, Ghost((s - lo) as int));
            s = s + 1;
        }
        stats
    }

    /// Adds every worker's accumulator into the registry, field by field.
    pub fn update_player_stats_from_thread(&mut self, t_players: &Vec<Vec<Player>>)
        requires
            forall|t: int| 0 <= t < t_players.len() ==> (#[trigger] t_players@[t]).len() == old(self).players.len(),
            forall|p: int|
                0 <= p < old(self).players.len() ==> fits(
                    #[trigger] merge_all(old(self).stats(), parts_views(t_players@))[p],
                ),
        ensures
            final(self).stats() == merge_all(old(self).stats(), parts_views(t_players@)),
            same_setup(*old(self), *final(self)),
            final(self).normalized == old(self).normalized,
    {
        let ghost start = *self;
        let ghost w = t_players.len() as int;
        let ghost parts = parts_views(t_players@);
        let n = self.players.len();
        proof {
            assert forall|t: int, p: int| 0 <= t < w && 0 <= p < n implies nonneg(#[trigger] parts[t][p]) by {
                assert(parts[t] == views(t_players@[t]@));
            }
            assert forall|t: int| 0 <= t < w implies (#[trigger] parts[t]).len() == n by {
                assert(parts[t] == views(t_players@[t]@));
            }
            assert forall|p: int| 0 <= p < n implies nonneg(#[trigger] start.stats()[p]) by {}
        }
        let mut t: usize = 0;
        while t < t_players.len()
            invariant
                n == self.players.len(),
                w == t_players.len(),
                parts == parts_views(t_players@),
                start.stats().len() == n,
                forall|t: int| 0 <= t < t_players.len() ==> (#[trigger] t_players@[t]).len() == n,
                forall|t: int| 0 <= t < w ==> (#[trigger] parts[t]).len() == n,
                forall|t: int, p: int| 0 <= t < w && 0 <= p < n ==> nonneg(#[trigger] parts[t][p]),
                forall|p: int| 0 <= p < n ==> fits(#[trigger] merge_all(start.stats(), parts)[p]),
                forall|p: int| 0 <= p < n ==> nonneg(#[trigger] start.stats()[p]),
                t <= w,
                self.stats() == merge_all(start.stats(), parts.take(t as int)),
                same_setup(start, *self),
                self.normalized == start.normalized,
            decreases w - t,
        {
            let part = &t_players[t];
            let ghost prev = self.stats();
            proof {
                assert(parts[t as int] == views(part@));
                assert(parts.take(t + 1).drop_last() =~= parts.take(t as int));
                lemma_merge_prefix_le(start.stats(), parts, t + 1);
            }
            let mut p: usize = 0;
            while p < n
                invariant
                    n == self.players.len(),
                    n == part.len(),
                    prev.len() == n,
                    forall|j: int| 0 <= j < n ==> fits(#[trigger] add_seq(prev, views(part@))[j]),
                    p <= n,
                    forall|j: int| 0 <= j < p ==> #[trigger] self.stats()[j] == add_totals(prev[j], part@[j]@),
                    forall|j: int| p <= j < n ==> #[trigger] self.stats()[j] == prev[j],
                    same_setup(start, *self),
                    self.normalized == start.normalized,
                decreases n - p,
            {
                let (id, mut pl) = self.players[p];
                proof {
                    assert(self.stats()[p as int] == pl@);
                    assert(add_seq(prev, views(part@))[p as int] == add_totals(prev[p as int], part@[p as int]@));
                }
                pl.absorb(&part[p]);
                let ghost before = self.stats();
                self.players.set(p, (id, pl));
                proof {
                    assert forall|j: int| 0 <= j < n implies #[trigger] self.stats()[j] == if j == p {
                        pl@
                    } else {
                        before[j]
                    } by {}
                }
                p = p + 1;
            }
            proof {
                assert(self.stats() =~= add_seq(prev, views(part@)));
            }
            t = t + 1;
        }
        proof {
            assert(parts.take(w) =~= parts);
        }
    }

    /// Turns every running sum into a mean over `num_sims` simulations, in
    /// millionths. Runs once: afterwards the engine is marked normalized.
    pub fn normalize_results(&mut self)
        requires
            !old(self).normalized,
            old(self).players.len() <= MAX_FIELD,
            within(old(self).stats(), old(self).num_sims as int),
        ensures
            final(self).normalized,
            final(self).stats() == normalize_seq(old(self).stats(), old(self).num_sims as int),
            forall|p: int| 0 <= p < final(self).players.len() ==> rates_ok(#[trigger] final(self).stats()[p]),
            same_setup(*old(self), *final(self)),
    {
        let ghost start = *self;
        let sims = self.num_sims;
        let n = self.players.len();
        let mut p: usize = 0;
        while p < n
            invariant
                n == self.players.len(),
                n <= MAX_FIELD,
                sims == self.num_sims,
                start.stats().len() == n,
                within(start.stats(), sims as int),
                p <= n,
                forall|j: int| 0 <= j < p ==> #[trigger] self.stats()[j] == normalize_totals(start.stats()[j], sims as int),
                forall|j: int| p <= j < n ==> #[trigger] self.stats()[j] == start.stats()[j],
                same_setup(start, *self),
                !self.normalized,
            decreases n - p,
        {
            let (id, mut pl) = self.players[p];
            proof {
                assert(self.stats()[p as int] == pl@);
                lemma_normalized_ok(pl@, sims as int, n as int);
            }
            pl.avg_finish = Self::per_sim(pl.avg_finish, sims);
            pl.avg_earnings = Self::per_sim(pl.avg_earnings, sims);
            pl.win = Self::per_sim(pl.win, sims);
            pl.top5 = Self::per_sim(pl.top5, sims);
            pl.top10 = Self::per_sim(pl.top10, sims);
            pl.top20 = Self::per_sim(pl.top20, sims);
            pl.made_cut = Self::per_sim(pl.made_cut, sims);
            let ghost before = self.stats();
            self.players.set(p, (id, pl));
            proof {
                assert forall|j: int| 0 <= j < n implies #[trigger] self.stats()[j] == if j == p {
                    pl@
                } else {
                    before[j]
                } by {}
            }
            p = p + 1;
        }
        proof {
            assert(self.stats().len() == n);
            assert(normalize_seq(start.stats(), sims as int).len() == n);
            assert forall|j: int| 0 <= j < n implies #[trigger] self.stats()[j] == normalize_seq(start.stats(), sims as int)[j] by {}
            assert(self.stats() =~= normalize_seq(start.stats(), sims as int));
        }
        self.normalized = true;
        proof {
            assert forall|j: int| 0 <= j < n implies rates_ok(#[trigger] self.stats()[j]) by {
                lemma_normalized_ok(start.stats()[j], sims as int, n as int);
            }
        }
    }

    fn per_sim(x: u64, sims: usize) -> (r: u64)
        requires
            scaled(x as int, sims as int) <= u64::MAX,
        ensures
            r as int == scaled(x as int, sims as int),
    {
        if sims == 0 {
            x
        } else {
            proof {
                assert((x as int) * (SCALE as int) <= (u64::MAX as int) * (SCALE as int)) by (nonlinear_arith)
                    requires
                        x <= u64::MAX,
                ;
            }
            ((x as u128) * (SCALE as u128) / (sims as u128)) as u64
        }
    }

    /// An engine with no competitors and no payouts.
    pub fn new(num_sims: usize, num_rounds: usize, cut_round: usize, cut_line: usize) -> (r: Sim)
        ensures
            r.players@ == Seq::<(u32, Player)>::empty(),
            r.purse@ == Seq::<(u32, u32)>::empty(),
            r.num_sims == num_sims,
            r.num_rounds == num_rounds,
            r.cut_round == cut_round,
            r.cut_line == cut_line,
            !r.normalized,
            r.wf(),
    {
        Sim {
            players: Vec::new(),
            purse: Vec::new(),
            num_sims,
            num_rounds,
            cut_round,
            cut_line,
            normalized: false,
        }
    }

    /// Registers a competitor with zeroed statistics. An id already present
    /// keeps its slot and gets the new entry. A standard deviation that is not
    /// positive is refused and changes nothing.
    pub fn add_player(&mut self, id: u32, sg_index: i32, std_dev: i32) -> (r: Result<(), SimError>)
        requires
            old(self).wf(),
        ensures
            final(self).wf(),
            r is Err <==> std_dev <= 0,
            r is Err ==> r == Err::<(), SimError>(SimError::NonPositiveStdDev) && *final(self) == *old(self),
            r is Ok && has_id(old(self).players@, id) ==> final(self).players@
                == old(self).players@.update(slot_of(old(self).players@, id), (id, fresh_player(sg_index, std_dev))),
            r is Ok && !has_id(old(self).players@, id) ==> final(self).players@
                == old(self).players@.push((id, fresh_player(sg_index, std_dev))),
            final(self).purse == old(self).purse,
            final(self).num_sims == old(self).num_sims,
            final(self).num_rounds == old(self).num_rounds,
            final(self).cut_round == old(self).cut_round,
            final(self).cut_line == old(self).cut_line,
            final(self).normalized == old(self).normalized,
    {
        if std_dev <= 0 {
            return Err(SimError::NonPositiveStdDev);
        }
        let player = Player::fresh(sg_index, std_dev);
        let n = self.players.len();
        let mut i: usize = 0;
        while i < n
            invariant
                n == self.players.len(),
                i <= n,
                std_dev > 0,
                old(self).wf(),
                player == fresh_player(sg_index, std_dev),
                *self == *old(self),
                forall|j: int| 0 <= j < i ==> (#[trigger] self.players@[j]).0 != id,
            decreases n - i,
        {
            if self.players[i].0 == id {
                proof {
                    assert(has_id(self.players@, id));
                    let k = slot_of(self.players@, id);
                    assert(self.players@[k].0 == id);
                    assert(old(self).wf());
                    if k != i as int {
                        if k < i as int {
                            assert(self.players@[k].0 != self.players@[i as int].0);
                        } else {
                            assert(self.players@[i as int].0 != self.players@[k].0);
                        }
                    }
                }
                self.players.set(i, (id, player));
                proof {
                    assert forall|a: int, b: int| 0 <= a < b < self.players.len() implies #[trigger] self.players@[a].0
                        != #[trigger] self.players@[b].0 by {
                        assert(old(self).players@[a].0 != old(self).players@[b].0);
                    }
                }
                return Ok(());
            }
            i = i + 1;
        }
        self.players.push((id, player));
        Ok(())
    }

    /// The competitors with their statistics, in registration order.
    pub fn get_players(&self) -> (r: Vec<(u32, Player)>)
        ensures
            r@ == self.players@,
    {
        let mut r: Vec<(u32, Player)> = Vec::new();
        let mut i: usize = 0;
        while i < self.players.len()
            invariant
                i <= self.players.len(),
                r@ == self.players@.take(i as int),
            decreases self.players.len() - i,
        {
            r.push(self.players[i]);
            i = i + 1;
            assert(r@ =~= self.players@.take(i as int));
        }
        assert(self.players@.take(i as int) =~= self.players@);
        r
    }

    pub fn set_num_rounds(&mut self, num_rounds: usize)
        ensures
            *final(self) == (Sim { num_rounds, ..*old(self) }),
    {
        self.num_rounds = num_rounds;
    }

    pub fn set_num_sims(&mut self, num_sims: usize)
        ensures
            *final(self) == (Sim { num_sims, ..*old(self) }),
    {
        self.num_sims = num_sims;
    }

    pub fn set_cut_round(&mut self, cut_round: usize)
        ensures
            *final(self) == (Sim { cut_round, ..*old(self) }),
    {
        self.cut_round = cut_round;
    }

    pub fn set_cut_line(&mut self, cut_line: usize)
        ensures
            *final(self) == (Sim { cut_line, ..*old(self) }),
    {
        self.cut_line = cut_line;
    }

    /// Replaces the payout table: pairs of finishing rank and amount. Where a
    /// rank appears twice, the later pair counts.
    pub fn set_purse(&mut self, purse: Vec<(u32, u32)>)
        ensures
            *final(self) == (Sim { purse, ..*old(self) }),
    {
        self.purse = purse;
    }

    /// Whether every statistic is zero and the engine is not normalized:
    /// the state in which a run may start.
    pub fn is_fresh(&self) -> (r: bool)
        ensures
            r <==> (!self.normalized && self.stats() == zeros(self.players.len() as int)),
    {
        if self.normalized {
            return false;
        }
        let n = self.players.len();
        let mut i: usize = 0;
        while i < n
            invariant
                n == self.players.len(),
                i <= n,
                forall|j: int| 0 <= j < i ==> #[trigger] self.stats()[j] == zero_totals(),
            decreases n - i,
        {
            let p = self.players[i].1;
            if p.avg_finish != 0 || p.avg_earnings != 0 || p.win != 0 || p.top5 != 0 || p.top10 != 0
                || p.top20 != 0 || p.made_cut != 0 {
                proof {
                    assert(self.stats()[i as int] != zero_totals());
                }
                return false;
            }
            i = i + 1;
        }
        assert(self.stats() =~= zeros(n as int));
        true
    }

    /// Sets every statistic back to zero so that the engine can run again.
    pub fn reset_stats(&mut self)
        ensures
            final(self).stats() == zeros(final(self).players.len() as int),
            !final(self).normalized,
            same_setup(*old(self), *final(self)),
    {
        let n = self.players.len();
        let mut i: usize = 0;
        while i < n
            invariant
                n == self.players.len(),
                i <= n,
                forall|j: int| 0 <= j < i ==> #[trigger] self.stats()[j] == zero_totals(),
                same_setup(*old(self), *self),
            decreases n - i,
        {
            let (id, p) = self.players[i];
            let ghost before = self.stats();
            self.players.set(i, (id, Player::fresh(p.index, p.std_dev)));
            proof {
                assert forall|j: int| 0 <= j < n implies #[trigger] self.stats()[j] == if j == i {
                    zero_totals()
                } else {
                    before[j]
                } by {}
            }
            i = i + 1;
        }
        proof {
            assert forall|j: int| 0 <= j < n implies #[trigger] self.stats()[j] == zeros(n as int)[j] by {}
            assert(self.stats() =~= zeros(n as int));
        }
        self.normalized = false;
    }

    /// Resolves and accumulates every simulation of the score table, in
    /// contiguous chunks of simulations, one per worker (at least one), each
    /// into a private accumulator; merges the accumulators and normalizes
    /// once. The result does not depend on the number of workers.
    pub fn run(&mut self, data: &Vec<Vec<i32>>, workers: usize)
        requires
            old(self).limits_ok(),
            old(self).table_ok(data@),
            old(self).stats() == zeros(old(self).players.len() as int),
            !old(self).normalized,
        ensures
            final(self).normalized,
            final(self).stats() == normalize_seq(
                old(self).tally(data@, zeros(old(self).players.len() as int), 0, old(self).num_sims as int),
                old(self).num_sims as int,
            ),
            old(self).num_rounds == 0 ==> final(self).stats() == old(self).stats(),
            forall|p: int| 0 <= p < final(self).players.len() ==> rates_ok(#[trigger] final(self).stats()[p]),
            same_setup(*old(self), *final(self)),
    {
        let w: usize = if workers == 0 {
            1
        } else if workers > MAX_COUNT {
            MAX_COUNT
        } else {
            workers
        };
        let sims = self.num_sims;
        let ghost n = self.players.len() as int;
        let mut parts: Vec<Vec<Player>> = Vec::new();
        let mut t: usize = 0;
        while t < w
            invariant
                1 <= w <= MAX_COUNT,
                sims == self.num_sims,
                n == self.players.len(),
                *self == *old(self),
                self.limits_ok(),
                self.table_ok(data@),
                t <= w,
                parts.len() == t,
                forall|j: int| 0 <= j < t ==> (#[trigger] parts@[j]).len() == n,
                forall|j: int|
                    0 <= j < t ==> views((#[trigger] parts@[j])@) == self.tally(
                        data@,
                        zeros(n),
                        chunk_lo(sims as int, w as int, j),
                        chunk_lo(sims as int, w as int, j + 1),
                    ),
                forall|j: int|
                    0 <= j < t ==> within(
                        views((#[trigger] parts@[j])@),
                        chunk_lo(sims as int, w as int, j + 1) - chunk_lo(sims as int, w as int, j),
                    ),
            decreases w - t,
        {
            proof {
                lemma_chunk_bounds(sims as int, w as int, t as int);
            }
            let lo = Self::chunk_start(sims, w, t);
            let hi = Self::chunk_start(sims, w, t + 1);
            let part = self.tally_chunk(data, lo, hi);
            parts.push(part);
            t = t + 1;
        }
        proof {
            let expected = Seq::new(
                w as nat,
                |j: int| old(self).tally(data@, zeros(n), chunk_lo(sims as int, w as int, j), chunk_lo(sims as int, w as int, j + 1)),
            );
            assert(parts_views(parts@) =~= expected);
            lemma_merge_matches_sequential(*old(self), data@, n, w as int);
            lemma_tally_within(*old(self), data@, sims as int);
            let total = old(self).tally(data@, zeros(n), 0, sims as int);
            assert forall|p: int| 0 <= p < n implies fits(#[trigger] total[p]) by {
                lemma_bounded_fits(total[p], sims as int, n);
            }
        }
        self.update_player_stats_from_thread(&parts);
        self.normalize_results();
        proof {
            if old(self).num_rounds == 0 {
                assert(self.stats() =~= old(self).stats());
            }
        }
    }
}

/// After `k` simulations every competitor's statistics are bounded by what
/// `k` tournaments can add, and its tiers nest.
pub proof fn lemma_tally_within(sim: Sim, data: Seq<Vec<i32>>, k: int)
    requires
        data.len() <= MAX_FIELD,
        0 <= k,
    ensures
        sim.tally(data, zeros(data.len() as int), 0, k).len() == data.len(),
        within(sim.tally(data, zeros(data.len() as int), 0, k), k),
    decreases k,
{
    let n = data.len() as int;
    if sim.num_rounds == 0 {
        lemma_zeros_within(n, k);
    } else if k > 0 {
        lemma_tally_within(sim, data, k - 1);
        let prev = sim.tally(data, zeros(n), 0, k - 1);
        let o = sim.sim_order(data, k - 1);
        lemma_final_order_perm(
            round_totals(data, k - 1, sim.num_rounds as int, sim.num_rounds as int),
            round_totals(data, k - 1, sim.num_rounds as int, sim.cut_round as int),
            sim.cut_round > 0,
            sim.cut_line as int,
        );
        lemma_credit_bounded(prev, o, n, k - 1, sim.credit_line(n), sim.purse@);
        assert(k * n >= (k - 1) * n) by (nonlinear_arith)
            requires
                n >= 0,
                k >= 1,
        ;
        assert(k * (u32::MAX as int) >= (k - 1) * (u32::MAX as int)) by (nonlinear_arith)
            requires
                k >= 1,
        ;
    }
}

/// Once the sums of a run over `num_sims` simulations are normalized, every
/// competitor's rates nest: 0 <= win <= top5 <= top10 <= top20 <= made_cut,
/// and made_cut is at most one (in millionths).
pub proof fn lemma_normalized_rates_nest(sim: Sim, data: Seq<Vec<i32>>, p: int)
    requires
        data.len() <= MAX_FIELD,
        0 <= p < data.len(),
    ensures
        rates_ok(
            normalize_seq(
                sim.tally(data, zeros(data.len() as int), 0, sim.num_sims as int),
                sim.num_sims as int,
            )[p],
        ),
{
    let t = sim.tally(data, zeros(data.len() as int), 0, sim.num_sims as int);
    lemma_tally_within(sim, data, sim.num_sims as int);
    lemma_normalized_ok(t[p], sim.num_sims as int, data.len() as int);
}

} // verus!
