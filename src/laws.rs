//! What holds across calls: accumulation is additive, so per-worker chunks
//! merged together equal one sequential pass; and without a cut every
//! competitor is credited its full-total place in every simulation.
use vstd::prelude::*;
use crate::player::{Totals, add_totals, award};
use crate::ranking::{is_perm, lemma_rank_order_exists, lemma_stable_desc_perm, rank_order};
use crate::sim::{MAX_FIELD, Sim, add_seq, chunk_lo, credit_order, merge_all, pay_at, round_totals, zeros};

verus! {

proof fn lemma_credit_shift(base: Seq<Totals>, s: Seq<Totals>, o: Seq<usize>, k: int, c: int, purse: Seq<(u32, u32)>)
    requires
        base.len() == s.len(),
    ensures
        credit_order(s, o, k, c, purse).len() == s.len(),
        credit_order(add_seq(base, s), o, k, c, purse) == add_seq(base, credit_order(s, o, k, c, purse)),
    decreases k,
{
    if k > 0 {
        lemma_credit_shift(base, s, o, k - 1, c, purse);
        assert(credit_order(add_seq(base, s), o, k, c, purse) =~= add_seq(base, credit_order(s, o, k, c, purse)));
    }
}

proof fn lemma_tally_shift(sim: Sim, data: Seq<Vec<i32>>, base: Seq<Totals>, s: Seq<Totals>, lo: int, hi: int)
    requires
        base.len() == s.len(),
    ensures
        sim.tally(data, s, lo, hi).len() == s.len(),
        sim.tally(data, add_seq(base, s), lo, hi) == add_seq(base, sim.tally(data, s, lo, hi)),
    decreases hi - lo,
{
    if hi > lo {
        lemma_tally_shift(sim, data, base, s, lo, hi - 1);
        lemma_credit_shift(
            base,
            sim.tally(data, s, lo, hi - 1),
            sim.sim_order(data, hi - 1),
            s.len() as int,
            sim.credit_line(s.len() as int),
            sim.purse@,
        );
    }
}

proof fn lemma_tally_concat(sim: Sim, data: Seq<Vec<i32>>, base: Seq<Totals>, lo: int, mid: int, hi: int)
    requires
        lo <= mid <= hi,
    ensures
        sim.tally(data, sim.tally(data, base, lo, mid), mid, hi) == sim.tally(data, base, lo, hi),
    decreases hi - mid,
{
    lemma_tally_shift(sim, data, zeros(base.len() as int), base, lo, mid);
    if hi > mid {
        lemma_tally_concat(sim, data, base, lo, mid, hi - 1);
    }
}

proof fn lemma_add_zeros(a: Seq<Totals>)
    ensures
        add_seq(a, zeros(a.len() as int)) == a,
{
    assert(add_seq(a, zeros(a.len() as int)) =~= a);
}

pub proof fn lemma_chunk_bounds(sims: int, workers: int, t: int)
    requires
        sims >= 0,
        workers >= 1,
        0 <= t,
    ensures
        chunk_lo(sims, workers, 0) == 0,
        0 <= chunk_lo(sims, workers, t) <= chunk_lo(sims, workers, t + 1) <= sims,
        chunk_lo(sims, workers, workers) == sims,
{
    let size = (sims + workers - 1) / workers;
    assert(size >= 0) by (nonlinear_arith)
        requires
            sims >= 0,
            workers >= 1,
            size == (sims + workers - 1) / workers,
    ;
    assert(t * size <= (t + 1) * size) by (nonlinear_arith)
        requires
            size >= 0,
            t >= 0,
    ;
    assert(workers * size >= sims) by (nonlinear_arith)
        requires
            sims >= 0,
            workers >= 1,
            size == (sims + workers - 1) / workers,
    ;
}

/// Tallying simulations `0..num_sims` in contiguous chunks, one per worker,
/// each from zeroed statistics, and merging the chunk tallies field by field
/// gives exactly the statistics of one sequential pass, for every number of
/// workers.
pub proof fn lemma_merge_matches_sequential(sim: Sim, data: Seq<Vec<i32>>, n: int, workers: int)
    requires
        workers >= 1,
        n >= 0,
    ensures
        merge_all(
            zeros(n),
            Seq::new(
                workers as nat,
                |t: int|
                    sim.tally(
                        data,
                        zeros(n),
                        chunk_lo(sim.num_sims as int, workers, t),
                        chunk_lo(sim.num_sims as int, workers, t + 1),
                    ),
            ),
        ) == sim.tally(data, zeros(n), 0, sim.num_sims as int),
{
    let sims = sim.num_sims as int;
    let parts = Seq::new(
        workers as nat,
        |t: int| sim.tally(data, zeros(n), chunk_lo(sims, workers, t), chunk_lo(sims, workers, t + 1)),
    );
    lemma_merge_prefix(sim, data, n, workers, parts, workers);
    lemma_chunk_bounds(sims, workers, 0);
    assert(parts.take(workers) =~= parts);
}

proof fn lemma_merge_prefix(sim: Sim, data: Seq<Vec<i32>>, n: int, workers: int, parts: Seq<Seq<Totals>>, j: int)
    requires
        workers >= 1,
        n >= 0,
        0 <= j <= workers,
        parts == Seq::new(
            workers as nat,
            |t: int|
                sim.tally(
                    data,
                    zeros(n),
                    chunk_lo(sim.num_sims as int, workers, t),
                    chunk_lo(sim.num_sims as int, workers, t + 1),
                ),
        ),
    ensures
        merge_all(zeros(n), parts.take(j)) == sim.tally(data, zeros(n), 0, chunk_lo(sim.num_sims as int, workers, j)),
    decreases j,
{
    let sims = sim.num_sims as int;
    lemma_chunk_bounds(sims, workers, 0);
    if j > 0 {
        lemma_merge_prefix(sim, data, n, workers, parts, j - 1);
        lemma_chunk_bounds(sims, workers, j - 1);
        let a = chunk_lo(sims, workers, j - 1);
        let b = chunk_lo(sims, workers, j);
        assert(parts.take(j).drop_last() =~= parts.take(j - 1));
        let first = sim.tally(data, zeros(n), 0, a);
        lemma_tally_shift(sim, data, zeros(n), zeros(n), 0, a);
        lemma_add_zeros(zeros(n));
        lemma_add_zeros(first);
        lemma_tally_shift(sim, data, first, zeros(n), a, b);
        lemma_tally_concat(sim, data, zeros(n), 0, a, b);
    } else {
        assert(parts.take(0).len() == 0);
    }
}

/// The place, counted from one, of competitor `p` in order `o`.
pub open spec fn place_of(o: Seq<usize>, p: int) -> int {
    (choose|q: int| 0 <= q < o.len() && #[trigger] o[q] as int == p) + 1
}

/// The sum of competitor `p`'s places over simulations `0..k`, each ranked
/// by full total.
pub open spec fn place_sum(sim: Sim, data: Seq<Vec<i32>>, p: int, k: int) -> int
    decreases k,
{
    if k <= 0 {
        0
    } else {
        place_sum(sim, data, p, k - 1) + place_of(
            rank_order(round_totals(data, k - 1, sim.num_rounds as int, sim.num_rounds as int)),
            p,
        )
    }
}

proof fn lemma_credit_at(stats: Seq<Totals>, o: Seq<usize>, q: int, c: int, purse: Seq<(u32, u32)>, p: int)
    requires
        is_perm(o, stats.len() as int),
        0 <= q <= o.len(),
        0 <= p < stats.len(),
    ensures
        credit_order(stats, o, q, c, purse).len() == stats.len(),
        credit_order(stats, o, q, c, purse)[p] == if exists|j: int| 0 <= j < q && #[trigger] o[j] as int == p {
            add_totals(stats[p], award(place_of(o, p), c, pay_at(purse, place_of(o, p))))
        } else {
            stats[p]
        },
    decreases q,
{
    if q > 0 {
        lemma_credit_at(stats, o, q - 1, c, purse, p);
        if o[q - 1] as int == p {
            let j = choose|j: int| 0 <= j < o.len() && #[trigger] o[j] as int == p;
            if j != q - 1 {
                if j < q - 1 {
                    assert(o[j] != o[q - 1]);
                } else {
                    assert(o[q - 1] != o[j]);
                }
            }
            assert(place_of(o, p) == q);
            assert forall|j: int| 0 <= j < q - 1 implies #[trigger] o[j] as int != p by {
                assert(o[j] != o[q - 1]);
            }
        } else {
            if exists|j: int| 0 <= j < q && #[trigger] o[j] as int == p {
                let j = choose|j: int| 0 <= j < q && #[trigger] o[j] as int == p;
                assert(j < q - 1);
            }
        }
    }
}

/// Without a cut every competitor is credited in every simulation: its
/// finish sum over simulations `0..k` is the sum of its full-total places,
/// and it makes the cut each time. Tournaments of zero rounds credit nothing.
pub proof fn lemma_no_cut_totals(sim: Sim, data: Seq<Vec<i32>>, p: int, k: int)
    requires
        sim.cut_round == 0,
        data.len() <= MAX_FIELD,
        0 <= p < data.len(),
        0 <= k,
    ensures
        sim.tally(data, zeros(data.len() as int), 0, k)[p].finish == if sim.num_rounds == 0 {
            0
        } else {
            place_sum(sim, data, p, k)
        },
        sim.tally(data, zeros(data.len() as int), 0, k)[p].made_cut == if sim.num_rounds == 0 {
            0
        } else {
            k
        },
    decreases k,
{
    let n = data.len() as int;
    if k > 0 && sim.num_rounds > 0 {
        lemma_no_cut_totals(sim, data, p, k - 1);
        let prev = sim.tally(data, zeros(n), 0, k - 1);
        lemma_tally_shift(sim, data, zeros(n), zeros(n), 0, k - 1);
        let keys = round_totals(data, k - 1, sim.num_rounds as int, sim.num_rounds as int);
        let o = rank_order(keys);
        lemma_rank_order_exists(keys);
        lemma_stable_desc_perm(keys, o);
        assert(sim.sim_order(data, k - 1) == o);
        lemma_credit_at(prev, o, n, n, sim.purse@, p);
        assert(o.contains(p as usize));
        let pl = place_of(o, p);
        let jj = choose|q: int| 0 <= q < o.len() && #[trigger] o[q] as int == p;
        assert(0 <= jj < n);
        assert(1 <= pl <= n);
    }
}

} // verus!
