use golfsim::player::Player;
use golfsim::ranking::{rank_desc, resolve};
use golfsim::sim::{Sim, SimError, SCALE};

fn engine(sims: usize, rounds: usize, cut_round: usize, cut_line: usize, ids: &[u32]) -> Sim {
    let mut sim = Sim::new(sims, rounds, cut_round, cut_line);
    for &id in ids {
        assert_eq!(sim.add_player(id, 0, 1000), Ok(()));
    }
    sim
}

fn stats_of(sim: &Sim, id: u32) -> Player {
    sim.get_players().into_iter().find(|e| e.0 == id).unwrap().1
}

#[test]
fn no_cut_ranks_by_full_total() {
    // one simulation, one round: A=5, B=3, C=4 strokes gained
    let mut sim = engine(1, 1, 0, 10, &[1, 2, 3]);
    let data = vec![vec![5000], vec![3000], vec![4000]];
    assert_eq!(sim.simulate_tournament(&data, 0), vec![0, 2, 1]);
    sim.run(&data, 2);
    assert_eq!(stats_of(&sim, 1).avg_finish, SCALE);
    assert_eq!(stats_of(&sim, 3).avg_finish, 2 * SCALE);
    assert_eq!(stats_of(&sim, 2).avg_finish, 3 * SCALE);
    for id in [1, 2, 3] {
        assert_eq!(stats_of(&sim, id).made_cut, SCALE);
    }
    assert_eq!(stats_of(&sim, 1).win, SCALE);
    assert_eq!(stats_of(&sim, 3).win, 0);
}

#[test]
fn cut_keeps_leaders_after_cut_round() {
    // A=[3,1], B=[1,5]: B leads on full total but misses the cut
    let sim = engine(1, 2, 1, 1, &[10, 20]);
    let data = vec![vec![3000, 1000], vec![1000, 5000]];
    assert_eq!(sim.simulate_tournament(&data, 0), vec![0, 1]);
    assert_eq!(resolve(&vec![4, 6], &vec![3, 1], true, 1), vec![0, 1]);
    assert_eq!(resolve(&vec![4, 6], &vec![3, 1], false, 1), vec![1, 0]);
}

#[test]
fn first_place_after_the_cut_line_counts_as_made_cut() {
    let mut sim = engine(1, 2, 1, 1, &[10, 20, 30]);
    let data = vec![vec![3000, 0], vec![2000, 0], vec![1000, 9000]];
    sim.run(&data, 1);
    assert_eq!(stats_of(&sim, 10).made_cut, SCALE);
    assert_eq!(stats_of(&sim, 20).made_cut, SCALE);
    assert_eq!(stats_of(&sim, 30).made_cut, 0);
    assert_eq!(stats_of(&sim, 30).avg_finish, 3 * SCALE);
}

#[test]
fn made_cut_group_is_resorted_by_full_total() {
    // cut standings by round one: 0, 1, 2, 3; the top three re-rank on full total
    let full = vec![1, 9, 5, 100];
    let partial = vec![40, 30, 20, 10];
    assert_eq!(resolve(&full, &partial, true, 3), vec![1, 2, 0, 3]);
}

#[test]
fn cut_line_beyond_field_keeps_everyone() {
    assert_eq!(resolve(&vec![1, 3, 2], &vec![3, 2, 1], true, 50), vec![1, 2, 0]);
}

#[test]
fn payout_absent_rank_pays_nothing() {
    let mut sim = engine(1, 1, 0, 5, &[1, 2, 3]);
    sim.set_purse(vec![(1, 1000), (2, 500)]);
    assert_eq!(sim.payout(1), 1000);
    assert_eq!(sim.payout(2), 500);
    assert_eq!(sim.payout(3), 0);
    let data = vec![vec![30], vec![20], vec![10]];
    sim.run(&data, 1);
    assert_eq!(stats_of(&sim, 1).avg_earnings, 1000 * SCALE);
    assert_eq!(stats_of(&sim, 2).avg_earnings, 500 * SCALE);
    assert_eq!(stats_of(&sim, 3).avg_earnings, 0);
}

#[test]
fn payout_later_entry_wins() {
    let mut sim = engine(1, 1, 0, 5, &[1]);
    sim.set_purse(vec![(1, 1000), (1, 700)]);
    assert_eq!(sim.payout(1), 700);
}

#[test]
fn exact_ties_resolve_the_same_way_every_time() {
    let keys = vec![7, 9, 7, 9, 7];
    let first = rank_desc(&keys);
    let second = rank_desc(&keys);
    assert_eq!(first, second);
    assert_eq!(first, vec![1, 3, 0, 2, 4]);
    let sim = engine(1, 2, 0, 5, &[1, 2]);
    let data = vec![vec![1000, 2000], vec![2000, 1000]];
    assert_eq!(sim.simulate_tournament(&data, 0), sim.simulate_tournament(&data, 0));
    assert_eq!(sim.simulate_tournament(&data, 0), vec![0, 1]);
}

fn table(players: usize, sims: usize, rounds: usize) -> Vec<Vec<i32>> {
    (0..players)
        .map(|p| (0..sims * rounds).map(|i| ((p * 7919 + i * 104729) % 2001) as i32 - 1000).collect())
        .collect()
}

#[test]
fn one_worker_and_many_workers_agree() {
    let ids: Vec<u32> = (1..=6).collect();
    let data = table(6, 7, 3);
    let mut results = Vec::new();
    for workers in [1, 2, 3, 4, 16] {
        let mut sim = engine(7, 3, 2, 3, &ids);
        sim.set_purse(vec![(1, 900), (2, 400), (3, 100)]);
        sim.run(&data, workers);
        results.push(sim.get_players());
    }
    for r in &results[1..] {
        assert_eq!(r, &results[0]);
    }
}

#[test]
fn chunk_tallies_merge_to_the_sequential_tally() {
    let ids: Vec<u32> = (1..=5).collect();
    let data = table(5, 10, 2);
    let sim = engine(10, 2, 1, 2, &ids);
    let whole = sim.tally_chunk(&data, 0, 10);
    let mut merged = engine(10, 2, 1, 2, &ids);
    let parts = vec![
        sim.tally_chunk(&data, Sim::chunk_start(10, 3, 0), Sim::chunk_start(10, 3, 1)),
        sim.tally_chunk(&data, Sim::chunk_start(10, 3, 1), Sim::chunk_start(10, 3, 2)),
        sim.tally_chunk(&data, Sim::chunk_start(10, 3, 2), Sim::chunk_start(10, 3, 3)),
    ];
    merged.update_player_stats_from_thread(&parts);
    let merged: Vec<Player> = merged.get_players().into_iter().map(|e| e.1).collect();
    assert_eq!(merged, whole);
    let finishes: u64 = whole.iter().map(|p| p.avg_finish).sum();
    assert_eq!(finishes, 10 * (1 + 2 + 3 + 4 + 5));
}

#[test]
fn run_normalizes_exactly_once() {
    // player 1 wins the first of two simulations, player 2 the second
    let mut sim = engine(2, 1, 0, 5, &[1, 2]);
    let data = vec![vec![10, 0], vec![0, 10]];
    assert!(sim.is_fresh());
    sim.run(&data, 2);
    assert!(sim.normalized);
    assert!(!sim.is_fresh());
    assert_eq!(stats_of(&sim, 1).win, SCALE / 2);
    assert_eq!(stats_of(&sim, 1).avg_finish, 3 * SCALE / 2);
    assert_eq!(stats_of(&sim, 2).win, SCALE / 2);
    assert_eq!(stats_of(&sim, 2).top5, SCALE);
}

#[test]
fn tiers_nest_after_a_run() {
    let ids: Vec<u32> = (1..=30).collect();
    let data = table(30, 9, 2);
    let mut sim = engine(9, 2, 1, 24, &ids);
    sim.run(&data, 3);
    for (_, p) in sim.get_players() {
        assert!(p.win <= p.top5 && p.top5 <= p.top10 && p.top10 <= p.top20);
        assert!(p.top20 <= p.made_cut && p.made_cut <= SCALE);
        assert!(p.avg_finish >= SCALE && p.avg_finish <= 30 * SCALE);
    }
}

#[test]
fn tier_increments_are_cumulative() {
    let mut p = Player::fresh(0, 1);
    p.update_stats(1, 65, 50);
    p.update_stats(7, 65, 5);
    p.update_stats(30, 65, 0);
    p.update_stats(80, 65, 9);
    assert_eq!((p.win, p.top5, p.top10, p.top20, p.made_cut), (1, 1, 2, 2, 3));
    assert_eq!(p.avg_finish, 118);
    assert_eq!(p.avg_earnings, 55);
}

#[test]
fn absorb_adds_field_by_field() {
    let mut a = Player::fresh(5, 9);
    a.update_stats(1, 3, 10);
    let mut b = Player::fresh(0, 1);
    b.update_stats(4, 3, 2);
    a.absorb(&b);
    assert_eq!((a.avg_finish, a.avg_earnings, a.win, a.top5, a.made_cut), (5, 12, 1, 2, 2));
    assert_eq!((a.index, a.std_dev), (5, 9));
}

#[test]
fn zero_simulations_leave_statistics_empty() {
    let mut sim = engine(0, 4, 2, 1, &[1, 2]);
    sim.run(&vec![vec![], vec![]], 4);
    for (_, p) in sim.get_players() {
        assert_eq!(p, Player::fresh(0, 1000));
    }
}

#[test]
fn non_positive_std_dev_is_refused() {
    let mut sim = Sim::new(1, 1, 0, 0);
    assert_eq!(sim.add_player(1, 0, 0), Err(SimError::NonPositiveStdDev));
    assert_eq!(sim.add_player(1, 0, -5), Err(SimError::NonPositiveStdDev));
    assert!(sim.get_players().is_empty());
}

#[test]
fn re_adding_an_id_replaces_its_entry() {
    let mut sim = Sim::new(1, 1, 0, 0);
    assert_eq!(sim.add_player(4, 10, 100), Ok(()));
    assert_eq!(sim.add_player(5, 20, 100), Ok(()));
    assert_eq!(sim.add_player(4, 30, 300), Ok(()));
    let players = sim.get_players();
    assert_eq!(players.len(), 2);
    assert_eq!(players[0], (4, Player::fresh(30, 300)));
}

#[test]
fn chunks_are_contiguous_and_cover_all() {
    assert_eq!(
        (0..=4).map(|t| Sim::chunk_start(10, 4, t)).collect::<Vec<_>>(),
        vec![0, 3, 6, 9, 10]
    );
    assert_eq!(Sim::chunk_start(2, 4, 3), 2);
}

#[test]
fn reset_allows_a_second_run() {
    let mut sim = engine(2, 1, 0, 5, &[1, 2]);
    let data = vec![vec![10, 0], vec![0, 10]];
    sim.run(&data, 1);
    let first = sim.get_players();
    sim.reset_stats();
    assert!(sim.is_fresh());
    sim.run(&data, 1);
    assert_eq!(sim.get_players(), first);
}

#[test]
fn setters_replace_parameters() {
    let mut sim = Sim::new(1, 1, 0, 0);
    sim.set_num_sims(100);
    sim.set_num_rounds(4);
    sim.set_cut_round(2);
    sim.set_cut_line(65);
    assert_eq!((sim.num_sims, sim.num_rounds, sim.cut_round, sim.cut_line), (100, 4, 2, 65));
}

#[test]
fn sampling_partitions_by_id_modulo_workers() {
    assert_eq!(Sim::sampling_worker(10, 4), 2);
    assert_eq!(Sim::sampling_worker(3, 4), 3);
    assert_eq!(Sim::sampling_worker(7, 0), 0);
}

#[test]
fn no_cut_finish_sums_add_places_over_simulations() {
    let sim = engine(2, 1, 0, 5, &[1, 2, 3]);
    let data = vec![vec![5, 1], vec![3, 2], vec![4, 3]];
    let raw = sim.tally_chunk(&data, 0, 2);
    let finishes: Vec<u64> = raw.iter().map(|p| p.avg_finish).collect();
    assert_eq!(finishes, vec![4, 5, 3]);
    assert!(raw.iter().all(|p| p.made_cut == 2));
}

#[test]
fn no_cut_credits_everyone_whatever_the_cut_line() {
    // cut round 0 with cut line 0: every place still makes the cut and earns
    let mut sim = engine(1, 1, 0, 0, &[1, 2, 3]);
    sim.set_purse(vec![(1, 100), (2, 50), (3, 20)]);
    let data = vec![vec![5000], vec![3000], vec![4000]];
    sim.run(&data, 1);
    for id in [1, 2, 3] {
        assert_eq!(stats_of(&sim, id).made_cut, SCALE);
        assert_eq!(stats_of(&sim, id).top5, SCALE);
    }
    assert_eq!(stats_of(&sim, 3).avg_earnings, 50 * SCALE);
    assert_eq!(stats_of(&sim, 2).avg_earnings, 20 * SCALE);
    assert_eq!(stats_of(&sim, 2).avg_finish, 3 * SCALE);
}

#[test]
fn no_cut_tally_credits_places_beyond_the_cut_line() {
    let sim = engine(2, 1, 0, 1, &[1, 2, 3, 4]);
    let data = vec![vec![1, 1], vec![2, 2], vec![3, 3], vec![4, 4]];
    let raw = sim.tally_chunk(&data, 0, 2);
    assert!(raw.iter().all(|p| p.made_cut == 2 && p.top20 == 2));
    let finishes: Vec<u64> = raw.iter().map(|p| p.avg_finish).collect();
    assert_eq!(finishes, vec![8, 6, 4, 2]);
}

#[test]
fn zero_rounds_produce_no_statistics() {
    let mut sim = engine(3, 0, 0, 5, &[1, 2]);
    sim.run(&vec![vec![], vec![]], 2);
    assert!(sim.normalized);
    for (_, p) in sim.get_players() {
        assert_eq!(p, Player::fresh(0, 1000));
    }
    let fresh = engine(3, 0, 0, 5, &[1, 2]);
    assert!(fresh.tally_chunk(&vec![vec![], vec![]], 0, 3).iter().all(|p| *p == Player::fresh(0, 1000)));
}

#[test]
fn merging_no_accumulators_changes_nothing() {
    let mut sim = engine(4, 1, 0, 5, &[1, 2]);
    sim.update_player_stats_from_thread(&vec![]);
    assert!(sim.is_fresh());
}
