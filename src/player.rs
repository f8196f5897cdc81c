//! A competitor's skill parameters and accumulated outcome statistics.
use vstd::prelude::*;

verus! {

/// The seven statistics of a competitor, as mathematical integers.
pub struct Totals {
    pub finish: int,
    pub earnings: int,
    pub win: int,
    pub top5: int,
    pub top10: int,
    pub top20: int,
    pub made_cut: int,
}

pub open spec fn zero_totals() -> Totals {
    Totals { finish: 0, earnings: 0, win: 0, top5: 0, top10: 0, top20: 0, made_cut: 0 }
}

/// Field-wise sum of two sets of statistics.
pub open spec fn add_totals(a: Totals, b: Totals) -> Totals {
    Totals {
        finish: a.finish + b.finish,
        earnings: a.earnings + b.earnings,
        win: a.win + b.win,
        top5: a.top5 + b.top5,
        top10: a.top10 + b.top10,
        top20: a.top20 + b.top20,
        made_cut: a.made_cut + b.made_cut,
    }
}

pub open spec fn flag(b: bool) -> int {
    if b { 1 } else { 0 }
}

/// What one tournament adds for a competitor finishing at `finish`: the finish
/// always; earnings, the cut and the cumulative tiers only within
/// `cut_line + 1`.
pub open spec fn award(finish: int, cut_line: int, pay: int) -> Totals {
    if finish <= cut_line + 1 {
        Totals {
            finish,
            earnings: pay,
            win: flag(finish < 2),
            top5: flag(finish < 6),
            top10: flag(finish < 11),
            top20: flag(finish < 21),
            made_cut: 1,
        }
    } else {
        Totals { finish, ..zero_totals() }
    }
}

/// Every statistic is a `u64`.
pub open spec fn fits(t: Totals) -> bool {
    &&& 0 <= t.finish <= u64::MAX
    &&& 0 <= t.earnings <= u64::MAX
    &&& 0 <= t.win <= u64::MAX
    &&& 0 <= t.top5 <= u64::MAX
    &&& 0 <= t.top10 <= u64::MAX
    &&& 0 <= t.top20 <= u64::MAX
    &&& 0 <= t.made_cut <= u64::MAX
}

/// A competitor. `index` and `std_dev` give the scoring distribution in
/// thousandths of a stroke. The statistics hold running sums until the run is
/// normalized, and millionths of a mean afterwards.
#[derive(Clone, Copy, Debug, PartialEq, Eq)]
pub struct Player {
    pub index: i32,
    pub std_dev: i32,
    pub avg_finish: u64,
    pub avg_earnings: u64,
    pub win: u64,
    pub top5: u64,
    pub top10: u64,
    pub top20: u64,
    pub made_cut: u64,
}

impl View for Player {
    type V = Totals;

    open spec fn view(&self) -> Totals {
        Totals {
            finish: self.avg_finish as int,
            earnings: self.avg_earnings as int,
            win: self.win as int,
            top5: self.top5 as int,
            top10: self.top10 as int,
            top20: self.top20 as int,
            made_cut: self.made_cut as int,
        }
    }
}

impl Player {
    /// A competitor with all statistics at zero.
    pub fn fresh(index: i32, std_dev: i32) -> (p: Player)
        ensures
            p.index == index,
            p.std_dev == std_dev,
            p@ == zero_totals(),
    {
        Player {
            index,
            std_dev,
            avg_finish: 0,
            avg_earnings: 0,
            win: 0,
            top5: 0,
            top10: 0,
            top20: 0,
            made_cut: 0,
        }
    }

    /// Adds one tournament's outcome: finishing at `finish_pos`, with
    /// `earnings` due if the cut was made.
    pub fn update_stats(&mut self, finish_pos: u64, cut_line: u64, earnings: u64)
        requires
            fits(add_totals(old(self)@, award(finish_pos as int, cut_line as int, earnings as int))),
        ensures
            final(self)@ == add_totals(old(self)@, award(finish_pos as int, cut_line as int, earnings as int)),
            final(self).index == old(self).index,
            final(self).std_dev == old(self).std_dev,
    {
        self.avg_finish = self.avg_finish + finish_pos;
        if finish_pos == 0 || finish_pos - 1 <= cut_line {
            self.avg_earnings = self.avg_earnings + earnings;
            self.made_cut = self.made_cut + 1;
            if finish_pos < 21 {
                self.top20 = self.top20 + 1;
                if finish_pos < 11 {
                    self.top10 = self.top10 + 1;
                    if finish_pos < 6 {
                        self.top5 = self.top5 + 1;
                        if finish_pos < 2 {
                            self.win = self.win + 1;
                        }
                    }
                }
            }
        }
    }

    /// Adds another accumulator's statistics, field by field.
    pub fn absorb(&mut self, other: &Player)
        requires
            fits(add_totals(old(self)@, other@)),
        ensures
            final(self)@ == add_totals(old(self)@, other@),
            final(self).index == old(self).index,
            final(self).std_dev == old(self).std_dev,
    {
        self.avg_finish = self.avg_finish + other.avg_finish;
        self.made_cut = self.made_cut + other.made_cut;
        self.avg_earnings = self.avg_earnings + other.avg_earnings;
        self.top20 = self.top20 + other.top20;
        self.top10 = self.top10 + other.top10;
        self.top5 = self.top5 + other.top5;
        self.win = self.win + other.win;
    }
}

} // verus!
