use vstd::prelude::*;

use crate::dates::Date;
use crate::errors::Error;
use crate::parser::{
    all_years_positive, contrib_is_rec, contrib_rec_date, contrib_rec_ok, day_count_overflows,
    timeline_consistent, timeline_matches, upd_days, upd_years, year_entry_matches, year_has_rec,
    year_num, year_total_in, year_total_overflows, ParseState, YearInfo,
};
use crate::types::{Contribution, Timeline};

verus! {

// ---------------------------------------------------------------------------
// Replaying contribution entries
// ---------------------------------------------------------------------------
/// The per-year map after replaying the first `k` contribution entries.
pub open spec fn replay_years(base: Map<int, YearInfo>, cs: Seq<Contribution>, k: int) -> Map<
    int,
    YearInfo,
>
    decreases k,
{
    if k <= 0 {
        base
    } else {
        let prev = replay_years(base, cs, k - 1);
        let c = cs[k - 1];
        if contrib_is_rec(c) {
            upd_years(prev, contrib_rec_date(c), c.count as int)
        } else {
            prev
        }
    }
}

/// The per-day map after replaying the first `k` contribution entries.
pub open spec fn replay_days(base: Map<Date, int>, cs: Seq<Contribution>, k: int) -> Map<Date, int>
    decreases k,
{
    if k <= 0 {
        base
    } else {
        let prev = replay_days(base, cs, k - 1);
        let c = cs[k - 1];
        if contrib_is_rec(c) {
            upd_days(prev, contrib_rec_date(c), c.count as int)
        } else {
            prev
        }
    }
}

pub open spec fn replay_prefix_ok(cs: Seq<Contribution>, k: int) -> bool {
    forall|i: int| 0 <= i < k ==> contrib_rec_ok(#[trigger] cs[i])
}

/// Replaying entry `c` onto the given maps stays within the machine
/// integers.
pub open spec fn replay_step_fits(ym: Map<int, YearInfo>, dm: Map<Date, int>, c: Contribution) -> bool {
    contrib_is_rec(c) ==> !year_total_overflows(ym, contrib_rec_date(c), c.count as int)
        && !day_count_overflows(dm, contrib_rec_date(c), c.count as int)
}

pub open spec fn replay_prefix_fits(
    bym: Map<int, YearInfo>,
    bdm: Map<Date, int>,
    cs: Seq<Contribution>,
    k: int,
) -> bool {
    forall|i: int|
        0 <= i < k ==> replay_step_fits(
            replay_years(bym, cs, i),
            replay_days(bdm, cs, i),
            #[trigger] cs[i],
        )
}

proof fn lemma_replay_step_skip(
    bym: Map<int, YearInfo>,
    bdm: Map<Date, int>,
    cs: Seq<Contribution>,
    k: int,
)
    requires
        0 <= k,
        !contrib_is_rec(cs[k]),
    ensures
        replay_years(bym, cs, k + 1) == replay_years(bym, cs, k),
        replay_days(bdm, cs, k + 1) == replay_days(bdm, cs, k),
{
}

proof fn lemma_replay_step_rec(
    bym: Map<int, YearInfo>,
    bdm: Map<Date, int>,
    cs: Seq<Contribution>,
    k: int,
)
    requires
        0 <= k,
        contrib_is_rec(cs[k]),
    ensures
        replay_years(bym, cs, k + 1) == upd_years(
            replay_years(bym, cs, k),
            contrib_rec_date(cs[k]),
            cs[k].count as int,
        ),
        replay_days(bdm, cs, k + 1) == upd_days(
            replay_days(bdm, cs, k),
            contrib_rec_date(cs[k]),
            cs[k].count as int,
        ),
{
}

proof fn lemma_replay_prefix_ok_extend(cs: Seq<Contribution>, k: int)
    requires
        0 <= k,
        replay_prefix_ok(cs, k),
        contrib_rec_ok(cs[k]),
    ensures
        replay_prefix_ok(cs, k + 1),
{
    assert forall|i: int| 0 <= i < k + 1 implies contrib_rec_ok(#[trigger] cs[i]) by {
        if i == k {
            assert(contrib_rec_ok(cs[k]));
        }
    }
}

proof fn lemma_replay_prefix_fits_extend(
    bym: Map<int, YearInfo>,
    bdm: Map<Date, int>,
    cs: Seq<Contribution>,
    k: int,
)
    requires
        0 <= k,
        replay_prefix_fits(bym, bdm, cs, k),
        replay_step_fits(replay_years(bym, cs, k), replay_days(bdm, cs, k), cs[k]),
    ensures
        replay_prefix_fits(bym, bdm, cs, k + 1),
{
    assert forall|i: int| 0 <= i < k + 1 implies replay_step_fits(
        replay_years(bym, cs, i),
        replay_days(bdm, cs, i),
        #[trigger] cs[i],
    ) by {
        if i == k {
            assert(replay_step_fits(replay_years(bym, cs, k), replay_days(bdm, cs, k), cs[k]));
        }
    }
}

// ---------------------------------------------------------------------------
// Merging whole timelines
// ---------------------------------------------------------------------------
/// The per-year map after replaying the first `k` whole timelines.
pub open spec fn replay_all_years(base: Map<int, YearInfo>, ts: Seq<Timeline>, k: int) -> Map<
    int,
    YearInfo,
>
    decreases k,
{
    if k <= 0 {
        base
    } else {
        let prev = replay_all_years(base, ts, k - 1);
        let cs = ts[k - 1].contributions@;
        replay_years(prev, cs, cs.len() as int)
    }
}

/// The per-day map after replaying the first `k` whole timelines.
pub open spec fn replay_all_days(base: Map<Date, int>, ts: Seq<Timeline>, k: int) -> Map<Date, int>
    decreases k,
{
    if k <= 0 {
        base
    } else {
        let prev = replay_all_days(base, ts, k - 1);
        let cs = ts[k - 1].contributions@;
        replay_days(prev, cs, cs.len() as int)
    }
}

pub open spec fn replay_all_ok(ts: Seq<Timeline>, k: int) -> bool {
    forall|j: int|
        0 <= j < k ==> replay_prefix_ok(
            (#[trigger] ts[j]).contributions@,
            ts[j].contributions@.len() as int,
        )
}

pub open spec fn replay_all_fits(
    bym: Map<int, YearInfo>,
    bdm: Map<Date, int>,
    ts: Seq<Timeline>,
    k: int,
) -> bool {
    forall|j: int|
        0 <= j < k ==> replay_prefix_fits(
            replay_all_years(bym, ts, j),
            replay_all_days(bdm, ts, j),
            (#[trigger] ts[j]).contributions@,
            ts[j].contributions@.len() as int,
        )
}

/// Every timeline replays cleanly, everything fits the machine integers,
/// and each observed year keeps a positive day count.
pub open spec fn merge_ok_spec(
    bym: Map<int, YearInfo>,
    bdm: Map<Date, int>,
    ts: Seq<Timeline>,
) -> bool {
    &&& replay_all_ok(ts, ts.len() as int)
    &&& replay_all_fits(bym, bdm, ts, ts.len() as int)
    &&& all_years_positive(
        replay_all_years(bym, ts, ts.len() as int),
        replay_all_days(bdm, ts, ts.len() as int),
    )
}

/// A timeline that matches empty accumulators is itself empty.
pub proof fn lemma_matches_empty(t: Timeline)
    requires
        timeline_matches(t, Map::<int, YearInfo>::empty(), Map::<Date, int>::empty()),
    ensures
        t.years@.len() == 0,
        t.contributions@.len() == 0,
{
    if t.years@.len() > 0 {
        assert(year_entry_matches(t.years@[0], Map::<int, YearInfo>::empty()));
        assert(false);
    }
    if t.contributions@.len() > 0 {
        assert(crate::parser::contrib_matches(
            t.contributions@[0],
            Map::<int, YearInfo>::empty(),
            Map::<Date, int>::empty(),
        ));
        assert(false);
    }
}

/// Merger merges multiple timelines into one.
pub struct Merger {
    state: ParseState,
}

impl Merger {
    pub closed spec fn years_model(self) -> Map<int, YearInfo> {
        self.state.years_model()
    }

    pub closed spec fn days_model(self) -> Map<Date, int> {
        self.state.days_model()
    }

    pub closed spec fn wf(self) -> bool {
        self.state.wf() && self.state.balanced()
    }

    /// Create a new merger with a clean state (no timeline merged).
    pub fn new() -> (m: Merger)
        ensures
            m.wf(),
            m.years_model() == Map::<int, YearInfo>::empty(),
            m.days_model() == Map::<Date, int>::empty(),
    {
        Merger { state: ParseState::new() }
    }

    /// Merge a single timeline: replay each contribution entry through the
    /// per-year and per-day accumulators, adding its literal count.
    ///
    /// Entries with a blank date are skipped; an entry whose date text is
    /// not a calendar date fails with `InvalidDate`.
    pub fn merge_timeline(&mut self, timeline: &Timeline) -> (r: Result<(), Error>)
        requires
            old(self).wf(),
        ensures
            final(self).wf(),
            ({
                let cs = timeline.contributions@;
                let n = cs.len() as int;
                let bym = old(self).years_model();
                let bdm = old(self).days_model();
                &&& (r is Ok <==> replay_prefix_ok(cs, n) && replay_prefix_fits(bym, bdm, cs, n))
                &&& match r {
                    Ok(()) => final(self).years_model() == replay_years(bym, cs, n)
                        && final(self).days_model() == replay_days(bdm, cs, n),
                    Err(e) => match e {
                        Error::InvalidDate(s) => exists|k: int|
                            0 <= k < n && replay_prefix_ok(cs, k) && replay_prefix_fits(
                                bym,
                                bdm,
                                cs,
                                k,
                            ) && !contrib_rec_ok(#[trigger] cs[k]) && s@ == cs[k].date@,
                        Error::Overflow => exists|k: int|
                            0 <= k < n && replay_prefix_ok(cs, k + 1) && replay_prefix_fits(
                                bym,
                                bdm,
                                cs,
                                k,
                            ) && !replay_step_fits(
                                replay_years(bym, cs, k),
                                replay_days(bdm, cs, k),
                                #[trigger] cs[k],
                            ),
                        _ => false,
                    },
                }
            }),
    {
        let ghost cs = timeline.contributions@;
        let ghost bym = old(self).years_model();
        let ghost bdm = old(self).days_model();
        let mut k: usize = 0;
        while k < timeline.contributions.len()
            invariant
                0 <= k <= cs.len(),
                cs == timeline.contributions@,
                bym == old(self).years_model(),
                bdm == old(self).days_model(),
                self.wf(),
                self.state.before_spec() == old(self).state.before_spec(),
                self.state.after_spec() == old(self).state.after_spec(),
                self.years_model() == replay_years(bym, cs, k as int),
                self.days_model() == replay_days(bdm, cs, k as int),
                replay_prefix_ok(cs, k as int),
                replay_prefix_fits(bym, bdm, cs, k as int),
            decreases cs.len() - k,
        {
            let c = &timeline.contributions[k];
            let count = c.count;
            let t = crate::dates::trim_str(c.date.as_str());
            if t.unicode_len() == 0 {
                proof {
                    assert(contrib_rec_ok(cs[k as int]));
                    assert(!contrib_is_rec(cs[k as int]));
                    lemma_replay_step_skip(bym, bdm, cs, k as int);
                    lemma_replay_prefix_ok_extend(cs, k as int);
                    lemma_replay_prefix_fits_extend(bym, bdm, cs, k as int);
                }
            } else {
                match crate::dates::date_from_str(t) {
                    None => {
                        proof {
                            assert(!contrib_rec_ok(cs[k as int]));
                        }
                        return Err(Error::InvalidDate(c.date.clone()));
                    },
                    Some(d) => {
                        proof {
                            assert(contrib_is_rec(cs[k as int]));
                            assert(contrib_rec_date(cs[k as int]) == d);
                            assert(d.valid());
                        }
                        let ghost pre_state = self.state;
                        if self.state.day_would_overflow(&d, count) {
                            proof {
                                assert(!replay_step_fits(
                                    replay_years(bym, cs, k as int),
                                    replay_days(bdm, cs, k as int),
                                    cs[k as int],
                                ));
                            }
                            return Err(Error::Overflow);
                        }
                        if let Err(_e) = self.state.update_years(d, count) {
                            proof {
                                assert(!replay_step_fits(
                                    replay_years(bym, cs, k as int),
                                    replay_days(bdm, cs, k as int),
                                    cs[k as int],
                                ));
                            }
                            return Err(Error::Overflow);
                        }
                        if let Err(_e) = self.state.update_days(d, count) {
                            proof {
                                assert(false);
                            }
                            return Err(Error::Overflow);
                        }
                        proof {
                            lemma_replay_step_rec(bym, bdm, cs, k as int);
                            lemma_replay_prefix_ok_extend(cs, k as int);
                            lemma_replay_prefix_fits_extend(bym, bdm, cs, k as int);
                            crate::parser::lemma_balanced_after_record(
                                pre_state,
                                self.state,
                                d,
                                count as int,
                            );
                        }
                    },
                }
            }
            k = k + 1;
        }
        Ok(())
    }

    /// Merge multiple timelines together into one. This is helpful when
    /// analyzing multiple repositories and trying to combine the
    /// individual results.
    pub fn merge(&mut self, timelines: &[Timeline]) -> (r: Result<Timeline, Error>)
        requires
            old(self).wf(),
        ensures
            final(self).wf(),
            ({
                let ts = timelines@;
                let n = ts.len() as int;
                let bym = old(self).years_model();
                let bdm = old(self).days_model();
                &&& (r is Ok <==> merge_ok_spec(bym, bdm, ts))
                &&& match r {
                    Ok(t) => {
                        &&& final(self).years_model() == replay_all_years(bym, ts, n)
                        &&& final(self).days_model() == replay_all_days(bdm, ts, n)
                        &&& timeline_consistent(t)
                        &&& timeline_matches(
                            t,
                            replay_all_years(bym, ts, n),
                            replay_all_days(bdm, ts, n),
                        )
                        &&& (n == 0 && bym == Map::<int, YearInfo>::empty() && bdm == Map::<
                            Date,
                            int,
                        >::empty() ==> t.years@.len() == 0 && t.contributions@.len() == 0)
                    },
                    Err(e) => match e {
                        Error::EmptyYear => replay_all_ok(ts, n) && replay_all_fits(
                            bym,
                            bdm,
                            ts,
                            n,
                        ) && !all_years_positive(
                            replay_all_years(bym, ts, n),
                            replay_all_days(bdm, ts, n),
                        ),
                        Error::InvalidDate(s) => !replay_all_ok(ts, n) && exists|j: int, kk: int|
                            0 <= j < n && 0 <= kk < (#[trigger] ts[j]).contributions@.len()
                                && !contrib_rec_ok(#[trigger] ts[j].contributions@[kk]) && s@
                                == ts[j].contributions@[kk].date@,
                        Error::Overflow => !(replay_all_ok(ts, n) && replay_all_fits(
                            bym,
                            bdm,
                            ts,
                            n,
                        )),
                        _ => false,
                    },
                }
            }),
    {
        let ghost ts = timelines@;
        let ghost bym = old(self).years_model();
        let ghost bdm = old(self).days_model();
        let mut j: usize = 0;
        while j < timelines.len()
            invariant
                0 <= j <= ts.len(),
                ts == timelines@,
                bym == old(self).years_model(),
                bdm == old(self).days_model(),
                self.wf(),
                self.years_model() == replay_all_years(bym, ts, j as int),
                self.days_model() == replay_all_days(bdm, ts, j as int),
                replay_all_ok(ts, j as int),
                replay_all_fits(bym, bdm, ts, j as int),
            decreases ts.len() - j,
        {
            let ghost csj = ts[j as int].contributions@;
            let ghost nj = csj.len() as int;
            match self.merge_timeline(&timelines[j]) {
                Ok(()) => {
                    proof {
                        assert forall|p: int| 0 <= p < j + 1 implies replay_prefix_ok(
                            (#[trigger] ts[p]).contributions@,
                            ts[p].contributions@.len() as int,
                        ) by {
                            if p == j as int {
                                assert(replay_prefix_ok(csj, nj));
                            }
                        }
                        assert forall|p: int| 0 <= p < j + 1 implies replay_prefix_fits(
                            replay_all_years(bym, ts, p),
                            replay_all_days(bdm, ts, p),
                            (#[trigger] ts[p]).contributions@,
                            ts[p].contributions@.len() as int,
                        ) by {
                            if p == j as int {
                                assert(replay_prefix_fits(
                                    replay_all_years(bym, ts, j as int),
                                    replay_all_days(bdm, ts, j as int),
                                    csj,
                                    nj,
                                ));
                            }
                        }
                    }
                },
                Err(e) => {
                    proof {
                        match &e {
                            Error::InvalidDate(s) => {
                                assert(!replay_prefix_ok(csj, nj));
                                assert(!replay_all_ok(ts, ts.len() as int));
                                let kk = choose|kk: int|
                                    0 <= kk < nj && replay_prefix_ok(csj, kk)
                                        && replay_prefix_fits(
                                        replay_all_years(bym, ts, j as int),
                                        replay_all_days(bdm, ts, j as int),
                                        csj,
                                        kk,
                                    ) && !contrib_rec_ok(#[trigger] csj[kk]) && s@
                                        == csj[kk].date@;
                                assert((j as int) < ts.len() && 0 <= kk
                                    < (ts[j as int]).contributions@.len() && !contrib_rec_ok(
                                    ts[j as int].contributions@[kk],
                                ) && s@ == ts[j as int].contributions@[kk].date@);
                            },
                            Error::Overflow => {
                                assert(!(replay_prefix_ok(csj, nj) && replay_prefix_fits(
                                    replay_all_years(bym, ts, j as int),
                                    replay_all_days(bdm, ts, j as int),
                                    csj,
                                    nj,
                                )));
                                assert(!(replay_all_ok(ts, ts.len() as int) && replay_all_fits(
                                    bym,
                                    bdm,
                                    ts,
                                    ts.len() as int,
                                )));
                            },
                            _ => {
                                assert(false);
                            },
                        }
                    }
                    return Err(e);
                },
            }
            j = j + 1;
        }
        let result = Timeline::try_from(&self.state);
        match result {
            Ok(t) => {
                proof {
                    if ts.len() == 0 && bym == Map::<int, YearInfo>::empty() && bdm == Map::<
                        Date,
                        int,
                    >::empty() {
                        lemma_matches_empty(t);
                    }
                }
                Ok(t)
            },
            Err(e) => Err(e),
        }
    }

    /// Return the merged timeline of all inputs.
    pub fn timeline(&self) -> (r: Result<Timeline, Error>)
        requires
            self.wf(),
        ensures
            match r {
                Ok(t) => timeline_matches(t, self.years_model(), self.days_model())
                    && all_years_positive(self.years_model(), self.days_model())
                    && timeline_consistent(t),
                Err(e) => e == Error::EmptyYear && !all_years_positive(
                    self.years_model(),
                    self.days_model(),
                ),
            },
    {
        Timeline::try_from(&self.state)
    }
}

// ---------------------------------------------------------------------------
// Replaying one timeline reproduces its own totals
// ---------------------------------------------------------------------------
proof fn lemma_replay_totals(base: Map<int, YearInfo>, cs: Seq<Contribution>, k: int, y: int)
    requires
        0 <= k <= cs.len(),
    ensures
        base.dom().contains(y) ==> replay_years(base, cs, k).dom().contains(y) && replay_years(
            base,
            cs,
            k,
        )[y].total == base[y].total + year_total_in(cs, k, y),
        !base.dom().contains(y) ==> (replay_years(base, cs, k).dom().contains(y) <==> year_has_rec(
            cs,
            k,
            y,
        )),
        !base.dom().contains(y) && replay_years(base, cs, k).dom().contains(y) ==> replay_years(
            base,
            cs,
            k,
        )[y].total == year_total_in(cs, k, y),
        !year_has_rec(cs, k, y) ==> year_total_in(cs, k, y) == 0,
    decreases k,
{
    if k > 0 {
        lemma_replay_totals(base, cs, k - 1, y);
        let c = cs[k - 1];
        if contrib_is_rec(c) && contrib_rec_date(c).year as int == y {
            assert(year_has_rec(cs, k, y)) by {
                assert(contrib_is_rec(cs[k - 1]));
            }
        } else {
            assert forall|i: int|
                0 <= i < k && contrib_is_rec(#[trigger] cs[i]) && contrib_rec_date(
                    cs[i],
                ).year as int == y implies i < k - 1 by {}
            assert(year_has_rec(cs, k, y) == year_has_rec(cs, k - 1, y)) by {
                if year_has_rec(cs, k, y) {
                    let i = choose|i: int|
                        0 <= i < k && contrib_is_rec(#[trigger] cs[i]) && contrib_rec_date(
                            cs[i],
                        ).year as int == y;
                    assert(0 <= i < k - 1 && contrib_is_rec(cs[i]) && contrib_rec_date(
                        cs[i],
                    ).year as int == y);
                }
                if year_has_rec(cs, k - 1, y) {
                    let i = choose|i: int|
                        0 <= i < k - 1 && contrib_is_rec(#[trigger] cs[i]) && contrib_rec_date(
                            cs[i],
                        ).year as int == y;
                    assert(0 <= i < k && contrib_is_rec(cs[i]) && contrib_rec_date(
                        cs[i],
                    ).year as int == y);
                }
            }
        }
    }
}

/// Replaying a single consistent timeline through the accumulation
/// pipeline reproduces each of its listed year totals: the replayed
/// per-year map holds every listed year with exactly the listed total.
pub proof fn lemma_single_merge_totals(t: Timeline)
    requires
        timeline_consistent(t),
    ensures
        forall|i: int|
            0 <= i < t.years@.len() ==> {
                let e = #[trigger] t.years@[i];
                let ym = replay_years(
                    Map::<int, YearInfo>::empty(),
                    t.contributions@,
                    t.contributions@.len() as int,
                );
                ym.dom().contains(year_num(e)) && ym[year_num(e)].total == e.total as int
            },
{
    assert forall|i: int| 0 <= i < t.years@.len() implies {
        let e = #[trigger] t.years@[i];
        let ym = replay_years(
            Map::<int, YearInfo>::empty(),
            t.contributions@,
            t.contributions@.len() as int,
        );
        ym.dom().contains(year_num(e)) && ym[year_num(e)].total == e.total as int
    } by {
        let e = t.years@[i];
        lemma_replay_totals(
            Map::<int, YearInfo>::empty(),
            t.contributions@,
            t.contributions@.len() as int,
            year_num(e),
        );
    }
}

} // verus!
