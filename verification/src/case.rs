//! One monitored simulation case.
//!
//! A case keeps the last observation read from its log (step counter and
//! simulated time), a running average of wall-clock seconds per step, and
//! its target duration, from which it derives an estimated time of
//! completion.

use vstd::prelude::*;

use crate::average::ElapsedPerStep;
use crate::observation;
use crate::render;
use crate::CaseError;
use crate::RATE;
use crate::UPDATE_TIME;

verus! {

/// One monitored simulation case.
#[derive(Debug, Clone)]
pub struct Case {
    /// Case identifier; also the subdirectory that holds the log.
    pub name: String,
    /// Target duration in domain units; the simulation is done at step
    /// `duration * RATE`.
    pub duration: usize,
    /// File name of the log within the case's subdirectory.
    pub log: String,
    /// Step counter of the last observation; `None` until the first one.
    pub step: Option<usize>,
    /// Simulated time of the last observation, in hundredths of a unit.
    pub time_centi: u64,
    /// Running average of wall-clock milliseconds per simulation step.
    pub elapsed_per_step: ElapsedPerStep,
}

impl Case {
    /// Every sample ever folded into the average is one poll interval
    /// divided by a positive step delta, so the average's total stays
    /// below `count` poll intervals.
    pub open spec fn wf(&self) -> bool {
        &&& self.elapsed_per_step.inv()
        &&& self.elapsed_per_step.total() <= self.elapsed_per_step.count() * (1000 * UPDATE_TIME)
    }

    /// Creates a new case with no observation yet.
    pub fn new(name: String, duration: usize, log: String) -> (r: Self)
        ensures
            r.name@ == name@,
            r.duration == duration,
            r.log@ == log@,
            r.step is None,
            r.time_centi == 0,
            r.elapsed_per_step.total() == 0,
            r.elapsed_per_step.count() == 0,
            r.wf(),
    {
        Case {
            name,
            duration,
            log,
            step: None,
            time_centi: 0,
            elapsed_per_step: ElapsedPerStep::new(),
        }
    }

    /// The path of the case's log file: the shared root directory, the
    /// case name and the log file name, joined with `/`.
    pub fn log_file(&self) -> (r: String)
        ensures
            r@ == "/shared/"@ + self.name@ + "/"@ + self.log@,
    {
        let mut s = String::from_str("/shared/");
        s.append(self.name.as_str());
        s.append("/");
        s.append(self.log.as_str());
        proof {
            assert(s@ =~= "/shared/"@ + self.name@ + "/"@ + self.log@);
        }
        s
    }

    /// Performs one progress update from the case's log bytes.
    ///
    /// Parses the most recent observation (see
    /// [`observation::extract_last_observation`]); on success stores its
    /// step and simulated time, and when the step advanced, folds one
    /// sample — the poll interval divided by the step delta — into the
    /// running average. The first observation and an unchanged step leave
    /// the average untouched. A step that went backwards is reported as
    /// `ParseInt` (the step delta fails integer subtraction) and leaves
    /// the case unchanged, as does every other error.
    pub fn update(&mut self, log: &[u8]) -> (r: crate::Result<()>)
        requires
            old(self).wf(),
            old(self).elapsed_per_step.count() < 100_000_000_000,
            old(self).elapsed_per_step.count() < usize::MAX,
        ensures
            final(self).wf(),
            final(self).name@ == old(self).name@,
            final(self).duration == old(self).duration,
            final(self).log@ == old(self).log@,
            ({
                let obs = observation::observe(log@);
                match obs {
                    Err(e) => r is Err && r->Err_0 == e && *final(self) == *old(self),
                    Ok(v) => if old(self).step is Some && v.0 < old(self).step->Some_0 {
                        r is Err && r->Err_0 == CaseError::ParseInt && *final(self) == *old(self)
                    } else {
                        let prev = if old(self).step is Some {
                            old(self).step->Some_0 as int
                        } else {
                            v.0
                        };
                        let delta = v.0 - prev;
                        &&& r is Ok
                        &&& final(self).step == Some(v.0 as usize)
                        &&& final(self).time_centi == v.1
                        &&& (delta == 0 ==> final(self).elapsed_per_step == old(
                            self,
                        ).elapsed_per_step)
                        &&& (delta > 0 ==> final(self).elapsed_per_step.count() == old(
                            self,
                        ).elapsed_per_step.count() + 1 && final(self).elapsed_per_step.total()
                            == old(self).elapsed_per_step.total() + (1000 * UPDATE_TIME) as int
                            / delta)
                    },
                }
            }),
    {
        let obs = match observation::extract_last_observation(log) {
            Err(e) => {
                return Err(e);
            },
            Ok(o) => o,
        };
        let prev: usize = match self.step {
            Some(p) => {
                if obs.step < p {
                    return Err(CaseError::ParseInt);
                }
                p
            },
            None => obs.step,
        };
        let delta: usize = obs.step - prev;
        self.step = Some(obs.step);
        self.time_centi = obs.time_centi;
        if delta > 0 {
            let ghost t0 = self.elapsed_per_step.total();
            let ghost c0 = self.elapsed_per_step.count();
            let sample: u64 = (1000 * UPDATE_TIME as u64) / (delta as u64);
            proof {
                assert(sample <= 180000) by (nonlinear_arith)
                    requires
                        sample == 180000int / (delta as int),
                        delta >= 1,
                ;
                assert(t0 + sample <= u64::MAX) by (nonlinear_arith)
                    requires
                        t0 <= c0 * 180000,
                        0 <= c0 < 100_000_000_000,
                        0 <= sample <= 180000,
                ;
            }
            self.elapsed_per_step.update(sample);
            proof {
                let t1 = self.elapsed_per_step.total();
                let c1 = self.elapsed_per_step.count();
                assert(t1 <= c1 * 180000) by (nonlinear_arith)
                    requires
                        t1 == t0 + sample,
                        c1 == c0 + 1,
                        t0 <= c0 * 180000,
                        0 <= sample <= 180000,
                ;
            }
        }
        Ok(())
    }

    /// Steps still to run: the target step count minus the current step.
    pub open spec fn remaining_steps(&self) -> int {
        self.duration * RATE - self.step->Some_0
    }

    /// The estimated seconds remaining: the mean wall-clock time per step
    /// times the remaining steps, rounded to the nearest second (half up),
    /// saturated at `i64::MAX`; zero while the average is empty.
    pub open spec fn eta_spec(&self) -> int {
        let e = self.elapsed_per_step;
        if e.count() == 0 {
            0
        } else {
            let q = (2 * e.total() * self.remaining_steps() + 1000 * e.count()) / (2000
                * e.count());
            if q > i64::MAX {
                i64::MAX as int
            } else {
                q
            }
        }
    }

    /// Returns the expected remaining duration of the simulation in
    /// seconds, rounded to the nearest second (half up). Call only after
    /// the first successful `update`.
    pub fn eta_secs(&self) -> (r: i64)
        requires
            self.step is Some,
            self.duration * RATE <= usize::MAX,
            self.step->Some_0 <= self.duration * RATE,
        ensures
            r == self.eta_spec(),
            r >= 0,
    {
        let step = match self.step {
            Some(s) => s,
            None => 0,
        };
        let n_step: usize = self.duration * RATE - step;
        let count = self.elapsed_per_step.sample_count();
        if count == 0 {
            return 0;
        }
        let total = self.elapsed_per_step.total_millis();
        proof {
            assert((total as u128) * (n_step as u128) <= (u64::MAX as u128) * (u64::MAX as u128))
                by (nonlinear_arith)
                requires
                    total <= u64::MAX,
                    n_step <= u64::MAX,
            ;
        }
        let num: u128 = (total as u128) * (n_step as u128);
        let den: u128 = 1000 * (count as u128);
        // Divide and round half up: the remainder decides, so the doubled
        // numerator of the spec never has to be formed.
        let q0: u128 = num / den;
        let rem: u128 = num % den;
        proof {
            vstd::arithmetic::div_mod::lemma_fundamental_div_mod(num as int, den as int);
            assert(q0 <= num) by (nonlinear_arith)
                requires
                    q0 == num as int / den as int,
                    num >= 0,
                    den >= 1000,
            ;
            if 2 * (rem as int) >= den {
                assert(2 * num + den == (q0 + 1) * (2 * den) + (2 * rem - den))
                    by (nonlinear_arith)
                    requires
                        num == den * q0 + rem,
                ;
                vstd::arithmetic::div_mod::lemma_fundamental_div_mod_converse(
                    2 * num + den,
                    2 * den,
                    q0 as int + 1,
                    2 * rem - den,
                );
            } else {
                assert(2 * num + den == q0 * (2 * den) + (2 * rem + den)) by (nonlinear_arith)
                    requires
                        num == den * q0 + rem,
                ;
                vstd::arithmetic::div_mod::lemma_fundamental_div_mod_converse(
                    2 * num + den,
                    2 * den,
                    q0 as int,
                    2 * rem + den,
                );
            }
            assert(2 * (num as int) == 2 * (total as int) * (n_step as int)) by (nonlinear_arith)
                requires
                    num == (total as int) * (n_step as int),
            ;
        }
        let q: u128 = if 2 * rem >= den {
            q0 + 1
        } else {
            q0
        };
        if q > i64::MAX as u128 {
            i64::MAX
        } else {
            q as i64
        }
    }

    /// One status row: name (20, left), step (8, right), simulated time
    /// (10, right, two decimals), mean seconds per step (8, right, two
    /// decimals), and the given completion-time text (20, right).
    pub open spec fn row_chars(
        name: Seq<char>,
        step: int,
        time_centi: int,
        avg_centi: int,
        ts: Seq<char>,
    ) -> Seq<char> {
        render::pad_right(name, 20) + render::pad_left(render::dec_chars(step), 8)
            + render::pad_left(render::dec2_chars(time_centi), 10) + render::pad_left(
            render::dec2_chars(avg_centi),
            8,
        ) + render::pad_left(ts, 20)
    }

    /// Renders the case's status row around the given completion-time text.
    pub fn status_line_with(&self, eta_text: &str) -> (r: String)
        requires
            self.step is Some,
        ensures
            r@ == Case::row_chars(
                self.name@,
                self.step->Some_0 as int,
                self.time_centi as int,
                self.elapsed_per_step.mean_centi(),
                eta_text@,
            ),
    {
        let step = match self.step {
            Some(s) => s,
            None => 0,
        };
        let mut s = render::pad_right_string(self.name.as_str(), 20);
        let step_text = render::u64_to_string(step as u64);
        s.append(render::pad_left_string(step_text.as_str(), 8).as_str());
        let time_text = render::centi_to_string(self.time_centi);
        s.append(render::pad_left_string(time_text.as_str(), 10).as_str());
        let avg_text = render::centi_to_string(self.elapsed_per_step.value_centi());
        s.append(render::pad_left_string(avg_text.as_str(), 8).as_str());
        s.append(render::pad_left_string(eta_text, 20).as_str());
        proof {
            assert(s@ =~= Case::row_chars(
                self.name@,
                self.step->Some_0 as int,
                self.time_centi as int,
                self.elapsed_per_step.mean_centi(),
                eta_text@,
            ));
        }
        s
    }

    /// Renders the case's status row, with the estimated completion time
    /// as a local wall-clock timestamp (`now` plus `eta_secs`, capped at a
    /// distant horizon so the date stays in range).
    pub fn status_line(&self) -> (r: String)
        requires
            self.wf(),
            self.step is Some,
            self.duration * RATE <= usize::MAX,
            self.step->Some_0 <= self.duration * RATE,
        ensures
            exists|ts: Seq<char>|
                ts.len() >= 16 && r@ == Case::row_chars(
                    self.name@,
                    self.step->Some_0 as int,
                    self.time_centi as int,
                    self.elapsed_per_step.mean_centi(),
                    ts,
                ),
    {
        let eta = self.eta_secs();
        let secs: i64 = if eta > 100_000_000_000 {
            100_000_000_000
        } else {
            eta
        };
        let ts = local_timestamp_after(secs);
        let r = self.status_line_with(ts.as_str());
        proof {
            assert(ts@.len() >= 16 && r@ == Case::row_chars(
                self.name@,
                self.step->Some_0 as int,
                self.time_centi as int,
                self.elapsed_per_step.mean_centi(),
                ts@,
            ));
        }
        r
    }
}

/// Relies on chrono's `Local::now`, `TimeDelta::seconds`,
/// `DateTime::checked_add_signed` and `DateTime::format`: the local
/// wall-clock timestamp `secs` seconds from now, rendered as
/// `%Y-%m-%d %H:%M`. The year prints with at least four digits, so the
/// text has at least 16 characters. `Local::now` itself assumes a system
/// clock at or after the Unix epoch.
#[verifier::external_body]
fn local_timestamp_after(secs: i64) -> (r: String)
    requires
        0 <= secs <= 100_000_000_000,
    ensures
        r@.len() >= 16,
{
    let now = chrono::Local::now();
    let eta = now.checked_add_signed(chrono::Duration::seconds(secs)).unwrap_or(now);
    eta.format("%Y-%m-%d %H:%M").to_string()
}

} // verus!
