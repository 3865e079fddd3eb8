//! Optimization levels and the pass pipeline that runs the passes of a
//! level to a fixed point.
use vstd::prelude::*;

use crate::opt::const_fold::{add_folded, fold_count, fold_function, fold_ok, ConstantFolder};
use crate::opt::cse::{add_hits, cse_function, cse_total_hits, CommonSubexprElim};
use crate::opt::dce::{add_removed, dce_function, total_blocks_removed, total_insts_removed, DeadCodeEliminator};
use crate::opt::inline::{add_inlined, call_count, inline_module, inline_module_ok, FunctionInliner, InlineConfig};
use crate::opt::loop_opt::{
    add_counted, add_moved, analyses_ok, licm_total, unroll_total, LoopOptimizer,
};
use crate::opt::stats::{zero_stats, OptStats};
use crate::program::{functions_view, FunctionView, Module};
use crate::text::push_str;

verus! {

/// How hard the optimizer works.
#[derive(Debug, Clone, Copy, PartialEq, Eq, PartialOrd, Ord, Hash, Structural)]
pub enum OptLevel {
    O0,
    O1,
    O2,
    O3,
}

/// The rank of a level: 0 for `O0` up to 3 for `O3`.
pub open spec fn rank(l: OptLevel) -> nat {
    match l {
        OptLevel::O0 => 0,
        OptLevel::O1 => 1,
        OptLevel::O2 => 2,
        OptLevel::O3 => 3,
    }
}

/// The level that a digit names.
pub open spec fn level_digit(c: char) -> Option<OptLevel> {
    if c == '0' {
        Some(OptLevel::O0)
    } else if c == '1' {
        Some(OptLevel::O1)
    } else if c == '2' {
        Some(OptLevel::O2)
    } else if c == '3' {
        Some(OptLevel::O3)
    } else {
        None
    }
}

/// The level that a text names: `N`, `ON` or `-ON` for a digit `N` from 0
/// to 3.
pub open spec fn parse_spec(s: Seq<char>) -> Option<OptLevel> {
    if s.len() == 1 {
        level_digit(s[0])
    } else if s.len() == 2 && s[0] == 'O' {
        level_digit(s[1])
    } else if s.len() == 3 && s[0] == '-' && s[1] == 'O' {
        level_digit(s[2])
    } else {
        None
    }
}

/// The flag of a level: `-O0` to `-O3`.
pub open spec fn level_text(l: OptLevel) -> Seq<char> {
    match l {
        OptLevel::O0 => seq!['-', 'O', '0'],
        OptLevel::O1 => seq!['-', 'O', '1'],
        OptLevel::O2 => seq!['-', 'O', '2'],
        OptLevel::O3 => seq!['-', 'O', '3'],
    }
}

impl OptLevel {
    /// The level named by `s`, or the message that it names none.
    pub fn parse(s: &str) -> (r: Result<OptLevel, String>)
        ensures
            match r {
                Ok(l) => parse_spec(s@) == Some(l),
                Err(e) => parse_spec(s@) is None && e@ == "Unknown optimization level: "@ + s@,
            },
    {
        let n = s.unicode_len();
        let found = if n == 1 {
            Self::from_digit(s.get_char(0))
        } else if n == 2 && s.get_char(0) == 'O' {
            Self::from_digit(s.get_char(1))
        } else if n == 3 && s.get_char(0) == '-' && s.get_char(1) == 'O' {
            Self::from_digit(s.get_char(2))
        } else {
            None
        };
        match found {
            Some(l) => Ok(l),
            None => {
                let mut e = "Unknown optimization level: ".to_owned();
                push_str(&mut e, s);
                Err(e)
            },
        }
    }

    /// The level that a digit names.
    fn from_digit(c: char) -> (r: Option<OptLevel>)
        ensures
            r == level_digit(c),
    {
        if c == '0' {
            Some(OptLevel::O0)
        } else if c == '1' {
            Some(OptLevel::O1)
        } else if c == '2' {
            Some(OptLevel::O2)
        } else if c == '3' {
            Some(OptLevel::O3)
        } else {
            None
        }
    }

    /// The flag of the level: `-O0` to `-O3`.
    pub fn to_string(&self) -> (r: String)
        ensures
            r@ == level_text(*self),
    {
        match self {
            OptLevel::O0 => {
                proof {
                    reveal_strlit("-O0");
                }
                "-O0".to_owned()
            },
            OptLevel::O1 => {
                proof {
                    reveal_strlit("-O1");
                }
                "-O1".to_owned()
            },
            OptLevel::O2 => {
                proof {
                    reveal_strlit("-O2");
                }
                "-O2".to_owned()
            },
            OptLevel::O3 => {
                proof {
                    reveal_strlit("-O3");
                }
                "-O3".to_owned()
            },
        }
    }

    /// The rank of the level, 0 to 3.
    fn rank(&self) -> (r: u8)
        ensures
            r == rank(*self),
    {
        match self {
            OptLevel::O0 => 0,
            OptLevel::O1 => 1,
            OptLevel::O2 => 2,
            OptLevel::O3 => 3,
        }
    }
}

impl Default for OptLevel {
    fn default() -> (r: Self)
        ensures
            r == OptLevel::O0,
    {
        OptLevel::O0
    }
}

impl std::str::FromStr for OptLevel {
    type Err = String;

    fn from_str(s: &str) -> (r: Result<Self, String>)
        ensures
            match r {
                Ok(l) => parse_spec(s@) == Some(l),
                Err(e) => parse_spec(s@) is None && e@ == "Unknown optimization level: "@ + s@,
            },
    {
        OptLevel::parse(s)
    }
}

/// Whether every function is called at no more than `usize::MAX` places.
pub open spec fn call_counts_fit(fs: Seq<FunctionView>) -> bool {
    forall|k: Seq<char>| #[trigger] call_count(fs, k) <= usize::MAX
}

/// The inliner's default settings.
pub open spec fn default_inline_config() -> InlineConfig {
    InlineConfig { max_instructions: 50, max_blocks: 5, max_call_sites: 10, always_inline_threshold: 10 }
}

/// The functions after a fresh loop optimizer has run.
pub open spec fn loop_functions(fs: Seq<FunctionView>) -> Seq<FunctionView> {
    LoopOptimizer::run_functions(fs)
}

/// The statistics of a fresh loop optimizer after it has run on `fs`, with
/// the unrolling scan where `unroll` holds.
pub open spec fn loop_stats(fs: Seq<FunctionView>, unroll: bool) -> OptStats {
    let fs1 = loop_functions(fs);
    let s1 = zero_stats().sum(&add_moved(zero_stats(), licm_total(fs)));
    let s2 = s1.sum(&zero_stats());
    if unroll {
        s2.sum(&add_counted(zero_stats(), unroll_total(fs1, 50, true)))
    } else {
        s2
    }
}

/// Whether a fresh loop optimizer's run on `fs` stays within its counters.
pub open spec fn loop_run_ok(fs: Seq<FunctionView>, unroll: bool) -> bool {
    let fs1 = loop_functions(fs);
    &&& analyses_ok(fs)
    &&& analyses_ok(fs1)
    &&& licm_total(fs) <= usize::MAX
    &&& unroll ==> unroll_total(fs1, 50, true) <= usize::MAX
}

/// One round of the passes of level `l` on the functions `fs`, the
/// optimizer's statistics being `st`: the functions after it, the
/// statistics after it (each pass that changed something adds its own),
/// and whether some pass changed something.
pub open spec fn opt_round(l: OptLevel, fs: Seq<FunctionView>, st: OptStats) -> (Seq<FunctionView>, OptStats, bool) {
    let r1 = if rank(l) >= 1 {
        let n = fold_count(fs);
        (
            fs.map_values(|f: FunctionView| fold_function(f)),
            if n > 0 {
                st.sum(&add_folded(zero_stats(), n))
            } else {
                st
            },
            n > 0,
        )
    } else {
        (fs, st, false)
    };
    let r2 = if rank(l) >= 1 {
        let nb = total_blocks_removed(r1.0);
        let ni = total_insts_removed(r1.0);
        (
            r1.0.map_values(|f: FunctionView| dce_function(f)),
            if ni > 0 || nb > 0 {
                r1.1.sum(&add_removed(zero_stats(), nb, ni))
            } else {
                r1.1
            },
            r1.2 || ni > 0 || nb > 0,
        )
    } else {
        r1
    };
    let r3 = if rank(l) >= 2 {
        let h = cse_total_hits(r2.0);
        (
            r2.0.map_values(|f: FunctionView| cse_function(f)),
            if h > 0 {
                r2.1.sum(&add_hits(zero_stats(), h))
            } else {
                r2.1
            },
            r2.2 || h > 0,
        )
    } else {
        r2
    };
    let r4 = if rank(l) >= 2 {
        let lo = loop_stats(r3.0, false);
        (
            loop_functions(r3.0),
            if lo.spec_any_changes() {
                r3.1.sum(&lo)
            } else {
                r3.1
            },
            r3.2 || lo.spec_any_changes(),
        )
    } else {
        r3
    };
    let r5 = if rank(l) >= 3 {
        let inl = inline_module(default_inline_config(), r4.0, r4.0.len());
        (
            inl.0,
            if inl.1 > 0 {
                r4.1.sum(&add_inlined(zero_stats(), inl.1))
            } else {
                r4.1
            },
            r4.2 || inl.1 > 0,
        )
    } else {
        r4
    };
    let r6 = if rank(l) >= 3 {
        let lo = loop_stats(r5.0, true);
        (
            loop_functions(r5.0),
            if lo.spec_any_changes() {
                r5.1.sum(&lo)
            } else {
                r5.1
            },
            r5.2 || lo.spec_any_changes(),
        )
    } else {
        r5
    };
    r6
}

/// Whether a round stays within the counters and the passes' limits.
pub open spec fn opt_round_ok(l: OptLevel, fs: Seq<FunctionView>, st: OptStats) -> bool {
    let r1 = if rank(l) >= 1 {
        let n = fold_count(fs);
        (
            fs.map_values(|f: FunctionView| fold_function(f)),
            if n > 0 {
                st.sum(&add_folded(zero_stats(), n))
            } else {
                st
            },
        )
    } else {
        (fs, st)
    };
    let nb = total_blocks_removed(r1.0);
    let ni = total_insts_removed(r1.0);
    let r2 = if rank(l) >= 1 {
        (
            r1.0.map_values(|f: FunctionView| dce_function(f)),
            if ni > 0 || nb > 0 {
                r1.1.sum(&add_removed(zero_stats(), nb, ni))
            } else {
                r1.1
            },
        )
    } else {
        r1
    };
    let h = cse_total_hits(r2.0);
    let r3 = if rank(l) >= 2 {
        (
            r2.0.map_values(|f: FunctionView| cse_function(f)),
            if h > 0 {
                r2.1.sum(&add_hits(zero_stats(), h))
            } else {
                r2.1
            },
        )
    } else {
        r2
    };
    let lo4 = loop_stats(r3.0, false);
    let r4 = if rank(l) >= 2 {
        (
            loop_functions(r3.0),
            if lo4.spec_any_changes() {
                r3.1.sum(&lo4)
            } else {
                r3.1
            },
        )
    } else {
        r3
    };
    let inl = inline_module(default_inline_config(), r4.0, r4.0.len());
    let r5 = if rank(l) >= 3 {
        (
            inl.0,
            if inl.1 > 0 {
                r4.1.sum(&add_inlined(zero_stats(), inl.1))
            } else {
                r4.1
            },
        )
    } else {
        r4
    };
    let lo6 = loop_stats(r5.0, true);
    &&& rank(l) >= 1 ==> {
        &&& fold_ok(fs)
        &&& fold_count(fs) <= usize::MAX
        &&& fold_count(fs) > 0 ==> st.can_merge(&add_folded(zero_stats(), fold_count(fs)))
        &&& nb <= usize::MAX
        &&& ni <= usize::MAX
        &&& (ni > 0 || nb > 0) ==> r1.1.can_merge(&add_removed(zero_stats(), nb, ni))
    }
    &&& rank(l) >= 2 ==> {
        &&& h <= usize::MAX
        &&& h > 0 ==> r2.1.can_merge(&add_hits(zero_stats(), h))
        &&& loop_run_ok(r3.0, false)
        &&& lo4.spec_any_changes() ==> r3.1.can_merge(&lo4)
    }
    &&& rank(l) >= 3 ==> {
        &&& inline_module_ok(default_inline_config(), r4.0, r4.0.len())
        &&& call_counts_fit(r4.0)
        &&& inl.1 <= usize::MAX
        &&& inl.1 > 0 ==> r4.1.can_merge(&add_inlined(zero_stats(), inl.1))
        &&& loop_run_ok(r5.0, true)
        &&& lo6.spec_any_changes() ==> r5.1.can_merge(&lo6)
    }
}

/// The optimizer's work: up to `iters` rounds, stopping after a round that
/// changed nothing; nothing at all at `O0`.
pub open spec fn optimize_spec(l: OptLevel, iters: nat, fs: Seq<FunctionView>, st: OptStats) -> (Seq<FunctionView>, OptStats)
    decreases iters,
{
    if rank(l) == 0 || iters == 0 {
        (fs, st)
    } else {
        let r = opt_round(l, fs, st);
        if !r.2 {
            (r.0, r.1)
        } else {
            optimize_spec(l, (iters - 1) as nat, r.0, r.1)
        }
    }
}

/// Whether every round that the optimizer runs stays within the counters
/// and the passes' limits.
pub open spec fn optimize_ok(l: OptLevel, iters: nat, fs: Seq<FunctionView>, st: OptStats) -> bool
    decreases iters,
{
    rank(l) == 0 || iters == 0 || {
        let r = opt_round(l, fs, st);
        &&& opt_round_ok(l, fs, st)
        &&& r.2 ==> optimize_ok(l, (iters - 1) as nat, r.0, r.1)
    }
}

/// The optimizer: it runs the passes of its level in rounds until a round
/// changes nothing, for at most `max_iterations` rounds.
pub struct Optimizer {
    level: OptLevel,
    stats: OptStats,
    max_iterations: usize,
}

impl View for Optimizer {
    type V = OptStats;

    closed spec fn view(&self) -> OptStats {
        self.stats
    }
}

impl Optimizer {
    /// The level the optimizer runs at.
    pub closed spec fn opt_level(&self) -> OptLevel {
        self.level
    }

    /// The most rounds the optimizer runs.
    pub closed spec fn iterations(&self) -> usize {
        self.max_iterations
    }

    pub fn new(level: OptLevel) -> (r: Self)
        ensures
            r.opt_level() == level,
            r.iterations() == 10,
            r@.is_zero(),
    {
        Optimizer { level, stats: OptStats::new(), max_iterations: 10 }
    }

    pub fn level(&self) -> (r: OptLevel)
        ensures
            r == self.opt_level(),
    {
        self.level
    }

    pub fn stats(&self) -> (r: &OptStats)
        ensures
            *r == self@,
    {
        &self.stats
    }

    pub fn set_max_iterations(&mut self, max: usize)
        ensures
            final(self).iterations() == max,
            final(self).opt_level() == old(self).opt_level(),
            final(self)@ == old(self)@,
    {
        self.max_iterations = max;
    }

    /// Constant folding; its statistics are added where it folded
    /// something.
    fn fold_step(&mut self, module: &mut Module) -> (changed: bool)
        requires
            fold_ok(functions_view(old(module).functions@)),
            fold_count(functions_view(old(module).functions@)) <= usize::MAX,
            fold_count(functions_view(old(module).functions@)) > 0 ==> old(self)@.can_merge(
                &add_folded(zero_stats(), fold_count(functions_view(old(module).functions@))),
            ),
        ensures
            ({
                let fs = functions_view(old(module).functions@);
                let n = fold_count(fs);
                &&& functions_view(final(module).functions@) == fs.map_values(|f: FunctionView| fold_function(f))
                &&& final(self)@ == if n > 0 {
                    old(self)@.sum(&add_folded(zero_stats(), n))
                } else {
                    old(self)@
                }
                &&& changed == (n > 0)
            }),
            final(self).opt_level() == old(self).opt_level(),
            final(self).iterations() == old(self).iterations(),
            final(module).name == old(module).name,
            final(module).strings == old(module).strings,
            final(module).classes == old(module).classes,
            final(module).globals == old(module).globals,
    {
        let mut folder = ConstantFolder::new();
        proof {
            assert(folder@ == zero_stats());
        }
        folder.run(module);
        if folder.stats().constants_folded > 0 {
            self.stats.merge(folder.stats());
            true
        } else {
            false
        }
    }

    /// Dead code elimination; its statistics are added where it removed
    /// something.
    fn dce_step(&mut self, module: &mut Module) -> (changed: bool)
        requires
            total_blocks_removed(functions_view(old(module).functions@)) <= usize::MAX,
            total_insts_removed(functions_view(old(module).functions@)) <= usize::MAX,
            ({
                let fs = functions_view(old(module).functions@);
                let nb = total_blocks_removed(fs);
                let ni = total_insts_removed(fs);
                (ni > 0 || nb > 0) ==> old(self)@.can_merge(&add_removed(zero_stats(), nb, ni))
            }),
        ensures
            ({
                let fs = functions_view(old(module).functions@);
                let nb = total_blocks_removed(fs);
                let ni = total_insts_removed(fs);
                &&& functions_view(final(module).functions@) == fs.map_values(|f: FunctionView| dce_function(f))
                &&& final(self)@ == if ni > 0 || nb > 0 {
                    old(self)@.sum(&add_removed(zero_stats(), nb, ni))
                } else {
                    old(self)@
                }
                &&& changed == (ni > 0 || nb > 0)
            }),
            final(self).opt_level() == old(self).opt_level(),
            final(self).iterations() == old(self).iterations(),
            final(module).name == old(module).name,
            final(module).strings == old(module).strings,
            final(module).classes == old(module).classes,
            final(module).globals == old(module).globals,
    {
        let mut dce = DeadCodeEliminator::new();
        proof {
            assert(dce@ == zero_stats());
        }
        dce.run(module);
        if dce.stats().dead_instructions_removed > 0 || dce.stats().dead_blocks_removed > 0 {
            self.stats.merge(dce.stats());
            true
        } else {
            false
        }
    }

    /// Common subexpression elimination; its statistics are added where it
    /// found a repeated expression.
    fn cse_step(&mut self, module: &mut Module) -> (changed: bool)
        requires
            cse_total_hits(functions_view(old(module).functions@)) <= usize::MAX,
            cse_total_hits(functions_view(old(module).functions@)) > 0 ==> old(self)@.can_merge(
                &add_hits(zero_stats(), cse_total_hits(functions_view(old(module).functions@))),
            ),
        ensures
            ({
                let fs = functions_view(old(module).functions@);
                let h = cse_total_hits(fs);
                &&& functions_view(final(module).functions@) == fs.map_values(|f: FunctionView| cse_function(f))
                &&& final(self)@ == if h > 0 {
                    old(self)@.sum(&add_hits(zero_stats(), h))
                } else {
                    old(self)@
                }
                &&& changed == (h > 0)
            }),
            final(self).opt_level() == old(self).opt_level(),
            final(self).iterations() == old(self).iterations(),
            final(module).name == old(module).name,
            final(module).strings == old(module).strings,
            final(module).classes == old(module).classes,
            final(module).globals == old(module).globals,
    {
        let mut cse = CommonSubexprElim::new();
        proof {
            assert(cse@ == zero_stats());
        }
        cse.run(module);
        if cse.stats().cse_hits > 0 {
            self.stats.merge(cse.stats());
            true
        } else {
            false
        }
    }

    /// A fresh loop optimizer (with the unrolling scan where `unroll`
    /// holds); its statistics are added where they show a change.
    fn loop_step(&mut self, module: &mut Module, unroll: bool) -> (changed: bool)
        requires
            loop_run_ok(functions_view(old(module).functions@), unroll),
            loop_stats(functions_view(old(module).functions@), unroll).spec_any_changes() ==> old(self)@.can_merge(
                &loop_stats(functions_view(old(module).functions@), unroll),
            ),
        ensures
            ({
                let fs = functions_view(old(module).functions@);
                let lo = loop_stats(fs, unroll);
                &&& functions_view(final(module).functions@) == loop_functions(fs)
                &&& final(self)@ == if lo.spec_any_changes() {
                    old(self)@.sum(&lo)
                } else {
                    old(self)@
                }
                &&& changed == lo.spec_any_changes()
            }),
            final(self).opt_level() == old(self).opt_level(),
            final(self).iterations() == old(self).iterations(),
            final(module).name == old(module).name,
            final(module).strings == old(module).strings,
            final(module).classes == old(module).classes,
            final(module).globals == old(module).globals,
    {
        let ghost fs = functions_view(module.functions@);
        let mut loop_opt = LoopOptimizer::new();
        if unroll {
            loop_opt.enable_unrolling(true);
        }
        proof {
            assert(loop_opt@ == zero_stats());
            assert(loop_opt.licm_stats() == zero_stats());
            assert(loop_opt.sr_stats() == zero_stats());
            assert(loop_opt.unroll_stats() == zero_stats());
            assert(loop_opt.stats_after_run(fs) == loop_stats(fs, unroll));
        }
        loop_opt.run(module);
        if loop_opt.stats().any_changes() {
            self.stats.merge(loop_opt.stats());
            true
        } else {
            false
        }
    }

    /// A fresh inliner with the default settings; its statistics are added
    /// where it inlined a call.
    fn inline_step(&mut self, module: &mut Module) -> (changed: bool)
        requires
            ({
                let fs = functions_view(old(module).functions@);
                let inl = inline_module(default_inline_config(), fs, fs.len());
                &&& inline_module_ok(default_inline_config(), fs, fs.len())
                &&& call_counts_fit(fs)
                &&& inl.1 <= usize::MAX
                &&& inl.1 > 0 ==> old(self)@.can_merge(&add_inlined(zero_stats(), inl.1))
            }),
        ensures
            ({
                let fs = functions_view(old(module).functions@);
                let inl = inline_module(default_inline_config(), fs, fs.len());
                &&& functions_view(final(module).functions@) == inl.0
                &&& final(self)@ == if inl.1 > 0 {
                    old(self)@.sum(&add_inlined(zero_stats(), inl.1))
                } else {
                    old(self)@
                }
                &&& changed == (inl.1 > 0)
            }),
            final(self).opt_level() == old(self).opt_level(),
            final(self).iterations() == old(self).iterations(),
            final(module).name == old(module).name,
            final(module).strings == old(module).strings,
            final(module).classes == old(module).classes,
            final(module).globals == old(module).globals,
    {
        let mut inliner = FunctionInliner::new();
        proof {
            assert(inliner@ == zero_stats());
            assert(inliner.cfg() == default_inline_config());
        }
        inliner.run(module);
        if inliner.stats().functions_inlined > 0 {
            self.stats.merge(inliner.stats());
            true
        } else {
            false
        }
    }

    /// One round of the passes of the optimizer's level.
    fn run_round(&mut self, module: &mut Module) -> (changed: bool)
        requires
            opt_round_ok(old(self).opt_level(), functions_view(old(module).functions@), old(self)@),
        ensures
            ({
                let r = opt_round(old(self).opt_level(), functions_view(old(module).functions@), old(self)@);
                &&& functions_view(final(module).functions@) == r.0
                &&& final(self)@ == r.1
                &&& changed == r.2
            }),
            final(self).opt_level() == old(self).opt_level(),
            final(self).iterations() == old(self).iterations(),
            final(module).name == old(module).name,
            final(module).strings == old(module).strings,
            final(module).classes == old(module).classes,
            final(module).globals == old(module).globals,
    {
        let rank = self.level.rank();
        let mut changed = false;
        if rank >= 1 {
            if self.fold_step(module) {
                changed = true;
            }
        }
        if rank >= 1 {
            if self.dce_step(module) {
                changed = true;
            }
        }
        if rank >= 2 {
            if self.cse_step(module) {
                changed = true;
            }
        }
        if rank >= 2 {
            if self.loop_step(module, false) {
                changed = true;
            }
        }
        if rank >= 3 {
            if self.inline_step(module) {
                changed = true;
            }
        }
        if rank >= 3 {
            if self.loop_step(module, true) {
                changed = true;
            }
        }
        changed
    }

    /// Runs the passes of the optimizer's level on the module, in rounds,
    /// until a round changes nothing or `max_iterations` rounds have run;
    /// at `O0` it does nothing.
    pub fn optimize(&mut self, module: &mut Module)
        requires
            optimize_ok(
                old(self).opt_level(),
                old(self).iterations() as nat,
                functions_view(old(module).functions@),
                old(self)@,
            ),
        ensures
            ({
                let r = optimize_spec(
                    old(self).opt_level(),
                    old(self).iterations() as nat,
                    functions_view(old(module).functions@),
                    old(self)@,
                );
                &&& functions_view(final(module).functions@) == r.0
                &&& final(self)@ == r.1
            }),
            final(self).opt_level() == old(self).opt_level(),
            final(self).iterations() == old(self).iterations(),
            final(module).name == old(module).name,
            final(module).strings == old(module).strings,
            final(module).classes == old(module).classes,
            final(module).globals == old(module).globals,
    {
        if self.level == OptLevel::O0 {
            return;
        }
        let ghost target = optimize_spec(
            self.opt_level(),
            self.iterations() as nat,
            functions_view(module.functions@),
            self@,
        );
        let mut i: usize = 0;
        let mut go = true;
        while go && i < self.max_iterations
            invariant
                i <= self.iterations(),
                rank(self.opt_level()) > 0,
                self.opt_level() == old(self).opt_level(),
                self.iterations() == old(self).iterations(),
                go ==> optimize_spec(
                    self.opt_level(),
                    (self.iterations() - i) as nat,
                    functions_view(module.functions@),
                    self@,
                ) == target,
                go ==> optimize_ok(
                    self.opt_level(),
                    (self.iterations() - i) as nat,
                    functions_view(module.functions@),
                    self@,
                ),
                !go ==> (functions_view(module.functions@), self@) == target,
                module.name == old(module).name,
                module.strings == old(module).strings,
                module.classes == old(module).classes,
                module.globals == old(module).globals,
            decreases self.iterations() - i,
        {
            let changed = self.run_round(module);
            i = i + 1;
            if !changed {
                go = false;
            }
        }
    }
}

impl Default for Optimizer {
    fn default() -> (r: Self)
        ensures
            r.opt_level() == OptLevel::O0,
            r.iterations() == 10,
            r@.is_zero(),
    {
        Self::new(OptLevel::O0)
    }
}

/// The flag of every level reads back as that level.
pub proof fn law_level_text_parses(l: OptLevel)
    ensures
        parse_spec(level_text(l)) == Some(l),
{
}

/// At `O0` the optimizer changes neither the code nor its statistics.
pub proof fn law_o0_changes_nothing(iters: nat, fs: Seq<FunctionView>, st: OptStats)
    ensures
        optimize_spec(OptLevel::O0, iters, fs, st) == (fs, st),
{
}

/// The optimizer stops at a fixed point: after a round that changes
/// nothing, it runs no other round.
pub proof fn law_optimizer_stops_at_fixed_point(l: OptLevel, iters: nat, fs: Seq<FunctionView>, st: OptStats)
    requires
        rank(l) > 0,
        iters > 0,
        !opt_round(l, fs, st).2,
    ensures
        optimize_spec(l, iters, fs, st) == (opt_round(l, fs, st).0, opt_round(l, fs, st).1),
{
}

/// Counter by counter, `a` is no greater than `b`.
pub open spec fn stats_le(a: OptStats, b: OptStats) -> bool {
    &&& a.constants_folded <= b.constants_folded
    &&& a.dead_instructions_removed <= b.dead_instructions_removed
    &&& a.dead_blocks_removed <= b.dead_blocks_removed
    &&& a.cse_hits <= b.cse_hits
    &&& a.functions_inlined <= b.functions_inlined
    &&& a.loop_invariants_hoisted <= b.loop_invariants_hoisted
    &&& a.loops_detected <= b.loops_detected
}

/// One round leaves no counter smaller than before.
#[verifier::rlimit(40)]
proof fn lemma_round_grows(l: OptLevel, fs: Seq<FunctionView>, st: OptStats)
    requires
        opt_round_ok(l, fs, st),
    ensures
        stats_le(st, opt_round(l, fs, st).1),
{
}

/// The optimizer's statistics only grow: after its work no counter is
/// smaller than before, so statistics gathered over several calls never
/// decrease.
pub proof fn law_optimizer_stats_grow(l: OptLevel, iters: nat, fs: Seq<FunctionView>, st: OptStats)
    requires
        optimize_ok(l, iters, fs, st),
    ensures
        stats_le(st, optimize_spec(l, iters, fs, st).1),
    decreases iters,
{
    if rank(l) != 0 && iters != 0 {
        lemma_round_grows(l, fs, st);
        let r = opt_round(l, fs, st);
        if r.2 {
            law_optimizer_stats_grow(l, (iters - 1) as nat, r.0, r.1);
        }
    }
}

} // verus!
