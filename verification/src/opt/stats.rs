//! Counters reported by the optimization passes.
use vstd::prelude::*;

use crate::text::{decimal, push_decimal, push_str};

verus! {

#[derive(Debug, Clone)]
pub struct OptStats {
    pub constants_folded: usize,
    pub dead_instructions_removed: usize,
    pub dead_blocks_removed: usize,
    pub cse_hits: usize,
    pub functions_inlined: usize,
    pub loop_invariants_hoisted: usize,
    pub loops_detected: usize,
}

impl Default for OptStats {
    fn default() -> (s: Self)
        ensures
            s.is_zero(),
    {
        OptStats {
            constants_folded: 0,
            dead_instructions_removed: 0,
            dead_blocks_removed: 0,
            cse_hits: 0,
            functions_inlined: 0,
            loop_invariants_hoisted: 0,
            loops_detected: 0,
        }
    }
}

impl OptStats {
    /// Every counter is zero.
    pub open spec fn is_zero(&self) -> bool {
        &&& self.constants_folded == 0
        &&& self.dead_instructions_removed == 0
        &&& self.dead_blocks_removed == 0
        &&& self.cse_hits == 0
        &&& self.functions_inlined == 0
        &&& self.loop_invariants_hoisted == 0
        &&& self.loops_detected == 0
    }

    /// Adding `other` to `self` counter by counter stays within `usize`.
    pub open spec fn can_merge(&self, other: &OptStats) -> bool {
        &&& self.constants_folded + other.constants_folded <= usize::MAX
        &&& self.dead_instructions_removed + other.dead_instructions_removed <= usize::MAX
        &&& self.dead_blocks_removed + other.dead_blocks_removed <= usize::MAX
        &&& self.cse_hits + other.cse_hits <= usize::MAX
        &&& self.functions_inlined + other.functions_inlined <= usize::MAX
        &&& self.loop_invariants_hoisted + other.loop_invariants_hoisted <= usize::MAX
        &&& self.loops_detected + other.loops_detected <= usize::MAX
    }

    /// The counter-by-counter sum of two statistics.
    pub open spec fn sum(&self, other: &OptStats) -> OptStats {
        OptStats {
            constants_folded: (self.constants_folded + other.constants_folded) as usize,
            dead_instructions_removed: (self.dead_instructions_removed
                + other.dead_instructions_removed) as usize,
            dead_blocks_removed: (self.dead_blocks_removed + other.dead_blocks_removed) as usize,
            cse_hits: (self.cse_hits + other.cse_hits) as usize,
            functions_inlined: (self.functions_inlined + other.functions_inlined) as usize,
            loop_invariants_hoisted: (self.loop_invariants_hoisted
                + other.loop_invariants_hoisted) as usize,
            loops_detected: (self.loops_detected + other.loops_detected) as usize,
        }
    }

    /// Whether some pass changed the code (loop detection alone is no change).
    pub open spec fn spec_any_changes(&self) -> bool {
        ||| self.constants_folded > 0
        ||| self.dead_instructions_removed > 0
        ||| self.dead_blocks_removed > 0
        ||| self.cse_hits > 0
        ||| self.functions_inlined > 0
        ||| self.loop_invariants_hoisted > 0
    }

    pub fn new() -> (s: Self)
        ensures
            s.is_zero(),
    {
        Self::default()
    }

    /// Adds every counter of `other` to the counter of the same name.
    pub fn merge(&mut self, other: &OptStats)
        requires
            old(self).can_merge(other),
        ensures
            *final(self) == old(self).sum(other),
    {
        self.constants_folded = self.constants_folded + other.constants_folded;
        self.dead_instructions_removed = self.dead_instructions_removed
            + other.dead_instructions_removed;
        self.dead_blocks_removed = self.dead_blocks_removed + other.dead_blocks_removed;
        self.cse_hits = self.cse_hits + other.cse_hits;
        self.functions_inlined = self.functions_inlined + other.functions_inlined;
        self.loop_invariants_hoisted = self.loop_invariants_hoisted + other.loop_invariants_hoisted;
        self.loops_detected = self.loops_detected + other.loops_detected;
    }

    pub fn any_changes(&self) -> (r: bool)
        ensures
            r == self.spec_any_changes(),
    {
        self.constants_folded > 0 || self.dead_instructions_removed > 0
            || self.dead_blocks_removed > 0 || self.cse_hits > 0 || self.functions_inlined > 0
            || self.loop_invariants_hoisted > 0
    }
}

/// Statistics with every counter zero.
pub open spec fn zero_stats() -> OptStats {
    OptStats {
        constants_folded: 0,
        dead_instructions_removed: 0,
        dead_blocks_removed: 0,
        cse_hits: 0,
        functions_inlined: 0,
        loop_invariants_hoisted: 0,
        loops_detected: 0,
    }
}

/// Merging statistics that are all zero changes nothing.
pub proof fn law_merge_zero(s: OptStats)
    ensures
        s.can_merge(&zero_stats()),
        s.sum(&zero_stats()) == s,
{
}

/// Merging is the same in either order.
pub proof fn law_merge_commutes(a: OptStats, b: OptStats)
    ensures
        a.can_merge(&b) == b.can_merge(&a),
        a.sum(&b) == b.sum(&a),
{
}

/// Merged statistics show a change exactly where one of the two did.
pub proof fn law_merge_any_changes(a: OptStats, b: OptStats)
    requires
        a.can_merge(&b),
    ensures
        a.sum(&b).spec_any_changes() == (a.spec_any_changes() || b.spec_any_changes()),
{
}

/// The report of the statistics: one line per counter, with the loop
/// counters only where some loop was detected.
pub open spec fn stats_text(s: OptStats) -> Seq<char> {
    "Optimization Statistics:\n"@ + "  Constants folded: "@ + decimal(s.constants_folded as nat) + "\n"@
        + "  Dead instructions removed: "@ + decimal(s.dead_instructions_removed as nat) + "\n"@
        + "  Dead blocks removed: "@ + decimal(s.dead_blocks_removed as nat) + "\n"@ + "  CSE hits: "@
        + decimal(s.cse_hits as nat) + "\n"@ + "  Functions inlined: "@ + decimal(s.functions_inlined as nat)
        + "\n"@ + if s.loops_detected > 0 {
        "  Loops detected: "@ + decimal(s.loops_detected as nat) + "\n"@ + "  Loop invariants hoisted: "@
            + decimal(s.loop_invariants_hoisted as nat) + "\n"@
    } else {
        Seq::empty()
    }
}

impl OptStats {
    /// The report of the statistics.
    pub fn to_string(&self) -> (r: String)
        ensures
            r@ == stats_text(*self),
    {
        let mut s = String::new();
        push_str(&mut s, "Optimization Statistics:\n");
        push_str(&mut s, "  Constants folded: ");
        push_decimal(&mut s, self.constants_folded as u64);
        push_str(&mut s, "\n");
        push_str(&mut s, "  Dead instructions removed: ");
        push_decimal(&mut s, self.dead_instructions_removed as u64);
        push_str(&mut s, "\n");
        push_str(&mut s, "  Dead blocks removed: ");
        push_decimal(&mut s, self.dead_blocks_removed as u64);
        push_str(&mut s, "\n");
        push_str(&mut s, "  CSE hits: ");
        push_decimal(&mut s, self.cse_hits as u64);
        push_str(&mut s, "\n");
        push_str(&mut s, "  Functions inlined: ");
        push_decimal(&mut s, self.functions_inlined as u64);
        push_str(&mut s, "\n");
        if self.loops_detected > 0 {
            push_str(&mut s, "  Loops detected: ");
            push_decimal(&mut s, self.loops_detected as u64);
            push_str(&mut s, "\n");
            push_str(&mut s, "  Loop invariants hoisted: ");
            push_decimal(&mut s, self.loop_invariants_hoisted as u64);
            push_str(&mut s, "\n");
        }
        proof {
            assert(s@ =~= stats_text(*self));
        }
        s
    }
}

} // verus!
