//! The search policies of the nine compression levels.

use vstd::prelude::*;

verus! {

/// How hard an encoder searches for a run.
#[derive(Copy, Clone, Debug, Eq, PartialEq, Structural)]
pub struct WamsOptimisations {
    /// If we find a match of at least this length, we don't need to do any more searching.
    pub quit_search_above_length: u16,
    /// Only consider the nearest N inserted distances when searching for a run.
    pub limit_count_of_distances: usize,
    pub tweaks: Tweaks,
}

/// What an encoder does beyond the plain search.
#[derive(Copy, Clone, Debug, Eq, PartialEq, Structural)]
pub enum Tweaks {
    /// Update references only if the match length is fewer than this
    InsertOnlyBelowLength(u16),
    Lookahead(LookaheadConfig),
}

/// When an encoder that looks one byte ahead stops doing so.
#[derive(Copy, Clone, Debug, Eq, PartialEq, Structural)]
pub struct LookaheadConfig {
    /// If we already have a match this long, quarter the allowed number of distances to consider
    pub apathetic_lookahead_above_length: u16,
    /// Abort the lookahead procedure if we've found a run at least this long.
    pub abort_lookahead_above_length: u16,
}

/// A policy that takes the first run it settles on.
pub open spec fn greedy_policy(quit: u16, limit: usize, insert_below: u16) -> WamsOptimisations {
    WamsOptimisations {
        quit_search_above_length: quit,
        limit_count_of_distances: limit,
        tweaks: Tweaks::InsertOnlyBelowLength(insert_below),
    }
}

/// A policy that tries a literal and the run after it before it settles.
pub open spec fn lookahead_policy(
    quit: u16,
    limit: usize,
    apathetic: u16,
    abort: u16,
) -> WamsOptimisations {
    WamsOptimisations {
        quit_search_above_length: quit,
        limit_count_of_distances: limit,
        tweaks: Tweaks::Lookahead(
            LookaheadConfig {
                apathetic_lookahead_above_length: apathetic,
                abort_lookahead_above_length: abort,
            },
        ),
    }
}

/// The policy of a compression level from 1 to 9.
pub open spec fn policy_of_level(level: int) -> WamsOptimisations
    recommends
        1 <= level <= 9,
{
    if level == 1 {
        greedy_policy(8, 4, 4)
    } else if level == 2 {
        greedy_policy(16, 8, 5)
    } else if level == 3 {
        greedy_policy(32, 32, 6)
    } else if level == 4 {
        lookahead_policy(16, 16, 4, 4)
    } else if level == 5 {
        lookahead_policy(32, 32, 8, 16)
    } else if level == 6 {
        lookahead_policy(128, 128, 8, 16)
    } else if level == 7 {
        lookahead_policy(128, 256, 8, 32)
    } else if level == 8 {
        lookahead_policy(258, 1024, 32, 128)
    } else {
        lookahead_policy(258, 4096, 32, 258)
    }
}

/// A policy that takes the first run it settles on.
pub fn greedy(
    quit_search_above_length: u16,
    limit_count_of_distances: usize,
    insert_only_below_length: u16,
) -> (r: WamsOptimisations)
    ensures
        r == greedy_policy(
            quit_search_above_length,
            limit_count_of_distances,
            insert_only_below_length,
        ),
{
    WamsOptimisations {
        quit_search_above_length,
        limit_count_of_distances,
        tweaks: Tweaks::InsertOnlyBelowLength(insert_only_below_length),
    }
}

/// A policy that tries a literal and the run after it before it settles.
pub fn lookahead(
    quit_search_above_length: u16,
    limit_count_of_distances: usize,
    apathetic_lookahead_above_length: u16,
    abort_lookahead_above_length: u16,
) -> (r: WamsOptimisations)
    ensures
        r == lookahead_policy(
            quit_search_above_length,
            limit_count_of_distances,
            apathetic_lookahead_above_length,
            abort_lookahead_above_length,
        ),
{
    WamsOptimisations {
        quit_search_above_length,
        limit_count_of_distances,
        tweaks: Tweaks::Lookahead(
            LookaheadConfig { abort_lookahead_above_length, apathetic_lookahead_above_length },
        ),
    }
}

/// The policies of the levels 1 to 9, that of level 1 first.
pub fn configurations() -> (r: [WamsOptimisations; 9])
    ensures
        forall|i: int| 0 <= i < 9 ==> r@[i] == policy_of_level(i + 1),
{
    [
        greedy(8, 4, 4),
        greedy(16, 8, 5),
        greedy(32, 32, 6),
        lookahead(16, 16, 4, 4),
        lookahead(32, 32, 8, 16),
        lookahead(128, 128, 8, 16),
        lookahead(128, 256, 8, 32),
        lookahead(258, 1024, 32, 128),
        lookahead(258, 4096, 32, 258),
    ]
}

} // verus!
