//! The switches that turn the count-only optimisations on and off.

use vstd::prelude::*;

verus! {

/// The four planner switches.
#[derive(Clone, Copy, Debug, PartialEq, Eq, Structural)]
pub struct Levers {
    /// Fold count-only hops into row weights.
    pub count_fold: bool,
    /// Remember the folded sum of a node that is reached again.
    pub count_fold_memo: bool,
    /// Reorder the paths of a count-only pattern.
    pub count_only_reorder: bool,
    /// Choose the path order by the smallest peak row count.
    pub order_peak_search: bool,
}

impl Levers {
    /// Every switch starts on.
    pub fn new() -> (l: Levers)
        ensures
            count_fold_on(l),
            count_fold_memo_on(l),
            count_only_reorder_on(l),
            order_peak_search_on(l),
    {
        Levers {
            count_fold: true,
            count_fold_memo: true,
            count_only_reorder: true,
            order_peak_search: true,
        }
    }
}

/// Whether the count fold is on.
pub open spec fn count_fold_on(l: Levers) -> bool {
    l.count_fold
}

/// Whether the fold's memo is on.
pub open spec fn count_fold_memo_on(l: Levers) -> bool {
    l.count_fold_memo
}

/// Whether the count-only reorder is on.
pub open spec fn count_only_reorder_on(l: Levers) -> bool {
    l.count_only_reorder
}

/// Whether the peak search is on.
pub open spec fn order_peak_search_on(l: Levers) -> bool {
    l.order_peak_search
}

/// Turn the count fold on or off.
pub fn set_count_fold(levers: &mut Levers, on: bool)
    ensures
        *final(levers) == (Levers { count_fold: on, ..*old(levers) }),
{
    levers.count_fold = on;
}

/// Whether the count fold is on.
pub fn count_fold_enabled(levers: &Levers) -> (on: bool)
    ensures
        on == count_fold_on(*levers),
{
    levers.count_fold
}

/// Turn the fold's memo on or off.
pub fn set_count_fold_memo(levers: &mut Levers, on: bool)
    ensures
        *final(levers) == (Levers { count_fold_memo: on, ..*old(levers) }),
{
    levers.count_fold_memo = on;
}

/// Whether the fold's memo is on.
pub fn count_fold_memo_enabled(levers: &Levers) -> (on: bool)
    ensures
        on == count_fold_memo_on(*levers),
{
    levers.count_fold_memo
}

/// Turn the count-only reorder on or off.
pub fn set_count_only_reorder(levers: &mut Levers, on: bool)
    ensures
        *final(levers) == (Levers { count_only_reorder: on, ..*old(levers) }),
{
    levers.count_only_reorder = on;
}

/// Whether the count-only reorder is on.
pub fn count_only_reorder_enabled(levers: &Levers) -> (on: bool)
    ensures
        on == count_only_reorder_on(*levers),
{
    levers.count_only_reorder
}

/// Turn the peak search on or off.
pub fn set_order_peak_search(levers: &mut Levers, on: bool)
    ensures
        *final(levers) == (Levers { order_peak_search: on, ..*old(levers) }),
{
    levers.order_peak_search = on;
}

/// Whether the peak search is on.
pub fn order_peak_search_enabled(levers: &Levers) -> (on: bool)
    ensures
        on == order_peak_search_on(*levers),
{
    levers.order_peak_search
}

} // verus!
