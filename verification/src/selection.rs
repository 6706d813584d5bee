use vstd::prelude::*;

verus! {

/// The rule that ranks the visited children of a node against each other
/// when the search decides where to descend.
///
/// The search asks for a rank only of a child that has been visited and
/// whose counts are consistent with those of its parent. A larger rank means
/// a more promising child.
pub trait UcbScorer: Default {
    /// Returns the rank of a child with `node_wins` wins in `node_visit`
    /// visits under a parent with `total_visits` visits.
    fn ucb_value(&self, total_visits: i32, node_wins: i32, node_visit: i32) -> u64
        requires
            0 <= node_wins <= node_visit <= total_visits,
            0 < node_visit,
    ;
}

/// Whether the scorer gives the same rank whenever it is asked the same:
/// its `ucb_value` has at most one possible result for given arguments.
pub open spec fn gives_one_rank<S: UcbScorer>(scorer: S) -> bool {
    forall|total_visits: i32, node_wins: i32, node_visit: i32, first: u64, second: u64|
        #[trigger] call_ensures(
            S::ucb_value,
            (&scorer, total_visits, node_wins, node_visit),
            first,
        ) && #[trigger] call_ensures(
            S::ucb_value,
            (&scorer, total_visits, node_wins, node_visit),
            second,
        ) ==> first == second
}

/// How much a child deserves the next descent.
#[derive(Debug, Clone, Copy)]
pub enum Priority {
    /// The child is fully calculated and is never descended into.
    Skipped,
    /// The child has been visited; it competes with its rank.
    Scored(u64),
    /// The child has never been visited; it goes before every visited child.
    Unvisited,
}

/// The priority as a number: -1 for a skipped child, the rank for a visited
/// one, and a number above every rank for an unvisited one.
pub open spec fn priority_level(priority: Priority) -> int {
    match priority {
        Priority::Skipped => -1,
        Priority::Scored(rank) => rank as int,
        Priority::Unvisited => u64::MAX + 1,
    }
}

/// Whether the entry number `k` is the first of highest priority among
/// those that are not skipped.
pub open spec fn leads(priorities: Seq<Priority>, k: int) -> bool {
    &&& 0 <= k < priorities.len()
    &&& !(priorities[k] is Skipped)
    &&& forall|j: int|
        0 <= j < priorities.len() ==> priority_level(#[trigger] priorities[j]) <= priority_level(
            priorities[k],
        )
    &&& forall|j: int|
        0 <= j < k ==> priority_level(#[trigger] priorities[j]) < priority_level(priorities[k])
}

/// Returns the position of the first entry of highest priority among those
/// that are not skipped, or `None` if all are skipped.
pub fn first_best(priorities: &Vec<Priority>) -> (best: Option<usize>)
    ensures
        match best {
            None => forall|j: int| 0 <= j < priorities@.len() ==> priorities@[j] is Skipped,
            Some(k) => leads(priorities@, k as int),
        },
{
    let mut best: Option<usize> = None;
    let mut i: usize = 0;
    while i < priorities.len()
        invariant
            0 <= i <= priorities@.len(),
            match best {
                None => forall|j: int| 0 <= j < i ==> priorities@[j] is Skipped,
                Some(k) => {
                    &&& k < i
                    &&& !(priorities@[k as int] is Skipped)
                    &&& forall|j: int|
                        0 <= j < i ==> priority_level(priorities@[j]) <= priority_level(
                            priorities@[k as int],
                        )
                    &&& forall|j: int|
                        0 <= j < k ==> priority_level(priorities@[j]) < priority_level(
                            priorities@[k as int],
                        )
                },
            },
        decreases priorities@.len() - i,
    {
        let better = match (priorities[i], best) {
            (Priority::Skipped, _) => false,
            (_, None) => true,
            (Priority::Unvisited, Some(k)) => match priorities[k] {
                Priority::Unvisited => false,
                _ => true,
            },
            (Priority::Scored(rank), Some(k)) => match priorities[k] {
                Priority::Scored(top) => rank > top,
                Priority::Skipped => true,
                Priority::Unvisited => false,
            },
        };
        if better {
            best = Some(i);
        }
        i += 1;
    }
    best
}

} // verus!
