//! Counters of what the page cache and the tree on top of it do.

use vstd::prelude::*;

verus! {

/// The counters of one store. A counter that is full begins again at 0.
#[derive(Clone, Copy, Debug, PartialEq, Eq, Structural)]
pub struct Metrics {
    /// Attempts to split a child.
    pub tree_child_split_attempt: usize,
    /// Splits of a child.
    pub tree_child_split_success: usize,
    /// Attempts to split a parent.
    pub tree_parent_split_attempt: usize,
    /// Splits of a parent.
    pub tree_parent_split_success: usize,
    /// Attempts to split the root.
    pub tree_root_split_attempt: usize,
    /// Splits of the root.
    pub tree_root_split_success: usize,
    /// Loops of operations of the tree that had to be tried again.
    pub tree_loops: usize,
    /// Reservations of space in the log.
    pub log_reservations: usize,
    /// Attempts to reserve space in the log.
    pub log_reservation_attempts: usize,
}

/// The value of a counter after one more event.
pub open spec fn bumped(n: usize) -> usize {
    if n == usize::MAX {
        0
    } else {
        (n + 1) as usize
    }
}

fn bump(n: usize) -> (r: usize)
    ensures
        r == bumped(n),
{
    if n == usize::MAX {
        0
    } else {
        n + 1
    }
}

impl Default for Metrics {
    /// Counters that have counted nothing.
    fn default() -> (r: Self)
        ensures
            r == (Metrics {
                tree_child_split_attempt: 0,
                tree_child_split_success: 0,
                tree_parent_split_attempt: 0,
                tree_parent_split_success: 0,
                tree_root_split_attempt: 0,
                tree_root_split_success: 0,
                tree_loops: 0,
                log_reservations: 0,
                log_reservation_attempts: 0,
            }),
    {
        Metrics {
            tree_child_split_attempt: 0,
            tree_child_split_success: 0,
            tree_parent_split_attempt: 0,
            tree_parent_split_success: 0,
            tree_root_split_attempt: 0,
            tree_root_split_success: 0,
            tree_loops: 0,
            log_reservations: 0,
            log_reservation_attempts: 0,
        }
    }
}

impl Metrics {
    /// Counts a loop of an operation of the tree that had to be tried again.
    pub fn tree_looped(&mut self)
        ensures
            *final(self) == (Metrics {
                tree_loops: bumped(old(self).tree_loops),
                ..*old(self)
            }),
    {
        self.tree_loops = bump(self.tree_loops);
    }

    /// Counts an attempt to reserve space in the log.
    pub fn log_reservation_attempted(&mut self)
        ensures
            *final(self) == (Metrics {
                log_reservation_attempts: bumped(old(self).log_reservation_attempts),
                ..*old(self)
            }),
    {
        self.log_reservation_attempts = bump(self.log_reservation_attempts);
    }

    /// Counts a reservation of space in the log.
    pub fn log_reservation_success(&mut self)
        ensures
            *final(self) == (Metrics {
                log_reservations: bumped(old(self).log_reservations),
                ..*old(self)
            }),
    {
        self.log_reservations = bump(self.log_reservations);
    }

    /// Counts an attempt to split a child.
    pub fn tree_child_split_attempt(&mut self)
        ensures
            *final(self) == (Metrics {
                tree_child_split_attempt: bumped(old(self).tree_child_split_attempt),
                ..*old(self)
            }),
    {
        self.tree_child_split_attempt = bump(self.tree_child_split_attempt);
    }

    /// Counts a split of a child.
    pub fn tree_child_split_success(&mut self)
        ensures
            *final(self) == (Metrics {
                tree_child_split_success: bumped(old(self).tree_child_split_success),
                ..*old(self)
            }),
    {
        self.tree_child_split_success = bump(self.tree_child_split_success);
    }

    /// Counts an attempt to split a parent.
    pub fn tree_parent_split_attempt(&mut self)
        ensures
            *final(self) == (Metrics {
                tree_parent_split_attempt: bumped(old(self).tree_parent_split_attempt),
                ..*old(self)
            }),
    {
        self.tree_parent_split_attempt = bump(self.tree_parent_split_attempt);
    }

    /// Counts a split of a parent.
    pub fn tree_parent_split_success(&mut self)
        ensures
            *final(self) == (Metrics {
                tree_parent_split_success: bumped(old(self).tree_parent_split_success),
                ..*old(self)
            }),
    {
        self.tree_parent_split_success = bump(self.tree_parent_split_success);
    }

    /// Counts an attempt to split the root.
    pub fn tree_root_split_attempt(&mut self)
        ensures
            *final(self) == (Metrics {
                tree_root_split_attempt: bumped(old(self).tree_root_split_attempt),
                ..*old(self)
            }),
    {
        self.tree_root_split_attempt = bump(self.tree_root_split_attempt);
    }

    /// Counts a split of the root.
    pub fn tree_root_split_success(&mut self)
        ensures
            *final(self) == (Metrics {
                tree_root_split_success: bumped(old(self).tree_root_split_success),
                ..*old(self)
            }),
    {
        self.tree_root_split_success = bump(self.tree_root_split_success);
    }

    /// Notes a loop of an operation of the log that had to be tried again.
    /// Such loops are not counted.
    pub fn log_looped(&self) {
    }
}

} // verus!
