//! The aggregate bit-11 state of a group of entries.
use vstd::prelude::*;
use crate::text::{decimal, push_decimal};

verus! {

/// How bit 11 is spread over a group of entries.
#[derive(Debug, Clone, Copy, PartialEq, Eq, Structural)]
pub enum AggregateStatus {
    AllSet,
    Partial,
    Clear,
    Empty,
}

/// The aggregate state of `total` entries of which `set` have bit 11.
pub open spec fn aggregate_of(total: nat, set: nat) -> AggregateStatus {
    if total == 0 {
        AggregateStatus::Empty
    } else if set == total {
        AggregateStatus::AllSet
    } else if set == 0 {
        AggregateStatus::Clear
    } else {
        AggregateStatus::Partial
    }
}

/// The label shown for an aggregate state.
pub open spec fn label_of(a: AggregateStatus) -> Seq<char> {
    match a {
        AggregateStatus::AllSet => "✓ set"@,
        AggregateStatus::Partial => "△ partial"@,
        AggregateStatus::Clear => "✗ clear"@,
        AggregateStatus::Empty => "- empty"@,
    }
}

/// The detail label of `set` set entries out of `total`: the aggregate label
/// followed by `(set/total)`.
pub open spec fn detail_text(total: nat, set: nat) -> Seq<char> {
    label_of(aggregate_of(total, set)) + " ("@ + decimal(set) + "/"@ + decimal(total) + ")"@
}

impl AggregateStatus {
    /// Classify `set_entries` out of `total_entries`.
    pub fn from_counts(total_entries: usize, set_entries: usize) -> (r: Self)
        ensures
            r == aggregate_of(total_entries as nat, set_entries as nat),
    {
        if total_entries == 0 {
            AggregateStatus::Empty
        } else if set_entries == total_entries {
            AggregateStatus::AllSet
        } else if set_entries == 0 {
            AggregateStatus::Clear
        } else {
            AggregateStatus::Partial
        }
    }

    /// The label of this state.
    pub fn label(self) -> (s: &'static str)
        ensures
            s@ == label_of(self),
    {
        match self {
            AggregateStatus::AllSet => "✓ set",
            AggregateStatus::Partial => "△ partial",
            AggregateStatus::Clear => "✗ clear",
            AggregateStatus::Empty => "- empty",
        }
    }
}

/// Counts of a group of entries and their aggregate state.
#[derive(Debug, Clone, Copy, PartialEq, Eq)]
pub struct StatusSummary {
    pub total_entries: usize,
    pub set_entries: usize,
    pub aggregate: AggregateStatus,
}

impl StatusSummary {
    /// The summary of `set_entries` set entries out of `total_entries`.
    pub fn from_counts(total_entries: usize, set_entries: usize) -> (r: Self)
        ensures
            r.total_entries == total_entries,
            r.set_entries == set_entries,
            r.aggregate == aggregate_of(total_entries as nat, set_entries as nat),
    {
        StatusSummary {
            total_entries,
            set_entries,
            aggregate: AggregateStatus::from_counts(total_entries, set_entries),
        }
    }

    /// The label of the aggregate state.
    pub fn aggregate_label(self) -> (s: &'static str)
        ensures
            s@ == label_of(self.aggregate),
    {
        self.aggregate.label()
    }

    /// The label followed by the counts: `label (set/total)`.
    pub fn detail_label(self) -> (s: String)
        ensures
            s@ == label_of(self.aggregate) + " ("@ + decimal(self.set_entries as nat) + "/"@
                + decimal(self.total_entries as nat) + ")"@,
            self.aggregate == aggregate_of(self.total_entries as nat, self.set_entries as nat)
                ==> s@ == detail_text(self.total_entries as nat, self.set_entries as nat),
    {
        let mut s = String::from_str(self.aggregate_label());
        s.append(" (");
        push_decimal(&mut s, self.set_entries as u64);
        s.append("/");
        push_decimal(&mut s, self.total_entries as u64);
        s.append(")");
        s
    }
}

/// The aggregate state of `set` set entries out of `total`: empty exactly
/// when there are none, all set exactly when every entry is set, clear
/// exactly when none is, and partial exactly when some but not all are.
pub proof fn law_aggregate(total: nat, set: nat)
    requires
        set <= total,
    ensures
        (aggregate_of(total, set) == AggregateStatus::Empty) == (total == 0),
        (aggregate_of(total, set) == AggregateStatus::AllSet) == (total > 0 && set == total),
        (aggregate_of(total, set) == AggregateStatus::Clear) == (total > 0 && set == 0),
        (aggregate_of(total, set) == AggregateStatus::Partial) == (0 < set < total),
{
}

} // verus!
