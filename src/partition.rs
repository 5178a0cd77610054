//! Partition keys: what names one independent event stream.

use vstd::prelude::*;

verus! {

/// The key of one event stream: the aggregate's UUID (as its big-endian
/// 128-bit value), its group and its root partition key.
#[derive(Debug)]
pub struct PartitionKeys {
    pub aggregate_id: u128,
    pub group_: String,
    pub root_partition_key: String,
}

/// The mathematical value of a partition key.
pub type PartitionKeysView = (u128, Seq<char>, Seq<char>);

impl View for PartitionKeys {
    type V = PartitionKeysView;

    open spec fn view(&self) -> PartitionKeysView {
        (self.aggregate_id, self.group_@, self.root_partition_key@)
    }
}

/// The name of the default group and of the default root partition.
pub open spec fn default_partition_name() -> Seq<char> {
    seq!['d', 'e', 'f', 'a', 'u', 'l', 't']
}

impl PartitionKeys {
    /// The keys of an aggregate in the default group and root partition.
    pub fn from_aggregate_id(aggregate_id: u128) -> (r: Self)
        ensures
            r@ == (aggregate_id, default_partition_name(), default_partition_name()),
    {
        proof {
            reveal_strlit("default");
        }
        PartitionKeys {
            aggregate_id,
            group_: "default".to_owned(),
            root_partition_key: "default".to_owned(),
        }
    }

    /// Whether both keys name the same stream: all three fields are equal.
    pub fn same_partition(&self, other: &Self) -> (r: bool)
        ensures
            r == (self@ == other@),
    {
        self.aggregate_id == other.aggregate_id && self.group_ == other.group_
            && self.root_partition_key == other.root_partition_key
    }
}

impl Clone for PartitionKeys {
    fn clone(&self) -> (r: Self)
        ensures
            r == *self,
    {
        PartitionKeys {
            aggregate_id: self.aggregate_id,
            group_: self.group_.clone(),
            root_partition_key: self.root_partition_key.clone(),
        }
    }
}

} // verus!
