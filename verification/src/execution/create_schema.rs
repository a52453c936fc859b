//! Creating a schema.

use vstd::prelude::*;

verus! {

/// What a partition of the operator that creates a schema has to do.
#[derive(Debug, Clone, Copy, PartialEq, Eq, Structural)]
pub enum CreateSchemaPartitionState {
    /// Create the schema.
    Create,
    /// Do nothing: another partition creates the schema.
    Skip,
}

/// The operator that creates a schema.
#[derive(Debug, Clone, PartialEq, Eq)]
pub struct PhysicalCreateSchema {
    /// Name of the schema.
    pub name: String,
}

impl PhysicalCreateSchema {
    /// The states for `partitions` partitions, of which there is at least
    /// one: the first partition creates the schema, all others skip.
    pub fn create_partition_pull_states(&self, partitions: usize) -> (states: Vec<
        CreateSchemaPartitionState,
    >)
        requires
            partitions >= 1,
        ensures
            states@.len() == partitions,
            states@[0] == CreateSchemaPartitionState::Create,
            forall|i: int| 1 <= i < partitions ==> states@[i] == CreateSchemaPartitionState::Skip,
    {
        let mut states: Vec<CreateSchemaPartitionState> = Vec::new();
        states.push(CreateSchemaPartitionState::Create);
        let mut i: usize = 1;
        while i < partitions
            invariant
                1 <= i <= partitions,
                states@.len() == i,
                states@[0] == CreateSchemaPartitionState::Create,
                forall|k: int| 1 <= k < i ==> states@[k] == CreateSchemaPartitionState::Skip,
            decreases partitions - i,
        {
            states.push(CreateSchemaPartitionState::Skip);
            i += 1;
        }
        states
    }
}

} // verus!
