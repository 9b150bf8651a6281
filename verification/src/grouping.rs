//! Splitting an operation sequence into its runs of equal operations.
use vstd::prelude::*;
use itertools::Itertools;
use crate::opcode::OpCode;

verus! {

/// The items of each group, in order.
pub open spec fn group_items(groups: Seq<(OpCode, Vec<OpCode>)>) -> Seq<Seq<OpCode>> {
    groups.map_values(|group: (OpCode, Vec<OpCode>)| group.1@)
}

/// `groups` splits `ops` into its maximal runs of equal operations: the
/// groups laid end to end are `ops`, no group is empty, every item of a
/// group is the group's key, and neighbouring groups have different keys.
pub open spec fn splits_into_runs(groups: Seq<(OpCode, Vec<OpCode>)>, ops: Seq<OpCode>) -> bool {
    &&& group_items(groups).flatten() == ops
    &&& forall|i: int| 0 <= i < groups.len() ==> (#[trigger] groups[i]).1@.len() > 0
    &&& forall|i: int, j: int|
        0 <= i < groups.len() && 0 <= j < groups[i].1@.len() ==> #[trigger] groups[i].1@[j]
            == groups[i].0
    &&& forall|i: int, j: int|
        0 <= i && j == i + 1 && j < groups.len() ==> (#[trigger] groups[i]).0 != (
        #[trigger] groups[j]).0
}

/// Groups consecutive equal operations with `Itertools::group_by`, keyed by
/// the operation itself, and hands out each group's key with its items.
///
/// The contract restates what `group_by` documents: consecutive elements
/// with the same key form one group, so that the groups in order make up
/// the input, none is empty, and a new group starts exactly where the key
/// changes.
#[verifier::external_body]
pub(crate) fn group_runs(op_codes: &[OpCode]) -> (groups: Vec<(OpCode, Vec<OpCode>)>)
    ensures
        splits_into_runs(groups@, op_codes@),
{
    let grouped = op_codes.iter().group_by(|code| **code);
    grouped.into_iter().map(|(code, group)| (code, group.copied().collect())).collect()
}

} // verus!
