//! Whether a subtree is empty.
use crate::costs::CostContext;
use crate::error::Error;
use crate::GroveDb;
use vstd::prelude::*;

verus! {

impl GroveDb {
    /// Whether a subtree is empty: if it exists, which `found` tells, it is
    /// opened and looked at, which `open` does. Costs add up.
    pub fn is_empty_tree(
        found: CostContext<Result<(), Error>>,
        open: impl FnOnce(()) -> CostContext<Result<bool, Error>>,
    ) -> (result: CostContext<Result<bool, Error>>)
        requires
            found.value is Ok ==> {
                &&& open.requires(((),))
                &&& forall|opened: CostContext<Result<bool, Error>>| #[trigger]
                    open.ensures(((),), opened) ==> found.cost.fits(opened.cost)
            },
        ensures
            match found.value {
                Err(e) => result.value == Err::<bool, Error>(e) && result.cost == found.cost,
                Ok(()) => exists|opened: CostContext<Result<bool, Error>>|
                    {
                        &&& #[trigger] open.ensures(((),), opened)
                        &&& result.value == opened.value
                        &&& result.cost == found.cost.plus(opened.cost)
                    },
            },
    {
        found.flat_map_ok(open)
    }
}

} // verus!
