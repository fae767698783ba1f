//! Interface to unify how operations' costs are passed and retrieved.
use std::ops::Add;
use vstd::prelude::*;

verus! {

/// Piece of data representing affected computer resources (approximately).
#[derive(Debug, PartialEq, Eq, Structural)]
pub struct OperationCost {
    /// How many storage seeks were done.
    pub seek_count: u16,
    /// How many bytes were written on hard drive.
    pub storage_written_bytes: u32,
    /// How many bytes were loaded from hard drive.
    pub storage_loaded_bytes: u32,
    /// How many bytes were loaded into memory (usually keys and values).
    pub loaded_bytes: u32,
    /// How many times hash was called for bytes (paths, keys, values).
    pub hash_byte_calls: u32,
    /// How many times node hashing was done (for merkelized tree).
    pub hash_node_calls: u16,
}

impl OperationCost {
    /// The cost of doing nothing.
    pub open spec fn zero() -> OperationCost {
        OperationCost {
            seek_count: 0,
            storage_written_bytes: 0,
            storage_loaded_bytes: 0,
            loaded_bytes: 0,
            hash_byte_calls: 0,
            hash_node_calls: 0,
        }
    }

    /// Whether every counter of the sum of two costs fits its type.
    pub open spec fn fits(self, rhs: OperationCost) -> bool {
        &&& self.seek_count + rhs.seek_count <= u16::MAX
        &&& self.storage_written_bytes + rhs.storage_written_bytes <= u32::MAX
        &&& self.storage_loaded_bytes + rhs.storage_loaded_bytes <= u32::MAX
        &&& self.loaded_bytes + rhs.loaded_bytes <= u32::MAX
        &&& self.hash_byte_calls + rhs.hash_byte_calls <= u32::MAX
        &&& self.hash_node_calls + rhs.hash_node_calls <= u16::MAX
    }

    /// The counter-wise sum of two costs.
    pub open spec fn plus(self, rhs: OperationCost) -> OperationCost {
        OperationCost {
            seek_count: (self.seek_count + rhs.seek_count) as u16,
            storage_written_bytes: (self.storage_written_bytes + rhs.storage_written_bytes) as u32,
            storage_loaded_bytes: (self.storage_loaded_bytes + rhs.storage_loaded_bytes) as u32,
            loaded_bytes: (self.loaded_bytes + rhs.loaded_bytes) as u32,
            hash_byte_calls: (self.hash_byte_calls + rhs.hash_byte_calls) as u32,
            hash_node_calls: (self.hash_node_calls + rhs.hash_node_calls) as u16,
        }
    }
}

impl Default for OperationCost {
    fn default() -> (cost: OperationCost)
        ensures
            cost == OperationCost::zero(),
    {
        OperationCost {
            seek_count: 0,
            storage_written_bytes: 0,
            storage_loaded_bytes: 0,
            loaded_bytes: 0,
            hash_byte_calls: 0,
            hash_node_calls: 0,
        }
    }
}

impl Add for OperationCost {
    type Output = OperationCost;

    fn add(self, rhs: OperationCost) -> (sum: OperationCost) {
        OperationCost {
            seek_count: self.seek_count + rhs.seek_count,
            storage_written_bytes: self.storage_written_bytes + rhs.storage_written_bytes,
            storage_loaded_bytes: self.storage_loaded_bytes + rhs.storage_loaded_bytes,
            loaded_bytes: self.loaded_bytes + rhs.loaded_bytes,
            hash_byte_calls: self.hash_byte_calls + rhs.hash_byte_calls,
            hash_node_calls: self.hash_node_calls + rhs.hash_node_calls,
        }
    }
}

impl vstd::std_specs::ops::AddSpecImpl for OperationCost {
    open spec fn obeys_add_spec() -> bool {
        true
    }

    open spec fn add_req(self, rhs: OperationCost) -> bool {
        self.fits(rhs)
    }

    open spec fn add_spec(self, rhs: OperationCost) -> OperationCost {
        self.plus(rhs)
    }
}

impl OperationCost {
    /// Whether the counters have room for `rhs` to be added.
    pub fn has_room_for(&self, rhs: &OperationCost) -> (room: bool)
        ensures
            room == self.fits(*rhs),
    {
        self.seek_count <= u16::MAX - rhs.seek_count && self.storage_written_bytes <= u32::MAX
            - rhs.storage_written_bytes && self.storage_loaded_bytes <= u32::MAX
            - rhs.storage_loaded_bytes && self.loaded_bytes <= u32::MAX - rhs.loaded_bytes
            && self.hash_byte_calls <= u32::MAX - rhs.hash_byte_calls && self.hash_node_calls
            <= u16::MAX - rhs.hash_node_calls
    }

    /// Adds `rhs` to this accumulator, counter by counter.
    pub fn add_assign(&mut self, rhs: OperationCost)
        requires
            old(self).fits(rhs),
        ensures
            *final(self) == old(self).plus(rhs),
    {
        self.seek_count = self.seek_count + rhs.seek_count;
        self.storage_written_bytes = self.storage_written_bytes + rhs.storage_written_bytes;
        self.storage_loaded_bytes = self.storage_loaded_bytes + rhs.storage_loaded_bytes;
        self.loaded_bytes = self.loaded_bytes + rhs.loaded_bytes;
        self.hash_byte_calls = self.hash_byte_calls + rhs.hash_byte_calls;
        self.hash_node_calls = self.hash_node_calls + rhs.hash_node_calls;
    }

    /// Add worst case for getting a merk tree: one seek, and the hash calls
    /// that building the storage prefix of its path takes
    /// (`prefix_hash_count`, of which the counter keeps the low 32 bits).
    pub fn add_worst_case_get_merk(&mut self, prefix_hash_count: usize)
        requires
            old(self).seek_count < u16::MAX,
            old(self).hash_byte_calls + (prefix_hash_count as u32) <= u32::MAX,
        ensures
            *final(self) == (OperationCost {
                seek_count: (old(self).seek_count + 1) as u16,
                hash_byte_calls: (old(self).hash_byte_calls + (prefix_hash_count as u32)) as u32,
                ..*old(self)
            }),
    {
        self.seek_count = self.seek_count + 1;
        self.hash_byte_calls = self.hash_byte_calls + (#[verifier::truncate] (prefix_hash_count as u32));
    }

    /// Add worst case for checking that a merk tree has an element: one seek,
    /// and the key loaded into memory (of its length the counter keeps the low
    /// 32 bits).
    pub fn add_worst_case_merk_has_element(&mut self, key: &[u8])
        requires
            old(self).seek_count < u16::MAX,
            old(self).loaded_bytes + (key@.len() as u32) <= u32::MAX,
        ensures
            *final(self) == (OperationCost {
                seek_count: (old(self).seek_count + 1) as u16,
                loaded_bytes: (old(self).loaded_bytes + (key@.len() as u32)) as u32,
                ..*old(self)
            }),
    {
        self.seek_count = self.seek_count + 1;
        self.loaded_bytes = self.loaded_bytes + (#[verifier::truncate] (key.len() as u32));
    }

    /// Add worst case for getting a merk tree root hash: nothing is charged.
    pub fn add_worst_case_merk_root_hash(&mut self)
        ensures
            *final(self) == *old(self),
    {
    }

    /// Add worst case for opening a root meta storage: nothing is charged.
    pub fn add_worst_case_open_root_meta_storage(&mut self)
        ensures
            *final(self) == *old(self),
    {
    }

    /// Add worst case for saving the root tree: nothing is charged.
    pub fn add_worst_case_save_root_leaves(&mut self)
        ensures
            *final(self) == *old(self),
    {
    }

    /// Add worst case for loading the root tree: nothing is charged.
    pub fn add_worst_case_load_root_leaves(&mut self)
        ensures
            *final(self) == *old(self),
    {
    }
}

/// Wrapped operation result with associated cost.
#[derive(Debug, PartialEq, Eq)]
pub struct CostContext<T> {
    /// Wrapped operation's return value.
    pub value: T,
    /// Cost of the operation.
    pub cost: OperationCost,
}

/// General combinators for `CostContext`.
impl<T> CostContext<T> {
    /// Take wrapped value out adding its cost to provided accumulator.
    pub fn unwrap_add_cost(self, acc_cost: &mut OperationCost) -> (value: T)
        requires
            old(acc_cost).fits(self.cost),
        ensures
            value == self.value,
            *final(acc_cost) == old(acc_cost).plus(self.cost),
    {
        acc_cost.add_assign(self.cost);
        self.value
    }

    /// Take wrapped value out dropping cost data.
    pub fn unwrap(self) -> (value: T)
        ensures
            value == self.value,
    {
        self.value
    }

    /// Borrow costs data.
    pub fn cost(&self) -> (cost: &OperationCost)
        ensures
            *cost == self.cost,
    {
        &self.cost
    }

    /// Borrow wrapped data.
    pub fn value(&self) -> (value: &T)
        ensures
            *value == self.value,
    {
        &self.value
    }

    /// Applies function to wrapped value keeping cost the same as before.
    pub fn map<B>(self, f: impl FnOnce(T) -> B) -> (mapped: CostContext<B>)
        requires
            f.requires((self.value,)),
        ensures
            f.ensures((self.value,), mapped.value),
            mapped.cost == self.cost,
    {
        let cost = self.cost;
        let value = f(self.value);
        CostContext { value, cost }
    }

    /// Applies function to wrapped value adding costs.
    pub fn flat_map<B>(self, f: impl FnOnce(T) -> CostContext<B>) -> (mapped: CostContext<B>)
        requires
            f.requires((self.value,)),
            forall|inner: CostContext<B>|
                #[trigger] f.ensures((self.value,), inner) ==> self.cost.fits(inner.cost),
        ensures
            exists|inner: CostContext<B>|
                {
                    &&& #[trigger] f.ensures((self.value,), inner)
                    &&& mapped.value == inner.value
                    &&& mapped.cost == self.cost.plus(inner.cost)
                },
    {
        let mut cost = self.cost;
        let inner = f(self.value);
        assert(f.ensures((self.value,), inner));
        let value = inner.unwrap_add_cost(&mut cost);
        CostContext { value, cost }
    }

    /// Adds previously accumulated cost
    pub fn add_cost(self, cost: OperationCost) -> (total: CostContext<T>)
        requires
            self.cost.fits(cost),
        ensures
            total.value == self.value,
            total.cost == self.cost.plus(cost),
    {
        let mut total = self;
        total.cost.add_assign(cost);
        total
    }
}

/// Type alias for `Result` wrapped into `CostContext`.
pub type CostResult<T, E> = CostContext<Result<T, E>>;

/// Combinators to use with `Result` wrapped in `CostContext`.
impl<T, E> CostResult<T, E> {
    /// Applies function to wrapped value in case of `Ok` keeping cost the same
    /// as before.
    pub fn map_ok<B>(self, f: impl FnOnce(T) -> B) -> (mapped: CostResult<B, E>)
        requires
            self.value matches Ok(x) ==> f.requires((x,)),
        ensures
            match self.value {
                Ok(x) => mapped.value matches Ok(y) && f.ensures((x,), y),
                Err(e) => mapped.value == Err::<B, E>(e),
            },
            mapped.cost == self.cost,
    {
        let cost = self.cost;
        let value = match self.value {
            Ok(x) => Ok(f(x)),
            Err(e) => Err(e),
        };
        CostContext { value, cost }
    }

    /// Applies function to wrapped value in case of `Err` keeping cost the same
    /// as before.
    pub fn map_err<B>(self, f: impl FnOnce(E) -> B) -> (mapped: CostResult<T, B>)
        requires
            self.value matches Err(e) ==> f.requires((e,)),
        ensures
            match self.value {
                Ok(x) => mapped.value == Ok::<T, B>(x),
                Err(e) => mapped.value matches Err(b) && f.ensures((e,), b),
            },
            mapped.cost == self.cost,
    {
        let cost = self.cost;
        let value = match self.value {
            Ok(x) => Ok(x),
            Err(e) => Err(f(e)),
        };
        CostContext { value, cost }
    }

    /// Applies function to wrapped result in case of `Ok` adding costs.
    pub fn flat_map_ok<B>(self, f: impl FnOnce(T) -> CostResult<B, E>) -> (mapped: CostResult<B, E>)
        requires
            self.value matches Ok(x) ==> {
                &&& f.requires((x,))
                &&& forall|inner: CostResult<B, E>|
                    #[trigger] f.ensures((x,), inner) ==> self.cost.fits(inner.cost)
            },
        ensures
            match self.value {
                Ok(x) => exists|inner: CostResult<B, E>|
                    {
                        &&& #[trigger] f.ensures((x,), inner)
                        &&& mapped.value == inner.value
                        &&& mapped.cost == self.cost.plus(inner.cost)
                    },
                Err(e) => mapped.value == Err::<B, E>(e) && mapped.cost == self.cost,
            },
    {
        let mut cost = self.cost;
        let result = match self.value {
            Ok(x) => {
                let inner = f(x);
                assert(f.ensures((x,), inner));
                inner.unwrap_add_cost(&mut cost)
            },
            Err(e) => Err(e),
        };
        CostContext { value: result, cost }
    }
}

impl<T, E> CostResult<Result<T, E>, E> {
    /// Flattens nested errors inside `CostContext`
    pub fn flatten(self) -> (flat: CostResult<T, E>)
        ensures
            flat.value == match self.value {
                Err(e) => Err::<T, E>(e),
                Ok(inner) => inner,
            },
            flat.cost == self.cost,
    {
        let cost = self.cost;
        let value = match self.value {
            Err(e) => Err(e),
            Ok(Err(e)) => Err(e),
            Ok(Ok(v)) => Ok(v),
        };
        CostContext { value, cost }
    }
}

impl<T> CostContext<CostContext<T>> {
    /// Flattens nested `CostContext`s adding costs.
    pub fn flatten(self) -> (flat: CostContext<T>)
        requires
            self.value.cost.fits(self.cost),
        ensures
            flat.value == self.value.value,
            flat.cost == self.value.cost.plus(self.cost),
    {
        let mut cost = OperationCost::default();
        let inner = self.unwrap_add_cost(&mut cost);
        inner.add_cost(cost)
    }
}

/// Extension trait to add costs context to values.
pub trait CostsExt: Sized {
    /// Wraps any value into a `CostContext` object with provided costs.
    fn wrap_with_cost(self, cost: OperationCost) -> (wrapped: CostContext<Self>)
        ensures
            wrapped.value == self,
            wrapped.cost == cost,
    {
        CostContext { value: self, cost }
    }

    /// Wraps any value into `CostContext` object with costs computed using the
    /// value getting wrapped.
    fn wrap_fn_cost(self, f: impl FnOnce(&Self) -> OperationCost) -> (wrapped: CostContext<Self>)
        requires
            f.requires((&self,)),
        ensures
            wrapped.value == self,
            f.ensures((&self,), wrapped.cost),
    {
        let cost = f(&self);
        CostContext { value: self, cost }
    }
}

impl<T> CostsExt for T {

}

/// The order in which two costs are added does not matter.
pub proof fn law_cost_sum_commutes(a: OperationCost, b: OperationCost)
    ensures
        a.fits(b) <==> b.fits(a),
        a.plus(b) == b.plus(a),
{
}

/// Costs of a chain of operations add up to the same total however the chain
/// is grouped.
pub proof fn law_cost_sum_associates(a: OperationCost, b: OperationCost, c: OperationCost)
    requires
        a.fits(b),
        a.plus(b).fits(c),
    ensures
        b.fits(c),
        a.fits(b.plus(c)),
        a.plus(b).plus(c) == a.plus(b.plus(c)),
{
}

/// Adding the cost of doing nothing changes nothing.
pub proof fn law_zero_cost_is_neutral(a: OperationCost)
    ensures
        a.fits(OperationCost::zero()),
        a.plus(OperationCost::zero()) == a,
        OperationCost::zero().plus(a) == a,
{
}

/// Accumulated costs are never lost: no counter of a sum is below that counter
/// of either summand.
pub proof fn law_cost_is_never_lost(a: OperationCost, b: OperationCost)
    requires
        a.fits(b),
    ensures
        a.plus(b).seek_count >= a.seek_count && a.plus(b).seek_count >= b.seek_count,
        a.plus(b).storage_written_bytes >= a.storage_written_bytes && a.plus(
            b,
        ).storage_written_bytes >= b.storage_written_bytes,
        a.plus(b).storage_loaded_bytes >= a.storage_loaded_bytes && a.plus(b).storage_loaded_bytes
            >= b.storage_loaded_bytes,
        a.plus(b).loaded_bytes >= a.loaded_bytes && a.plus(b).loaded_bytes >= b.loaded_bytes,
        a.plus(b).hash_byte_calls >= a.hash_byte_calls && a.plus(b).hash_byte_calls
            >= b.hash_byte_calls,
        a.plus(b).hash_node_calls >= a.hash_node_calls && a.plus(b).hash_node_calls
            >= b.hash_node_calls,
{
}

/// Every counter of a sum is the sum of the two counters, and there is such a sum
/// exactly if each of them fits its counter.
pub proof fn law_cost_sum_adds_every_counter(a: OperationCost, b: OperationCost)
    ensures
        a.fits(b) <==> {
            &&& a.seek_count + b.seek_count < 0x1_0000
            &&& a.storage_written_bytes + b.storage_written_bytes < 0x1_0000_0000
            &&& a.storage_loaded_bytes + b.storage_loaded_bytes < 0x1_0000_0000
            &&& a.loaded_bytes + b.loaded_bytes < 0x1_0000_0000
            &&& a.hash_byte_calls + b.hash_byte_calls < 0x1_0000_0000
            &&& a.hash_node_calls + b.hash_node_calls < 0x1_0000
        },
        a.fits(b) ==> {
            &&& a.plus(b).seek_count == a.seek_count + b.seek_count
            &&& a.plus(b).storage_written_bytes == a.storage_written_bytes + b.storage_written_bytes
            &&& a.plus(b).storage_loaded_bytes == a.storage_loaded_bytes + b.storage_loaded_bytes
            &&& a.plus(b).loaded_bytes == a.loaded_bytes + b.loaded_bytes
            &&& a.plus(b).hash_byte_calls == a.hash_byte_calls + b.hash_byte_calls
            &&& a.plus(b).hash_node_calls == a.hash_node_calls + b.hash_node_calls
        },
{
}

} // verus!
