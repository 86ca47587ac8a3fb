//! A food queue: an order-preserving, capacity-bounded container of
//! customers. The front of the queue (position 0) is the next to be served.

use vstd::prelude::*;

use crate::customer::{Customer, CustomerData};

verus! {

/// Abstract value of a [`FoodQueue`]: its stable identifier, its fixed
/// capacity, and its members front to back.
#[verifier::ext_equal]
pub struct QueueData {
    pub id: nat,
    pub capacity: nat,
    pub members: Seq<CustomerData>,
}

impl QueueData {
    /// The one queue invariant: the member count never exceeds the capacity.
    pub open spec fn wf(self) -> bool {
        self.members.len() <= self.capacity
    }
}

/// The closed set of queue-level failures.
#[derive(Clone, Copy, Debug, PartialEq, Eq, Structural)]
pub enum FoodQueueError {
    /// An addition was attempted on a queue whose length equals its capacity.
    Full,
    /// A removal was attempted on a queue with no members.
    Empty,
    /// A position at or past the end of the queue was named.
    CustomerNotFound,
}

/// A fixed-capacity queue of customers. Created once, with its identifier,
/// when the shop is built; only emptied and refilled afterwards.
pub struct FoodQueue {
    id: usize,
    queue: Vec<Customer>,
    capacity: usize,
}

impl View for FoodQueue {
    type V = QueueData;

    closed spec fn view(&self) -> QueueData {
        QueueData {
            id: self.id as nat,
            capacity: self.capacity as nat,
            members: self.queue@.map_values(|c: Customer| c@),
        }
    }
}

impl FoodQueue {
    /// Builds an empty queue with the given identifier and capacity.
    pub fn new(id: usize, capacity: usize) -> (q: FoodQueue)
        ensures
            q@ == (QueueData { id: id as nat, capacity: capacity as nat, members: Seq::empty() }),
            q@.wf(),
    {
        let q = FoodQueue { id, queue: Vec::new(), capacity };
        proof {
            assert(q@.members =~= Seq::<CustomerData>::empty());
        }
        q
    }

    pub fn capacity(&self) -> (r: usize)
        ensures
            r as nat == self@.capacity,
    {
        self.capacity
    }

    pub fn id(&self) -> (r: usize)
        ensures
            r as nat == self@.id,
    {
        self.id
    }

    /// Read-only view of the members, front to back.
    pub fn view_data(&self) -> (r: &[Customer])
        ensures
            r@.map_values(|c: Customer| c@) == self@.members,
    {
        self.queue.as_slice()
    }

    /// A queue is full exactly when its length has reached its capacity.
    pub fn is_full(&self) -> (r: bool)
        requires
            self@.wf(),
        ensures
            r == (self@.members.len() == self@.capacity),
    {
        self.queue.len() >= self.capacity
    }

    pub fn is_empty(&self) -> (r: bool)
        ensures
            r == (self@.members.len() == 0),
    {
        self.queue.len() == 0
    }

    pub fn len(&self) -> (r: usize)
        ensures
            r as nat == self@.members.len(),
    {
        self.queue.len()
    }

    /// Appends a customer at the back, unless the queue is full.
    pub fn add_customer(&mut self, customer: Customer) -> (r: Result<(), FoodQueueError>)
        requires
            old(self)@.wf(),
        ensures
            final(self)@.wf(),
            old(self)@.members.len() == old(self)@.capacity ==> r == Err::<(),
            FoodQueueError>(FoodQueueError::Full) && final(self)@ == old(self)@,
            old(self)@.members.len() < old(self)@.capacity ==> r == Ok::<(), FoodQueueError>(())
                && final(self)@ == (QueueData {
                members: old(self)@.members.push(customer@),
                ..old(self)@
            }),
    {
        if self.is_full() {
            return Err(FoodQueueError::Full);
        }
        let ghost pre = self.queue@;
        self.queue.push(customer);
        proof {
            assert(self@.members =~= pre.map_values(|c: Customer| c@).push(customer@));
        }
        Ok(())
    }

    /// Removes and returns the customer at `customer_pos`, shifting all
    /// later members one position towards the front. An empty queue fails
    /// with `Empty`; a position past the end fails with `CustomerNotFound`;
    /// a failing call leaves the queue untouched.
    pub fn remove_customer(&mut self, customer_pos: usize) -> (r: Result<
        Customer,
        FoodQueueError,
    >)
        requires
            old(self)@.wf(),
        ensures
            final(self)@.wf(),
            old(self)@.members.len() == 0 ==> r == Err::<Customer, FoodQueueError>(
                FoodQueueError::Empty,
            ) && final(self)@ == old(self)@,
            old(self)@.members.len() > 0 && customer_pos >= old(self)@.members.len() ==> r == Err::<
                Customer,
                FoodQueueError,
            >(FoodQueueError::CustomerNotFound) && final(self)@ == old(self)@,
            customer_pos < old(self)@.members.len() ==> (r matches Ok(c) && c@ == old(
                self,
            )@.members[customer_pos as int] && final(self)@ == (QueueData {
                members: old(self)@.members.remove(customer_pos as int),
                ..old(self)@
            })),
    {
        if self.queue.len() == 0 {
            return Err(FoodQueueError::Empty);
        }
        if customer_pos >= self.queue.len() {
            return Err(FoodQueueError::CustomerNotFound);
        }
        let ghost pre = self.queue@;
        let customer = self.queue.remove(customer_pos);
        proof {
            assert(self@.members =~= pre.map_values(|c: Customer| c@).remove(
                customer_pos as int,
            ));
        }
        Ok(customer)
    }

    /// The identifier, capacity, member count and every member's item
    /// count of any real queue fit a machine word.
    pub proof fn lemma_view_bounded(&self)
        ensures
            self@.id <= usize::MAX,
            self@.capacity <= usize::MAX,
            self@.members.len() <= usize::MAX,
            forall|k: int|
                0 <= k < self@.members.len() ==> (#[trigger] self@.members[k]).items
                    <= usize::MAX,
    {
        assert(self.queue@.len() == vstd::std_specs::vec::spec_vec_len(&self.queue));
        assert forall|k: int| 0 <= k < self@.members.len() implies (
        #[trigger] self@.members[k]).items <= usize::MAX by {
            self.queue@[k].lemma_view_bounded();
        }
    }

    /// Read-only access to the customer at `customer_pos`; a position past
    /// the end fails with `CustomerNotFound`.
    pub fn get_customer(&self, customer_pos: usize) -> (r: Result<&Customer, FoodQueueError>)
        ensures
            customer_pos < self@.members.len() ==> (r matches Ok(c) && c@
                == self@.members[customer_pos as int]),
            customer_pos >= self@.members.len() ==> r == Err::<&Customer, FoodQueueError>(
                FoodQueueError::CustomerNotFound,
            ),
    {
        if customer_pos >= self.queue.len() {
            return Err(FoodQueueError::CustomerNotFound);
        }
        Ok(&self.queue[customer_pos])
    }
}

} // verus!
