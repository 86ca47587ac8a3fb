//! The shop: the aggregate of all queues plus the shared stock counter.
//! It owns the admission policy, the cross-queue service operation and the
//! sorted global view; it is the sole path to queue mutation.

use vstd::prelude::*;

use crate::customer::Customer;
use crate::food_queue::{FoodQueue, FoodQueueError, QueueData};
use crate::digits::{nat_digits, parse_usize};
use crate::lines::{join_all, split_all};
use crate::persist::{
    lemma_parse_queues_wf, lemma_queues_lines_push, parse_queues_exec, parse_text, push_line,
    push_queue_lines, queue_saveable, queues_lines, save_text, shop_lines, shop_names_ok,
    shop_saveable,
};
use crate::sorting::{flatten_members, insert_in_order, stable_sort};

verus! {

/// Stock level below which the presentation layer warns.
pub const STOCK_LOW_THRESHOLD: usize = 10;

/// Stock ceiling that the presentation layer enforces before restocking;
/// the shop itself accepts any increase (mechanism, not policy).
pub const STOCK_MAX_THRESHOLD: usize = 50;

/// Price of one item, for the presentation layer's displays.
pub const ITEM_PRICE: usize = 500;

/// Abstract value of a [`Shop`]: the queues in identifier order and the
/// shared stock counter.
#[verifier::ext_equal]
pub struct ShopData {
    pub queues: Seq<QueueData>,
    pub stock: nat,
}

impl ShopData {
    /// Every queue keeps its length within its capacity, and queue
    /// identifiers equal their positions, in ascending construction order.
    pub open spec fn wf(self) -> bool {
        forall|i: int|
            0 <= i < self.queues.len() ==> (#[trigger] self.queues[i]).wf() && self.queues[i].id
                == i
    }
}

/// The closed set of shop-level failures.
#[derive(Clone, Copy, Debug, PartialEq, Eq, Structural)]
pub enum ShopError {
    /// Admission found no queue with spare capacity.
    Full,
    /// A queue identifier out of range of the queue list was named.
    QueueNotFound,
    /// Serving the named customer would take the stock below zero.
    StockInsufficient,
    /// A queue-level failure, preserved for the caller.
    QueueError(FoodQueueError),
}

/// Which queue admission picks: scanning queues `0..n`, the first queue
/// with spare capacity whose length no later spare queue undercuts.
pub open spec fn choice_upto(queues: Seq<QueueData>, n: int) -> Option<int>
    decreases n,
{
    if n <= 0 {
        None
    } else {
        let prev = choice_upto(queues, n - 1);
        let i = n - 1;
        if queues[i].members.len() >= queues[i].capacity {
            prev
        } else {
            match prev {
                None => Some(i),
                Some(j) => if queues[i].members.len() < queues[j].members.len() {
                    Some(i)
                } else {
                    Some(j)
                },
            }
        }
    }
}

/// The queue that the admission policy selects: among the queues that are
/// not full, one of minimal length, ties broken by the smallest identifier.
pub open spec fn admit_choice(queues: Seq<QueueData>) -> Option<int> {
    choice_upto(queues, queues.len() as int)
}

proof fn lemma_choice_upto(queues: Seq<QueueData>, n: int)
    requires
        0 <= n <= queues.len(),
    ensures
        choice_upto(queues, n) matches Some(k) ==> 0 <= k < n && queues[k].members.len()
            < queues[k].capacity && forall|j: int|
            0 <= j < n && queues[j].members.len() < queues[j].capacity
                ==> queues[k].members.len() <= (#[trigger] queues[j]).members.len() && (
            queues[j].members.len() == queues[k].members.len() ==> k <= j),
        choice_upto(queues, n) is None ==> forall|j: int|
            0 <= j < n ==> (#[trigger] queues[j]).members.len() >= queues[j].capacity,
    decreases n,
{
    if n > 0 {
        lemma_choice_upto(queues, n - 1);
    }
}

/// The admission policy selects, among the queues that are not full, one
/// with minimal length; when several tie, the one with the smallest
/// identifier. It fails exactly when every queue is full.
pub proof fn lemma_admit_choice_minimal(queues: Seq<QueueData>)
    ensures
        admit_choice(queues) matches Some(k) ==> 0 <= k < queues.len() && queues[k].members.len()
            < queues[k].capacity && forall|j: int|
            0 <= j < queues.len() && queues[j].members.len() < queues[j].capacity
                ==> queues[k].members.len() <= (#[trigger] queues[j]).members.len() && (
            queues[j].members.len() == queues[k].members.len() ==> k <= j),
        admit_choice(queues) is None ==> forall|j: int|
            0 <= j < queues.len() ==> (#[trigger] queues[j]).members.len()
                >= queues[j].capacity,
{
    lemma_choice_upto(queues, queues.len() as int);
}

/// The shop. Built once from a layout of queue capacities; stock starts
/// at zero and is adjusted only by serving and restocking.
pub struct Shop {
    queues: Vec<FoodQueue>,
    stock: usize,
}

impl View for Shop {
    type V = ShopData;

    closed spec fn view(&self) -> ShopData {
        ShopData {
            queues: self.queues@.map_values(|q: FoodQueue| q@),
            stock: self.stock as nat,
        }
    }
}

impl Shop {
    /// Builds one empty queue per layout entry, with identifiers equal to
    /// positions, and a stock of zero.
    pub fn new(queue_layout: &[usize]) -> (s: Shop)
        ensures
            s@.wf(),
            s@.stock == 0,
            s@.queues.len() == queue_layout@.len(),
            forall|i: int|
                0 <= i < queue_layout@.len() ==> #[trigger] s@.queues[i] == (QueueData {
                    id: i as nat,
                    capacity: queue_layout@[i] as nat,
                    members: Seq::empty(),
                }),
    {
        let mut queues: Vec<FoodQueue> = Vec::new();
        let n = queue_layout.len();
        for i in 0..n
            invariant
                n == queue_layout@.len(),
                queues@.len() == i,
                forall|j: int|
                    0 <= j < i ==> #[trigger] queues@[j]@ == (QueueData {
                        id: j as nat,
                        capacity: queue_layout@[j] as nat,
                        members: Seq::empty(),
                    }),
        {
            queues.push(FoodQueue::new(i, queue_layout[i]));
        }
        Shop { queues, stock: 0 }
    }

    pub fn stock(&self) -> (r: usize)
        ensures
            r as nat == self@.stock,
    {
        self.stock
    }

    fn set_stock(&mut self, stock: usize)
        ensures
            final(self)@ == (ShopData { stock: stock as nat, ..old(self)@ }),
    {
        self.stock = stock;
    }

    /// Increases the stock by `amount`, unconditionally: any ceiling is the
    /// calling policy's business.
    pub fn restock(&mut self, amount: usize)
        requires
            old(self)@.stock + amount <= usize::MAX,
        ensures
            final(self)@ == (ShopData {
                stock: (old(self)@.stock + amount) as nat,
                ..old(self)@
            }),
    {
        self.stock = self.stock + amount;
    }

    /// The number of queues.
    pub fn len(&self) -> (r: usize)
        ensures
            r as nat == self@.queues.len(),
    {
        self.queues.len()
    }

    /// Read-only view of all queues, in identifier order.
    pub fn view_data(&self) -> (r: &[FoodQueue])
        ensures
            r@.map_values(|q: FoodQueue| q@) == self@.queues,
    {
        self.queues.as_slice()
    }

    /// Admission: appends the customer to the queue that `admit_choice`
    /// names; fails with `Full` exactly when every queue is full. The
    /// stock is untouched either way.
    pub fn add_customer(&mut self, customer: Customer) -> (r: Result<(), ShopError>)
        requires
            old(self)@.wf(),
        ensures
            final(self)@.wf(),
            final(self)@.stock == old(self)@.stock,
            admit_choice(old(self)@.queues) is None ==> r == Err::<(), ShopError>(ShopError::Full)
                && final(self)@ == old(self)@,
            admit_choice(old(self)@.queues) matches Some(k) ==> r == Ok::<(), ShopError>(())
                && final(self)@.queues == old(self)@.queues.update(
                k,
                QueueData {
                    members: old(self)@.queues[k].members.push(customer@),
                    ..old(self)@.queues[k]
                },
            ),
    {
        let ghost qdata = self@.queues;
        let n = self.queues.len();
        let mut best: Option<usize> = None;
        for i in 0..n
            invariant
                self@.wf(),
                qdata == self@.queues,
                n == qdata.len(),
                match best {
                    None => choice_upto(qdata, i as int) is None,
                    Some(b) => b < i && choice_upto(qdata, i as int) == Some(b as int),
                },
        {
            if !self.queues[i].is_full() {
                match best {
                    None => { best = Some(i) },
                    Some(b) => {
                        if self.queues[i].len() < self.queues[b].len() {
                            best = Some(i);
                        }
                    },
                }
            }
        }
        match best {
            None => Err(ShopError::Full),
            Some(b) => {
                proof {
                    lemma_admit_choice_minimal(qdata);
                }
                let q = &mut self.queues[b];
                let added = q.add_customer(customer);
                proof {
                    assert(added is Ok);
                    assert(self@.queues =~= old(self)@.queues.update(
                        b as int,
                        QueueData {
                            members: old(self)@.queues[b as int].members.push(customer@),
                            ..old(self)@.queues[b as int]
                        },
                    ));
                }
                Ok(())
            },
        }
    }

    /// Removes and returns the customer at `customer_pos` in queue
    /// `queue_no`, wrapping any queue-level failure in `QueueError` and
    /// leaving the shop untouched on failure.
    pub fn remove_customer(&mut self, queue_no: usize, customer_pos: usize) -> (r: Result<
        Customer,
        ShopError,
    >)
        requires
            old(self)@.wf(),
        ensures
            final(self)@.wf(),
            final(self)@.stock == old(self)@.stock,
            queue_no >= old(self)@.queues.len() ==> r == Err::<Customer, ShopError>(
                ShopError::QueueNotFound,
            ) && final(self)@ == old(self)@,
            queue_no < old(self)@.queues.len() ==> {
                let members = old(self)@.queues[queue_no as int].members;
                &&& members.len() == 0 ==> r == Err::<Customer, ShopError>(
                    ShopError::QueueError(FoodQueueError::Empty),
                ) && final(self)@ == old(self)@
                &&& members.len() > 0 && customer_pos >= members.len() ==> r == Err::<
                    Customer,
                    ShopError,
                >(ShopError::QueueError(FoodQueueError::CustomerNotFound)) && final(self)@ == old(
                    self,
                )@
                &&& customer_pos < members.len() ==> (r matches Ok(c) && c@
                    == members[customer_pos as int] && final(self)@.queues
                    == old(self)@.queues.update(
                    queue_no as int,
                    QueueData {
                        members: members.remove(customer_pos as int),
                        ..old(self)@.queues[queue_no as int]
                    },
                ))
            },
    {
        if queue_no >= self.queues.len() {
            return Err(ShopError::QueueNotFound);
        }
        proof {
            assert(old(self)@.queues[queue_no as int].wf());
        }
        let q = &mut self.queues[queue_no];
        let removed = q.remove_customer(customer_pos);
        proof {
            assert(self@.queues =~= old(self)@.queues.update(
                queue_no as int,
                self.queues@[queue_no as int]@,
            ));
            assert forall|j: int| 0 <= j < self@.queues.len() implies (
            #[trigger] self@.queues[j]).wf() && self@.queues[j].id == j by {
                assert(old(self)@.queues[j].wf() && old(self)@.queues[j].id == j);
            }
            if removed is Err {
                assert(self@ =~= old(self)@);
            }
        }
        match removed {
            Ok(customer) => Ok(customer),
            Err(e) => Err(ShopError::QueueError(e)),
        }
    }

    /// All customers across all queues, sorted by full name: a total,
    /// stable ordering — customers with equal full names keep their
    /// flatten order (queue index ascending, then in-queue position).
    pub fn get_sorted_customers(&self) -> (r: Vec<Customer>)
        ensures
            r@.map_values(|c: Customer| c@) == stable_sort(flatten_members(self@.queues)),
    {
        let ghost qdata = self@.queues;
        let mut flat: Vec<Customer> = Vec::new();
        let n = self.queues.len();
        proof {
            assert(flat@.map_values(|c: Customer| c@) =~= flatten_members(qdata.take(0)));
        }
        for i in 0..n
            invariant
                qdata == self@.queues,
                n == qdata.len(),
                flat@.map_values(|c: Customer| c@) == flatten_members(qdata.take(i as int)),
        {
            let q = self.queues[i].view_data();
            let m = q.len();
            for j in 0..m
                invariant
                    qdata == self@.queues,
                    i < qdata.len(),
                    q@.map_values(|c: Customer| c@) == qdata[i as int].members,
                    m == qdata[i as int].members.len(),
                    flat@.map_values(|c: Customer| c@) == flatten_members(qdata.take(i as int))
                        + qdata[i as int].members.take(j as int),
            {
                let ghost prevflat = flat@.map_values(|c: Customer| c@);
                flat.push(q[j].clone());
                proof {
                    let members = qdata[i as int].members;
                    assert(flat@.map_values(|c: Customer| c@) =~= prevflat.push(
                        members[j as int],
                    ));
                    assert(members.take(j + 1) =~= members.take(j as int).push(
                        members[j as int],
                    ));
                    assert(flat@.map_values(|c: Customer| c@) =~= flatten_members(qdata.take(
                        i as int,
                    )) + members.take(j + 1));
                }
            }
            proof {
                assert(qdata.take(i + 1).drop_last() =~= qdata.take(i as int));
                assert(qdata.take(i + 1).last() == qdata[i as int]);
                assert(qdata[i as int].members.take(m as int) =~= qdata[i as int].members);
                assert(flat@.map_values(|c: Customer| c@) =~= flatten_members(qdata.take(i + 1)));
            }
        }
        proof {
            assert(qdata.take(n as int) =~= qdata);
        }
        let ghost flatdata = flat@.map_values(|c: Customer| c@);
        let mut sorted_vec: Vec<Customer> = Vec::new();
        let ghost total = flatdata.len();
        let mut k: usize = 0;
        proof {
            assert(flat@.len() == vstd::std_specs::vec::spec_vec_len(&flat));
            assert(sorted_vec@.map_values(|c: Customer| c@) =~= stable_sort(flatdata.take(0)));
            assert(flat@.map_values(|c: Customer| c@) =~= flatdata.skip(0));
        }
        while flat.len() > 0
            invariant
                k as int + flat@.len() == total,
                total == flatdata.len(),
                total <= usize::MAX,
                flat@.map_values(|c: Customer| c@) == flatdata.skip(k as int),
                sorted_vec@.map_values(|c: Customer| c@) == stable_sort(flatdata.take(k as int)),
            decreases flat@.len(),
        {
            let ghost prevrest = flat@.map_values(|c: Customer| c@);
            let c = flat.remove(0);
            proof {
                assert(c@ == flatdata.skip(k as int)[0]);
                assert(c@ == flatdata[k as int]);
                assert(flat@.map_values(|c: Customer| c@) =~= prevrest.remove(0));
                assert(prevrest.remove(0) =~= flatdata.skip(k + 1));
            }
            insert_in_order(&mut sorted_vec, c);
            proof {
                assert(flatdata.take(k + 1).drop_last() =~= flatdata.take(k as int));
                assert(flatdata.take(k + 1).last() == flatdata[k as int]);
            }
            k = k + 1;
        }
        proof {
            assert(flatdata.take(total as int) =~= flatdata);
        }
        sorted_vec
    }

    /// Serves the front customer of queue `queue_no`: checks that the
    /// stock covers the customer's items, deducts them, and removes and
    /// returns the customer. A failing call — unknown queue, empty queue,
    /// or too little stock — changes nothing: the stock is never driven
    /// below zero and is never touched unless the removal happens.
    pub fn serve_customer(&mut self, queue_no: usize) -> (r: Result<Customer, ShopError>)
        requires
            old(self)@.wf(),
        ensures
            final(self)@.wf(),
            queue_no >= old(self)@.queues.len() ==> r == Err::<Customer, ShopError>(
                ShopError::QueueNotFound,
            ) && final(self)@ == old(self)@,
            queue_no < old(self)@.queues.len() ==> {
                let members = old(self)@.queues[queue_no as int].members;
                &&& members.len() == 0 ==> r == Err::<Customer, ShopError>(
                    ShopError::QueueError(FoodQueueError::Empty),
                ) && final(self)@ == old(self)@
                &&& members.len() > 0 && old(self)@.stock < members[0].items ==> r == Err::<
                    Customer,
                    ShopError,
                >(ShopError::StockInsufficient) && final(self)@ == old(self)@
                &&& members.len() > 0 && old(self)@.stock >= members[0].items ==> (r matches Ok(c)
                    && c@ == members[0] && final(self)@.stock == old(self)@.stock - members[0].items
                    && final(self)@.queues == old(self)@.queues.update(
                    queue_no as int,
                    QueueData {
                        members: members.remove(0),
                        ..old(self)@.queues[queue_no as int]
                    },
                ))
            },
    {
        if queue_no >= self.queues.len() {
            return Err(ShopError::QueueNotFound);
        }
        if self.queues[queue_no].is_empty() {
            return Err(ShopError::QueueError(FoodQueueError::Empty));
        }
        let front = match self.queues[queue_no].get_customer(0) {
            Ok(c) => c,
            Err(_) => { return Err(ShopError::QueueNotFound) },
        };
        let weight = front.no_items();
        if self.stock < weight {
            return Err(ShopError::StockInsufficient);
        }
        let new_stock = self.stock - weight;
        self.set_stock(new_stock);
        match self.remove_customer(queue_no, 0) {
            Ok(customer) => Ok(customer),
            Err(_) => {
                proof {
                    assert(false);
                }
                Err(ShopError::QueueNotFound)
            },
        }
    }

    /// Writes the whole state as the save text: the stock, the queue
    /// count, then each queue's identifier, capacity, member count and
    /// members, one value per line.
    pub fn save_data(&self) -> (r: String)
        ensures
            r@ == save_text(self@),
    {
        let ghost qdata = self@.queues;
        let mut out: Vec<String> = Vec::new();
        push_line(&mut out, crate::digits::usize_to_string(self.stock));
        push_line(&mut out, crate::digits::usize_to_string(self.queues.len()));
        let ghost header = seq![nat_digits(self@.stock), nat_digits(qdata.len())];
        let n = self.queues.len();
        proof {
            assert(queues_lines(qdata.take(0)) =~= Seq::<Seq<char>>::empty());
            assert(out@.map_values(|l: String| l@) =~= header + queues_lines(qdata.take(0)));
        }
        for i in 0..n
            invariant
                qdata == self@.queues,
                n == qdata.len(),
                out@.map_values(|l: String| l@) == header + queues_lines(qdata.take(i as int)),
        {
            push_queue_lines(&mut out, &self.queues[i]);
            proof {
                assert(qdata.take(i + 1) =~= qdata.take(i as int).push(qdata[i as int]));
                lemma_queues_lines_push(qdata.take(i as int), qdata[i as int]);
                assert(out@.map_values(|l: String| l@) =~= header + queues_lines(qdata.take(
                    i + 1,
                )));
            }
        }
        proof {
            assert(qdata.take(n as int) =~= qdata);
            assert(out@.map_values(|l: String| l@) =~= shop_lines(self@));
        }
        join_all(&out)
    }

    /// Reads a save text and replaces the whole state with what it
    /// carries: stock, queues and members alike. A short or malformed
    /// text — a non-numeric line where a number is expected, a missing
    /// line, an identifier out of order, a member count past the
    /// capacity — changes nothing and reports failure.
    pub fn load_data(&mut self, data: &str) -> (ok: bool)
        ensures
            match parse_text(data@) {
                Some(d) => ok && final(self)@ == d && final(self)@.wf(),
                None => !ok && final(self)@ == old(self)@,
            },
    {
        let lines = split_all(data);
        let ghost ldata = lines@.map_values(|l: String| l@);
        if lines.len() < 2 {
            return false;
        }
        let stock = match parse_usize(lines[0].as_str()) {
            Some(v) => v,
            None => {
                return false;
            },
        };
        let n = match parse_usize(lines[1].as_str()) {
            Some(v) => v,
            None => {
                return false;
            },
        };
        match parse_queues_exec(&lines, 2, n, 0) {
            None => false,
            Some((queues, _)) => {
                proof {
                    lemma_parse_queues_wf(ldata, 2, n as int, 0);
                }
                self.queues = queues;
                self.stock = stock;
                proof {
                    let d = parse_text(data@)->0;
                    assert(self@ =~= d);
                    assert forall|i: int| 0 <= i < self@.queues.len() implies (
                    #[trigger] self@.queues[i]).wf() && self@.queues[i].id == i by {}
                }
                true
            },
        }
    }

    /// Any well-formed shop whose names hide no line break is carried
    /// faithfully by the save format: with the round trip on texts, a
    /// save followed by a load reproduces the state exactly.
    pub proof fn lemma_saveable(&self)
        requires
            self@.wf(),
            shop_names_ok(self@),
        ensures
            shop_saveable(self@),
            parse_text(save_text(self@)) == Some(self@),
    {
        assert(self.queues@.len() == vstd::std_specs::vec::spec_vec_len(&self.queues));
        assert forall|i: int| 0 <= i < self@.queues.len() implies queue_saveable(
            #[trigger] self@.queues[i],
        ) && self@.queues[i].id == i by {
            self.queues@[i].lemma_view_bounded();
            assert(self@.queues[i].wf());
        }
        crate::persist::lemma_save_load_round_trip(self@);
    }
}

} // verus!
