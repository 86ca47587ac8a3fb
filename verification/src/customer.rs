//! A customer: an immutable record of a first name, a last name and the
//! number of items the customer will buy when served.

use vstd::prelude::*;

verus! {

/// Abstract value of a [`Customer`]: the two names as character sequences
/// and the item count as a mathematical integer.
#[verifier::ext_equal]
pub struct CustomerData {
    pub first: Seq<char>,
    pub last: Seq<char>,
    pub items: nat,
}

impl CustomerData {
    /// The full name: first and last name joined by a single space.
    /// Customer identity and ordering go by this value alone; the item
    /// count is deliberately excluded.
    pub open spec fn full_name(self) -> Seq<char> {
        self.first + seq![' '] + self.last
    }
}

/// One person waiting to be served, carrying the number of items that will
/// be deducted from the shop's stock on service. Immutable once built.
pub struct Customer {
    first_name: String,
    last_name: String,
    no_items: usize,
}

impl View for Customer {
    type V = CustomerData;

    closed spec fn view(&self) -> CustomerData {
        CustomerData {
            first: self.first_name@,
            last: self.last_name@,
            items: self.no_items as nat,
        }
    }
}

impl Customer {
    /// Builds a customer from its three fields. Always succeeds: name
    /// content and item range are the caller's business, not this layer's.
    pub fn new(first_name: String, last_name: String, no_items: usize) -> (c: Customer)
        ensures
            c@ == (CustomerData {
                first: first_name@,
                last: last_name@,
                items: no_items as nat,
            }),
    {
        Customer { first_name, last_name, no_items }
    }

    pub fn first_name(&self) -> (r: &str)
        ensures
            r@ == self@.first,
    {
        self.first_name.as_str()
    }

    pub fn last_name(&self) -> (r: &str)
        ensures
            r@ == self@.last,
    {
        self.last_name.as_str()
    }

    /// The space-joined full name.
    pub fn full_name(&self) -> (r: String)
        ensures
            r@ == self@.full_name(),
    {
        proof {
            reveal_strlit(" ");
        }
        let mut s = self.first_name.clone();
        s.append(" ");
        s.append(self.last_name.as_str());
        proof {
            assert(s@ =~= self@.full_name());
        }
        s
    }

    pub fn no_items(&self) -> (r: usize)
        ensures
            r as nat == self@.items,
    {
        self.no_items
    }
}

impl Customer {
    /// The item count of any real customer fits a machine word.
    pub proof fn lemma_view_bounded(&self)
        ensures
            self@.items <= usize::MAX,
    {
    }
}

impl Clone for Customer {
    /// A field-for-field copy; the copy has the same abstract value.
    fn clone(&self) -> (r: Self)
        ensures
            r@ == self@,
    {
        Customer {
            first_name: self.first_name.clone(),
            last_name: self.last_name.clone(),
            no_items: self.no_items,
        }
    }
}

impl PartialEq for Customer {
    /// Two customers are equal exactly when their full names are equal:
    /// the item count plays no part in identity.
    fn eq(&self, other: &Self) -> (r: bool) {
        self.full_name() == other.full_name()
    }
}

impl vstd::std_specs::cmp::PartialEqSpecImpl for Customer {
    open spec fn obeys_eq_spec() -> bool {
        true
    }

    open spec fn eq_spec(&self, other: &Self) -> bool {
        self@.full_name() == other@.full_name()
    }
}

} // verus!
