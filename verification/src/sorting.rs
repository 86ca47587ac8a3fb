//! The customer order and the stable sort behind the shop's sorted view.
//!
//! Customers are ordered lexicographically by full name alone; the sort is
//! stable, so customers with equal full names keep their original relative
//! order (queue index ascending, then in-queue position).

use vstd::prelude::*;

use crate::customer::{Customer, CustomerData};
use crate::food_queue::QueueData;

verus! {

/// Strict lexicographic order on character sequences, by code point.
pub open spec fn lex_lt(a: Seq<char>, b: Seq<char>) -> bool
    decreases a.len(),
{
    if b.len() == 0 {
        false
    } else if a.len() == 0 {
        true
    } else if a[0] != b[0] {
        a[0] < b[0]
    } else {
        lex_lt(a.drop_first(), b.drop_first())
    }
}

/// The customer order: strictly lexicographic by full name; the item count
/// plays no part.
pub open spec fn name_lt(a: CustomerData, b: CustomerData) -> bool {
    lex_lt(a.full_name(), b.full_name())
}

/// No sequence is strictly below itself.
pub proof fn lemma_lex_lt_irrefl(a: Seq<char>)
    ensures
        !lex_lt(a, a),
    decreases a.len(),
{
    if a.len() > 0 {
        lemma_lex_lt_irrefl(a.drop_first());
    }
}

/// The order is total: two sequences are strictly ordered one way or the
/// other, or they are equal.
pub proof fn lemma_lex_lt_total(a: Seq<char>, b: Seq<char>)
    ensures
        lex_lt(a, b) || lex_lt(b, a) || a == b,
    decreases a.len(),
{
    if b.len() == 0 {
        if a.len() == 0 {
            assert(a =~= b);
        } else {
            assert(lex_lt(b, a));
        }
    } else if a.len() == 0 {
        assert(lex_lt(a, b));
    } else if a[0] != b[0] {
        assert(lex_lt(a, b) || lex_lt(b, a));
    } else {
        lemma_lex_lt_total(a.drop_first(), b.drop_first());
        if lex_lt(a.drop_first(), b.drop_first()) {
            assert(lex_lt(a, b));
        } else if lex_lt(b.drop_first(), a.drop_first()) {
            assert(lex_lt(b, a));
        } else {
            assert forall|i: int| 0 <= i < a.len() implies a[i] == b[i] by {
                if i > 0 {
                    assert(a[i] == a.drop_first()[i - 1]);
                    assert(b[i] == b.drop_first()[i - 1]);
                }
            }
            assert(a =~= b);
        }
    }
}

/// The order is asymmetric.
pub proof fn lemma_lex_lt_asymmetric(a: Seq<char>, b: Seq<char>)
    ensures
        !(lex_lt(a, b) && lex_lt(b, a)),
    decreases a.len(),
{
    if a.len() > 0 && b.len() > 0 && a[0] == b[0] {
        lemma_lex_lt_asymmetric(a.drop_first(), b.drop_first());
    }
}

/// The order is transitive.
pub proof fn lemma_lex_lt_trans(a: Seq<char>, b: Seq<char>, c: Seq<char>)
    requires
        lex_lt(a, b),
        lex_lt(b, c),
    ensures
        lex_lt(a, c),
    decreases a.len(),
{
    if a.len() > 0 && b.len() > 0 && c.len() > 0 && a[0] == b[0] && b[0] == c[0] {
        lemma_lex_lt_trans(a.drop_first(), b.drop_first(), c.drop_first());
    }
}

/// The customer order is total and asymmetric: two customers are strictly
/// ordered one way or the other, or they share a full name (in which case
/// neither is below the other — the item count never separates them).
pub proof fn lemma_name_order_total(a: CustomerData, b: CustomerData)
    ensures
        name_lt(a, b) || name_lt(b, a) || a.full_name() == b.full_name(),
        !(name_lt(a, b) && name_lt(b, a)),
        a.full_name() == b.full_name() ==> !name_lt(a, b) && !name_lt(b, a),
{
    lemma_lex_lt_total(a.full_name(), b.full_name());
    lemma_lex_lt_asymmetric(a.full_name(), b.full_name());
    lemma_lex_lt_irrefl(a.full_name());
}

/// Ascending by full name, front to back: no later member is strictly
/// below an earlier one.
pub open spec fn sorted_by_name(s: Seq<CustomerData>) -> bool {
    forall|i: int, j: int| 0 <= i < j < s.len() ==> !name_lt(s[j], s[i])
}

/// Stable insertion of `c` into `t`: scanning from the back, `c` passes
/// every member it is strictly below and lands after all the others —
/// in particular after every member with the same full name.
pub open spec fn insert_sorted(t: Seq<CustomerData>, c: CustomerData) -> Seq<CustomerData>
    decreases t.len(),
{
    if t.len() > 0 && name_lt(c, t.last()) {
        insert_sorted(t.drop_last(), c).push(t.last())
    } else {
        t.push(c)
    }
}

/// The stable insertion sort by full name.
pub open spec fn stable_sort(s: Seq<CustomerData>) -> Seq<CustomerData>
    decreases s.len(),
{
    if s.len() == 0 {
        Seq::empty()
    } else {
        insert_sorted(stable_sort(s.drop_last()), s.last())
    }
}

proof fn lemma_insert_sorted_membership(t: Seq<CustomerData>, c: CustomerData)
    ensures
        insert_sorted(t, c).len() == t.len() + 1,
        forall|k: int|
            0 <= k < t.len() + 1 ==> (#[trigger] insert_sorted(t, c)[k]) == c || exists|m: int|
                0 <= m < t.len() && t[m] == insert_sorted(t, c)[k],
    decreases t.len(),
{
    if t.len() > 0 && name_lt(c, t.last()) {
        lemma_insert_sorted_membership(t.drop_last(), c);
        let r0 = insert_sorted(t.drop_last(), c);
        let r = insert_sorted(t, c);
        assert forall|k: int| 0 <= k < t.len() + 1 implies (#[trigger] r[k]) == c || exists|m: int|
            0 <= m < t.len() && t[m] == r[k] by {
            if k < r0.len() {
                assert(r[k] == r0[k]);
                if r0[k] != c {
                    let m = choose|m: int| 0 <= m < t.drop_last().len() && t.drop_last()[m]
                        == r0[k];
                    assert(t[m] == r[k]);
                }
            } else {
                assert(r[k] == t.last());
                assert(t[t.len() - 1] == r[k]);
            }
        }
    }
}

proof fn lemma_insert_sorted_sorted(t: Seq<CustomerData>, c: CustomerData)
    requires
        sorted_by_name(t),
    ensures
        sorted_by_name(insert_sorted(t, c)),
    decreases t.len(),
{
    let r = insert_sorted(t, c);
    if t.len() > 0 && name_lt(c, t.last()) {
        let dl = t.drop_last();
        assert(sorted_by_name(dl)) by {
            assert forall|i: int, j: int| 0 <= i < j < dl.len() implies !name_lt(dl[j], dl[i]) by {
                assert(dl[i] == t[i] && dl[j] == t[j]);
            }
        }
        lemma_insert_sorted_sorted(dl, c);
        lemma_insert_sorted_membership(dl, c);
        let r0 = insert_sorted(dl, c);
        assert forall|i: int, j: int| 0 <= i < j < r.len() implies !name_lt(r[j], r[i]) by {
            if j < r0.len() {
                assert(r[i] == r0[i] && r[j] == r0[j]);
            } else {
                assert(r[j] == t.last() && r[i] == r0[i]);
                if r0[i] == c {
                    lemma_name_order_total(c, t.last());
                } else {
                    let m = choose|m: int| 0 <= m < dl.len() && dl[m] == r0[i];
                    assert(dl[m] == t[m]);
                    assert(!name_lt(t[t.len() - 1], t[m]));
                }
            }
        }
    } else {
        assert forall|i: int, j: int| 0 <= i < j < r.len() implies !name_lt(r[j], r[i]) by {
            if j == t.len() {
                assert(r[i] == t[i] && r[j] == c);
                if t.len() > 0 && i < t.len() - 1 {
                    assert(!name_lt(t[t.len() - 1], t[i]));
                    lemma_name_order_total(t[t.len() - 1], t[i]);
                    if name_lt(c, t[i]) {
                        if name_lt(t[i], t.last()) {
                            lemma_lex_lt_trans(
                                c.full_name(),
                                t[i].full_name(),
                                t.last().full_name(),
                            );
                        }
                    }
                }
            } else {
                assert(r[i] == t[i] && r[j] == t[j]);
            }
        }
    }
}

proof fn lemma_insert_sorted_multiset(t: Seq<CustomerData>, c: CustomerData)
    ensures
        insert_sorted(t, c).to_multiset() == t.to_multiset().insert(c),
    decreases t.len(),
{
    broadcast use vstd::seq_lib::group_to_multiset_ensures;

    if t.len() > 0 && name_lt(c, t.last()) {
        lemma_insert_sorted_multiset(t.drop_last(), c);
        assert(t =~= t.drop_last().push(t.last()));
        assert(t.drop_last().push(t.last()).to_multiset() =~= t.drop_last().to_multiset().insert(
            t.last(),
        ));
        assert(insert_sorted(t, c).to_multiset() =~= t.to_multiset().insert(c));
    }
}

/// The sorted view is ordered by full name.
pub proof fn lemma_stable_sort_sorted(s: Seq<CustomerData>)
    ensures
        sorted_by_name(stable_sort(s)),
    decreases s.len(),
{
    if s.len() > 0 {
        lemma_stable_sort_sorted(s.drop_last());
        lemma_insert_sorted_sorted(stable_sort(s.drop_last()), s.last());
    }
}

/// The sorted view is a permutation: every customer appears exactly as
/// often as in the input.
pub proof fn lemma_stable_sort_permutes(s: Seq<CustomerData>)
    ensures
        stable_sort(s).to_multiset() == s.to_multiset(),
        stable_sort(s).len() == s.len(),
    decreases s.len(),
{
    broadcast use vstd::seq_lib::group_to_multiset_ensures;

    if s.len() > 0 {
        lemma_stable_sort_permutes(s.drop_last());
        lemma_insert_sorted_multiset(stable_sort(s.drop_last()), s.last());
        lemma_insert_sorted_membership(stable_sort(s.drop_last()), s.last());
        assert(s =~= s.drop_last().push(s.last()));
        assert(s.drop_last().push(s.last()).to_multiset() =~= s.drop_last().to_multiset().insert(
            s.last(),
        ));
        assert(stable_sort(s).to_multiset() =~= s.to_multiset());
    }
}

/// The predicate selecting the customers whose full name is `key`.
pub open spec fn has_name(key: Seq<char>) -> spec_fn(CustomerData) -> bool {
    |c: CustomerData| c.full_name() == key
}

proof fn lemma_insert_sorted_filter(t: Seq<CustomerData>, c: CustomerData, key: Seq<char>)
    ensures
        c.full_name() == key ==> insert_sorted(t, c).filter(has_name(key)) == t.filter(
            has_name(key),
        ).push(c),
        c.full_name() != key ==> insert_sorted(t, c).filter(has_name(key)) == t.filter(
            has_name(key),
        ),
    decreases t.len(),
{
    reveal(Seq::filter);
    let p = has_name(key);
    if t.len() > 0 && name_lt(c, t.last()) {
        lemma_insert_sorted_filter(t.drop_last(), c, key);
        let r0 = insert_sorted(t.drop_last(), c);
        let r = r0.push(t.last());
        assert(r.drop_last() =~= r0);
        assert(r.last() == t.last());
        if c.full_name() == key && t.last().full_name() == key {
            lemma_lex_lt_irrefl(key);
            assert(false);
        }
    } else {
        let r = t.push(c);
        assert(r.drop_last() =~= t);
        assert(r.last() == c);
    }
}

/// Stability: for every full name, the sorted view lists the customers
/// bearing it in exactly the order the input did.
pub proof fn lemma_stable_sort_stable(s: Seq<CustomerData>, key: Seq<char>)
    ensures
        stable_sort(s).filter(has_name(key)) == s.filter(has_name(key)),
    decreases s.len(),
{
    reveal(Seq::filter);
    if s.len() > 0 {
        lemma_stable_sort_stable(s.drop_last(), key);
        lemma_insert_sorted_filter(stable_sort(s.drop_last()), s.last(), key);
    }
}

/// Decides the strict lexicographic order on two strings.
pub fn str_lex_lt(a: &str, b: &str) -> (r: bool)
    ensures
        r == lex_lt(a@, b@),
{
    let alen = a.unicode_len();
    let blen = b.unicode_len();
    let mut i: usize = 0;
    proof {
        assert(a@.skip(0) =~= a@);
        assert(b@.skip(0) =~= b@);
    }
    loop
        invariant
            i <= alen,
            i <= blen,
            alen == a@.len(),
            blen == b@.len(),
            lex_lt(a@, b@) == lex_lt(a@.skip(i as int), b@.skip(i as int)),
        decreases alen - i,
    {
        if i >= blen {
            return false;
        }
        if i >= alen {
            return true;
        }
        let ca = a.get_char(i);
        let cb = b.get_char(i);
        if ca != cb {
            return ca < cb;
        }
        proof {
            assert(a@.skip(i as int).drop_first() =~= a@.skip(i + 1));
            assert(b@.skip(i as int).drop_first() =~= b@.skip(i + 1));
        }
        i = i + 1;
    }
}

/// Decides the customer order: strictly below by full name.
pub fn customer_lt(a: &Customer, b: &Customer) -> (r: bool)
    ensures
        r == name_lt(a@, b@),
{
    let a_name = a.full_name();
    let b_name = b.full_name();
    str_lex_lt(a_name.as_str(), b_name.as_str())
}

/// Inserts `c` into the sorted vector `v` at its stable position.
pub fn insert_in_order(v: &mut Vec<Customer>, c: Customer)
    ensures
        final(v)@.map_values(|x: Customer| x@) == insert_sorted(
            old(v)@.map_values(|x: Customer| x@),
            c@,
        ),
{
    let ghost t = v@.map_values(|x: Customer| x@);
    let mut p: usize = v.len();
    proof {
        assert(t.take(p as int) =~= t);
        assert(insert_sorted(t.take(p as int), c@) + t.skip(p as int) =~= insert_sorted(t, c@));
    }
    while p > 0 && customer_lt(&c, &v[p - 1])
        invariant
            p <= v@.len(),
            t == v@.map_values(|x: Customer| x@),
            insert_sorted(t, c@) == insert_sorted(t.take(p as int), c@) + t.skip(p as int),
        decreases p,
    {
        proof {
            let tp = t.take(p as int);
            assert(tp.last() == t[p as int - 1]);
            assert(tp.drop_last() =~= t.take(p as int - 1));
            assert(insert_sorted(tp, c@) == insert_sorted(t.take(p as int - 1), c@).push(
                t[p as int - 1],
            ));
            assert(t.skip(p as int - 1) =~= seq![t[p as int - 1]] + t.skip(p as int));
            assert(insert_sorted(t.take(p as int - 1), c@).push(t[p as int - 1]) + t.skip(p as int)
                =~= insert_sorted(t.take(p as int - 1), c@) + t.skip(p as int - 1));
        }
        p = p - 1;
    }
    proof {
        let tp = t.take(p as int);
        if p > 0 {
            assert(tp.last() == t[p as int - 1]);
        }
        assert(insert_sorted(tp, c@) == tp.push(c@));
        assert(t.insert(p as int, c@) =~= tp.push(c@) + t.skip(p as int));
    }
    v.insert(p, c);
    proof {
        assert(v@.map_values(|x: Customer| x@) =~= t.insert(p as int, c@));
    }
}

/// All members of all queues, flattened: queue index ascending, then
/// in-queue position. This is the order the stable sort starts from.
pub open spec fn flatten_members(queues: Seq<QueueData>) -> Seq<CustomerData>
    decreases queues.len(),
{
    if queues.len() == 0 {
        Seq::empty()
    } else {
        flatten_members(queues.drop_last()) + queues.last().members
    }
}

} // verus!
