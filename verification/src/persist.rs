//! The save format: a line-based text holding the stock, the queue count,
//! and each queue's identifier, capacity, member count and members. Saving
//! writes exactly these lines; loading accepts exactly the well-formed
//! texts and reconstructs the saved state in full.

use vstd::prelude::*;

use crate::customer::{Customer, CustomerData};
use crate::digits::{line_nat, nat_digits, parse_usize, usize_to_string};
use crate::food_queue::{FoodQueue, QueueData};
use crate::lines::{all_no_newline, join_lines, no_newline, split_lines};
use crate::shop::ShopData;

verus! {

/// The three lines of one customer: first name, last name, item count.
pub open spec fn customer_lines(c: CustomerData) -> Seq<Seq<char>> {
    seq![c.first, c.last, nat_digits(c.items)]
}

/// The lines of a run of customers, in order.
pub open spec fn customers_lines(cs: Seq<CustomerData>) -> Seq<Seq<char>>
    decreases cs.len(),
{
    if cs.len() == 0 {
        Seq::empty()
    } else {
        customer_lines(cs[0]) + customers_lines(cs.drop_first())
    }
}

/// The lines of one queue: identifier, capacity, member count, then the
/// members' lines.
pub open spec fn queue_lines(q: QueueData) -> Seq<Seq<char>> {
    seq![nat_digits(q.id), nat_digits(q.capacity), nat_digits(q.members.len())]
        + customers_lines(q.members)
}

/// The lines of a run of queues, in identifier order.
pub open spec fn queues_lines(qs: Seq<QueueData>) -> Seq<Seq<char>>
    decreases qs.len(),
{
    if qs.len() == 0 {
        Seq::empty()
    } else {
        queue_lines(qs[0]) + queues_lines(qs.drop_first())
    }
}

/// All the lines of a shop: stock, queue count, then each queue.
pub open spec fn shop_lines(d: ShopData) -> Seq<Seq<char>> {
    seq![nat_digits(d.stock), nat_digits(d.queues.len())] + queues_lines(d.queues)
}

/// The save text of a shop: its lines, each closed by a line break.
pub open spec fn save_text(d: ShopData) -> Seq<char> {
    join_lines(shop_lines(d))
}

/// A customer the save format can carry faithfully: names free of line
/// breaks, item count within a machine word.
pub open spec fn customer_saveable(c: CustomerData) -> bool {
    no_newline(c.first) && no_newline(c.last) && c.items <= usize::MAX
}

/// A queue the save format can carry faithfully.
pub open spec fn queue_saveable(q: QueueData) -> bool {
    &&& q.id <= usize::MAX
    &&& q.capacity <= usize::MAX
    &&& q.members.len() <= q.capacity
    &&& forall|k: int| 0 <= k < q.members.len() ==> customer_saveable(#[trigger] q.members[k])
}

/// A shop the save format can carry faithfully. Every shop the library
/// builds satisfies the machine bounds by construction; only names that
/// hide a line break can put a real shop outside this set.
pub open spec fn shop_saveable(d: ShopData) -> bool {
    &&& d.stock <= usize::MAX
    &&& d.queues.len() <= usize::MAX
    &&& forall|i: int|
        0 <= i < d.queues.len() ==> queue_saveable(#[trigger] d.queues[i]) && d.queues[i].id == i
}

/// Names free of line breaks, across the whole shop: the one condition a
/// real shop can fail, since every machine bound holds by construction.
pub open spec fn shop_names_ok(d: ShopData) -> bool {
    forall|i: int, k: int|
        0 <= i < d.queues.len() && 0 <= k < d.queues[i].members.len() ==> no_newline(
            (#[trigger] d.queues[i].members[k]).first,
        ) && no_newline(d.queues[i].members[k].last)
}

proof fn lemma_customers_lines_len(cs: Seq<CustomerData>)
    ensures
        customers_lines(cs).len() == 3 * cs.len(),
    decreases cs.len(),
{
    if cs.len() > 0 {
        lemma_customers_lines_len(cs.drop_first());
    }
}

/// Appending one customer appends its three lines.
proof fn lemma_customers_lines_push(cs: Seq<CustomerData>, c: CustomerData)
    ensures
        customers_lines(cs.push(c)) == customers_lines(cs) + customer_lines(c),
    decreases cs.len(),
{
    if cs.len() == 0 {
        assert(cs.push(c)[0] == c);
        assert(cs.push(c).drop_first() =~= Seq::<CustomerData>::empty());
        assert(customers_lines(Seq::<CustomerData>::empty()) =~= Seq::<Seq<char>>::empty());
        assert(customers_lines(cs.push(c)) =~= customers_lines(cs) + customer_lines(c));
    } else {
        lemma_customers_lines_push(cs.drop_first(), c);
        assert(cs.push(c)[0] == cs[0]);
        assert(cs.push(c).drop_first() =~= cs.drop_first().push(c));
        assert(customers_lines(cs.push(c)) =~= customers_lines(cs) + customer_lines(c));
    }
}

/// Appending one queue appends its lines.
pub proof fn lemma_queues_lines_push(qs: Seq<QueueData>, q: QueueData)
    ensures
        queues_lines(qs.push(q)) == queues_lines(qs) + queue_lines(q),
    decreases qs.len(),
{
    if qs.len() == 0 {
        assert(qs.push(q)[0] == q);
        assert(qs.push(q).drop_first() =~= Seq::<QueueData>::empty());
        assert(queues_lines(Seq::<QueueData>::empty()) =~= Seq::<Seq<char>>::empty());
        assert(queues_lines(qs.push(q)) =~= queues_lines(qs) + queue_lines(q));
    } else {
        lemma_queues_lines_push(qs.drop_first(), q);
        assert(qs.push(q)[0] == qs[0]);
        assert(qs.push(q).drop_first() =~= qs.drop_first().push(q));
        assert(queues_lines(qs.push(q)) =~= queues_lines(qs) + queue_lines(q));
    }
}

/// Reading `count` customers from `lines`, starting at line `i`: three
/// lines each — any two lines as the names, a number line as the item
/// count. Yields the customers and the next unread line, or nothing on a
/// short or malformed text.
pub open spec fn parse_customers(lines: Seq<Seq<char>>, i: int, count: int) -> Option<
    (Seq<CustomerData>, int),
>
    decreases count,
{
    if count <= 0 {
        Some((Seq::empty(), i))
    } else if i + 3 > lines.len() {
        None
    } else {
        match line_nat(lines[i + 2]) {
            None => None,
            Some(w) => match parse_customers(lines, i + 3, count - 1) {
                None => None,
                Some((rest, j)) => Some(
                    (seq![CustomerData { first: lines[i], last: lines[i + 1], items: w }] + rest, j),
                ),
            },
        }
    }
}

/// Reading `count` queues from `lines`, starting at line `i`: identifier,
/// capacity and member count lines, then the members. The identifier must
/// equal the queue's position `next_id` and the member count must stay
/// within the capacity — as they do in every state the shop can reach.
pub open spec fn parse_queues(lines: Seq<Seq<char>>, i: int, count: int, next_id: int) -> Option<
    (Seq<QueueData>, int),
>
    decreases count,
{
    if count <= 0 {
        Some((Seq::empty(), i))
    } else if i + 3 > lines.len() {
        None
    } else {
        match (line_nat(lines[i]), line_nat(lines[i + 1]), line_nat(lines[i + 2])) {
            (Some(id), Some(cap), Some(cnt)) => {
                if id == next_id && cnt <= cap {
                    match parse_customers(lines, i + 3, cnt as int) {
                        None => None,
                        Some((members, j)) => match parse_queues(lines, j, count - 1, next_id + 1) {
                            None => None,
                            Some((rest, k)) => Some(
                                (seq![QueueData { id: id, capacity: cap, members: members }] + rest, k),
                            ),
                        },
                    }
                } else {
                    None
                }
            },
            _ => None,
        }
    }
}

/// Reading a whole shop from its lines: the stock, the queue count, then
/// the queues. Lines past the last queue are ignored, as a reader that
/// takes lines one at a time leaves them unread.
pub open spec fn parse_shop(lines: Seq<Seq<char>>) -> Option<ShopData> {
    if lines.len() < 2 {
        None
    } else {
        match (line_nat(lines[0]), line_nat(lines[1])) {
            (Some(stock), Some(n)) => match parse_queues(lines, 2, n as int, 0) {
                None => None,
                Some((qs, _)) => Some(ShopData { queues: qs, stock: stock }),
            },
            _ => None,
        }
    }
}

/// What a load of `text` yields: the shop whose lines the text carries,
/// or nothing when the text is short or malformed.
pub open spec fn parse_text(text: Seq<char>) -> Option<ShopData> {
    parse_shop(split_lines(text))
}

/// No line of a saveable shop hides a line break.
proof fn lemma_customers_lines_no_newline(cs: Seq<CustomerData>, k: int)
    requires
        forall|m: int| 0 <= m < cs.len() ==> customer_saveable(#[trigger] cs[m]),
        0 <= k < customers_lines(cs).len(),
    ensures
        no_newline(customers_lines(cs)[k]),
    decreases cs.len(),
{
    crate::digits::lemma_nat_digits_wf(cs[0].items);
    assert(no_newline(nat_digits(cs[0].items))) by {
        assert forall|t: int| 0 <= t < nat_digits(cs[0].items).len() implies nat_digits(
            cs[0].items,
        )[t] != '\n' by {
            assert(crate::digits::is_digit(nat_digits(cs[0].items)[t]));
        }
    }
    if k >= 3 {
        lemma_customers_lines_no_newline(cs.drop_first(), k - 3);
    }
}

proof fn lemma_digits_no_newline(n: nat)
    ensures
        no_newline(nat_digits(n)),
{
    crate::digits::lemma_nat_digits_wf(n);
    assert forall|t: int| 0 <= t < nat_digits(n).len() implies nat_digits(n)[t] != '\n' by {
        assert(crate::digits::is_digit(nat_digits(n)[t]));
    }
}

proof fn lemma_queues_lines_no_newline(qs: Seq<QueueData>, k: int)
    requires
        forall|m: int| 0 <= m < qs.len() ==> queue_saveable(#[trigger] qs[m]),
        0 <= k < queues_lines(qs).len(),
    ensures
        no_newline(queues_lines(qs)[k]),
    decreases qs.len(),
{
    let q = qs[0];
    lemma_digits_no_newline(q.id);
    lemma_digits_no_newline(q.capacity);
    lemma_digits_no_newline(q.members.len());
    let qlen = queue_lines(q).len();
    if k < qlen {
        if k >= 3 {
            lemma_customers_lines_no_newline(q.members, k - 3);
        }
    } else {
        lemma_queues_lines_no_newline(qs.drop_first(), k - qlen);
    }
}

/// The lines a saveable shop writes hide no line break, so the line
/// framing recovers them exactly.
pub proof fn lemma_shop_lines_no_newline(d: ShopData)
    requires
        shop_saveable(d),
    ensures
        all_no_newline(shop_lines(d)),
{
    lemma_digits_no_newline(d.stock);
    lemma_digits_no_newline(d.queues.len());
    assert forall|k: int| 0 <= k < shop_lines(d).len() implies no_newline(
        #[trigger] shop_lines(d)[k],
    ) by {
        if k >= 2 {
            lemma_queues_lines_no_newline(d.queues, k - 2);
        }
    }
}

/// Reading back what was written, customer by customer: in any
/// surrounding text, the lines of `cs` parse to exactly `cs`.
proof fn lemma_parse_customers_round(
    all: Seq<Seq<char>>,
    pre: Seq<Seq<char>>,
    cs: Seq<CustomerData>,
    post: Seq<Seq<char>>,
)
    requires
        all == pre + customers_lines(cs) + post,
        forall|m: int| 0 <= m < cs.len() ==> (#[trigger] cs[m]).items <= usize::MAX,
    ensures
        parse_customers(all, pre.len() as int, cs.len() as int) == Some(
            (cs, pre.len() + customers_lines(cs).len() as int),
        ),
    decreases cs.len(),
{
    let i = pre.len() as int;
    if cs.len() == 0 {
        assert(cs =~= Seq::<CustomerData>::empty());
    } else {
        let c0 = cs[0];
        lemma_customers_lines_len(cs);
        lemma_customers_lines_len(cs.drop_first());
        assert(all[i] == c0.first);
        assert(all[i + 1] == c0.last);
        assert(all[i + 2] == nat_digits(c0.items));
        crate::digits::lemma_nat_digits_wf(c0.items);
        assert(line_nat(all[i + 2]) == Some(c0.items));
        let pre2 = pre + customer_lines(c0);
        assert(all =~= pre2 + customers_lines(cs.drop_first()) + post);
        assert(forall|m: int|
            0 <= m < cs.drop_first().len() ==> (#[trigger] cs.drop_first()[m]).items
                <= usize::MAX);
        lemma_parse_customers_round(all, pre2, cs.drop_first(), post);
        assert(seq![CustomerData { first: all[i], last: all[i + 1], items: c0.items }]
            + cs.drop_first() =~= cs);
    }
}

/// Reading back what was written, queue by queue: in any surrounding
/// text, the lines of `qs` parse to exactly `qs`, provided the
/// identifiers run consecutively from `next_id`.
proof fn lemma_parse_queues_round(
    all: Seq<Seq<char>>,
    pre: Seq<Seq<char>>,
    qs: Seq<QueueData>,
    post: Seq<Seq<char>>,
    next_id: int,
)
    requires
        all == pre + queues_lines(qs) + post,
        forall|m: int|
            0 <= m < qs.len() ==> queue_saveable(#[trigger] qs[m]) && qs[m].id == next_id + m,
        next_id >= 0,
    ensures
        parse_queues(all, pre.len() as int, qs.len() as int, next_id) == Some(
            (qs, pre.len() + queues_lines(qs).len() as int),
        ),
    decreases qs.len(),
{
    let i = pre.len() as int;
    if qs.len() == 0 {
        assert(qs =~= Seq::<QueueData>::empty());
    } else {
        let q0 = qs[0];
        assert(queue_saveable(q0) && q0.id == next_id);
        lemma_customers_lines_len(q0.members);
        assert(all[i] == nat_digits(q0.id));
        assert(all[i + 1] == nat_digits(q0.capacity));
        assert(all[i + 2] == nat_digits(q0.members.len()));
        crate::digits::lemma_nat_digits_wf(q0.id);
        crate::digits::lemma_nat_digits_wf(q0.capacity);
        crate::digits::lemma_nat_digits_wf(q0.members.len());
        assert(line_nat(all[i]) == Some(q0.id));
        assert(line_nat(all[i + 1]) == Some(q0.capacity));
        assert(line_nat(all[i + 2]) == Some(q0.members.len()));
        let header = seq![
            nat_digits(q0.id),
            nat_digits(q0.capacity),
            nat_digits(q0.members.len()),
        ];
        let pre_members = pre + header;
        let post_members = queues_lines(qs.drop_first()) + post;
        assert(all =~= pre_members + customers_lines(q0.members) + post_members);
        assert(forall|k: int|
            0 <= k < q0.members.len() ==> (#[trigger] q0.members[k]).items <= usize::MAX);
        lemma_parse_customers_round(all, pre_members, q0.members, post_members);
        let j = pre_members.len() + customers_lines(q0.members).len();
        let pre2 = pre + queue_lines(q0);
        assert(pre2.len() == j);
        assert(all =~= pre2 + queues_lines(qs.drop_first()) + post);
        assert(forall|m: int|
            0 <= m < qs.drop_first().len() ==> queue_saveable(#[trigger] qs.drop_first()[m])
                && qs.drop_first()[m].id == next_id + 1 + m);
        lemma_parse_queues_round(all, pre2, qs.drop_first(), post, next_id + 1);
        assert(seq![QueueData { id: q0.id, capacity: q0.capacity, members: q0.members }]
            + qs.drop_first() =~= qs);
        assert(pre.len() + queues_lines(qs).len() == pre2.len() + queues_lines(
            qs.drop_first(),
        ).len());
    }
}

/// Reading back a saved shop yields exactly the shop that was saved.
pub proof fn lemma_parse_shop_round(d: ShopData)
    requires
        shop_saveable(d),
    ensures
        parse_shop(shop_lines(d)) == Some(d),
{
    let all = shop_lines(d);
    crate::digits::lemma_nat_digits_wf(d.stock);
    crate::digits::lemma_nat_digits_wf(d.queues.len());
    assert(all[0] == nat_digits(d.stock));
    assert(all[1] == nat_digits(d.queues.len()));
    assert(line_nat(all[0]) == Some(d.stock));
    assert(line_nat(all[1]) == Some(d.queues.len()));
    let pre = seq![nat_digits(d.stock), nat_digits(d.queues.len())];
    assert(all =~= pre + queues_lines(d.queues) + Seq::<Seq<char>>::empty());
    lemma_parse_queues_round(all, pre, d.queues, Seq::empty(), 0);
    assert(ShopData { queues: d.queues, stock: d.stock } =~= d);
}

/// The round trip: saving any saveable shop and loading the text back
/// yields exactly the saved shop — same stock, same queue identifiers and
/// capacities, same members in the same order.
pub proof fn lemma_save_load_round_trip(d: ShopData)
    requires
        shop_saveable(d),
    ensures
        parse_text(save_text(d)) == Some(d),
{
    lemma_shop_lines_no_newline(d);
    crate::lines::lemma_split_join(shop_lines(d));
    lemma_parse_shop_round(d);
}

/// Appends one line of text to the line list.
pub(crate) fn push_line(out: &mut Vec<String>, line: String)
    ensures
        final(out)@.map_values(|l: String| l@) == old(out)@.map_values(|l: String| l@).push(
            line@,
        ),
{
    let ghost prev = out@.map_values(|l: String| l@);
    out.push(line);
    proof {
        assert(out@.map_values(|l: String| l@) =~= prev.push(out@.last()@));
    }
}

/// Writes one customer's three lines.
pub(crate) fn push_customer_lines(out: &mut Vec<String>, c: &Customer)
    ensures
        final(out)@.map_values(|l: String| l@) == old(out)@.map_values(|l: String| l@)
            + customer_lines(c@),
{
    let ghost base = out@.map_values(|l: String| l@);
    push_line(out, String::from_str(c.first_name()));
    push_line(out, String::from_str(c.last_name()));
    push_line(out, usize_to_string(c.no_items()));
    proof {
        assert(out@.map_values(|l: String| l@) =~= base + customer_lines(c@));
    }
}

/// Writes one queue's lines: the three header lines, then the members.
pub(crate) fn push_queue_lines(out: &mut Vec<String>, q: &FoodQueue)
    ensures
        final(out)@.map_values(|l: String| l@) == old(out)@.map_values(|l: String| l@)
            + queue_lines(q@),
{
    let ghost base = out@.map_values(|l: String| l@);
    push_line(out, usize_to_string(q.id()));
    push_line(out, usize_to_string(q.capacity()));
    push_line(out, usize_to_string(q.len()));
    let ghost header = seq![
        nat_digits(q@.id),
        nat_digits(q@.capacity),
        nat_digits(q@.members.len()),
    ];
    let members = q.view_data();
    let m = members.len();
    proof {
        assert(customers_lines(q@.members.take(0)) =~= Seq::<Seq<char>>::empty());
        assert(out@.map_values(|l: String| l@) =~= base + header + customers_lines(
            q@.members.take(0),
        ));
    }
    for j in 0..m
        invariant
            m == q@.members.len(),
            members@.map_values(|c: Customer| c@) == q@.members,
            out@.map_values(|l: String| l@) == base + header + customers_lines(
                q@.members.take(j as int),
            ),
    {
        push_customer_lines(out, &members[j]);
        proof {
            assert(members@[j as int]@ == q@.members[j as int]);
            assert(q@.members.take(j + 1) =~= q@.members.take(j as int).push(
                q@.members[j as int],
            ));
            lemma_customers_lines_push(q@.members.take(j as int), q@.members[j as int]);
            assert(out@.map_values(|l: String| l@) =~= base + header + customers_lines(
                q@.members.take(j + 1),
            ));
        }
    }
    proof {
        assert(q@.members.take(m as int) =~= q@.members);
        assert(out@.map_values(|l: String| l@) =~= base + queue_lines(q@));
    }
}

/// A successful customer read yields exactly `count` customers and stops
/// exactly `3 * count` lines further on.
pub proof fn lemma_parse_customers_shape(lines: Seq<Seq<char>>, i: int, count: int)
    requires
        parse_customers(lines, i, count) is Some,
        count >= 0,
        i <= lines.len(),
    ensures
        parse_customers(lines, i, count) matches Some((cs, j)) ==> cs.len() == count && j == i + 3
            * count && j <= lines.len() && i <= j,
    decreases count,
{
    if count > 0 {
        lemma_parse_customers_shape(lines, i + 3, count - 1);
    }
}

/// A successful queue read yields exactly `count` queues, identifiers
/// running consecutively from `next_id`, each within its capacity.
pub proof fn lemma_parse_queues_wf(lines: Seq<Seq<char>>, i: int, count: int, next_id: int)
    requires
        parse_queues(lines, i, count, next_id) is Some,
        count >= 0,
        i <= lines.len(),
    ensures
        parse_queues(lines, i, count, next_id) matches Some((qs, k)) ==> qs.len() == count
            && i <= k <= lines.len() && forall|m: int|
            0 <= m < count ==> (#[trigger] qs[m]).id == next_id + m && qs[m].members.len()
                <= qs[m].capacity,
    decreases count,
{
    if count > 0 {
        let (id, cap, cnt) = (
            line_nat(lines[i])->0,
            line_nat(lines[i + 1])->0,
            line_nat(lines[i + 2])->0,
        );
        lemma_parse_customers_shape(lines, i + 3, cnt as int);
        let j = (parse_customers(lines, i + 3, cnt as int)->0).1;
        lemma_parse_queues_wf(lines, j, count - 1, next_id + 1);
    }
}

/// Reads `count` customers from the lines, starting at line `i`.
pub(crate) fn parse_customers_exec(lines: &Vec<String>, i: usize, count: usize) -> (r: Option<
    (Vec<Customer>, usize),
>)
    requires
        i <= lines@.len(),
    ensures
        ({
            let sr = parse_customers(lines@.map_values(|l: String| l@), i as int, count as int);
            match r {
                None => sr is None,
                Some(p) => sr matches Some(sp) && p.0@.map_values(|c: Customer| c@) == sp.0
                    && p.1 as int == sp.1 && p.1 <= lines@.len(),
            }
        }),
    decreases count,
{
    let ghost ldata = lines@.map_values(|l: String| l@);
    if count == 0 {
        let empty: Vec<Customer> = Vec::new();
        proof {
            assert(empty@.map_values(|c: Customer| c@) =~= Seq::<CustomerData>::empty());
        }
        return Some((empty, i));
    }
    if lines.len() - i < 3 {
        return None;
    }
    let w = match parse_usize(lines[i + 2].as_str()) {
        Some(w) => w,
        None => {
            return None;
        },
    };
    match parse_customers_exec(lines, i + 3, count - 1) {
        None => None,
        Some((mut rest, j)) => {
            let ghost restdata = rest@.map_values(|c: Customer| c@);
            let c = Customer::new(lines[i].clone(), lines[i + 1].clone(), w);
            rest.insert(0, c);
            proof {
                assert(rest@.map_values(|c: Customer| c@) =~= seq![
                    CustomerData { first: ldata[i as int], last: ldata[i as int + 1], items: w as nat },
                ] + restdata);
            }
            Some((rest, j))
        },
    }
}

/// Reads `count` queues from the lines, starting at line `i`, expecting
/// identifiers to run consecutively from `next_id`.
pub(crate) fn parse_queues_exec(lines: &Vec<String>, i: usize, count: usize, next_id: usize) -> (r:
    Option<(Vec<FoodQueue>, usize)>)
    requires
        i <= lines@.len(),
    ensures
        ({
            let sr = parse_queues(
                lines@.map_values(|l: String| l@),
                i as int,
                count as int,
                next_id as int,
            );
            match r {
                None => sr is None,
                Some(p) => sr matches Some(sp) && p.0@.map_values(|q: FoodQueue| q@) == sp.0
                    && p.1 as int == sp.1 && p.1 <= lines@.len(),
            }
        }),
    decreases count,
{
    let ghost ldata = lines@.map_values(|l: String| l@);
    if count == 0 {
        let empty: Vec<FoodQueue> = Vec::new();
        proof {
            assert(empty@.map_values(|q: FoodQueue| q@) =~= Seq::<QueueData>::empty());
        }
        return Some((empty, i));
    }
    if lines.len() - i < 3 {
        return None;
    }
    let id = match parse_usize(lines[i].as_str()) {
        Some(v) => v,
        None => {
            return None;
        },
    };
    let cap = match parse_usize(lines[i + 1].as_str()) {
        Some(v) => v,
        None => {
            return None;
        },
    };
    let cnt = match parse_usize(lines[i + 2].as_str()) {
        Some(v) => v,
        None => {
            return None;
        },
    };
    if !(id == next_id && cnt <= cap) {
        return None;
    }
    let members = match parse_customers_exec(lines, i + 3, cnt) {
        Some(p) => p,
        None => {
            return None;
        },
    };
    let (mut cs, j) = members;
    proof {
        lemma_parse_customers_shape(ldata, i as int + 3, cnt as int);
    }
    let mut fq = FoodQueue::new(id, cap);
    let ghost csdata = cs@.map_values(|c: Customer| c@);
    let mut k: usize = 0;
    let total = cs.len();
    proof {
        assert(fq@.members =~= csdata.take(0));
        assert(cs@.map_values(|c: Customer| c@) =~= csdata.skip(0));
    }
    while k < total
        invariant
            k <= total,
            total == csdata.len(),
            total <= cap,
            cap == fq@.capacity,
            id == fq@.id,
            fq@.members == csdata.take(k as int),
            cs@.map_values(|c: Customer| c@) == csdata.skip(k as int),
            k as int + cs@.len() == total,
        decreases total - k,
    {
        let ghost prevrest = cs@.map_values(|c: Customer| c@);
        let c = cs.remove(0);
        proof {
            assert(c@ == prevrest[0]);
            assert(c@ == csdata[k as int]);
            assert(cs@.map_values(|x: Customer| x@) =~= prevrest.remove(0));
            assert(prevrest.remove(0) =~= csdata.skip(k as int + 1));
            assert(fq@.wf());
        }
        let added = fq.add_customer(c);
        proof {
            assert(added is Ok);
            assert(csdata.take(k as int).push(csdata[k as int]) =~= csdata.take(k as int + 1));
        }
        k = k + 1;
    }
    proof {
        assert(csdata.take(total as int) =~= csdata);
    }
    if count == 1 {
        let mut result: Vec<FoodQueue> = Vec::new();
        result.push(fq);
        proof {
            assert(result@.map_values(|q: FoodQueue| q@) =~= seq![
                QueueData { id: id as nat, capacity: cap as nat, members: csdata },
            ] + Seq::<QueueData>::empty());
        }
        return Some((result, j));
    }
    if next_id == usize::MAX {
        proof {
            assert(parse_queues(ldata, j as int, count - 1, next_id as int + 1) is None);
        }
        return None;
    }
    match parse_queues_exec(lines, j, count - 1, next_id + 1) {
        None => None,
        Some((mut rest, end)) => {
            let ghost restdata = rest@.map_values(|q: FoodQueue| q@);
            rest.insert(0, fq);
            proof {
                assert(rest@.map_values(|q: FoodQueue| q@) =~= seq![
                    QueueData {
                        id: id as nat,
                        capacity: cap as nat,
                        members: csdata,
                    },
                ] + restdata);
            }
            Some((rest, end))
        },
    }
}

} // verus!
