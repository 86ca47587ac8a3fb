use food_shop::customer::Customer;
use food_shop::shop::Shop;

fn customer(first: &str, last: &str, items: usize) -> Customer {
    Customer::new(first.to_string(), last.to_string(), items)
}

#[test]
fn save_writes_the_exact_line_format() {
    let mut shop = Shop::new(&[1]);
    shop.restock(7);
    shop.add_customer(customer("John", "Doe", 3)).unwrap();
    assert_eq!(shop.save_data(), "7\n1\n0\n1\n1\nJohn\nDoe\n3\n");
}

#[test]
fn save_of_empty_shop() {
    let shop = Shop::new(&[]);
    assert_eq!(shop.save_data(), "0\n0\n");
}

#[test]
fn round_trip_reproduces_the_state() {
    let mut shop = Shop::new(&[2, 3, 5]);
    shop.restock(42);
    shop.add_customer(customer("Ann", "Lee", 4)).unwrap();
    shop.add_customer(customer("Bob", "Ng", 2)).unwrap();
    shop.add_customer(customer("Cid", "Om", 9)).unwrap();
    shop.add_customer(customer("Dee", "Py", 1)).unwrap();
    let text = shop.save_data();

    let mut loaded = Shop::new(&[]);
    assert!(loaded.load_data(&text));
    assert_eq!(loaded.stock(), 42);
    assert_eq!(loaded.len(), 3);
    for (orig, back) in shop.view_data().iter().zip(loaded.view_data().iter()) {
        assert_eq!(orig.id(), back.id());
        assert_eq!(orig.capacity(), back.capacity());
        assert_eq!(orig.len(), back.len());
        for (c1, c2) in orig.view_data().iter().zip(back.view_data().iter()) {
            assert_eq!(c1.first_name(), c2.first_name());
            assert_eq!(c1.last_name(), c2.last_name());
            assert_eq!(c1.no_items(), c2.no_items());
        }
    }
    assert_eq!(loaded.save_data(), text);
}

#[test]
fn round_trip_keeps_empty_names_and_zero_capacities() {
    let mut shop = Shop::new(&[0, 1]);
    shop.add_customer(customer("", "", 0)).unwrap();
    let text = shop.save_data();
    let mut loaded = Shop::new(&[9]);
    assert!(loaded.load_data(&text));
    assert_eq!(loaded.len(), 2);
    assert_eq!(loaded.view_data()[0].capacity(), 0);
    assert_eq!(loaded.view_data()[1].view_data()[0].full_name(), " ");
}

#[test]
fn load_replaces_prior_state_wholesale() {
    let mut target = Shop::new(&[4]);
    target.restock(9);
    target.add_customer(customer("Old", "State", 1)).unwrap();

    let mut source = Shop::new(&[1, 1]);
    source.restock(3);
    let text = source.save_data();

    assert!(target.load_data(&text));
    assert_eq!(target.stock(), 3);
    assert_eq!(target.len(), 2);
    assert!(target.view_data().iter().all(|q| q.is_empty()));
}

#[test]
fn load_rejects_malformed_text_and_changes_nothing() {
    let mut shop = Shop::new(&[2]);
    shop.restock(5);
    shop.add_customer(customer("Keep", "Me", 1)).unwrap();
    let before = shop.save_data();

    // Empty text.
    assert!(!shop.load_data(""));
    // Too few lines.
    assert!(!shop.load_data("5\n"));
    // Non-numeric where a number is expected.
    assert!(!shop.load_data("abc\n0\n"));
    assert!(!shop.load_data("5\nx\n"));
    // Truncated: one queue promised, none present.
    assert!(!shop.load_data("5\n1\n"));
    // Truncated: one member promised, none present.
    assert!(!shop.load_data("5\n1\n0\n2\n1\n"));
    // Member count past the capacity.
    assert!(!shop.load_data("5\n1\n0\n1\n2\nA\nB\n1\nC\nD\n1\n"));
    // Identifier out of order.
    assert!(!shop.load_data("5\n1\n7\n2\n0\n"));
    // A number too large for a machine word.
    assert!(!shop.load_data("99999999999999999999999999\n0\n"));
    // A signed or padded number is not a plain digit string.
    assert!(!shop.load_data("-5\n0\n"));
    assert!(!shop.load_data(" 5\n0\n"));

    assert_eq!(shop.save_data(), before);
    assert_eq!(shop.stock(), 5);
    assert_eq!(shop.view_data()[0].view_data()[0].first_name(), "Keep");
}

#[test]
fn load_accepts_leading_zeroes_and_trailing_lines() {
    let mut shop = Shop::new(&[]);
    // Leading zeroes are still digit strings, as a line-by-line reader
    // accepts them; lines past the last queue are left unread.
    assert!(shop.load_data("007\n0\nleftover\n"));
    assert_eq!(shop.stock(), 7);
    assert_eq!(shop.len(), 0);
}

#[test]
fn sorted_view_orders_by_full_name() {
    let mut shop = Shop::new(&[3, 3]);
    shop.add_customer(customer("Bob", "Ng", 1)).unwrap();
    shop.add_customer(customer("Ann", "Lee", 2)).unwrap();
    shop.add_customer(customer("Cid", "Om", 3)).unwrap();
    let sorted = shop.get_sorted_customers();
    let names: Vec<String> = sorted.iter().map(|c| c.full_name()).collect();
    assert_eq!(names, vec!["Ann Lee".to_string(), "Bob Ng".to_string(), "Cid Om".to_string()]);
}

#[test]
fn sorted_view_is_stable_for_equal_full_names() {
    let mut shop = Shop::new(&[2, 2]);
    // Flatten order: queue 0 first, then queue 1.
    shop.add_customer(customer("Ann", "Lee", 10)).unwrap();
    shop.add_customer(customer("Ann", "Lee", 20)).unwrap();
    shop.add_customer(customer("Bob", "Ng", 1)).unwrap();
    let sorted = shop.get_sorted_customers();
    assert_eq!(sorted.len(), 3);
    assert_eq!(sorted[0].full_name(), "Ann Lee");
    assert_eq!(sorted[0].no_items(), 10);
    assert_eq!(sorted[1].full_name(), "Ann Lee");
    assert_eq!(sorted[1].no_items(), 20);
    assert_eq!(sorted[2].full_name(), "Bob Ng");
}

#[test]
fn sorted_view_leaves_the_queues_unchanged() {
    let mut shop = Shop::new(&[2]);
    shop.add_customer(customer("B", "B", 1)).unwrap();
    shop.add_customer(customer("A", "A", 2)).unwrap();
    let _ = shop.get_sorted_customers();
    assert_eq!(shop.view_data()[0].view_data()[0].first_name(), "B");
    assert_eq!(shop.view_data()[0].view_data()[1].first_name(), "A");
}

#[test]
fn load_accepts_the_largest_machine_word_and_rejects_one_past_it() {
    let mut shop = Shop::new(&[]);
    assert!(shop.load_data("18446744073709551615\n0\n"));
    assert_eq!(shop.stock(), usize::MAX);
    assert!(!shop.load_data("18446744073709551616\n0\n"));
    assert_eq!(shop.stock(), usize::MAX);
}
