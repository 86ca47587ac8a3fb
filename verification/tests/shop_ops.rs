use food_shop::customer::Customer;
use food_shop::food_queue::{FoodQueue, FoodQueueError};
use food_shop::shop::{Shop, ShopError};

fn customer(first: &str, last: &str, items: usize) -> Customer {
    Customer::new(first.to_string(), last.to_string(), items)
}

#[test]
fn customer_accessors_and_full_name() {
    let c = customer("Ann", "Lee", 4);
    assert_eq!(c.first_name(), "Ann");
    assert_eq!(c.last_name(), "Lee");
    assert_eq!(c.full_name(), "Ann Lee");
    assert_eq!(c.no_items(), 4);
}

#[test]
fn customer_equality_ignores_items() {
    let a = customer("Ann", "Lee", 4);
    let b = customer("Ann", "Lee", 9);
    let c = customer("Bob", "Ng", 4);
    assert!(a == b);
    assert!(a != c);
}

#[test]
fn queue_starts_empty_with_identifier_and_capacity() {
    let q = FoodQueue::new(3, 2);
    assert_eq!(q.id(), 3);
    assert_eq!(q.capacity(), 2);
    assert_eq!(q.len(), 0);
    assert!(q.is_empty());
    assert!(!q.is_full());
    assert!(q.view_data().is_empty());
}

#[test]
fn queue_add_until_full() {
    let mut q = FoodQueue::new(0, 2);
    assert!(q.add_customer(customer("A", "B", 1)).is_ok());
    assert!(q.add_customer(customer("C", "D", 2)).is_ok());
    assert!(q.is_full());
    assert_eq!(q.len(), 2);
    assert!(matches!(q.add_customer(customer("E", "F", 3)), Err(FoodQueueError::Full)));
    assert_eq!(q.len(), 2);
}

#[test]
fn queue_remove_shifts_members_forward() {
    let mut q = FoodQueue::new(0, 5);
    q.add_customer(customer("A", "A", 1)).unwrap();
    q.add_customer(customer("B", "B", 2)).unwrap();
    q.add_customer(customer("C", "C", 3)).unwrap();
    let removed = q.remove_customer(1).unwrap();
    assert_eq!(removed.first_name(), "B");
    assert_eq!(q.len(), 2);
    assert_eq!(q.view_data()[0].first_name(), "A");
    assert_eq!(q.view_data()[1].first_name(), "C");
}

#[test]
fn queue_remove_out_of_range_is_customer_not_found() {
    let mut q = FoodQueue::new(0, 5);
    q.add_customer(customer("A", "A", 1)).unwrap();
    assert!(matches!(q.remove_customer(1), Err(FoodQueueError::CustomerNotFound)));
    assert_eq!(q.len(), 1);
    assert_eq!(q.view_data()[0].first_name(), "A");
}

#[test]
fn queue_remove_from_empty_is_empty_error() {
    let mut q = FoodQueue::new(0, 5);
    assert!(matches!(q.remove_customer(0), Err(FoodQueueError::Empty)));
}

#[test]
fn queue_get_customer() {
    let mut q = FoodQueue::new(0, 3);
    q.add_customer(customer("A", "A", 1)).unwrap();
    q.add_customer(customer("B", "B", 2)).unwrap();
    assert_eq!(q.get_customer(1).unwrap().first_name(), "B");
    assert!(matches!(q.get_customer(2), Err(FoodQueueError::CustomerNotFound)));
}

#[test]
fn shop_construction_from_layout() {
    let shop = Shop::new(&[2, 3, 5]);
    assert_eq!(shop.len(), 3);
    assert_eq!(shop.stock(), 0);
    let queues = shop.view_data();
    assert_eq!(queues[0].id(), 0);
    assert_eq!(queues[1].id(), 1);
    assert_eq!(queues[2].id(), 2);
    assert_eq!(queues[0].capacity(), 2);
    assert_eq!(queues[1].capacity(), 3);
    assert_eq!(queues[2].capacity(), 5);
    assert!(queues.iter().all(|q| q.is_empty()));
}

#[test]
fn admission_balances_by_length_with_lowest_identifier_ties() {
    let mut shop = Shop::new(&[2, 3, 5]);
    shop.add_customer(customer("A", "A", 1)).unwrap();
    shop.add_customer(customer("B", "B", 1)).unwrap();
    shop.add_customer(customer("C", "C", 1)).unwrap();
    // All three queues were empty: ties go to the lowest identifier.
    assert_eq!(shop.view_data()[0].len(), 1);
    assert_eq!(shop.view_data()[1].len(), 1);
    assert_eq!(shop.view_data()[2].len(), 1);
    assert_eq!(shop.view_data()[0].view_data()[0].first_name(), "A");
    assert_eq!(shop.view_data()[1].view_data()[0].first_name(), "B");
    assert_eq!(shop.view_data()[2].view_data()[0].first_name(), "C");
    // All tied at length one again: queue 0 still has room and wins the tie.
    shop.add_customer(customer("D", "D", 1)).unwrap();
    assert_eq!(shop.view_data()[0].len(), 2);
    // Queue 0 is now full; the remaining tie at length one goes to queue 1.
    shop.add_customer(customer("E", "E", 1)).unwrap();
    assert_eq!(shop.view_data()[1].len(), 2);
    // Queue 2 is now the only one at length one.
    shop.add_customer(customer("F", "F", 1)).unwrap();
    assert_eq!(shop.view_data()[2].len(), 2);
}

#[test]
fn admission_fails_only_when_every_queue_is_full() {
    let mut shop = Shop::new(&[1, 1]);
    shop.add_customer(customer("A", "A", 1)).unwrap();
    shop.add_customer(customer("B", "B", 1)).unwrap();
    assert!(matches!(shop.add_customer(customer("C", "C", 1)), Err(ShopError::Full)));
    assert_eq!(shop.view_data()[0].len(), 1);
    assert_eq!(shop.view_data()[1].len(), 1);
}

#[test]
fn shop_remove_customer_delegates_and_wraps_errors() {
    let mut shop = Shop::new(&[2, 2]);
    shop.add_customer(customer("A", "A", 1)).unwrap();
    assert!(matches!(shop.remove_customer(5, 0), Err(ShopError::QueueNotFound)));
    assert!(matches!(
        shop.remove_customer(1, 0),
        Err(ShopError::QueueError(FoodQueueError::Empty))
    ));
    assert!(matches!(
        shop.remove_customer(0, 3),
        Err(ShopError::QueueError(FoodQueueError::CustomerNotFound))
    ));
    let removed = shop.remove_customer(0, 0).unwrap();
    assert_eq!(removed.first_name(), "A");
    assert_eq!(shop.view_data()[0].len(), 0);
}

#[test]
fn serve_rejects_when_stock_is_short_and_changes_nothing() {
    let mut shop = Shop::new(&[2]);
    shop.restock(5);
    shop.add_customer(customer("Big", "Order", 10)).unwrap();
    assert!(matches!(shop.serve_customer(0), Err(ShopError::StockInsufficient)));
    assert_eq!(shop.stock(), 5);
    assert_eq!(shop.view_data()[0].len(), 1);
    assert_eq!(shop.view_data()[0].view_data()[0].first_name(), "Big");
}

#[test]
fn serve_unknown_queue_and_empty_queue() {
    let mut shop = Shop::new(&[2]);
    shop.restock(5);
    assert!(matches!(shop.serve_customer(9), Err(ShopError::QueueNotFound)));
    assert!(matches!(
        shop.serve_customer(0),
        Err(ShopError::QueueError(FoodQueueError::Empty))
    ));
    assert_eq!(shop.stock(), 5);
}

#[test]
fn serve_deducts_exactly_the_front_members_items() {
    let mut shop = Shop::new(&[3]);
    shop.restock(10);
    shop.add_customer(customer("A", "A", 4)).unwrap();
    shop.add_customer(customer("B", "B", 5)).unwrap();
    let served = shop.serve_customer(0).unwrap();
    assert_eq!(served.first_name(), "A");
    assert_eq!(shop.stock(), 6);
    assert_eq!(shop.view_data()[0].len(), 1);
    assert_eq!(shop.view_data()[0].view_data()[0].first_name(), "B");
}

#[test]
fn restock_adds_unconditionally() {
    let mut shop = Shop::new(&[1]);
    shop.restock(20);
    assert_eq!(shop.stock(), 20);
    shop.restock(45);
    assert_eq!(shop.stock(), 65);
}

#[test]
fn scenario_restock_admit_serve() {
    let mut shop = Shop::new(&[2, 3, 5]);
    shop.restock(20);
    assert_eq!(shop.stock(), 20);
    shop.add_customer(customer("A", "B", 5)).unwrap();
    assert_eq!(shop.view_data()[0].len(), 1);
    assert_eq!(shop.view_data()[1].len(), 0);
    assert_eq!(shop.view_data()[2].len(), 0);
    let served = shop.serve_customer(0).unwrap();
    assert_eq!(served.full_name(), "A B");
    assert_eq!(shop.stock(), 15);
    assert!(shop.view_data()[0].is_empty());
}

#[test]
fn lengths_never_exceed_capacity() {
    let mut shop = Shop::new(&[1, 2]);
    for i in 0..10 {
        let _ = shop.add_customer(customer("N", "N", i));
        for q in shop.view_data() {
            assert!(q.len() <= q.capacity());
        }
    }
    let _ = shop.remove_customer(0, 0);
    for q in shop.view_data() {
        assert!(q.len() <= q.capacity());
    }
}
