use orderbook_merge::exchange_connection::{merge_orders, OrderUpdate};
use orderbook_merge::grpc::Level;
use orderbook_merge::merger::Merger;

fn order(price: f64, amount: f64) -> OrderUpdate {
    let mut o: OrderUpdate = OrderUpdate(vec![]);
    o.0.push(price.to_string());
    o.0.push(amount.to_string());
    o
}

fn prices(orders: &[OrderUpdate]) -> Vec<String> {
    orders.iter().map(|o| o.0[0].clone()).collect()
}

#[test]
fn exchange_connection_test_merge_orders() {
    let mut orders_a = vec![];
    let mut orders_b = vec![];
    for i in 0..10 {
        let mut order_a: OrderUpdate = OrderUpdate(vec![]);
        order_a.0.push((0.01f64 * i as f64).to_string());
        order_a.0.push((1f64 * i as f64).to_string());
        orders_a.push(order_a);

        let mut order_b: OrderUpdate = OrderUpdate(vec![]);
        order_b.0.push((0.012f64 * i as f64).to_string());
        order_b.0.push((1.2f64 * i as f64).to_string());
        orders_b.push(order_b);
    }

    let merged_orders = merge_orders(true, orders_a.clone(), orders_b.clone());

    assert_eq!(
        prices(&merged_orders),
        vec!["0", "0", "0.01", "0.012", "0.02", "0.024", "0.03", "0.036000000000000004", "0.04", "0.048"]
    );
    for i in merged_orders {
        println!("{:?}", i.0)
    }

    orders_a.reverse();
    orders_b.reverse();
    let merged_orders = merge_orders(false, orders_a, orders_b);
    assert_eq!(
        prices(&merged_orders),
        vec!["0.108", "0.096", "0.09", "0.084", "0.08", "0.07200000000000001", "0.07", "0.06", "0.06", "0.05"]
    );
    assert_eq!(merged_orders[0].0[1], "10.799999999999999");
    for i in merged_orders {
        println!("{:?}", i.0)
    }
}

#[test]
fn merger_test_merge_orders() {
    let mut orders_a = vec![];
    let mut orders_b = vec![];
    for i in 0..10 {
        let mut order_a: OrderUpdate = OrderUpdate(vec![]);
        order_a.0.push((0.01f64 * i as f64).to_string());
        order_a.0.push((1f64 * i as f64).to_string());
        orders_a.push(Level::from_order("any", order_a).unwrap());

        let mut order_b: OrderUpdate = OrderUpdate(vec![]);
        order_b.0.push((0.012f64 * i as f64).to_string());
        order_b.0.push((1.2f64 * i as f64).to_string());
        orders_b.push(Level::from_order("any", order_b).unwrap());
    }

    let merged_orders = Merger::merge_orders(true, &orders_a, &orders_b);

    // Higher prices first: every level of `b` is at least as high as the
    // level of `a` at its head, so the ten levels of `b` come out.
    let expected: Vec<i128> = (0..10).map(|i| 12_000_000_000_000_000 * i).collect();
    let mut expected = expected;
    expected[3] = 36_000_000_000_000_004;
    expected[6] = 72_000_000_000_000_010;
    assert_eq!(merged_orders.iter().map(|l| l.price).collect::<Vec<_>>(), expected);
    assert_eq!(merged_orders[9].amount, 10_799_999_999_999_999_000);
    for i in merged_orders {
        println!("{:?}", (i.exchange, i.price, i.amount))
    }

    orders_a.reverse();
    orders_b.reverse();
    let merged_orders = Merger::merge_orders(false, &orders_a, &orders_b);
    // Prices that are not higher first: every level of `a` is at most the
    // highest of `b`, so the ten levels of `a` come out.
    let expected: Vec<i128> = (0..10).rev().map(|i| 10_000_000_000_000_000 * i).collect();
    assert_eq!(merged_orders.iter().map(|l| l.price).collect::<Vec<_>>(), expected);
    for i in merged_orders {
        println!("{:?}", (i.exchange, i.price, i.amount))
    }
}

#[test]
fn merge_interleaves_by_price() {
    let a: Vec<Level> = [5.0, 3.0, 1.0].iter().map(|p| Level::from_order("a", order(*p, 1.0)).unwrap()).collect();
    let b: Vec<Level> = [4.0, 2.0].iter().map(|p| Level::from_order("b", order(*p, 2.0)).unwrap()).collect();
    let merged = Merger::merge_orders(true, &a, &b);
    let ps: Vec<i128> = merged.iter().map(|l| l.price / 1_000_000_000_000_000_000).collect();
    assert_eq!(ps, vec![5, 4, 3, 2, 1]);
    let names: Vec<&str> = merged.iter().map(|l| l.exchange.as_str()).collect();
    assert_eq!(names, vec!["a", "b", "a", "b", "a"]);
}

#[test]
fn merge_keeps_ten_of_the_first_tens() {
    let a: Vec<Level> = (0..15).map(|i| Level::from_order("a", order(i as f64, 1.0)).unwrap()).collect();
    let b: Vec<Level> = (0..12).map(|i| Level::from_order("b", order(100.0 + i as f64, 1.0)).unwrap()).collect();
    // Bids: prices that are not higher come first; all of `a` is lower.
    let merged = Merger::merge_orders(false, &a, &b);
    assert_eq!(merged.len(), 10);
    assert!(merged.iter().all(|l| l.exchange == "a"));
    // Asks: higher prices first; all of `b` is higher, but only its first ten count.
    let merged = Merger::merge_orders(true, &a, &b);
    assert_eq!(merged.len(), 10);
    assert!(merged.iter().all(|l| l.exchange == "b"));
    assert_eq!(merged[9].price, 109 * 1_000_000_000_000_000_000);
}

#[test]
fn merged_price_texts_keep_the_best_ten_of_both_sides() {
    let a: Vec<OrderUpdate> = (0..12).map(|i| order(10.0 + 2.0 * i as f64, 1.0)).collect();
    let b: Vec<OrderUpdate> = (0..12).map(|i| order(11.0 + 2.0 * i as f64, 2.0)).collect();
    let asks = merge_orders(true, a.clone(), b.clone());
    assert_eq!(
        prices(&asks),
        vec!["10", "11", "12", "13", "14", "15", "16", "17", "18", "19"]
    );
    let mut ra = a.clone();
    let mut rb = b.clone();
    ra.reverse();
    rb.reverse();
    let bids = merge_orders(false, ra, rb);
    assert_eq!(
        prices(&bids),
        vec!["33", "32", "31", "30", "29", "28", "27", "26", "25", "24"]
    );
}
