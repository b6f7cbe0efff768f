use std::cmp::Ordering;

use orderbook::{Order, OrderError, OrderType, Orderbook, Price, PriceLevel};

fn px(mantissa: i64, scale: u32) -> Price {
    Price::new(mantissa, scale).unwrap()
}

fn bid(size: u64) -> Order {
    Order::new(size, OrderType::Bid).unwrap()
}

fn ask(size: u64) -> Order {
    Order::new(size, OrderType::Ask).unwrap()
}

fn levels(side: &[PriceLevel]) -> Vec<(Price, u128)> {
    side.iter().map(|l| (l.price(), l.total_volume())).collect()
}

fn scenario_a() -> Orderbook {
    let mut book = Orderbook::new();
    book.add_limit_order(px(201, 1), bid(2));
    book.add_limit_order(px(30, 0), bid(4));
    book.add_limit_order(px(11, 0), bid(1));
    book.add_limit_order(px(11, 0), bid(3));
    book.add_limit_order(px(11, 0), bid(20));
    book.add_limit_order(px(10322, 3), ask(1));
    book.add_limit_order(px(10322, 3), ask(3));
    book.add_limit_order(px(11322, 3), ask(20));
    book
}

#[test]
fn scenario_a_sorted_views() {
    let book = scenario_a();
    assert_eq!(
        levels(book.sorted_bids()),
        vec![(px(30, 0), 4), (px(201, 1), 2), (px(11, 0), 24)]
    );
    assert_eq!(
        levels(book.sorted_asks()),
        vec![(px(10322, 3), 4), (px(11322, 3), 20)]
    );
}

#[test]
fn scenario_b_limit_order_rests_remainder() {
    let mut book = scenario_a();
    let mut order = ask(30);
    book.fill_limit_order(&mut order, px(11, 0));
    assert_eq!(order.size(), 6);
    assert_eq!(
        levels(book.sorted_asks()),
        vec![(px(10322, 3), 4), (px(11, 0), 6), (px(11322, 3), 20)]
    );
    // the emptied bid level stays in the book, holding only filled orders
    let bids = book.sorted_bids();
    assert_eq!(
        levels(bids),
        vec![(px(30, 0), 4), (px(201, 1), 2), (px(11, 0), 0)]
    );
    let emptied = &bids[2];
    assert_eq!(emptied.len(), 3);
    for i in 0..3 {
        assert!(emptied.order(i).is_filled());
    }
    assert!(bids.iter().filter(|l| l.total_volume() > 0).all(|l| l.price() != px(11, 0)));
}

#[test]
fn fifo_within_a_level() {
    let mut level = PriceLevel::new(px(11, 0));
    level.add_order(bid(1));
    level.add_order(bid(3));
    level.add_order(bid(20));
    let mut market = ask(24);
    level.fill_order(&mut market);
    assert!(market.is_filled());
    assert_eq!(market.size(), 0);
    for i in 0..3 {
        assert!(level.order(i).is_filled());
    }
    assert_eq!(level.total_volume(), 0);
}

#[test]
fn fifo_partial_fill_takes_from_the_front() {
    let mut level = PriceLevel::new(px(11, 0));
    level.add_order(bid(1));
    level.add_order(bid(3));
    level.add_order(bid(20));
    let mut market = ask(5);
    level.fill_order(&mut market);
    assert_eq!(market.size(), 0);
    assert_eq!(level.order(0).size(), 0);
    assert_eq!(level.order(1).size(), 0);
    assert_eq!(level.order(2).size(), 19);
    assert_eq!(level.total_volume(), 19);
}

#[test]
fn market_order_against_book_fifo_level() {
    let mut book = Orderbook::new();
    book.add_limit_order(px(11, 0), bid(1));
    book.add_limit_order(px(11, 0), bid(3));
    book.add_limit_order(px(11, 0), bid(20));
    let mut market = ask(24);
    book.fill_market_order(&mut market);
    assert_eq!(market.size(), 0);
    let bids = book.sorted_bids();
    assert_eq!(levels(bids), vec![(px(11, 0), 0)]);
    assert!(book.sorted_asks().is_empty());
}

#[test]
fn market_order_walks_best_price_first() {
    let mut book = scenario_a();
    let mut market = bid(6);
    book.fill_market_order(&mut market);
    assert_eq!(market.size(), 0);
    assert_eq!(
        levels(book.sorted_asks()),
        vec![(px(10322, 3), 0), (px(11322, 3), 18)]
    );
    // the bid side is left alone and nothing rests
    assert_eq!(levels(book.sorted_bids()).len(), 3);
}

#[test]
fn market_order_remainder_is_dropped() {
    let mut book = scenario_a();
    let mut market = ask(100);
    book.fill_market_order(&mut market);
    assert_eq!(market.size(), 100 - 30);
    assert_eq!(
        levels(book.sorted_bids()),
        vec![(px(30, 0), 0), (px(201, 1), 0), (px(11, 0), 0)]
    );
    assert_eq!(levels(book.sorted_asks()).len(), 2);
}

#[test]
fn market_order_on_empty_side() {
    let mut book = Orderbook::new();
    let mut market = bid(7);
    book.fill_market_order(&mut market);
    assert_eq!(market.size(), 7);
    assert!(book.sorted_asks().is_empty());
    assert!(book.sorted_bids().is_empty());
}

#[test]
fn limit_order_without_opposite_level_rests() {
    let mut book = scenario_a();
    let mut order = bid(5);
    book.fill_limit_order(&mut order, px(10, 0));
    assert_eq!(order.size(), 5);
    assert_eq!(
        levels(book.sorted_bids()),
        vec![(px(30, 0), 4), (px(201, 1), 2), (px(11, 0), 24), (px(10, 0), 5)]
    );
    // a better price than any ask that sits at no ask's exact price does not cross
    let mut crossing = bid(1);
    book.fill_limit_order(&mut crossing, px(12, 0));
    assert_eq!(crossing.size(), 1);
    assert_eq!(levels(book.sorted_asks()), vec![(px(10322, 3), 4), (px(11322, 3), 20)]);
    assert_eq!(levels(book.sorted_bids())[0], (px(30, 0), 4));
}

#[test]
fn limit_order_fully_filled_does_not_rest() {
    let mut book = scenario_a();
    let mut order = bid(4);
    book.fill_limit_order(&mut order, px(10322, 3));
    assert!(order.is_filled());
    assert_eq!(levels(book.sorted_asks()), vec![(px(10322, 3), 0), (px(11322, 3), 20)]);
    assert_eq!(
        levels(book.sorted_bids()),
        vec![(px(30, 0), 4), (px(201, 1), 2), (px(11, 0), 24)]
    );
}

#[test]
fn pairwise_fill_subtracts_the_smaller_quantity() {
    let mut resting = bid(7);
    let mut incoming = ask(3);
    resting.fill_order(&mut incoming);
    assert_eq!(resting.size(), 4);
    assert_eq!(incoming.size(), 0);
    assert!(incoming.is_filled());

    let mut small = bid(2);
    let mut large = ask(9);
    small.fill_order(&mut large);
    assert_eq!(small.size(), 0);
    assert_eq!(large.size(), 7);
}

#[test]
fn pairwise_fill_equal_quantities_fill_both() {
    let mut a = bid(5);
    let mut b = ask(5);
    a.fill_order(&mut b);
    assert!(a.is_filled());
    assert!(b.is_filled());
}

#[test]
fn resting_insertion_adds_to_depth() {
    let mut book = scenario_a();
    let before = levels(book.sorted_bids())[2].1;
    book.add_limit_order(px(11, 0), bid(9));
    assert_eq!(levels(book.sorted_bids())[2], (px(11, 0), before + 9));
    book.add_limit_order(px(5, 0), bid(9));
    assert_eq!(levels(book.sorted_bids())[3], (px(5, 0), 9));
}

#[test]
fn equal_values_share_a_level() {
    let mut book = Orderbook::new();
    book.add_limit_order(px(11, 0), ask(1));
    book.add_limit_order(px(1100, 2), ask(2));
    assert_eq!(levels(book.sorted_asks()), vec![(px(11, 0), 3)]);
}

#[test]
fn same_price_on_both_sides_is_independent() {
    let mut book = Orderbook::new();
    book.add_limit_order(px(11, 0), ask(1));
    book.add_limit_order(px(11, 0), bid(2));
    assert_eq!(levels(book.sorted_asks()), vec![(px(11, 0), 1)]);
    assert_eq!(levels(book.sorted_bids()), vec![(px(11, 0), 2)]);
}

#[test]
fn sorted_views_repeat() {
    let book = scenario_a();
    assert_eq!(levels(book.sorted_bids()), levels(book.sorted_bids()));
    assert_eq!(levels(book.sorted_asks()), levels(book.sorted_asks()));
}

#[test]
fn sorted_views_are_ordered() {
    let book = scenario_a();
    let asks = book.sorted_asks();
    for w in asks.windows(2) {
        assert!(w[0].price().units() < w[1].price().units());
    }
    let bids = book.sorted_bids();
    for w in bids.windows(2) {
        assert!(w[0].price().units() > w[1].price().units());
    }
}

#[test]
fn zero_quantity_is_refused() {
    assert_eq!(Order::new(0, OrderType::Bid).unwrap_err(), OrderError::InvalidQuantity);
}

#[test]
fn order_fields_are_kept() {
    let o = Order::new(12, OrderType::Ask).unwrap();
    assert_eq!(o.size(), 12);
    assert_eq!(o.side(), OrderType::Ask);
    assert!(!o.is_filled());
}

#[test]
fn order_ids_are_fresh_and_url_safe() {
    let a = bid(1);
    let b = bid(1);
    assert_eq!(a.id().chars().count(), 32);
    assert!(a
        .id()
        .chars()
        .all(|c| c == '_' || c == '-' || c.is_ascii_alphanumeric()));
    assert_ne!(a.id(), b.id());
}

#[test]
fn price_scaling() {
    assert_eq!(px(201, 1).units(), 20_100_000_000_000_000_000);
    assert_eq!(px(30, 0).units(), 30_000_000_000_000_000_000);
    assert_eq!(px(-5, 18).units(), -5);
    assert_eq!(px(i64::MAX, 0).units(), i64::MAX as i128 * 1_000_000_000_000_000_000);
    assert_eq!(px(i64::MIN, 0).units(), i64::MIN as i128 * 1_000_000_000_000_000_000);
    assert_eq!(px(10322, 3), px(103220, 4));
    assert!(px(10322, 3).is_below(&px(11, 0)));
    assert!(px(11, 0).is_above(&px(10322, 3)));
}

#[test]
fn price_scale_too_large() {
    assert_eq!(Price::new(1, 19).unwrap_err(), OrderError::UnsupportedScale);
    assert!(Price::new(1, 18).is_ok());
}

#[test]
fn level_compare_by_price() {
    let a = PriceLevel::new(px(10, 0));
    let mut b = PriceLevel::new(px(11, 0));
    b.add_order(bid(3));
    let c = PriceLevel::new(px(1100, 2));
    assert_eq!(a.cmp(&b), Ordering::Less);
    assert_eq!(b.cmp(&a), Ordering::Greater);
    assert_eq!(b.cmp(&c), Ordering::Equal);
}

#[test]
fn level_volume_counts_all_orders() {
    let mut level = PriceLevel::new(px(1, 0));
    assert_eq!(level.total_volume(), 0);
    level.add_order(bid(u64::MAX));
    level.add_order(bid(u64::MAX));
    assert_eq!(level.total_volume(), 2 * u64::MAX as u128);
    assert_eq!(level.len(), 2);
}
