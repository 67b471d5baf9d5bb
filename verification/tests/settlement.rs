use dexter::liquidity_pool::LiquidityPool;
use dexter::order_book::{MatchReport, Order, OrderBook, OrderType};
use dexter::process_order::{
    pool_fallback, process_order, settlement_report, validate_order, SettlementStatus,
};

fn buy(id: u128, price: u64, quantity: u64) -> Order {
    Order { id, order_type: OrderType::Buy, price, quantity }
}

fn sell(id: u128, price: u64, quantity: u64) -> Order {
    Order { id, order_type: OrderType::Sell, price, quantity }
}

#[test]
fn end_to_end_immediate_match_without_pool() {
    let mut book = OrderBook::new();
    let mut pool = LiquidityPool::new(1000, 1000);
    // The sell arrives first and rests.
    book.add_order(sell(1, 100, 1));
    let (matched, _) = book.match_orders();
    assert!(!matched);
    // The crossing buy arrives: immediate match, no pool involvement.
    let report = process_order(buy(2, 100, 1), &mut book, &mut pool);
    assert_eq!(
        report.status,
        SettlementStatus::Matched(MatchReport::Matched {
            buy_price: 100,
            buy_quantity: 1,
            sell_price: 100,
            sell_quantity: 1,
        })
    );
    assert!(book.buy_orders.is_empty());
    assert!(book.sell_orders.is_empty());
    assert_eq!((pool.reserve_a, pool.reserve_b), (1000, 1000));
}

#[test]
fn end_to_end_pool_fill_updates_reserves_and_book() {
    let mut book = OrderBook::new();
    let mut pool = LiquidityPool::new(1000, 1000);
    let report = process_order(buy(1, 50, 2), &mut book, &mut pool);
    assert_eq!(report.status, SettlementStatus::PoolFilled { received: 48 });
    assert_eq!(report.order_type, OrderType::Buy);
    assert_eq!(report.price, 50);
    assert_eq!(report.quantity, 2);
    // The reserves moved along the k = 1,000,000 curve, within
    // integer rounding tolerance.
    assert_eq!((pool.reserve_a, pool.reserve_b), (1050, 952));
    let product = pool.reserve_a * pool.reserve_b;
    assert!(product <= 1_000_000);
    assert!(1_000_000 - product < pool.reserve_a + pool.reserve_b);
    // The filled order was taken out of the book.
    assert!(book.buy_orders.is_empty());
    assert!(book.sell_orders.is_empty());
}

#[test]
fn end_to_end_unfilled_order_keeps_resting() {
    let mut book = OrderBook::new();
    // A pool too shallow to pay anything out for a buy at price 10.
    let mut pool = LiquidityPool::new(1, 5);
    let report = process_order(buy(7, 10, 1), &mut book, &mut pool);
    assert_eq!(report.status, SettlementStatus::Unfilled);
    assert_eq!(book.buy_orders.len(), 1);
    assert_eq!(book.buy_orders[0].id, 7);
    assert_eq!((pool.reserve_a, pool.reserve_b), (1, 5));
}

#[test]
fn pool_fallback_for_sell_swaps_b_for_a() {
    let mut book = OrderBook::new();
    let mut pool = LiquidityPool::new(1000, 1000);
    let order = sell(3, 100, 1);
    book.add_order(order);
    let received = pool_fallback(&order, &mut book, &mut pool);
    // k / (1000 + 100) = 909, paying out 1000 - 909 = 91 of token A.
    assert_eq!(received, Some(91));
    assert_eq!((pool.reserve_a, pool.reserve_b), (909, 1100));
    assert!(book.sell_orders.is_empty());
}

#[test]
fn pool_fallback_rejection_leaves_everything_unchanged() {
    let mut book = OrderBook::new();
    let mut pool = LiquidityPool::new(1000, 1000);
    let order = buy(4, 0, 1);
    book.add_order(order);
    let received = pool_fallback(&order, &mut book, &mut pool);
    assert_eq!(received, None);
    assert_eq!((pool.reserve_a, pool.reserve_b), (1000, 1000));
    assert_eq!(book.buy_orders.len(), 1);
}

#[test]
fn validation_rejects_nonpositive_price_or_quantity() {
    assert!(!validate_order(&buy(1, 0, 5)));
    assert!(!validate_order(&sell(2, 5, 0)));
    assert!(validate_order(&buy(3, 5, 5)));
}

#[test]
fn settlement_report_echoes_order_and_maps_outcomes() {
    let order = sell(9, 70, 3);
    let matched_report = settlement_report(
        &order,
        true,
        MatchReport::Matched { buy_price: 80, buy_quantity: 1, sell_price: 70, sell_quantity: 3 },
        None,
    );
    assert_eq!(
        matched_report.status,
        SettlementStatus::Matched(MatchReport::Matched {
            buy_price: 80,
            buy_quantity: 1,
            sell_price: 70,
            sell_quantity: 3,
        })
    );
    assert_eq!(matched_report.order_type, OrderType::Sell);
    assert_eq!(matched_report.price, 70);
    assert_eq!(matched_report.quantity, 3);

    let filled = settlement_report(&order, false, MatchReport::NoMatch, Some(12));
    assert_eq!(filled.status, SettlementStatus::PoolFilled { received: 12 });

    let resting = settlement_report(&order, false, MatchReport::NoMatch, None);
    assert_eq!(resting.status, SettlementStatus::Unfilled);
}

#[test]
fn concurrent_style_submissions_lose_no_order() {
    // Orders submitted in any interleaving settle through the same
    // pipeline; every order ends matched, pool-filled or resting.
    let mut book = OrderBook::new();
    // A pool with no depth: its swaps reject, so unmatched orders
    // keep resting and can match later arrivals.
    let mut pool = LiquidityPool::new(1, 1);
    let orders = vec![
        buy(1, 100, 1),
        sell(2, 95, 1),
        buy(3, 90, 1),
        sell(4, 85, 1),
        buy(5, 80, 1),
        sell(6, 120, 1),
    ];
    let mut matched_pairs: usize = 0;
    let mut pool_filled: usize = 0;
    for order in orders {
        let report = process_order(order, &mut book, &mut pool);
        match report.status {
            SettlementStatus::Matched(_) => matched_pairs += 1,
            SettlementStatus::PoolFilled { .. } => pool_filled += 1,
            SettlementStatus::Unfilled => {}
        }
    }
    let resting: usize = book.buy_orders.len() + book.sell_orders.len();
    // Each match consumed the arriving order and one resting order.
    assert_eq!(2 * matched_pairs + pool_filled + resting, 6);
    assert!(matched_pairs > 0);
}
