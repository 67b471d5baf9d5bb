//! Per-order settlement pipeline.
//!
//! Each inbound order is inserted into the book, a matching pass is
//! run, and if nothing matched the liquidity pool is consulted as a
//! fallback, with the order's price used as the swap input (as the
//! matching model specifies). The caller that drives the pipeline
//! concurrently takes exclusive access to book and pool around each
//! step and may wait a grace period between the matching pass and
//! the pool fallback; the decisions themselves are synchronous and
//! live here.

use vstd::prelude::*;

verus! {

use crate::liquidity_pool::LiquidityPool;
use crate::order_book::{
    match_count,
    spec_insert,
    spec_remove,
    MatchReport,
    Order,
    OrderBook,
    OrderType,
};

/// How an order was settled: matched in the book, filled out of the
/// liquidity pool for the given amount, or left resting because the
/// swap could not be filled either.
#[derive(Clone, Copy, PartialEq, Eq, Structural, Debug)]
pub enum SettlementStatus {
    Matched(MatchReport),
    PoolFilled { received: u128 },
    Unfilled,
}

/// The settlement message delivered once per submitted order: the
/// status and the echoed order fields.
#[derive(Clone, Copy, PartialEq, Eq, Structural, Debug)]
pub struct SettlementReport {
    pub status: SettlementStatus,
    pub order_type: OrderType,
    pub price: u64,
    pub quantity: u64,
}

/// An order is accepted at intake only with a positive price and a
/// positive quantity.
pub open spec fn valid_order(o: Order) -> bool {
    o.price >= 1 && o.quantity >= 1
}

/// Intake validation: invalid orders are rejected before they reach
/// the book.
pub fn validate_order(order: &Order) -> (r: bool)
    ensures
        r == valid_order(*order),
{
    order.price >= 1 && order.quantity >= 1
}

/// The grace-period fallback: attempt the swap matching the order's
/// side, with the order's price as the amount paid in; on success
/// the order is taken out of its resting side, on rejection book and
/// pool are left exactly as they were.
pub fn pool_fallback(order: &Order, book: &mut OrderBook, pool: &mut LiquidityPool) -> (received:
    Option<u128>)
    requires
        old(book).wf(),
        old(pool).wf(),
    ensures
        final(book).wf(),
        final(pool).wf(),
        final(pool).k == old(pool).k,
        order.order_type == OrderType::Buy ==> {
            &&& (received is None <==> old(pool).rejects_a_for_b(order.price as int))
            &&& (received is Some ==> {
                &&& *final(pool) == old(pool).after_a_for_b(order.price as int)
                &&& received == Some(old(pool).out_b(order.price as int) as u128)
                &&& final(book).buy_orders@ == spec_remove(old(book).buy_orders@, *order)
                &&& final(book).sell_orders@ == old(book).sell_orders@
            })
        },
        order.order_type == OrderType::Sell ==> {
            &&& (received is None <==> old(pool).rejects_b_for_a(order.price as int))
            &&& (received is Some ==> {
                &&& *final(pool) == old(pool).after_b_for_a(order.price as int)
                &&& received == Some(old(pool).out_a(order.price as int) as u128)
                &&& final(book).sell_orders@ == spec_remove(old(book).sell_orders@, *order)
                &&& final(book).buy_orders@ == old(book).buy_orders@
            })
        },
        received is None ==> {
            &&& *final(pool) == *old(pool)
            &&& final(book).buy_orders@ == old(book).buy_orders@
            &&& final(book).sell_orders@ == old(book).sell_orders@
        },
    {
    match order.order_type {
        OrderType::Buy => {
            let received = pool.swap_a_for_b(order.price as i128);
            if received.is_some() {
                book.take(order);
            }
            received
        }
        OrderType::Sell => {
            let received = pool.swap_b_for_a(order.price as i128);
            if received.is_some() {
                book.take(order);
            }
            received
        }
    }
}

/// The settlement message for an order, from the outcome of its
/// matching pass and, when nothing matched, of its pool fallback.
pub fn settlement_report(
    order: &Order,
    matched: bool,
    match_report: MatchReport,
    pool_result: Option<u128>,
) -> (r: SettlementReport)
    ensures
        r.order_type == order.order_type,
        r.price == order.price,
        r.quantity == order.quantity,
        matched ==> r.status == SettlementStatus::Matched(match_report),
        !matched ==> r.status == (match pool_result {
            Some(received) => SettlementStatus::PoolFilled { received },
            None => SettlementStatus::Unfilled,
        }),
{
    let status = if matched {
        SettlementStatus::Matched(match_report)
    } else {
        match pool_result {
            Some(received) => SettlementStatus::PoolFilled { received },
            None => SettlementStatus::Unfilled,
        }
    };
    SettlementReport {
        status,
        order_type: order.order_type,
        price: order.price,
        quantity: order.quantity,
    }
}

/// The whole pipeline for one order, run synchronously: insert, one
/// matching pass, pool fallback when nothing matched, and the
/// settlement message. The concurrent driver performs the same steps
/// with exclusive access taken around each one and the grace-period
/// wait before the fallback.
pub fn process_order(order: Order, book: &mut OrderBook, pool: &mut LiquidityPool) -> (r:
    SettlementReport)
    requires
        old(book).wf(),
        old(pool).wf(),
    ensures
        final(book).wf(),
        final(pool).wf(),
        final(pool).k == old(pool).k,
        r.order_type == order.order_type,
        r.price == order.price,
        r.quantity == order.quantity,
        ({
            let bids = if order.order_type == OrderType::Buy {
                spec_insert(OrderType::Buy, old(book).buy_orders@, order)
            } else {
                old(book).buy_orders@
            };
            let asks = if order.order_type == OrderType::Sell {
                spec_insert(OrderType::Sell, old(book).sell_orders@, order)
            } else {
                old(book).sell_orders@
            };
            let n = match_count(bids, asks) as int;
            &&& (n > 0 ==> {
                &&& final(book).buy_orders@ == bids.skip(n)
                &&& final(book).sell_orders@ == asks.skip(n)
                &&& *final(pool) == *old(pool)
                &&& r.status == SettlementStatus::Matched(MatchReport::Matched {
                    buy_price: bids[n - 1].price,
                    buy_quantity: bids[n - 1].quantity,
                    sell_price: asks[n - 1].price,
                    sell_quantity: asks[n - 1].quantity,
                })
            })
            &&& (n == 0 && order.order_type == OrderType::Buy ==> {
                if old(pool).rejects_a_for_b(order.price as int) {
                    &&& final(book).buy_orders@ == bids
                    &&& final(book).sell_orders@ == asks
                    &&& *final(pool) == *old(pool)
                    &&& r.status == SettlementStatus::Unfilled
                } else {
                    &&& final(book).buy_orders@ == spec_remove(bids, order)
                    &&& final(book).sell_orders@ == asks
                    &&& *final(pool) == old(pool).after_a_for_b(order.price as int)
                    &&& r.status == (SettlementStatus::PoolFilled {
                        received: old(pool).out_b(order.price as int) as u128,
                    })
                }
            })
            &&& (n == 0 && order.order_type == OrderType::Sell ==> {
                if old(pool).rejects_b_for_a(order.price as int) {
                    &&& final(book).buy_orders@ == bids
                    &&& final(book).sell_orders@ == asks
                    &&& *final(pool) == *old(pool)
                    &&& r.status == SettlementStatus::Unfilled
                } else {
                    &&& final(book).sell_orders@ == spec_remove(asks, order)
                    &&& final(book).buy_orders@ == bids
                    &&& *final(pool) == old(pool).after_b_for_a(order.price as int)
                    &&& r.status == (SettlementStatus::PoolFilled {
                        received: old(pool).out_a(order.price as int) as u128,
                    })
                }
            })
        }),
{
    book.add_order(order);
    let (matched, match_report) = book.match_orders();
    proof {
        let bids = if order.order_type == OrderType::Buy {
            spec_insert(OrderType::Buy, old(book).buy_orders@, order)
        } else {
            old(book).buy_orders@
        };
        let asks = if order.order_type == OrderType::Sell {
            spec_insert(OrderType::Sell, old(book).sell_orders@, order)
        } else {
            old(book).sell_orders@
        };
        assert(bids.skip(0) =~= bids);
        assert(asks.skip(0) =~= asks);
    }
    let pool_result = if matched {
        None
    } else {
        pool_fallback(&order, book, pool)
    };
    settlement_report(&order, matched, match_report, pool_result)
}

} // verus!
