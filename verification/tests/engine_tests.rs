use dex_engine::engine::DEXEngine;
use dex_engine::engine::EngineError;
use dex_engine::order::OrderSide;
use dex_engine::order::OrderStatus;
use dex_engine::order::OrderType;
use dex_engine::order::Order;
use dex_engine::order::TimeInForce;

fn engine_with_symbol() -> DEXEngine {
    let mut dex = DEXEngine::new();
    dex.add_symbol("ETH/USDC".to_string());
    dex
}

#[test]
fn test_place_limit_order() {
    let mut dex = engine_with_symbol();

    dex.deposit("trader1", "USDC", 10000);

    let result = dex.place_order(
        "trader1".to_string(),
        "ETH/USDC".to_string(),
        OrderSide::Buy,
        OrderType::Limit,
        1,
        Some(2000),
        None,
        TimeInForce::GTC,
        None,
    );

    assert!(result.is_ok());
}

#[test]
fn test_market_order_matching() {
    let mut dex = engine_with_symbol();

    dex.deposit("seller1", "ETH", 1);
    dex.place_order(
        "seller1".to_string(),
        "ETH/USDC".to_string(),
        OrderSide::Sell,
        OrderType::Limit,
        1,
        Some(2000),
        None,
        TimeInForce::GTC,
        None,
    )
    .unwrap();

    dex.deposit("buyer1", "USDC", 2000);
    dex.place_order(
        "buyer1".to_string(),
        "ETH/USDC".to_string(),
        OrderSide::Buy,
        OrderType::Market,
        1,
        None,
        None,
        TimeInForce::GTC,
        None,
    )
    .unwrap();

    assert_eq!(dex.get_market_stats().total_trades, 1);
    assert_eq!(dex.get_user_balance("buyer1", "ETH"), 1);
    assert_eq!(dex.get_user_balance("seller1", "USDC"), 2000);
}

#[test]
fn test_cancel_order() {
    let mut dex = engine_with_symbol();

    dex.deposit("trader1", "USDC", 10000);

    let order_id = dex
        .place_order(
            "trader1".to_string(),
            "ETH/USDC".to_string(),
            OrderSide::Buy,
            OrderType::Limit,
            1,
            Some(2000),
            None,
            TimeInForce::GTC,
            None,
        )
        .unwrap();

    let result = dex.cancel_order(order_id, "trader1");
    assert!(result.is_ok());

    let order = dex.get_order(order_id).unwrap();
    assert_eq!(order.status, OrderStatus::Cancelled);
}

#[test]
fn scenario_market_buy_fills_resting_sell() {
    let mut dex = engine_with_symbol();

    dex.deposit("seller", "ETH", 1);
    let sell_id = dex
        .place_order(
            "seller".to_string(),
            "ETH/USDC".to_string(),
            OrderSide::Sell,
            OrderType::Limit,
            1,
            Some(2000),
            None,
            TimeInForce::GTC,
            None,
        )
        .unwrap();

    dex.deposit("buyer", "USDC", 2000);
    let buy_id = dex
        .place_order(
            "buyer".to_string(),
            "ETH/USDC".to_string(),
            OrderSide::Buy,
            OrderType::Market,
            1,
            None,
            None,
            TimeInForce::GTC,
            None,
        )
        .unwrap();

    let trades = dex.get_recent_trades("ETH/USDC", 10);
    assert_eq!(trades.len(), 1);
    assert_eq!(trades[0].price, 2000);
    assert_eq!(trades[0].quantity, 1);
    assert_eq!(trades[0].buy_order_id, buy_id);
    assert_eq!(trades[0].sell_order_id, sell_id);

    assert_eq!(dex.get_user_balance("buyer", "ETH"), 1);
    assert_eq!(dex.get_user_balance("buyer", "USDC"), 0);
    assert_eq!(dex.get_user_balance("seller", "USDC"), 2000);
    assert_eq!(dex.get_user_balance("seller", "ETH"), 0);

    assert_eq!(dex.get_order(buy_id).unwrap().status, OrderStatus::Filled);
    assert_eq!(dex.get_order(sell_id).unwrap().status, OrderStatus::Filled);
}

#[test]
fn scenario_limit_buy_rests_in_book() {
    let mut dex = engine_with_symbol();

    dex.deposit("buyer", "USDC", 2000);
    let id = dex
        .place_order(
            "buyer".to_string(),
            "ETH/USDC".to_string(),
            OrderSide::Buy,
            OrderType::Limit,
            1,
            Some(2000),
            None,
            TimeInForce::GTC,
            None,
        )
        .unwrap();

    assert_eq!(dex.get_order(id).unwrap().status, OrderStatus::Pending);

    let book = dex.get_order_book("ETH/USDC").unwrap();
    let bids = book.get_bid_levels(5);
    assert_eq!(bids.len(), 1);
    assert_eq!(bids[0].price, 2000);
    assert_eq!(bids[0].quantity, 1);
    assert_eq!(bids[0].order_count, 1);
    assert_eq!(book.get_ask_levels(5).len(), 0);
}

#[test]
fn scenario_cancel_then_cancel_again() {
    let mut dex = engine_with_symbol();

    dex.deposit("trader", "USDC", 5000);
    let id = dex
        .place_order(
            "trader".to_string(),
            "ETH/USDC".to_string(),
            OrderSide::Buy,
            OrderType::Limit,
            2,
            Some(1500),
            None,
            TimeInForce::GTC,
            None,
        )
        .unwrap();

    dex.cancel_order(id, "trader").unwrap();
    assert_eq!(dex.get_order(id).unwrap().status, OrderStatus::Cancelled);

    let book = dex.get_order_book("ETH/USDC").unwrap();
    assert_eq!(book.get_bid_levels(5).len(), 0);

    let second = dex.cancel_order(id, "trader");
    assert_eq!(second, Err(EngineError::OrderNotCancellable));
}

#[test]
fn scenario_cancel_other_traders_order() {
    let mut dex = engine_with_symbol();

    dex.deposit("trader_b", "USDC", 5000);
    let id = dex
        .place_order(
            "trader_b".to_string(),
            "ETH/USDC".to_string(),
            OrderSide::Buy,
            OrderType::Limit,
            1,
            Some(1000),
            None,
            TimeInForce::GTC,
            None,
        )
        .unwrap();

    let result = dex.cancel_order(id, "trader_a");
    assert_eq!(result, Err(EngineError::Unauthorized));

    let order = dex.get_order(id).unwrap();
    assert_eq!(order.status, OrderStatus::Pending);
    let book = dex.get_order_book("ETH/USDC").unwrap();
    assert_eq!(book.get_bid_levels(5).len(), 1);
}

#[test]
fn scenario_market_buy_partial_against_thin_book() {
    let mut dex = engine_with_symbol();

    dex.deposit("seller", "ETH", 3);
    dex.place_order(
        "seller".to_string(),
        "ETH/USDC".to_string(),
        OrderSide::Sell,
        OrderType::Limit,
        2,
        Some(2000),
        None,
        TimeInForce::GTC,
        None,
    )
    .unwrap();
    dex.place_order(
        "seller".to_string(),
        "ETH/USDC".to_string(),
        OrderSide::Sell,
        OrderType::Limit,
        1,
        Some(2100),
        None,
        TimeInForce::GTC,
        None,
    )
    .unwrap();

    dex.deposit("buyer", "USDC", 100000);
    let id = dex
        .place_order(
            "buyer".to_string(),
            "ETH/USDC".to_string(),
            OrderSide::Buy,
            OrderType::Market,
            5,
            None,
            None,
            TimeInForce::GTC,
            None,
        )
        .unwrap();

    let order = dex.get_order(id).unwrap();
    assert_eq!(order.filled_quantity, 3);
    assert_eq!(order.remaining_quantity, 2);
    assert_eq!(order.status, OrderStatus::Partial);
    assert_eq!(dex.get_user_balance("buyer", "ETH"), 3);
    // 2 at 2000 plus 1 at 2100
    assert_eq!(dex.get_user_balance("seller", "USDC"), 6100);

    let book = dex.get_order_book("ETH/USDC").unwrap();
    assert_eq!(book.get_ask_levels(5).len(), 0);
    assert_eq!(book.get_bid_levels(5).len(), 0);
}

#[test]
fn crossing_limit_orders_trade_at_resting_price() {
    let mut dex = engine_with_symbol();

    dex.deposit("seller", "ETH", 1);
    dex.place_order(
        "seller".to_string(),
        "ETH/USDC".to_string(),
        OrderSide::Sell,
        OrderType::Limit,
        1,
        Some(2000),
        None,
        TimeInForce::GTC,
        None,
    )
    .unwrap();

    dex.deposit("buyer", "USDC", 2100);
    let buy_id = dex
        .place_order(
            "buyer".to_string(),
            "ETH/USDC".to_string(),
            OrderSide::Buy,
            OrderType::Limit,
            1,
            Some(2100),
            None,
            TimeInForce::GTC,
            None,
        )
        .unwrap();

    let trades = dex.get_recent_trades("ETH/USDC", 10);
    assert_eq!(trades.len(), 1);
    assert_eq!(trades[0].price, 2000);
    assert_eq!(dex.get_order(buy_id).unwrap().status, OrderStatus::Filled);

    let book = dex.get_order_book("ETH/USDC").unwrap();
    assert_eq!(book.get_bid_levels(5).len(), 0);
    assert_eq!(book.get_ask_levels(5).len(), 0);
}

#[test]
fn fifo_within_price_level() {
    let mut dex = engine_with_symbol();

    dex.deposit("first_seller", "ETH", 1);
    let first = dex
        .place_order(
            "first_seller".to_string(),
            "ETH/USDC".to_string(),
            OrderSide::Sell,
            OrderType::Limit,
            1,
            Some(2000),
            None,
            TimeInForce::GTC,
            None,
        )
        .unwrap();
    dex.deposit("second_seller", "ETH", 1);
    let second = dex
        .place_order(
            "second_seller".to_string(),
            "ETH/USDC".to_string(),
            OrderSide::Sell,
            OrderType::Limit,
            1,
            Some(2000),
            None,
            TimeInForce::GTC,
            None,
        )
        .unwrap();

    dex.deposit("buyer", "USDC", 2000);
    dex.place_order(
        "buyer".to_string(),
        "ETH/USDC".to_string(),
        OrderSide::Buy,
        OrderType::Market,
        1,
        None,
        None,
        TimeInForce::GTC,
        None,
    )
    .unwrap();

    // the older order at the level fills first
    assert_eq!(dex.get_order(first).unwrap().status, OrderStatus::Filled);
    assert_eq!(dex.get_order(second).unwrap().status, OrderStatus::Pending);
    let trades = dex.get_recent_trades("ETH/USDC", 10);
    assert_eq!(trades.len(), 1);
    assert_eq!(trades[0].sell_order_id, first);
}

#[test]
fn place_order_error_cases() {
    let mut dex = engine_with_symbol();

    let unknown = dex.place_order(
        "trader".to_string(),
        "BTC/USDC".to_string(),
        OrderSide::Buy,
        OrderType::Limit,
        1,
        Some(100),
        None,
        TimeInForce::GTC,
        None,
    );
    assert_eq!(unknown, Err(EngineError::SymbolNotSupported));

    let no_price = dex.place_order(
        "trader".to_string(),
        "ETH/USDC".to_string(),
        OrderSide::Buy,
        OrderType::Limit,
        1,
        None,
        None,
        TimeInForce::GTC,
        None,
    );
    assert_eq!(no_price, Err(EngineError::InvalidOrderParameters));

    let zero_stop = dex.place_order(
        "trader".to_string(),
        "ETH/USDC".to_string(),
        OrderSide::Buy,
        OrderType::Stop,
        1,
        None,
        Some(0),
        TimeInForce::GTC,
        None,
    );
    assert_eq!(zero_stop, Err(EngineError::InvalidOrderParameters));

    let unfunded_sell = dex.place_order(
        "trader".to_string(),
        "ETH/USDC".to_string(),
        OrderSide::Sell,
        OrderType::Limit,
        1,
        Some(2000),
        None,
        TimeInForce::GTC,
        None,
    );
    assert_eq!(unfunded_sell, Err(EngineError::InsufficientBalance));

    let not_found = dex.cancel_order(99, "trader");
    assert_eq!(not_found, Err(EngineError::OrderNotFound));
}

#[test]
fn deposit_withdraw_and_balances() {
    let mut dex = DEXEngine::new();

    assert_eq!(dex.get_user_balance("alice", "ETH"), 0);
    dex.deposit("alice", "ETH", 7);
    assert_eq!(dex.get_user_balance("alice", "ETH"), 7);
    assert_eq!(dex.get_user_balance("alice", "USDC"), 0);
    assert_eq!(dex.get_user_balance("bob", "ETH"), 0);

    assert_eq!(dex.withdraw("alice", "ETH", 8), Err(EngineError::InsufficientBalance));
    assert_eq!(dex.get_user_balance("alice", "ETH"), 7);

    dex.withdraw("alice", "ETH", 3).unwrap();
    assert_eq!(dex.get_user_balance("alice", "ETH"), 4);

    dex.update_balance("alice", "ETH", 100);
    assert_eq!(dex.get_user_balance("alice", "ETH"), 100);
}

#[test]
fn ticker_reports_trades_and_book() {
    let mut dex = engine_with_symbol();

    assert!(dex.get_ticker("ETH/USDC").is_none());

    dex.deposit("seller", "ETH", 3);
    dex.place_order(
        "seller".to_string(),
        "ETH/USDC".to_string(),
        OrderSide::Sell,
        OrderType::Limit,
        1,
        Some(2000),
        None,
        TimeInForce::GTC,
        None,
    )
    .unwrap();
    dex.deposit("buyer", "USDC", 10000);
    dex.place_order(
        "buyer".to_string(),
        "ETH/USDC".to_string(),
        OrderSide::Buy,
        OrderType::Market,
        1,
        None,
        None,
        TimeInForce::GTC,
        None,
    )
    .unwrap();
    dex.place_order(
        "seller".to_string(),
        "ETH/USDC".to_string(),
        OrderSide::Sell,
        OrderType::Limit,
        1,
        Some(2200),
        None,
        TimeInForce::GTC,
        None,
    )
    .unwrap();
    dex.place_order(
        "buyer".to_string(),
        "ETH/USDC".to_string(),
        OrderSide::Buy,
        OrderType::Market,
        1,
        None,
        None,
        TimeInForce::GTC,
        None,
    )
    .unwrap();

    let ticker = dex.get_ticker("ETH/USDC").unwrap();
    assert_eq!(ticker.last_price, 2200);
    assert_eq!(ticker.high, 2200);
    assert_eq!(ticker.low, 2000);
    assert_eq!(ticker.volume, 2);
    assert_eq!(ticker.bid, 0);
    assert_eq!(ticker.ask, 0);
}

#[test]
fn recent_trades_newest_first() {
    let mut dex = engine_with_symbol();

    dex.deposit("seller", "ETH", 2);
    dex.deposit("buyer", "USDC", 10000);
    for price in [2000u64, 2100u64] {
        dex.place_order(
            "seller".to_string(),
            "ETH/USDC".to_string(),
            OrderSide::Sell,
            OrderType::Limit,
            1,
            Some(price),
            None,
            TimeInForce::GTC,
            None,
        )
        .unwrap();
        dex.place_order(
            "buyer".to_string(),
            "ETH/USDC".to_string(),
            OrderSide::Buy,
            OrderType::Market,
            1,
            None,
            None,
            TimeInForce::GTC,
            None,
        )
        .unwrap();
    }

    let trades = dex.get_recent_trades("ETH/USDC", 10);
    assert_eq!(trades.len(), 2);
    assert_eq!(trades[0].price, 2100);
    assert_eq!(trades[1].price, 2000);

    let only_one = dex.get_recent_trades("ETH/USDC", 1);
    assert_eq!(only_one.len(), 1);
    assert_eq!(only_one[0].price, 2100);
}

#[test]
fn market_stats_counts() {
    let mut dex = engine_with_symbol();
    dex.add_symbol("BTC/USDC".to_string());

    dex.deposit("alice", "USDC", 1000);
    dex.deposit("bob", "USDC", 1000);
    dex.place_order(
        "alice".to_string(),
        "ETH/USDC".to_string(),
        OrderSide::Buy,
        OrderType::Limit,
        1,
        Some(500),
        None,
        TimeInForce::GTC,
        None,
    )
    .unwrap();

    let stats = dex.get_market_stats();
    assert_eq!(stats.total_symbols, 2);
    assert_eq!(stats.total_orders, 1);
    assert_eq!(stats.total_trades, 0);
    assert_eq!(stats.total_users, 2);
}

#[test]
fn user_orders_and_expiry() {
    let mut dex = engine_with_symbol();

    dex.deposit("trader", "USDC", 10000);
    let expiring = dex
        .place_order(
            "trader".to_string(),
            "ETH/USDC".to_string(),
            OrderSide::Buy,
            OrderType::Limit,
            1,
            Some(1000),
            None,
            TimeInForce::GTD,
            Some(1),
        )
        .unwrap();
    let lasting = dex
        .place_order(
            "trader".to_string(),
            "ETH/USDC".to_string(),
            OrderSide::Buy,
            OrderType::Limit,
            1,
            Some(900),
            None,
            TimeInForce::GTC,
            None,
        )
        .unwrap();

    assert_eq!(dex.get_user_orders("trader").len(), 2);
    assert_eq!(dex.get_user_orders("nobody").len(), 0);

    dex.process_pending_orders();
    assert_eq!(dex.get_order(expiring).unwrap().status, OrderStatus::Expired);
    assert_eq!(dex.get_order(lasting).unwrap().status, OrderStatus::Pending);

    let book = dex.get_order_book("ETH/USDC").unwrap();
    let bids = book.get_bid_levels(5);
    assert_eq!(bids.len(), 1);
    assert_eq!(bids[0].price, 900);
}

#[test]
fn book_spread_and_depth() {
    let mut dex = engine_with_symbol();

    dex.deposit("seller", "ETH", 5);
    dex.deposit("buyer", "USDC", 100000);
    dex.place_order(
        "seller".to_string(),
        "ETH/USDC".to_string(),
        OrderSide::Sell,
        OrderType::Limit,
        2,
        Some(2100),
        None,
        TimeInForce::GTC,
        None,
    )
    .unwrap();
    dex.place_order(
        "seller".to_string(),
        "ETH/USDC".to_string(),
        OrderSide::Sell,
        OrderType::Limit,
        3,
        Some(2200),
        None,
        TimeInForce::GTC,
        None,
    )
    .unwrap();
    dex.place_order(
        "buyer".to_string(),
        "ETH/USDC".to_string(),
        OrderSide::Buy,
        OrderType::Limit,
        1,
        Some(2000),
        None,
        TimeInForce::GTC,
        None,
    )
    .unwrap();

    let book = dex.get_order_book("ETH/USDC").unwrap();
    assert_eq!(book.get_best_bid(), Some(2000));
    assert_eq!(book.get_best_ask(), Some(2100));
    assert_eq!(book.get_spread(), Some(100));

    let (bids, asks) = book.get_market_depth(5);
    assert_eq!(bids.len(), 1);
    assert_eq!(asks.len(), 2);
    assert_eq!(asks[0].price, 2100);
    assert_eq!(asks[0].quantity, 2);
    assert_eq!(asks[1].price, 2200);
    assert_eq!(asks[1].quantity, 3);
}

#[test]
fn symbol_currencies() {
    assert_eq!(dex_engine::symbol::base_currency("ETH/USDC"), "ETH");
    assert_eq!(dex_engine::symbol::quote_currency("ETH/USDC"), "USDC");
    assert_eq!(dex_engine::symbol::base_currency("SOLO"), "SOLO");
    assert_eq!(dex_engine::symbol::quote_currency("SOLO"), "QUOTE");
    assert_eq!(dex_engine::symbol::quote_currency("A/B/C"), "B");
}

#[test]
fn order_lifecycle_conserves_quantity() {
    let mut order = Order::new(
        1,
        "trader".to_string(),
        "ETH/USDC".to_string(),
        OrderSide::Buy,
        OrderType::Limit,
        10,
        Some(100),
        None,
        TimeInForce::GTC,
        None,
    );
    assert_eq!(order.filled_quantity + order.remaining_quantity, order.quantity);
    assert_eq!(order.status, OrderStatus::Pending);

    order.update_filled(4);
    assert_eq!(order.filled_quantity, 4);
    assert_eq!(order.remaining_quantity, 6);
    assert_eq!(order.status, OrderStatus::Partial);
    assert_eq!(order.filled_quantity + order.remaining_quantity, order.quantity);

    order.update_filled(6);
    assert_eq!(order.status, OrderStatus::Filled);
    assert_eq!(order.filled_quantity + order.remaining_quantity, order.quantity);
}

#[test]
fn stop_order_rests_without_matching() {
    let mut dex = engine_with_symbol();

    dex.deposit("seller", "ETH", 1);
    let id = dex
        .place_order(
            "seller".to_string(),
            "ETH/USDC".to_string(),
            OrderSide::Sell,
            OrderType::StopLimit,
            1,
            Some(1800),
            Some(1900),
            TimeInForce::GTC,
            None,
        )
        .unwrap();

    assert_eq!(dex.get_order(id).unwrap().status, OrderStatus::Pending);
    let book = dex.get_order_book("ETH/USDC").unwrap();
    let asks = book.get_ask_levels(5);
    assert_eq!(asks.len(), 1);
    assert_eq!(asks[0].price, 1800);
    assert_eq!(dex.get_market_stats().total_trades, 0);
}

#[test]
fn periodic_matching_step_on_settled_book() {
    let mut dex = engine_with_symbol();

    dex.deposit("buyer", "USDC", 2000);
    dex.place_order(
        "buyer".to_string(),
        "ETH/USDC".to_string(),
        OrderSide::Buy,
        OrderType::Limit,
        1,
        Some(2000),
        None,
        TimeInForce::GTC,
        None,
    )
    .unwrap();

    assert!(dex.process_limit_order_matching("ETH/USDC").is_ok());
    assert_eq!(
        dex.process_limit_order_matching("BTC/USDC"),
        Err(EngineError::SymbolNotSupported)
    );
    let book = dex.get_order_book("ETH/USDC").unwrap();
    assert_eq!(book.get_bid_levels(5).len(), 1);
}

#[test]
fn deposit_saturates_at_maximum() {
    let mut dex = DEXEngine::new();

    dex.deposit("whale", "ETH", u128::MAX);
    assert_eq!(dex.get_user_balance("whale", "ETH"), u128::MAX);
    dex.deposit("whale", "ETH", 5);
    assert_eq!(dex.get_user_balance("whale", "ETH"), u128::MAX);
}
